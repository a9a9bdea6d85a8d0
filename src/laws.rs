use vstd::prelude::*;
use crate::btree::BTree;
use crate::node::{Node, inorder, shape, sorted};

verus! {

/// Every node under `n` holds at most `2t - 1` keys, and every node but `n`
/// itself (when `n` is the root) at least `t - 1`.
pub open spec fn fanout_ok(n: Node, t: nat, is_root: bool) -> bool
    decreases n,
{
    &&& n.keys.len() <= 2 * t - 1
    &&& !is_root ==> n.keys.len() >= t - 1
    &&& forall|i: int| 0 <= i < n.children.len() ==> fanout_ok(#[trigger] n.children@[i], t, false)
}

/// Every internal node under `n` has one child more than keys, and every leaf none.
pub open spec fn child_counts_ok(n: Node) -> bool
    decreases n,
{
    &&& n.leaf ==> n.children.len() == 0
    &&& !n.leaf ==> n.children.len() == n.keys.len() + 1
    &&& forall|i: int| 0 <= i < n.children.len() ==> child_counts_ok(#[trigger] n.children@[i])
}

/// Every leaf under `n` lies `d` levels below it.
pub open spec fn leaves_at(n: Node, d: nat) -> bool
    decreases n,
{
    if n.children.len() == 0 {
        d == 0
    } else {
        d > 0 && forall|i: int|
            0 <= i < n.children.len() ==> leaves_at(#[trigger] n.children@[i], (d - 1) as nat)
    }
}

/// The keys held after inserting `ks`, in order, into a tree that held `s`.
pub open spec fn insert_all(s: Set<usize>, ks: Seq<usize>) -> Set<usize>
    decreases ks.len(),
{
    if ks.len() == 0 {
        s
    } else {
        insert_all(s, ks.drop_last()).insert(ks.last())
    }
}

/// The keys held after deleting `ks`, in order, from a tree that held `s`.
pub open spec fn delete_all(s: Set<usize>, ks: Seq<usize>) -> Set<usize>
    decreases ks.len(),
{
    if ks.len() == 0 {
        s
    } else {
        delete_all(s, ks.drop_last()).remove(ks.last())
    }
}

/// The shape predicate gives each invariant on its own.
proof fn lemma_shape_invariants(n: Node, t: nat, h: nat, is_root: bool)
    requires
        shape(n, t, h),
        !is_root ==> n.keys.len() >= t - 1,
    ensures
        fanout_ok(n, t, is_root),
        child_counts_ok(n),
        leaves_at(n, h),
    decreases h,
{
    if h > 0 {
        assert forall|i: int| 0 <= i < n.children.len() implies fanout_ok(
            #[trigger] n.children@[i],
            t,
            false,
        ) && child_counts_ok(n.children@[i]) && leaves_at(n.children@[i], (h - 1) as nat) by {
            lemma_shape_invariants(n.children@[i], t, (h - 1) as nat, false);
        }
    }
}

/// A well-formed tree, which every public operation leaves behind: its in-order
/// walk of keys strictly increases; every node but the root holds `t - 1` to
/// `2t - 1` keys, and the root at most `2t - 1`; every internal node has one
/// child more than keys and every leaf none; all leaves lie at the same depth.
pub proof fn lemma_tree_invariants(tree: BTree)
    requires
        tree.wf(),
    ensures
        sorted(inorder(tree.root_node())),
        fanout_ok(tree.root_node(), tree.min_degree(), true),
        child_counts_ok(tree.root_node()),
        leaves_at(tree.root_node(), tree.depth()),
{
    lemma_shape_invariants(tree.root_node(), tree.min_degree(), tree.depth(), true);
}

/// Inserting keys adds exactly those keys.
proof fn lemma_insert_all(s: Set<usize>, ks: Seq<usize>)
    ensures
        insert_all(s, ks) == s.union(ks.to_set()),
    decreases ks.len(),
{
    if ks.len() > 0 {
        lemma_insert_all(s, ks.drop_last());
        assert(ks =~= ks.drop_last().push(ks.last()));
        assert(insert_all(s, ks) =~= s.union(ks.to_set())) by {
            assert forall|x: usize| ks.to_set().contains(x) <==> (ks.drop_last().to_set().contains(x)
                || x == ks.last()) by {
                if ks.contains(x) {
                    let m = choose|m: int| 0 <= m < ks.len() && ks[m] == x;
                    if m < ks.len() - 1 {
                        assert(ks.drop_last()[m] == x);
                    }
                }
                if ks.drop_last().contains(x) {
                    let m = choose|m: int| 0 <= m < ks.drop_last().len() && ks.drop_last()[m] == x;
                    assert(ks[m] == x);
                }
                if x == ks.last() {
                    assert(ks[ks.len() - 1] == x);
                }
            }
        }
    } else {
        assert(insert_all(s, ks) =~= s.union(ks.to_set()));
    }
}

/// Deleting keys takes exactly those keys away.
proof fn lemma_delete_all(s: Set<usize>, ks: Seq<usize>)
    ensures
        delete_all(s, ks) == s.difference(ks.to_set()),
    decreases ks.len(),
{
    if ks.len() > 0 {
        lemma_delete_all(s, ks.drop_last());
        assert(delete_all(s, ks) =~= s.difference(ks.to_set())) by {
            assert forall|x: usize| ks.to_set().contains(x) <==> (ks.drop_last().to_set().contains(x)
                || x == ks.last()) by {
                if ks.contains(x) {
                    let m = choose|m: int| 0 <= m < ks.len() && ks[m] == x;
                    if m < ks.len() - 1 {
                        assert(ks.drop_last()[m] == x);
                    }
                }
                if ks.drop_last().contains(x) {
                    let m = choose|m: int| 0 <= m < ks.drop_last().len() && ks.drop_last()[m] == x;
                    assert(ks[m] == x);
                }
                if x == ks.last() {
                    assert(ks[ks.len() - 1] == x);
                }
            }
        }
    } else {
        assert(delete_all(s, ks) =~= s.difference(ks.to_set()));
    }
}

/// Two orderings of the same keys hold the same keys.
proof fn lemma_same_elements(a: Seq<usize>, b: Seq<usize>)
    requires
        a.to_multiset() == b.to_multiset(),
    ensures
        a.to_set() == b.to_set(),
{
    assert forall|x: usize| a.contains(x) <==> b.contains(x) by {
        a.to_multiset_ensures();
        b.to_multiset_ensures();
        assert(a.contains(x) <==> a.to_multiset().count(x) > 0);
        assert(b.contains(x) <==> b.to_multiset().count(x) > 0);
        assert(a.to_multiset().count(x) == b.to_multiset().count(x));
    }
    assert(a.to_set() =~= b.to_set());
}

/// Inserting the same keys in any order gives a tree that holds the same keys.
pub proof fn lemma_insert_order(s: Set<usize>, a: Seq<usize>, b: Seq<usize>)
    requires
        a.to_multiset() == b.to_multiset(),
    ensures
        insert_all(s, a) == insert_all(s, b),
{
    lemma_same_elements(a, b);
    lemma_insert_all(s, a);
    lemma_insert_all(s, b);
}

/// Inserting keys into an empty tree and then deleting the same keys, in any
/// order, leaves a single leaf without keys.
pub proof fn lemma_insert_then_delete(a: Seq<usize>, b: Seq<usize>, tree: BTree)
    requires
        a.to_multiset() == b.to_multiset(),
        tree.wf(),
        tree@ == delete_all(insert_all(Set::empty(), a), b),
    ensures
        tree@ == Set::<usize>::empty(),
        tree.root_node().keys.len() == 0,
        tree.root_node().leaf,
{
    lemma_same_elements(a, b);
    lemma_insert_all(Set::empty(), a);
    lemma_delete_all(Set::empty().union(a.to_set()), b);
    assert(tree@ =~= Set::<usize>::empty());
    BTree::lemma_empty_root(tree);
}

/// `b` is what inserting `k` into `a` leaves, as `BTree::insert` states it.
pub open spec fn inserted(a: BTree, b: BTree, k: usize) -> bool {
    &&& b.wf()
    &&& b@ == a@.insert(k)
    &&& b.min_degree() == a.min_degree()
    &&& b.depth() == if !a@.contains(k) && a.root_node().keys.len() == 2 * a.min_degree() - 1 {
        a.depth() + 1
    } else {
        a.depth()
    }
}

/// A tree whose root is a leaf holds its keys in the root.
proof fn lemma_leaf_root_size(tree: BTree)
    requires
        tree.wf(),
        tree.depth() == 0,
    ensures
        tree.root_node().keys.len() == tree@.len(),
{
    let r = tree.root_node();
    assert(r.children.len() == 0);
    assert(inorder(r) == r.keys@);
    assert(inorder(r).no_duplicates()) by {
        assert forall|i: int, j: int| 0 <= i < inorder(r).len() && 0 <= j < inorder(r).len() && i
            != j implies inorder(r)[i] != inorder(r)[j] by {
            if i < j {
                assert(inorder(r)[i] < inorder(r)[j]);
            } else {
                assert(inorder(r)[j] < inorder(r)[i]);
            }
        }
    }
    inorder(r).unique_seq_to_set();
}

/// The first `n <= 2t - 1` insertions of distinct keys keep the root a leaf of `n` keys.
proof fn lemma_fill_prefix(trees: Seq<BTree>, ks: Seq<usize>, n: int)
    requires
        trees.len() == ks.len() + 1,
        ks.no_duplicates(),
        trees[0].wf(),
        trees[0]@ == Set::<usize>::empty(),
        forall|i: int| 0 <= i < ks.len() ==> #[trigger] inserted(trees[i], trees[i + 1], ks[i]),
        0 <= n <= ks.len(),
        n <= 2 * trees[0].min_degree() - 1,
    ensures
        trees[n].wf(),
        trees[n].depth() == 0,
        trees[n]@ == ks.take(n).to_set(),
        trees[n].min_degree() == trees[0].min_degree(),
        trees[n].root_node().keys.len() == n,
    decreases n,
{
    if n == 0 {
        BTree::lemma_empty_root(trees[0]);
        assert(ks.take(0).to_set() =~= Set::<usize>::empty());
    } else {
        lemma_fill_prefix(trees, ks, n - 1);
        let i = n - 1;
        assert(inserted(trees[i], trees[i + 1], ks[i]));
        assert(ks.take(n) =~= ks.take(n - 1).push(ks[n - 1]));
        ks.take(n - 1).lemma_push_to_set_commute(ks[n - 1]);
        lemma_leaf_root_size(trees[n]);
    }
    assert(ks.take(n).no_duplicates());
    ks.take(n).unique_seq_to_set();
}

/// Inserting distinct keys one after another into an empty tree of minimum
/// degree `t` splits nothing up to the `2t - 1`-th key: the root stays a leaf.
/// The `2t`-th key brings the first split, after which the tree has height 1.
pub proof fn lemma_first_split(trees: Seq<BTree>, ks: Seq<usize>)
    requires
        trees.len() == ks.len() + 1,
        ks.no_duplicates(),
        trees[0].wf(),
        trees[0]@ == Set::<usize>::empty(),
        forall|i: int| 0 <= i < ks.len() ==> #[trigger] inserted(trees[i], trees[i + 1], ks[i]),
    ensures
        ks.len() <= 2 * trees[0].min_degree() - 1 ==> trees.last().depth() == 0
            && trees.last().root_node().leaf,
        ks.len() == 2 * trees[0].min_degree() ==> trees.last().depth() == 1,
{
    let t = trees[0].min_degree();
    if ks.len() <= 2 * t - 1 {
        lemma_fill_prefix(trees, ks, ks.len() as int);
    } else if ks.len() == 2 * t {
        let n = 2 * t - 1;
        lemma_fill_prefix(trees, ks, n);
        assert(inserted(trees[n], trees[n + 1], ks[n]));
        if ks.take(n).contains(ks[n]) {
            let m = choose|m: int| 0 <= m < n && ks.take(n)[m] == ks[n];
            assert(ks[m] == ks[n]);
        }
    }
}

/// The keys held after the operations `ops`, in order, on a tree that held `s`:
/// `(true, k)` inserts `k` and `(false, k)` deletes it.
pub open spec fn apply_ops(s: Set<usize>, ops: Seq<(bool, usize)>) -> Set<usize>
    decreases ops.len(),
{
    if ops.len() == 0 {
        s
    } else {
        let prev = apply_ops(s, ops.drop_last());
        if ops.last().0 {
            prev.insert(ops.last().1)
        } else {
            prev.remove(ops.last().1)
        }
    }
}

/// How many of `ops` are the operation `(ins, k)`.
pub open spec fn count_ops(ops: Seq<(bool, usize)>, ins: bool, k: usize) -> nat
    decreases ops.len(),
{
    if ops.len() == 0 {
        0
    } else {
        count_ops(ops.drop_last(), ins, k) + if ops.last() == (ins, k) {
            1nat
        } else {
            0nat
        }
    }
}

/// Starting from an empty tree, every operation of `ops` changes what it holds:
/// no key is inserted while held, nor deleted while absent.
pub open spec fn effective(ops: Seq<(bool, usize)>) -> bool {
    forall|i: int|
        0 <= i < ops.len() ==> (#[trigger] ops[i]).0 != apply_ops(Set::empty(), ops.take(i)).contains(
            ops[i].1,
        )
}

proof fn lemma_membership_counts(ops: Seq<(bool, usize)>, k: usize)
    requires
        effective(ops),
    ensures
        apply_ops(Set::empty(), ops).contains(k) ==> count_ops(ops, true, k) == count_ops(ops, false, k) + 1,
        !apply_ops(Set::empty(), ops).contains(k) ==> count_ops(ops, true, k) == count_ops(ops, false, k),
    decreases ops.len(),
{
    if ops.len() > 0 {
        let p = ops.drop_last();
        assert forall|i: int| 0 <= i < p.len() implies (#[trigger] p[i]).0 != apply_ops(
            Set::empty(),
            p.take(i),
        ).contains(p[i].1) by {
            assert(p[i] == ops[i]);
            assert(p.take(i) =~= ops.take(i));
        }
        lemma_membership_counts(p, k);
        let n = ops.len() - 1;
        assert(ops.take(n) =~= p);
        assert(ops[n] == ops.last());
    }
}

/// Starting from an empty tree, after operations that each change what it holds,
/// a key is held exactly when it was inserted more often than deleted.
pub proof fn lemma_membership(ops: Seq<(bool, usize)>, k: usize)
    requires
        effective(ops),
    ensures
        apply_ops(Set::empty(), ops).contains(k) <==> count_ops(ops, true, k) > count_ops(ops, false, k),
{
    lemma_membership_counts(ops, k);
}

} // verus!
