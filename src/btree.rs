use vstd::prelude::*;
use crate::node::{
    Node, after, before, height, inorder, key_piece, lemma_after_last, lemma_before_last,
    lemma_contains_concat, lemma_decompose, lemma_decompose2, lemma_height, lemma_inorder_pieces,
    lemma_join, lemma_pop_back, lemma_push_front, lemma_replace_child, lemma_replace_pair,
    lemma_sorted_concat, lemma_sorted_swap, lemma_widen, pieces, shape, sorted, Layout, layout,
    lemma_layout, lemma_layout_height, layout_height,
};

verus! {

/// A B-tree of minimum degree `t`: a set of `usize` keys held in nodes of
/// `t - 1` to `2t - 1` keys (the root may hold fewer).
#[derive(Debug, PartialEq, Eq)]
pub struct BTree {
    root: Node,
    degree: usize,
}

/// `i` is the child of `n` whose range holds `key`: every key before slot `i`
/// is smaller than `key`, and the key at slot `i`, if any, is larger.
pub open spec fn routes(n: Node, i: int, key: usize) -> bool {
    &&& 0 <= i <= n.keys.len()
    &&& forall|j: int| 0 <= j < i ==> n.keys@[j] < key
    &&& i < n.keys.len() ==> key < n.keys@[i]
}

/// `n` is `m` or a node below it.
pub open spec fn within(n: Node, m: Node) -> bool
    decreases m, m.children.len() + 1,
{
    n == m || within_some(n, m, m.children.len() as int)
}

/// `n` lies within one of the first `i` children of `m`.
pub open spec fn within_some(n: Node, m: Node, i: int) -> bool
    decreases m, i,
{
    if i <= 0 || i > m.children.len() {
        false
    } else {
        within(n, m.children@[i - 1]) || within_some(n, m, i - 1)
    }
}

/// Every key of `n` occurs in its walk.
pub(crate) proof fn lemma_key_in_walk(n: Node, j: int)
    requires
        0 <= j < n.keys.len(),
        n.children.len() == 0 || n.children.len() == n.keys.len() + 1,
    ensures
        inorder(n).contains(n.keys@[j]),
{
    if n.children.len() == 0 {
        assert(inorder(n)[j] == n.keys@[j]);
    } else {
        lemma_decompose(n, j);
        let pre = before(n, j) + inorder(n.children@[j]);
        assert(inorder(n)[pre.len() as int] == n.keys@[j]);
    }
}

/// In a sorted tree, a key routed to child `i` lies between the keys around
/// that child, and it is in `n` exactly when it is in child `i`.
proof fn lemma_route(n: Node, i: int, key: usize)
    requires
        n.children.len() == n.keys.len() + 1,
        sorted(inorder(n)),
        routes(n, i, key),
    ensures
        before(n, i).len() > 0 ==> before(n, i).last() < key,
        after(n, i).len() > 0 ==> key < after(n, i)[0],
        inorder(n) == before(n, i) + inorder(n.children@[i]) + after(n, i),
        inorder(n).contains(key) == inorder(n.children@[i]).contains(key),
        sorted(inorder(n.children@[i])),
{
    let a = before(n, i);
    let c = inorder(n.children@[i]);
    let b = after(n, i);
    lemma_decompose(n, i);
    if i > 0 {
        lemma_before_last(n, i);
    } else {
        assert(before(n, 0) =~= Seq::<usize>::empty());
    }
    if i == n.keys.len() {
        lemma_after_last(n);
    }
    lemma_sorted_concat(a + c, b);
    lemma_sorted_concat(a, c);
    lemma_contains_concat(a + c, b);
    lemma_contains_concat(a, c);
    if a.contains(key) {
        let m = choose|m: int| 0 <= m < a.len() && a[m] == key;
        assert(a[m] <= a.last());
    }
    if b.contains(key) {
        let m = choose|m: int| 0 <= m < b.len() && b[m] == key;
        assert(b[0] <= b[m]);
    }
}

/// How many keys lead `keys` while below `key`.
pub open spec fn slot(keys: Seq<usize>, key: usize) -> nat
    decreases keys.len(),
{
    if keys.len() == 0 || keys[0] >= key {
        0
    } else {
        1 + slot(keys.drop_first(), key)
    }
}

/// Splitting the full child `i` of a node of layout `p` around its median.
pub open spec fn split_layout(p: Layout, i: int, t: nat) -> Layout {
    let c = p.children[i];
    let lc = if c.children.len() == 0 {
        c.children
    } else {
        c.children.take(t as int)
    };
    let rc = if c.children.len() == 0 {
        c.children
    } else {
        c.children.skip(t as int)
    };
    Layout {
        keys: p.keys.insert(i, c.keys[t - 1]),
        children: p.children.update(i, Layout { keys: c.keys.take(t - 1), children: lc }).insert(
            i + 1,
            Layout { keys: c.keys.skip(t as int), children: rc },
        ),
    }
}

/// Inserting `key` under a node of layout `n` that is not full: full children on
/// the way down are split first, and the key lands in a leaf at its sorted place.
/// `h` is the height of `n`.
pub open spec fn insert_nonfull_layout(n: Layout, key: usize, t: nat, h: nat) -> Layout
    decreases h,
{
    let i = slot(n.keys, key) as int;
    if h == 0 || n.children.len() == 0 {
        Layout { keys: n.keys.insert(i, key), children: n.children }
    } else {
        let full = n.children[i].keys.len() == 2 * t - 1;
        let m = if full {
            split_layout(n, i, t)
        } else {
            n
        };
        let j = if full && key > m.keys[i] {
            i + 1
        } else {
            i
        };
        Layout {
            keys: m.keys,
            children: m.children.update(
                j,
                insert_nonfull_layout(m.children[j], key, t, (h - 1) as nat),
            ),
        }
    }
}

/// Inserting an absent `key` into a tree of layout `r`, minimum degree `t` and
/// height `h`: a full root first gets a new root above it and is split.
pub open spec fn insert_layout(r: Layout, key: usize, t: nat, h: nat) -> Layout {
    if r.keys.len() == 2 * t - 1 {
        insert_nonfull_layout(
            split_layout(Layout { keys: Seq::empty(), children: seq![r] }, 0, t),
            key,
            t,
            h + 1,
        )
    } else {
        insert_nonfull_layout(r, key, t, h)
    }
}

/// Merging children `i` and `i + 1` of a node of layout `p` around the key between them.
pub open spec fn merge_layout(p: Layout, i: int) -> Layout {
    let l = p.children[i];
    let r = p.children[i + 1];
    let m = Layout { keys: l.keys.push(p.keys[i]) + r.keys, children: l.children + r.children };
    Layout { keys: p.keys.remove(i), children: p.children.remove(i + 1).update(i, m) }
}

/// Moving the last key of child `i` up, and key `i` down to the front of child `i + 1`,
/// with the last child of child `i`.
pub open spec fn rotate_right_layout(p: Layout, i: int) -> Layout {
    let l = p.children[i];
    let r = p.children[i + 1];
    let leaf = l.children.len() == 0;
    let l2 = Layout {
        keys: l.keys.drop_last(),
        children: if leaf {
            Seq::empty()
        } else {
            l.children.drop_last()
        },
    };
    let r2 = Layout {
        keys: seq![p.keys[i]] + r.keys,
        children: if leaf {
            Seq::empty()
        } else {
            seq![l.children.last()] + r.children
        },
    };
    Layout { keys: p.keys.update(i, l.keys.last()), children: p.children.update(i, l2).update(i + 1, r2) }
}

/// Moving the first key of child `i + 1` up, and key `i` down to the end of child `i`,
/// with the first child of child `i + 1`.
pub open spec fn rotate_left_layout(p: Layout, i: int) -> Layout {
    let l = p.children[i];
    let r = p.children[i + 1];
    let leaf = r.children.len() == 0;
    let l2 = Layout {
        keys: l.keys.push(p.keys[i]),
        children: if leaf {
            Seq::empty()
        } else {
            l.children.push(r.children[0])
        },
    };
    let r2 = Layout {
        keys: r.keys.skip(1),
        children: if leaf {
            Seq::empty()
        } else {
            r.children.skip(1)
        },
    };
    Layout { keys: p.keys.update(i, r.keys[0]), children: p.children.update(i, l2).update(i + 1, r2) }
}

/// Giving the thin child `i` of a node of layout `n` a key more, from the left
/// sibling if it can spare one, else from the right one, else by a merge with a
/// sibling (the left one if there is one); with the index of the child that
/// covers what child `i` covered.
pub open spec fn reinforce_layout(n: Layout, i: int, t: nat) -> (Layout, int) {
    if i > 0 && n.children[i - 1].keys.len() >= t {
        (rotate_right_layout(n, i - 1), i)
    } else if i < n.keys.len() && n.children[i + 1].keys.len() >= t {
        (rotate_left_layout(n, i), i)
    } else if i > 0 {
        (merge_layout(n, i - 1), i - 1)
    } else {
        (merge_layout(n, i), i)
    }
}

/// Removing the largest key under a node of layout `n` and height `h`, with that key.
pub open spec fn delete_max_layout(n: Layout, t: nat, h: nat) -> (Layout, usize)
    decreases h,
{
    if h == 0 || n.children.len() == 0 {
        (Layout { keys: n.keys.drop_last(), children: n.children }, n.keys.last())
    } else {
        let last = n.keys.len() as int;
        let m = if n.children[last].keys.len() < t {
            if n.children[last - 1].keys.len() >= t {
                rotate_right_layout(n, last - 1)
            } else {
                merge_layout(n, last - 1)
            }
        } else {
            n
        };
        let j = m.children.len() - 1;
        let (c, k) = delete_max_layout(m.children[j], t, (h - 1) as nat);
        (Layout { keys: m.keys, children: m.children.update(j, c) }, k)
    }
}

/// Removing the smallest key under a node of layout `n` and height `h`, with that key.
pub open spec fn delete_min_layout(n: Layout, t: nat, h: nat) -> (Layout, usize)
    decreases h,
{
    if h == 0 || n.children.len() == 0 {
        (Layout { keys: n.keys.skip(1), children: n.children }, n.keys[0])
    } else {
        let m = if n.children[0].keys.len() < t {
            if n.children[1].keys.len() >= t {
                rotate_left_layout(n, 0)
            } else {
                merge_layout(n, 0)
            }
        } else {
            n
        };
        let (c, k) = delete_min_layout(m.children[0], t, (h - 1) as nat);
        (Layout { keys: m.keys, children: m.children.update(0, c) }, k)
    }
}

/// Removing `key`, at slot `i` of an internal node of layout `n` and height `h`:
/// by its predecessor if child `i` can spare a key, else by its successor if child
/// `i + 1` can, else by merging the two and removing it from the merged child.
pub open spec fn delete_internal_layout(n: Layout, i: int, key: usize, t: nat, h: nat) -> Layout
    decreases h, 0nat,
{
    if h == 0 {
        n
    } else if n.children[i].keys.len() >= t {
        let (c, k) = delete_max_layout(n.children[i], t, (h - 1) as nat);
        Layout { keys: n.keys.update(i, k), children: n.children.update(i, c) }
    } else if n.children[i + 1].keys.len() >= t {
        let (c, k) = delete_min_layout(n.children[i + 1], t, (h - 1) as nat);
        Layout { keys: n.keys.update(i, k), children: n.children.update(i + 1, c) }
    } else {
        let m = merge_layout(n, i);
        Layout {
            keys: m.keys,
            children: m.children.update(i, delete_node_layout(m.children[i], key, t, (h - 1) as nat)),
        }
    }
}

/// Removing `key` from under a node of layout `n` and height `h`, reinforcing thin
/// children on the way down.
pub open spec fn delete_node_layout(n: Layout, key: usize, t: nat, h: nat) -> Layout
    decreases h, 1nat,
{
    let i = slot(n.keys, key) as int;
    let found = i < n.keys.len() && n.keys[i] == key;
    if h == 0 || n.children.len() == 0 {
        if found {
            Layout { keys: n.keys.remove(i), children: n.children }
        } else {
            n
        }
    } else if found {
        delete_internal_layout(n, i, key, t, h)
    } else {
        let (m, j) = if n.children[i].keys.len() < t {
            reinforce_layout(n, i, t)
        } else {
            (n, i)
        };
        Layout {
            keys: m.keys,
            children: m.children.update(j, delete_node_layout(m.children[j], key, t, (h - 1) as nat)),
        }
    }
}

/// Removing a present `key` from a tree of layout `r`, minimum degree `t` and
/// height `h`; a root left without keys gives way to its only child.
pub open spec fn delete_layout(r: Layout, key: usize, t: nat, h: nat) -> Layout {
    let d = delete_node_layout(r, key, t, h);
    if d.keys.len() == 0 && d.children.len() > 0 {
        d.children[0]
    } else {
        d
    }
}

/// The first slot of `keys` whose key is not below `key`.
fn find_index(keys: &Vec<usize>, key: usize) -> (i: usize)
    ensures
        i == slot(keys@, key),
        i <= keys.len(),
        forall|j: int| 0 <= j < i ==> keys@[j] < key,
        i < keys.len() ==> key <= keys@[i as int],
{
    let mut i: usize = 0;
    proof {
        assert(keys@.skip(0) =~= keys@);
    }
    while i < keys.len() && keys[i] < key
        invariant
            i <= keys.len(),
            forall|j: int| 0 <= j < i ==> keys@[j] < key,
            slot(keys@, key) == i + slot(keys@.skip(i as int), key),
        decreases keys.len() - i,
    {
        assert(keys@.skip(i as int).drop_first() =~= keys@.skip(i + 1));
        i = i + 1;
    }
    i
}

/// The node `p1` is `p0` with its full child `i` split in two halves around the
/// median, which sits at slot `i` of `p1`.
proof fn lemma_split(p0: Node, p1: Node, i: int, t: nat, h: nat)
    requires
        2 <= t,
        h > 0,
        shape(p0, t, h),
        p0.keys.len() < 2 * t - 1,
        0 <= i <= p0.keys.len(),
        p0.children@[i].keys.len() == 2 * t - 1,
        p1.leaf == p0.leaf,
        p1.children.len() == p0.children.len() + 1,
        p1.keys@ == p0.keys@.insert(i, p0.children@[i].keys@[t - 1]),
        p1.children@ == p0.children@.update(i, p1.children@[i]).insert(i + 1, p1.children@[i + 1]),
        p1.children@[i].keys@ == p0.children@[i].keys@.take(t - 1),
        p1.children@[i + 1].keys@ == p0.children@[i].keys@.skip(t as int),
        p1.children@[i].leaf == p0.children@[i].leaf,
        p1.children@[i + 1].leaf == p0.children@[i].leaf,
        p0.children@[i].children.len() == 0 ==> p1.children@[i].children.len() == 0
            && p1.children@[i + 1].children.len() == 0,
        p0.children@[i].children.len() > 0 ==> p1.children@[i].children@ == p0.children@[i].children@.take(t as int)
            && p1.children@[i + 1].children@ == p0.children@[i].children@.skip(t as int),
    ensures
        shape(p1, t, h),
        inorder(p1) == inorder(p0),
{
    let hc = (h - 1) as nat;
    let c0 = p0.children@[i];
    let l = p1.children@[i];
    let r = p1.children@[i + 1];
    let median = c0.keys@[t - 1];
    assert(c0.keys.len() >= t - 1 && shape(c0, t, hc));
    assert(c0.keys@ =~= l.keys@.push(median) + r.keys@);
    assert(c0.children@ =~= l.children@ + r.children@);
    lemma_join(l, median, r, c0);
    lemma_widen(p0, p1, i);
    lemma_decompose(p0, i);
    lemma_decompose2(p1, i);
    assert(inorder(p1) =~= inorder(p0));
    if hc > 0 {
        assert forall|q: int| 0 <= q < l.children.len() implies (#[trigger] l.children@[q]).keys.len()
            >= t - 1 && shape(l.children@[q], t, (hc - 1) as nat) by {
            assert(l.children@[q] == c0.children@[q]);
        }
        assert forall|q: int| 0 <= q < r.children.len() implies (#[trigger] r.children@[q]).keys.len()
            >= t - 1 && shape(r.children@[q], t, (hc - 1) as nat) by {
            assert(r.children@[q] == c0.children@[q + t]);
        }
    }
    assert(shape(l, t, hc));
    assert(shape(r, t, hc));
    assert forall|q: int| 0 <= q < p1.children.len() implies (#[trigger] p1.children@[q]).keys.len()
        >= t - 1 && shape(p1.children@[q], t, hc) by {
        if q < i {
            assert(p1.children@[q] == p0.children@[q]);
        } else if q > i + 1 {
            assert(p1.children@[q] == p0.children@[q - 1]);
        }
    }
}

/// The layout of a node split as `split_child` does.
proof fn lemma_split_layout(p0: Node, p1: Node, i: int, t: nat)
    requires
        2 <= t,
        0 <= i < p0.children.len(),
        p0.children@[i].keys.len() == 2 * t - 1,
        p0.children@[i].children.len() == 0 || p0.children@[i].children.len() == 2 * t,
        p1.keys@ == p0.keys@.insert(i, p0.children@[i].keys@[t - 1]),
        p1.children@ == p0.children@.update(i, p1.children@[i]).insert(i + 1, p1.children@[i + 1]),
        p1.children@[i].keys@ == p0.children@[i].keys@.take(t - 1),
        p1.children@[i + 1].keys@ == p0.children@[i].keys@.skip(t as int),
        p0.children@[i].children.len() == 0 ==> p1.children@[i].children.len() == 0
            && p1.children@[i + 1].children.len() == 0,
        p0.children@[i].children.len() > 0 ==> p1.children@[i].children@ == p0.children@[i].children@.take(t as int)
            && p1.children@[i + 1].children@ == p0.children@[i].children@.skip(t as int),
    ensures
        layout(p1) == split_layout(layout(p0), i, t),
{
    let c0 = p0.children@[i];
    let l = p1.children@[i];
    let r = p1.children@[i + 1];
    let s = split_layout(layout(p0), i, t);
    lemma_layout(p0);
    lemma_layout(p1);
    lemma_layout(c0);
    lemma_layout(l);
    lemma_layout(r);
    let lc = layout(c0);
    assert(layout(l).children =~= s.children[i].children) by {
        if c0.children.len() > 0 {
            assert forall|q: int| 0 <= q < l.children.len() implies layout(l).children[q]
                == lc.children.take(t as int)[q] by {
                assert(l.children@[q] == c0.children@[q]);
            }
        }
    }
    assert(layout(r).children =~= s.children[i + 1].children) by {
        if c0.children.len() > 0 {
            assert forall|q: int| 0 <= q < r.children.len() implies layout(r).children[q]
                == lc.children.skip(t as int)[q] by {
                assert(r.children@[q] == c0.children@[q + t]);
            }
        }
    }
    assert(layout(l) == s.children[i]);
    assert(layout(r) == s.children[i + 1]);
    assert(layout(p1).children =~= s.children) by {
        assert forall|q: int| 0 <= q < p1.children.len() implies layout(p1).children[q] == s.children[q] by {
            if q < i {
                assert(p1.children@[q] == p0.children@[q]);
            } else if q > i + 1 {
                assert(p1.children@[q] == p0.children@[q - 1]);
            }
        }
    }
}

/// Splits the full child `i` of `parent` around its median key, which moves up
/// into `parent` at slot `i`; the upper half becomes child `i + 1`.
fn split_child(parent: &mut Node, i: usize, t: usize, Ghost(h): Ghost<nat>)
    requires
        2 <= t,
        h > 0,
        shape(*old(parent), t as nat, h),
        old(parent).keys.len() < 2 * t - 1,
        i <= old(parent).keys.len(),
        old(parent).children@[i as int].keys.len() == 2 * t - 1,
    ensures
        shape(*final(parent), t as nat, h),
        inorder(*final(parent)) == inorder(*old(parent)),
        final(parent).keys@ == old(parent).keys@.insert(
            i as int,
            old(parent).children@[i as int].keys@[t - 1],
        ),
        final(parent).children@[i as int].keys.len() == t - 1,
        final(parent).children@[i + 1].keys.len() == t - 1,
        final(parent).children@ == old(parent).children@.update(
            i as int,
            final(parent).children@[i as int],
        ).insert(i + 1, final(parent).children@[i + 1]),
        final(parent).children@[i as int].keys@ == old(parent).children@[i as int].keys@.take(t - 1),
        final(parent).children@[i + 1].keys@ == old(parent).children@[i as int].keys@.skip(t as int),
        final(parent).children@[i as int].leaf == old(parent).children@[i as int].leaf,
        final(parent).children@[i + 1].leaf == old(parent).children@[i as int].leaf,
        old(parent).children@[i as int].children.len() == 0 ==> final(parent).children@[i as int].children.len() == 0
            && final(parent).children@[i + 1].children.len() == 0,
        old(parent).children@[i as int].children.len() > 0 ==> final(parent).children@[i as int].children@
            == old(parent).children@[i as int].children@.take(t as int)
            && final(parent).children@[i + 1].children@ == old(parent).children@[i as int].children@.skip(t as int),
        final(parent).leaf == old(parent).leaf,
        layout(*final(parent)) == split_layout(layout(*old(parent)), i as int, t as nat),
{
    let ghost p0 = *parent;
    proof {
        assert(p0.children@[i as int].keys.len() >= t - 1);
        assert(shape(p0.children@[i as int], t as nat, (h - 1) as nat));
    }
    let mut child = parent.children.remove(i);
    let right_keys = child.keys.split_off(t);
    let right_children = if child.leaf {
        Vec::new()
    } else {
        child.children.split_off(t)
    };
    let median = child.keys.pop().unwrap();
    let right = Node::new(right_keys, right_children, child.leaf);
    parent.keys.insert(i, median);
    parent.children.insert(i, child);
    parent.children.insert(i + 1, right);
    proof {
        let p1 = *parent;
        assert(p1.children@ =~= p0.children@.update(i as int, child).insert(i + 1, right));
        assert(child.keys@ =~= p0.children@[i as int].keys@.take(t - 1));
        lemma_split(p0, p1, i as int, t as nat, h);
        lemma_split_layout(p0, p1, i as int, t as nat);
    }
}

/// Inserting `key` at its sorted slot `i` of a sorted sequence.
proof fn lemma_insert_sorted(k0: Seq<usize>, i: int, key: usize)
    requires
        sorted(k0),
        0 <= i <= k0.len(),
        forall|j: int| 0 <= j < i ==> k0[j] < key,
        i < k0.len() ==> key < k0[i],
    ensures
        sorted(k0.insert(i, key)),
        forall|e: usize| #[trigger] k0.insert(i, key).contains(e) <==> (k0.contains(e) || e == key),
{
    let k1 = k0.insert(i, key);
    assert(k1 =~= k0.take(i) + seq![key] + k0.skip(i));
    assert(k0 =~= k0.take(i) + k0.skip(i));
    lemma_contains_concat(k0.take(i), seq![key]);
    lemma_contains_concat(k0.take(i) + seq![key], k0.skip(i));
    lemma_contains_concat(k0.take(i), k0.skip(i));
    assert(seq![key].contains(key)) by {
        assert(seq![key][0] == key);
    }
    assert forall|a: int, b: int| 0 <= a < b < k1.len() implies k1[a] < k1[b] by {
        if b < i {
        } else if b == i {
        } else if a < i {
            assert(k0[a] < key);
            assert(k0[i] <= k0[b - 1]);
        } else if a == i {
            assert(k0[i] <= k0[b - 1]);
        } else {
            assert(k0[a - 1] < k0[b - 1]);
        }
    }
}

/// Child `i` of `n1` replaced by a sorted subtree that holds only keys of the old
/// child and, where `allow` says so, `key`, routed to that child.
proof fn lemma_child_update(n1: Node, n2: Node, i: int, key: usize, allow: bool)
    requires
        n1.children.len() == n1.keys.len() + 1,
        sorted(inorder(n1)),
        0 <= i < n1.children.len(),
        n2.keys@ == n1.keys@,
        n2.children@ == n1.children@.update(i, n2.children@[i]),
        sorted(inorder(n2.children@[i])),
        forall|e: usize| #[trigger] inorder(n2.children@[i]).contains(e) ==> inorder(
            n1.children@[i],
        ).contains(e) || (allow && e == key),
        allow ==> routes(n1, i, key),
    ensures
        sorted(inorder(n2)),
        forall|e: usize| #[trigger] inorder(n2).contains(e) <==> (before(n1, i).contains(e)
            || inorder(n2.children@[i]).contains(e) || after(n1, i).contains(e)),
        forall|e: usize| #[trigger] inorder(n1).contains(e) <==> (before(n1, i).contains(e)
            || inorder(n1.children@[i]).contains(e) || after(n1, i).contains(e)),
        routes(n1, i, key) ==> !before(n1, i).contains(key) && !after(n1, i).contains(key),
{
    let a = before(n1, i);
    let b = after(n1, i);
    let c1 = inorder(n1.children@[i]);
    let c2 = inorder(n2.children@[i]);
    lemma_decompose(n1, i);
    lemma_replace_child(n1, n2, i);
    lemma_decompose(n2, i);
    if routes(n1, i, key) {
        lemma_route(n1, i, key);
        lemma_contains_concat(a + c1, b);
        lemma_contains_concat(a, c1);
        lemma_sorted_concat(a + c1, b);
        lemma_sorted_concat(a, c1);
        if a.contains(key) {
            let m = choose|m: int| 0 <= m < a.len() && a[m] == key;
            assert(a[m] <= a.last());
        }
        if b.contains(key) {
            let m = choose|m: int| 0 <= m < b.len() && b[m] == key;
            assert(b[0] <= b[m]);
        }
    }
    lemma_sorted_swap(a, c1, c2, b, key, allow);
    lemma_contains_concat(a + c1, b);
    lemma_contains_concat(a, c1);
    lemma_contains_concat(a + c2, b);
    lemma_contains_concat(a, c2);
}

/// The layout of a node whose child `j` and perhaps keys were replaced.
proof fn lemma_update_layout(n1: Node, n2: Node, j: int)
    requires
        0 <= j < n1.children.len(),
        n2.children@ == n1.children@.update(j, n2.children@[j]),
    ensures
        layout(n2) == (Layout {
            keys: n2.keys@,
            children: layout(n1).children.update(j, layout(n2.children@[j])),
        }),
{
    lemma_layout(n1);
    lemma_layout(n2);
    assert(layout(n2).children =~= layout(n1).children.update(j, layout(n2.children@[j]))) by {
        assert forall|q: int| 0 <= q < n2.children.len() && q != j implies layout(n2).children[q]
            == layout(n1).children[q] by {
            assert(n2.children@[q] == n1.children@[q]);
        }
    }
}

/// Inserts `key`, absent so far, under the node `node`, which is not full.
fn insert_nonfull(node: &mut Node, key: usize, t: usize, Ghost(h): Ghost<nat>)
    requires
        2 <= t <= usize::MAX / 2,
        shape(*old(node), t as nat, h),
        old(node).keys.len() < 2 * t - 1,
        sorted(inorder(*old(node))),
        !inorder(*old(node)).contains(key),
    ensures
        shape(*final(node), t as nat, h),
        final(node).keys.len() >= old(node).keys.len(),
        sorted(inorder(*final(node))),
        forall|e: usize| #[trigger]
            inorder(*final(node)).contains(e) <==> (inorder(*old(node)).contains(e) || e == key),
        layout(*final(node)) == insert_nonfull_layout(layout(*old(node)), key, t as nat, h),
    decreases h,
{
    let ghost n0 = *node;
    proof {
        lemma_layout(n0);
    }
    let mut i = find_index(&node.keys, key);
    proof {
        if i < n0.keys.len() {
            lemma_key_in_walk(n0, i as int);
        }
    }
    if node.leaf {
        node.keys.insert(i, key);
        proof {
            lemma_insert_sorted(n0.keys@, i as int, key);
            lemma_layout(*node);
            assert(layout(*node).children =~= layout(n0).children);
        }
    } else {
        let ghost i0 = i as int;
        let ghost full = n0.children@[i0].keys.len() == 2 * t - 1;
        proof {
            lemma_layout(n0.children@[i0]);
        }
        if node.children[i].keys.len() == 2 * t - 1 {
            split_child(node, i, t, Ghost(h));
            proof {
                lemma_key_in_walk(*node, i as int);
                assert(node.keys@[i as int] == n0.children@[i as int].keys@[t - 1]);
            }
            if key > node.keys[i] {
                i = i + 1;
                proof {
                    if i < node.keys.len() {
                        lemma_key_in_walk(*node, i as int);
                    }
                }
            }
        }
        let ghost n1 = *node;
        assert(routes(n1, i as int, key)) by {
            assert forall|j: int| 0 <= j < i implies n1.keys@[j] < key by {
                if j < n1.keys.len() {
                    lemma_key_in_walk(n1, j);
                }
            }
        }
        proof {
            assert(n1.children@[i as int].keys.len() >= t - 1);
            assert(shape(n1.children@[i as int], t as nat, (h - 1) as nat));
            lemma_route(n1, i as int, key);
        }
        insert_nonfull(&mut node.children[i], key, t, Ghost((h - 1) as nat));
        proof {
            let n2 = *node;
            assert(n2.children@ == n1.children@.update(i as int, n2.children@[i as int]));
            lemma_child_update(n1, n2, i as int, key, true);
            let m = if full {
                split_layout(layout(n0), i0, t as nat)
            } else {
                layout(n0)
            };
            assert(layout(n1) == m);
            assert(m.keys == n1.keys@) by {
                lemma_layout(n1);
            }
            lemma_update_layout(n1, n2, i as int);
            lemma_layout(n1);
            assert forall|q: int| 0 <= q < n2.children.len() implies (#[trigger] n2.children@[q]).keys.len()
                >= t - 1 && shape(n2.children@[q], t as nat, (h - 1) as nat) by {
                if q != i {
                    assert(n2.children@[q] == n1.children@[q]);
                }
            }
        }
    }
}

/// The node `p1` is `p0` with its children `i` and `i + 1`, both of `t - 1` keys,
/// merged around the key between them.
proof fn lemma_merge(p0: Node, p1: Node, i: int, t: nat, h: nat)
    requires
        2 <= t,
        h > 0,
        shape(p0, t, h),
        0 <= i,
        i + 1 < p0.children.len(),
        p0.children@[i].keys.len() == t - 1,
        p0.children@[i + 1].keys.len() == t - 1,
        p1.leaf == p0.leaf,
        p1.keys@ == p0.keys@.remove(i),
        p1.children@ == p0.children@.remove(i + 1).update(i, p1.children@[i]),
        p1.children@[i].keys@ == p0.children@[i].keys@.push(p0.keys@[i]) + p0.children@[i + 1].keys@,
        p1.children@[i].children@ == p0.children@[i].children@ + p0.children@[i + 1].children@,
        p1.children@[i].leaf == p0.children@[i].leaf,
    ensures
        shape(p1, t, h),
        inorder(p1) == inorder(p0),
        p1.children@[i].keys.len() == 2 * t - 1,
{
    let hc = (h - 1) as nat;
    let l = p0.children@[i];
    let r = p0.children@[i + 1];
    let m = p1.children@[i];
    assert(l.keys.len() >= t - 1 && shape(l, t, hc));
    assert(r.keys.len() >= t - 1 && shape(r, t, hc));
    lemma_join(l, p0.keys@[i], r, m);
    assert(p0.keys@ =~= p1.keys@.insert(i, p0.keys@[i]));
    assert(p0.children@ =~= p1.children@.update(i, l).insert(i + 1, r));
    lemma_widen(p1, p0, i);
    lemma_decompose2(p0, i);
    lemma_decompose(p1, i);
    assert(inorder(p1) =~= inorder(p0));
    if hc > 0 {
        assert forall|q: int| 0 <= q < m.children.len() implies (#[trigger] m.children@[q]).keys.len()
            >= t - 1 && shape(m.children@[q], t, (hc - 1) as nat) by {
            if q < l.children.len() {
                assert(m.children@[q] == l.children@[q]);
            } else {
                assert(m.children@[q] == r.children@[q - l.children.len()]);
            }
        }
    }
    assert(shape(m, t, hc));
    assert forall|q: int| 0 <= q < p1.children.len() implies (#[trigger] p1.children@[q]).keys.len()
        >= t - 1 && shape(p1.children@[q], t, hc) by {
        if q < i {
            assert(p1.children@[q] == p0.children@[q]);
        } else if q > i {
            assert(p1.children@[q] == p0.children@[q + 1]);
        }
    }
}

/// The node `p1` is `p0` with the last key of child `i` moved up to slot `i`, the
/// key that stood there moved down to the front of child `i + 1`, and the last
/// child of child `i`, if any, moved to the front of child `i + 1`.
proof fn lemma_rotate_right(p0: Node, p1: Node, i: int, t: nat, h: nat)
    requires
        2 <= t,
        h > 0,
        shape(p0, t, h),
        0 <= i,
        i + 1 < p0.children.len(),
        p0.children@[i].keys.len() >= t,
        p0.children@[i + 1].keys.len() < 2 * t - 1,
        p1.leaf == p0.leaf,
        p1.keys@ == p0.keys@.update(i, p0.children@[i].keys@.last()),
        p1.children@ == p0.children@.update(i, p1.children@[i]).update(i + 1, p1.children@[i + 1]),
        p0.children@[i].keys@ == p1.children@[i].keys@.push(p0.children@[i].keys@.last()),
        p1.children@[i + 1].keys@ == seq![p0.keys@[i]] + p0.children@[i + 1].keys@,
        p1.children@[i].leaf == p0.children@[i].leaf,
        p1.children@[i + 1].leaf == p0.children@[i + 1].leaf,
        p0.children@[i].children.len() == 0 ==> p1.children@[i].children.len() == 0
            && p1.children@[i + 1].children.len() == 0,
        p0.children@[i].children.len() > 0 ==> p0.children@[i].children@ == p1.children@[i].children@.push(
            p0.children@[i].children@.last(),
        ) && p1.children@[i + 1].children@ == seq![p0.children@[i].children@.last()]
            + p0.children@[i + 1].children@,
    ensures
        shape(p1, t, h),
        inorder(p1) == inorder(p0),
        p1.children@[i].keys.len() == p0.children@[i].keys.len() - 1,
        p1.children@[i + 1].keys.len() == p0.children@[i + 1].keys.len() + 1,
{
    let hc = (h - 1) as nat;
    let l = p0.children@[i];
    let r = p0.children@[i + 1];
    let l1 = p1.children@[i];
    let r1 = p1.children@[i + 1];
    assert(l.keys.len() >= t - 1 && shape(l, t, hc));
    assert(r.keys.len() >= t - 1 && shape(r, t, hc));
    lemma_pop_back(l, l.keys@.last(), l1);
    if l.children.len() > 0 {
        assert(r1.children@[0] == l.children@.last());
    }
    lemma_push_front(r, p0.keys@[i], r1);
    lemma_replace_pair(p0, p1, i);
    lemma_decompose2(p0, i);
    lemma_decompose2(p1, i);
    assert(inorder(p1) =~= inorder(p0));
    if hc > 0 {
        assert forall|q: int| 0 <= q < l1.children.len() implies (#[trigger] l1.children@[q]).keys.len()
            >= t - 1 && shape(l1.children@[q], t, (hc - 1) as nat) by {
            assert(l1.children@[q] == l.children@[q]);
        }
        assert forall|q: int| 0 <= q < r1.children.len() implies (#[trigger] r1.children@[q]).keys.len()
            >= t - 1 && shape(r1.children@[q], t, (hc - 1) as nat) by {
            if q == 0 {
                assert(r1.children@[q] == l.children@[l.children.len() - 1]);
            } else {
                assert(r1.children@[q] == r.children@[q - 1]);
            }
        }
    }
    assert(shape(l1, t, hc));
    assert(shape(r1, t, hc));
    assert forall|q: int| 0 <= q < p1.children.len() implies (#[trigger] p1.children@[q]).keys.len()
        >= t - 1 && shape(p1.children@[q], t, hc) by {
        if q != i && q != i + 1 {
            assert(p1.children@[q] == p0.children@[q]);
        }
    }
}

/// The node `p1` is `p0` with the first key of child `i + 1` moved up to slot `i`,
/// the key that stood there moved down to the end of child `i`, and the first
/// child of child `i + 1`, if any, moved to the end of child `i`.
proof fn lemma_rotate_left(p0: Node, p1: Node, i: int, t: nat, h: nat)
    requires
        2 <= t,
        h > 0,
        shape(p0, t, h),
        0 <= i,
        i + 1 < p0.children.len(),
        p0.children@[i + 1].keys.len() >= t,
        p0.children@[i].keys.len() < 2 * t - 1,
        p1.leaf == p0.leaf,
        p1.keys@ == p0.keys@.update(i, p0.children@[i + 1].keys@[0]),
        p1.children@ == p0.children@.update(i, p1.children@[i]).update(i + 1, p1.children@[i + 1]),
        p0.children@[i + 1].keys@ == seq![p0.children@[i + 1].keys@[0]] + p1.children@[i + 1].keys@,
        p1.children@[i].keys@ == p0.children@[i].keys@.push(p0.keys@[i]),
        p1.children@[i].leaf == p0.children@[i].leaf,
        p1.children@[i + 1].leaf == p0.children@[i + 1].leaf,
        p0.children@[i + 1].children.len() == 0 ==> p1.children@[i].children.len() == 0
            && p1.children@[i + 1].children.len() == 0,
        p0.children@[i + 1].children.len() > 0 ==> p0.children@[i + 1].children@ == seq![
            p0.children@[i + 1].children@[0],
        ] + p1.children@[i + 1].children@ && p1.children@[i].children@
            == p0.children@[i].children@.push(p0.children@[i + 1].children@[0]),
    ensures
        shape(p1, t, h),
        inorder(p1) == inorder(p0),
        p1.children@[i].keys.len() == p0.children@[i].keys.len() + 1,
        p1.children@[i + 1].keys.len() == p0.children@[i + 1].keys.len() - 1,
{
    let hc = (h - 1) as nat;
    let l = p0.children@[i];
    let r = p0.children@[i + 1];
    let l1 = p1.children@[i];
    let r1 = p1.children@[i + 1];
    assert(l.keys.len() >= t - 1 && shape(l, t, hc));
    assert(r.keys.len() >= t - 1 && shape(r, t, hc));
    lemma_push_front(r1, r.keys@[0], r);
    if r.children.len() > 0 {
        assert(l1.children@.last() == r.children@[0]);
    }
    lemma_pop_back(l1, p0.keys@[i], l);
    lemma_replace_pair(p0, p1, i);
    lemma_decompose2(p0, i);
    lemma_decompose2(p1, i);
    assert(inorder(p1) =~= inorder(p0));
    if hc > 0 {
        assert forall|q: int| 0 <= q < l1.children.len() implies (#[trigger] l1.children@[q]).keys.len()
            >= t - 1 && shape(l1.children@[q], t, (hc - 1) as nat) by {
            if q < l.children.len() {
                assert(l1.children@[q] == l.children@[q]);
            } else {
                assert(l1.children@[q] == r.children@[0]);
            }
        }
        assert forall|q: int| 0 <= q < r1.children.len() implies (#[trigger] r1.children@[q]).keys.len()
            >= t - 1 && shape(r1.children@[q], t, (hc - 1) as nat) by {
            assert(r1.children@[q] == r.children@[q + 1]);
        }
    }
    assert(shape(l1, t, hc));
    assert(shape(r1, t, hc));
    assert forall|q: int| 0 <= q < p1.children.len() implies (#[trigger] p1.children@[q]).keys.len()
        >= t - 1 && shape(p1.children@[q], t, hc) by {
        if q != i && q != i + 1 {
            assert(p1.children@[q] == p0.children@[q]);
        }
    }
}

/// A node whose keys are those of `l` and whose children lay out as those of `l`
/// lays out as `l`.
proof fn lemma_layout_of(n: Node, l: Layout)
    requires
        n.keys@ == l.keys,
        n.children.len() == l.children.len(),
        forall|q: int| 0 <= q < n.children.len() ==> layout(#[trigger] n.children@[q]) == l.children[q],
    ensures
        layout(n) == l,
{
    lemma_layout(n);
    assert(layout(n).children =~= l.children);
}

proof fn lemma_merge_layout(p0: Node, p1: Node, i: int)
    requires
        0 <= i,
        i + 1 < p0.children.len(),
        i < p0.keys.len(),
        p1.keys@ == p0.keys@.remove(i),
        p1.children@ == p0.children@.remove(i + 1).update(i, p1.children@[i]),
        p1.children@[i].keys@ == p0.children@[i].keys@.push(p0.keys@[i]) + p0.children@[i + 1].keys@,
        p1.children@[i].children@ == p0.children@[i].children@ + p0.children@[i + 1].children@,
    ensures
        layout(p1) == merge_layout(layout(p0), i),
{
    let l = p0.children@[i];
    let r = p0.children@[i + 1];
    let m = p1.children@[i];
    let g = merge_layout(layout(p0), i);
    lemma_layout(p0);
    lemma_layout(l);
    lemma_layout(r);
    assert forall|q: int| 0 <= q < m.children.len() implies layout(#[trigger] m.children@[q])
        == g.children[i].children[q] by {
        if q < l.children.len() {
            assert(m.children@[q] == l.children@[q]);
        } else {
            assert(m.children@[q] == r.children@[q - l.children.len()]);
        }
    }
    lemma_layout_of(m, g.children[i]);
    assert forall|q: int| 0 <= q < p1.children.len() implies layout(#[trigger] p1.children@[q])
        == g.children[q] by {
        if q < i {
            assert(p1.children@[q] == p0.children@[q]);
        } else if q > i {
            assert(p1.children@[q] == p0.children@[q + 1]);
        }
    }
    lemma_layout_of(p1, g);
}

proof fn lemma_rotate_right_layout(p0: Node, p1: Node, i: int)
    requires
        0 <= i,
        i + 1 < p0.children.len(),
        i < p0.keys.len(),
        p0.children@[i].keys.len() > 0,
        p1.keys@ == p0.keys@.update(i, p0.children@[i].keys@.last()),
        p1.children@ == p0.children@.update(i, p1.children@[i]).update(i + 1, p1.children@[i + 1]),
        p1.children@[i].keys@ == p0.children@[i].keys@.drop_last(),
        p1.children@[i + 1].keys@ == seq![p0.keys@[i]] + p0.children@[i + 1].keys@,
        p0.children@[i].children.len() == 0 ==> p1.children@[i].children.len() == 0
            && p1.children@[i + 1].children.len() == 0,
        p0.children@[i].children.len() > 0 ==> p1.children@[i].children@
            == p0.children@[i].children@.drop_last() && p1.children@[i + 1].children@
            == seq![p0.children@[i].children@.last()] + p0.children@[i + 1].children@,
    ensures
        layout(p1) == rotate_right_layout(layout(p0), i),
{
    let l = p0.children@[i];
    let r = p0.children@[i + 1];
    let l1 = p1.children@[i];
    let r1 = p1.children@[i + 1];
    let g = rotate_right_layout(layout(p0), i);
    lemma_layout(p0);
    lemma_layout(l);
    lemma_layout(r);
    assert forall|q: int| 0 <= q < l1.children.len() implies layout(#[trigger] l1.children@[q])
        == g.children[i].children[q] by {
        assert(l1.children@[q] == l.children@[q]);
    }
    lemma_layout_of(l1, g.children[i]);
    assert forall|q: int| 0 <= q < r1.children.len() implies layout(#[trigger] r1.children@[q])
        == g.children[i + 1].children[q] by {
        if q == 0 {
            assert(r1.children@[q] == l.children@[l.children.len() - 1]);
        } else {
            assert(r1.children@[q] == r.children@[q - 1]);
        }
    }
    lemma_layout_of(r1, g.children[i + 1]);
    assert forall|q: int| 0 <= q < p1.children.len() implies layout(#[trigger] p1.children@[q])
        == g.children[q] by {
        if q != i && q != i + 1 {
            assert(p1.children@[q] == p0.children@[q]);
        }
    }
    lemma_layout_of(p1, g);
}

proof fn lemma_rotate_left_layout(p0: Node, p1: Node, i: int)
    requires
        0 <= i,
        i + 1 < p0.children.len(),
        i < p0.keys.len(),
        p0.children@[i + 1].keys.len() > 0,
        p1.keys@ == p0.keys@.update(i, p0.children@[i + 1].keys@[0]),
        p1.children@ == p0.children@.update(i, p1.children@[i]).update(i + 1, p1.children@[i + 1]),
        p1.children@[i].keys@ == p0.children@[i].keys@.push(p0.keys@[i]),
        p1.children@[i + 1].keys@ == p0.children@[i + 1].keys@.skip(1),
        p0.children@[i + 1].children.len() == 0 ==> p1.children@[i].children.len() == 0
            && p1.children@[i + 1].children.len() == 0,
        p0.children@[i + 1].children.len() > 0 ==> p1.children@[i].children@
            == p0.children@[i].children@.push(p0.children@[i + 1].children@[0])
            && p1.children@[i + 1].children@ == p0.children@[i + 1].children@.skip(1),
    ensures
        layout(p1) == rotate_left_layout(layout(p0), i),
{
    let l = p0.children@[i];
    let r = p0.children@[i + 1];
    let l1 = p1.children@[i];
    let r1 = p1.children@[i + 1];
    let g = rotate_left_layout(layout(p0), i);
    lemma_layout(p0);
    lemma_layout(l);
    lemma_layout(r);
    assert forall|q: int| 0 <= q < l1.children.len() implies layout(#[trigger] l1.children@[q])
        == g.children[i].children[q] by {
        if q < l.children.len() {
            assert(l1.children@[q] == l.children@[q]);
        } else {
            assert(l1.children@[q] == r.children@[0]);
        }
    }
    lemma_layout_of(l1, g.children[i]);
    assert forall|q: int| 0 <= q < r1.children.len() implies layout(#[trigger] r1.children@[q])
        == g.children[i + 1].children[q] by {
        assert(r1.children@[q] == r.children@[q + 1]);
    }
    lemma_layout_of(r1, g.children[i + 1]);
    assert forall|q: int| 0 <= q < p1.children.len() implies layout(#[trigger] p1.children@[q])
        == g.children[q] by {
        if q != i && q != i + 1 {
            assert(p1.children@[q] == p0.children@[q]);
        }
    }
    lemma_layout_of(p1, g);
}

/// Merges children `i` and `i + 1` of `p`, both of `t - 1` keys, around the key
/// between them into one child of `2t - 1` keys.
fn merge_children(p: &mut Node, i: usize, t: usize, Ghost(h): Ghost<nat>)
    requires
        2 <= t,
        h > 0,
        shape(*old(p), t as nat, h),
        i + 1 < old(p).children.len(),
        old(p).children@[i as int].keys.len() == t - 1,
        old(p).children@[i + 1].keys.len() == t - 1,
    ensures
        shape(*final(p), t as nat, h),
        inorder(*final(p)) == inorder(*old(p)),
        final(p).keys@ == old(p).keys@.remove(i as int),
        final(p).children.len() == old(p).children.len() - 1,
        final(p).children@[i as int].keys.len() == 2 * t - 1,
        final(p).children@ == old(p).children@.remove(i + 1).update(i as int, final(p).children@[i as int]),
        final(p).children@[i as int].keys@ == old(p).children@[i as int].keys@.push(old(p).keys@[i as int])
            + old(p).children@[i + 1].keys@,
        final(p).children@[i as int].children@ == old(p).children@[i as int].children@ + old(
            p,
        ).children@[i + 1].children@,
        final(p).children@[i as int].leaf == old(p).children@[i as int].leaf,
        final(p).leaf == old(p).leaf,
        layout(*final(p)) == merge_layout(layout(*old(p)), i as int),
{
    let ghost p0 = *p;
    let sep = p.keys.remove(i);
    let mut right = p.children.remove(i + 1);
    let ghost l = p.children@[i as int];
    let ghost r = right;
    p.children[i].keys.push(sep);
    p.children[i].keys.append(&mut right.keys);
    p.children[i].children.append(&mut right.children);
    proof {
        let m = p.children@[i as int];
        assert(m.keys@ =~= l.keys@.push(sep) + r.keys@);
        assert(m.children@ =~= l.children@ + r.children@);
        assert(p.children@ =~= p0.children@.remove(i + 1).update(i as int, m));
        lemma_merge(p0, *p, i as int, t as nat, h);
        lemma_merge_layout(p0, *p, i as int);
    }
}

/// Moves the last key of child `i` of `p` up, and the key at slot `i` down into
/// child `i + 1`, with the child pointer between them.
fn rotate_right(p: &mut Node, i: usize, t: usize, Ghost(h): Ghost<nat>)
    requires
        2 <= t,
        h > 0,
        shape(*old(p), t as nat, h),
        i + 1 < old(p).children.len(),
        old(p).children@[i as int].keys.len() >= t,
        old(p).children@[i + 1].keys.len() < 2 * t - 1,
    ensures
        shape(*final(p), t as nat, h),
        inorder(*final(p)) == inorder(*old(p)),
        final(p).keys@ == old(p).keys@.update(i as int, old(p).children@[i as int].keys@.last()),
        final(p).children.len() == old(p).children.len(),
        final(p).children@[i as int].keys.len() == old(p).children@[i as int].keys.len() - 1,
        final(p).children@[i + 1].keys.len() == old(p).children@[i + 1].keys.len() + 1,
        final(p).children@ == old(p).children@.update(i as int, final(p).children@[i as int]).update(
            i + 1,
            final(p).children@[i + 1],
        ),
        final(p).children@[i as int].keys@ == old(p).children@[i as int].keys@.drop_last(),
        final(p).children@[i + 1].keys@ == seq![old(p).keys@[i as int]] + old(p).children@[i + 1].keys@,
        final(p).children@[i as int].leaf == old(p).children@[i as int].leaf,
        final(p).children@[i + 1].leaf == old(p).children@[i + 1].leaf,
        old(p).children@[i as int].children.len() == 0 ==> final(p).children@[i as int].children.len() == 0
            && final(p).children@[i + 1].children.len() == 0,
        old(p).children@[i as int].children.len() > 0 ==> final(p).children@[i as int].children@
            == old(p).children@[i as int].children@.drop_last() && final(p).children@[i + 1].children@
            == seq![old(p).children@[i as int].children@.last()] + old(p).children@[i + 1].children@,
        final(p).leaf == old(p).leaf,
        layout(*final(p)) == rotate_right_layout(layout(*old(p)), i as int),
{
    let ghost p0 = *p;
    proof {
        assert(shape(p0.children@[i as int], t as nat, (h - 1) as nat));
        assert(shape(p0.children@[i + 1], t as nat, (h - 1) as nat));
    }
    let lk = p.children[i].keys.pop().unwrap();
    let sep = p.keys[i];
    p.keys.set(i, lk);
    p.children[i + 1].keys.insert(0, sep);
    if !p.children[i].leaf {
        let lc = p.children[i].children.pop().unwrap();
        p.children[i + 1].children.insert(0, lc);
    }
    proof {
        let p1 = *p;
        assert(p1.children@ =~= p0.children@.update(i as int, p1.children@[i as int]).update(
            i + 1,
            p1.children@[i + 1],
        ));
        assert(p0.children@[i as int].keys@ =~= p1.children@[i as int].keys@.push(lk));
        assert(p1.children@[i + 1].keys@ =~= seq![sep] + p0.children@[i + 1].keys@);
        if p0.children@[i as int].children.len() > 0 {
            assert(p0.children@[i as int].children@ =~= p1.children@[i as int].children@.push(
                p0.children@[i as int].children@.last(),
            ));
            assert(p1.children@[i + 1].children@ =~= seq![p0.children@[i as int].children@.last()]
                + p0.children@[i + 1].children@);
        }
        lemma_rotate_right(p0, p1, i as int, t as nat, h);
        assert(p1.children@[i as int].keys@ =~= p0.children@[i as int].keys@.drop_last());
        if p0.children@[i as int].children.len() > 0 {
            assert(p1.children@[i as int].children@ =~= p0.children@[i as int].children@.drop_last());
        }
        lemma_rotate_right_layout(p0, p1, i as int);
    }
}

/// Moves the first key of child `i + 1` of `p` up, and the key at slot `i` down
/// into child `i`, with the child pointer between them.
fn rotate_left(p: &mut Node, i: usize, t: usize, Ghost(h): Ghost<nat>)
    requires
        2 <= t,
        h > 0,
        shape(*old(p), t as nat, h),
        i + 1 < old(p).children.len(),
        old(p).children@[i + 1].keys.len() >= t,
        old(p).children@[i as int].keys.len() < 2 * t - 1,
    ensures
        shape(*final(p), t as nat, h),
        inorder(*final(p)) == inorder(*old(p)),
        final(p).keys@ == old(p).keys@.update(i as int, old(p).children@[i + 1].keys@[0]),
        final(p).children.len() == old(p).children.len(),
        final(p).children@[i as int].keys.len() == old(p).children@[i as int].keys.len() + 1,
        final(p).children@[i + 1].keys.len() == old(p).children@[i + 1].keys.len() - 1,
        final(p).children@ == old(p).children@.update(i as int, final(p).children@[i as int]).update(
            i + 1,
            final(p).children@[i + 1],
        ),
        final(p).children@[i as int].keys@ == old(p).children@[i as int].keys@.push(old(p).keys@[i as int]),
        final(p).children@[i + 1].keys@ == old(p).children@[i + 1].keys@.skip(1),
        final(p).children@[i as int].leaf == old(p).children@[i as int].leaf,
        final(p).children@[i + 1].leaf == old(p).children@[i + 1].leaf,
        old(p).children@[i + 1].children.len() == 0 ==> final(p).children@[i as int].children.len() == 0
            && final(p).children@[i + 1].children.len() == 0,
        old(p).children@[i + 1].children.len() > 0 ==> final(p).children@[i as int].children@
            == old(p).children@[i as int].children@.push(old(p).children@[i + 1].children@[0])
            && final(p).children@[i + 1].children@ == old(p).children@[i + 1].children@.skip(1),
        final(p).leaf == old(p).leaf,
        layout(*final(p)) == rotate_left_layout(layout(*old(p)), i as int),
{
    let ghost p0 = *p;
    proof {
        assert(shape(p0.children@[i as int], t as nat, (h - 1) as nat));
        assert(shape(p0.children@[i + 1], t as nat, (h - 1) as nat));
    }
    let rk = p.children[i + 1].keys.remove(0);
    let sep = p.keys[i];
    p.keys.set(i, rk);
    p.children[i].keys.push(sep);
    if !p.children[i + 1].leaf {
        let rc = p.children[i + 1].children.remove(0);
        p.children[i].children.push(rc);
    }
    proof {
        let p1 = *p;
        assert(p1.children@ =~= p0.children@.update(i as int, p1.children@[i as int]).update(
            i + 1,
            p1.children@[i + 1],
        ));
        assert(p0.children@[i + 1].keys@ =~= seq![rk] + p1.children@[i + 1].keys@);
        if p0.children@[i + 1].children.len() > 0 {
            assert(p0.children@[i + 1].children@ =~= seq![p0.children@[i + 1].children@[0]]
                + p1.children@[i + 1].children@);
        }
        lemma_rotate_left(p0, p1, i as int, t as nat, h);
        assert(p1.children@[i + 1].keys@ =~= p0.children@[i + 1].keys@.skip(1));
        if p0.children@[i + 1].children.len() > 0 {
            assert(p1.children@[i + 1].children@ =~= p0.children@[i + 1].children@.skip(1));
        }
        lemma_rotate_left_layout(p0, p1, i as int);
    }
}

/// In a sorted node, every key under child `i` lies between the keys around it.
proof fn lemma_child_bounds(n: Node, i: int, e: usize)
    requires
        n.children.len() == n.keys.len() + 1,
        sorted(inorder(n)),
        0 <= i < n.children.len(),
        inorder(n.children@[i]).contains(e),
    ensures
        i < n.keys.len() ==> e < n.keys@[i],
        i > 0 ==> n.keys@[i - 1] < e,
        sorted(inorder(n.children@[i])),
{
    let a = before(n, i);
    let c = inorder(n.children@[i]);
    let b = after(n, i);
    lemma_decompose(n, i);
    lemma_sorted_concat(a + c, b);
    lemma_sorted_concat(a, c);
    let m = choose|m: int| 0 <= m < c.len() && c[m] == e;
    if i < n.keys.len() {
        assert((a + c)[a.len() + m] == e);
        assert(b[0] == n.keys@[i]);
    }
    if i > 0 {
        lemma_before_last(n, i);
    }
}

/// The keys of a sorted node increase.
proof fn lemma_keys_increase(n: Node, t: nat, h: nat, i: int)
    requires
        2 <= t,
        h > 0,
        shape(n, t, h),
        sorted(inorder(n)),
        0 <= i,
        i + 1 < n.keys.len(),
    ensures
        n.keys@[i] < n.keys@[i + 1],
{
    let c = n.children@[i + 1];
    assert(c.keys.len() >= t - 1 && shape(c, t, (h - 1) as nat));
    lemma_key_in_walk(c, 0);
    lemma_child_bounds(n, i + 1, c.keys@[0]);
}

/// Every child of a sorted node is sorted.
proof fn lemma_child_sorted(n: Node, i: int)
    requires
        n.children.len() > 0,
        sorted(inorder(n)),
        0 <= i < n.children.len(),
    ensures
        sorted(inorder(n.children@[i])),
{
    let a = before(n, i);
    let c = inorder(n.children@[i]);
    let b = after(n, i);
    lemma_decompose(n, i);
    lemma_sorted_concat(a + c, b);
    lemma_sorted_concat(a, c);
}

/// Taking `k` out of a sorted `a + [k] + b`.
proof fn lemma_sorted_remove(a: Seq<usize>, k: usize, b: Seq<usize>)
    requires
        sorted(a + seq![k] + b),
    ensures
        sorted(a + b),
        forall|e: usize| #[trigger] (a + b).contains(e) <==> ((a + seq![k] + b).contains(e) && e != k),
{
    let s = seq![k];
    lemma_sorted_concat(a + s, b);
    lemma_sorted_concat(a, s);
    assert forall|i: int, j: int| 0 <= i < a.len() && 0 <= j < b.len() implies a[i] < b[j] by {
        assert((a + s)[i] == a[i]);
        assert((a + s)[a.len() as int] == k);
        assert(a[i] < s[0]);
    }
    lemma_sorted_concat(a, b);
    lemma_contains_concat(a, b);
    lemma_contains_concat(a + s, b);
    lemma_contains_concat(a, s);
    assert forall|e: usize| s.contains(e) implies e == k by {
        assert(s[0] == k);
    }
    if a.contains(k) {
        let m = choose|m: int| 0 <= m < a.len() && a[m] == k;
        assert((a + s)[m] == k && (a + s)[a.len() as int] == k);
    }
    if b.contains(k) {
        let m = choose|m: int| 0 <= m < b.len() && b[m] == k;
        assert((a + s)[a.len() as int] == k);
    }
}

/// Removes and returns the largest key under `node`, which holds at least `t` keys.
fn delete_predecessor(node: &mut Node, t: usize, Ghost(h): Ghost<nat>) -> (r: usize)
    requires
        2 <= t,
        shape(*old(node), t as nat, h),
        old(node).keys.len() >= t,
        sorted(inorder(*old(node))),
    ensures
        shape(*final(node), t as nat, h),
        final(node).keys.len() >= t - 1,
        inorder(*old(node)) == inorder(*final(node)).push(r),
        (layout(*final(node)), r) == delete_max_layout(layout(*old(node)), t as nat, h),
    decreases h,
{
    let ghost n0 = *node;
    proof {
        lemma_layout(n0);
    }
    if node.leaf {
        let r = node.keys.pop().unwrap();
        proof {
            assert(n0.keys@ =~= node.keys@.push(r));
            lemma_layout(*node);
            assert(layout(*node).keys =~= n0.keys@.drop_last());
            assert(layout(*node).children =~= layout(n0).children);
        }
        return r;
    }
    let last = node.keys.len();
    proof {
        lemma_layout(n0.children@[last as int]);
        lemma_layout(n0.children@[last - 1]);
    }
    proof {
        assert(shape(n0.children@[last as int], t as nat, (h - 1) as nat));
        assert(shape(n0.children@[last - 1], t as nat, (h - 1) as nat));
    }
    if node.children[last].keys.len() < t {
        if node.children[last - 1].keys.len() >= t {
            rotate_right(node, last - 1, t, Ghost(h));
        } else {
            merge_children(node, last - 1, t, Ghost(h));
        }
    }
    let ghost n1 = *node;
    let j = node.children.len() - 1;
    proof {
        assert(n1.children@[j as int].keys.len() >= t);
        assert(shape(n1.children@[j as int], t as nat, (h - 1) as nat));
        lemma_child_sorted(n1, j as int);
    }
    let r = delete_predecessor(&mut node.children[j], t, Ghost((h - 1) as nat));
    proof {
        let n2 = *node;
        lemma_update_layout(n1, n2, j as int);
        lemma_layout(n1);
        assert(n2.children@ == n1.children@.update(j as int, n2.children@[j as int]));
        lemma_replace_child(n1, n2, j as int);
        lemma_decompose(n1, j as int);
        lemma_decompose(n2, j as int);
        lemma_after_last(n1);
        assert(inorder(n1) =~= inorder(n2).push(r));
        assert forall|q: int| 0 <= q < n2.children.len() implies (#[trigger] n2.children@[q]).keys.len()
            >= t - 1 && shape(n2.children@[q], t as nat, (h - 1) as nat) by {
            if q != j {
                assert(n2.children@[q] == n1.children@[q]);
            }
        }
    }
    r
}

/// Removes and returns the smallest key under `node`, which holds at least `t` keys.
fn delete_successor(node: &mut Node, t: usize, Ghost(h): Ghost<nat>) -> (r: usize)
    requires
        2 <= t,
        shape(*old(node), t as nat, h),
        old(node).keys.len() >= t,
        sorted(inorder(*old(node))),
    ensures
        shape(*final(node), t as nat, h),
        final(node).keys.len() >= t - 1,
        inorder(*old(node)) == seq![r] + inorder(*final(node)),
        (layout(*final(node)), r) == delete_min_layout(layout(*old(node)), t as nat, h),
    decreases h,
{
    let ghost n0 = *node;
    proof {
        lemma_layout(n0);
    }
    if node.leaf {
        let r = node.keys.remove(0);
        proof {
            assert(n0.keys@ =~= seq![r] + node.keys@);
            lemma_layout(*node);
            assert(layout(*node).keys =~= n0.keys@.skip(1));
            assert(layout(*node).children =~= layout(n0).children);
        }
        return r;
    }
    proof {
        lemma_layout(n0.children@[0]);
        lemma_layout(n0.children@[1]);
    }
    proof {
        assert(shape(n0.children@[0], t as nat, (h - 1) as nat));
        assert(shape(n0.children@[1], t as nat, (h - 1) as nat));
    }
    if node.children[0].keys.len() < t {
        if node.children[1].keys.len() >= t {
            rotate_left(node, 0, t, Ghost(h));
        } else {
            merge_children(node, 0, t, Ghost(h));
        }
    }
    let ghost n1 = *node;
    proof {
        assert(n1.children@[0].keys.len() >= t);
        assert(shape(n1.children@[0], t as nat, (h - 1) as nat));
        lemma_child_sorted(n1, 0);
    }
    let r = delete_successor(&mut node.children[0], t, Ghost((h - 1) as nat));
    proof {
        let n2 = *node;
        lemma_update_layout(n1, n2, 0);
        lemma_layout(n1);
        assert(n2.children@ == n1.children@.update(0, n2.children@[0]));
        lemma_replace_child(n1, n2, 0);
        lemma_decompose(n1, 0);
        lemma_decompose(n2, 0);
        assert(before(n1, 0) =~= Seq::<usize>::empty());
        assert(inorder(n1) =~= seq![r] + inorder(n2));
        assert forall|q: int| 0 <= q < n2.children.len() implies (#[trigger] n2.children@[q]).keys.len()
            >= t - 1 && shape(n2.children@[q], t as nat, (h - 1) as nat) by {
            if q != 0 {
                assert(n2.children@[q] == n1.children@[q]);
            }
        }
    }
    r
}

/// Child `i` of `n` has a left sibling that can spare a key.
pub open spec fn left_can_lend(n: Node, i: int, t: nat) -> bool {
    i > 0 && n.children@[i - 1].keys.len() >= t
}

/// Child `i` of `n` has a right sibling that can spare a key.
pub open spec fn right_can_lend(n: Node, i: int, t: nat) -> bool {
    i < n.keys.len() && n.children@[i + 1].keys.len() >= t
}

/// A node without keys and with one child walks as that child does.
proof fn lemma_only_child(n: Node)
    requires
        n.keys.len() == 0,
        n.children.len() == 1,
    ensures
        inorder(n) == inorder(n.children@[0]),
{
    let c = n.children@[0];
    lemma_inorder_pieces(n);
    assert(inorder(c) + key_piece(n, 0) =~= inorder(c));
    assert(pieces(n) =~= seq![inorder(c)]);
    pieces(n).lemma_flatten_singleton();
}

/// Gives child `i` of `node`, which holds `t - 1` keys and covers `key`, a key
/// more: from a sibling that can spare one (the left one first), or else by a
/// merge with a sibling. Returns the index of the child that now covers `key`.
fn reinforce_child(node: &mut Node, i: usize, key: usize, t: usize, Ghost(h): Ghost<nat>) -> (j: usize)
    requires
        2 <= t,
        h > 0,
        shape(*old(node), t as nat, h),
        old(node).keys.len() >= 1,
        sorted(inorder(*old(node))),
        routes(*old(node), i as int, key),
        old(node).children@[i as int].keys.len() < t,
    ensures
        shape(*final(node), t as nat, h),
        inorder(*final(node)) == inorder(*old(node)),
        final(node).keys.len() + 1 >= old(node).keys.len(),
        j < final(node).children.len(),
        routes(*final(node), j as int, key),
        final(node).children@[j as int].keys.len() >= t,
        left_can_lend(*old(node), i as int, t as nat) ==> j == i && final(node).keys@ == old(
            node,
        ).keys@.update(i - 1, old(node).children@[i - 1].keys@.last())
            && final(node).children@[i as int].keys@ == seq![old(node).keys@[i - 1]] + old(
            node,
        ).children@[i as int].keys@,
        !left_can_lend(*old(node), i as int, t as nat) && right_can_lend(*old(node), i as int, t as nat)
            ==> j == i && final(node).keys@ == old(node).keys@.update(
            i as int,
            old(node).children@[i + 1].keys@[0],
        ) && final(node).children@[i as int].keys@ == old(node).children@[i as int].keys@.push(
            old(node).keys@[i as int],
        ),
        !left_can_lend(*old(node), i as int, t as nat) && !right_can_lend(*old(node), i as int, t as nat)
            ==> j == (if i > 0 { i - 1 } else { i as int }) && final(node).keys@ == old(node).keys@.remove(
            j as int,
        ) && final(node).children@[j as int].keys@ == old(node).children@[j as int].keys@.push(
            old(node).keys@[j as int],
        ) + old(node).children@[j + 1].keys@,
        (layout(*final(node)), j as int) == reinforce_layout(layout(*old(node)), i as int, t as nat),
{
    let ghost n0 = *node;
    proof {
        lemma_layout(n0);
        assert(n0.children@[i as int].keys.len() >= t - 1);
        if i > 0 {
            lemma_layout(n0.children@[i - 1]);
            assert(shape(n0.children@[i - 1], t as nat, (h - 1) as nat));
            assert(n0.children@[i - 1].keys.len() >= t - 1);
        }
        if i < n0.keys.len() {
            lemma_layout(n0.children@[i + 1]);
            assert(shape(n0.children@[i + 1], t as nat, (h - 1) as nat));
            assert(n0.children@[i + 1].keys.len() >= t - 1);
        }
    }
    if i > 0 && node.children[i - 1].keys.len() >= t {
        rotate_right(node, i - 1, t, Ghost(h));
        proof {
            let c = n0.children@[i - 1];
            let lk = c.keys@.last();
            lemma_key_in_walk(c, c.keys.len() - 1);
            lemma_child_bounds(n0, i - 1, lk);
        }
        i
    } else if i < node.keys.len() && node.children[i + 1].keys.len() >= t {
        rotate_left(node, i, t, Ghost(h));
        proof {
            let c = n0.children@[i + 1];
            lemma_key_in_walk(c, 0);
            lemma_child_bounds(n0, i + 1, c.keys@[0]);
        }
        i
    } else if i > 0 {
        merge_children(node, i - 1, t, Ghost(h));
        i - 1
    } else {
        merge_children(node, i, t, Ghost(h));
        proof {
            if i + 1 < n0.keys.len() {
                lemma_keys_increase(n0, t as nat, h, i as int);
            }
        }
        i
    }
}

/// The node `n1` is `n0` with key `i` replaced by the largest key under child
/// `i`, which child `i` gave up.
proof fn lemma_take_predecessor(n0: Node, n1: Node, i: int, pred: usize, t: nat, h: nat)
    requires
        h > 0,
        shape(n0, t, h),
        sorted(inorder(n0)),
        0 <= i < n0.keys.len(),
        n1.leaf == n0.leaf,
        n1.keys@ == n0.keys@.update(i, pred),
        n1.children@ == n0.children@.update(i, n1.children@[i]),
        n1.children@[i].keys.len() >= t - 1,
        shape(n1.children@[i], t, (h - 1) as nat),
        inorder(n0.children@[i]) == inorder(n1.children@[i]).push(pred),
    ensures
        shape(n1, t, h),
        sorted(inorder(n1)),
        forall|e: usize| #[trigger]
            inorder(n1).contains(e) <==> (inorder(n0).contains(e) && e != n0.keys@[i]),
{
    let key = n0.keys@[i];
    assert(n1.children@ =~= n0.children@.update(i, n1.children@[i]).update(i + 1, n1.children@[i + 1]));
    lemma_replace_pair(n0, n1, i);
    lemma_decompose2(n0, i);
    lemma_decompose2(n1, i);
    let x = before(n0, i) + inorder(n1.children@[i]) + seq![pred];
    let y = inorder(n0.children@[i + 1]) + after(n0, i + 1);
    assert(inorder(n0) =~= x + seq![key] + y);
    assert(inorder(n1) =~= x + y);
    lemma_sorted_remove(x, key, y);
    assert forall|q: int| 0 <= q < n1.children.len() implies (#[trigger] n1.children@[q]).keys.len()
        >= t - 1 && shape(n1.children@[q], t, (h - 1) as nat) by {
        if q != i {
            assert(n1.children@[q] == n0.children@[q]);
        }
    }
}

/// The node `n1` is `n0` with key `i` replaced by the smallest key under child
/// `i + 1`, which child `i + 1` gave up.
proof fn lemma_take_successor(n0: Node, n1: Node, i: int, succ: usize, t: nat, h: nat)
    requires
        h > 0,
        shape(n0, t, h),
        sorted(inorder(n0)),
        0 <= i < n0.keys.len(),
        n1.leaf == n0.leaf,
        n1.keys@ == n0.keys@.update(i, succ),
        n1.children@ == n0.children@.update(i + 1, n1.children@[i + 1]),
        n1.children@[i + 1].keys.len() >= t - 1,
        shape(n1.children@[i + 1], t, (h - 1) as nat),
        inorder(n0.children@[i + 1]) == seq![succ] + inorder(n1.children@[i + 1]),
    ensures
        shape(n1, t, h),
        sorted(inorder(n1)),
        forall|e: usize| #[trigger]
            inorder(n1).contains(e) <==> (inorder(n0).contains(e) && e != n0.keys@[i]),
{
    let key = n0.keys@[i];
    assert(n1.children@ =~= n0.children@.update(i, n1.children@[i]).update(i + 1, n1.children@[i + 1]));
    lemma_replace_pair(n0, n1, i);
    lemma_decompose2(n0, i);
    lemma_decompose2(n1, i);
    let x = before(n0, i) + inorder(n0.children@[i]);
    let y = seq![succ] + inorder(n1.children@[i + 1]) + after(n0, i + 1);
    assert(inorder(n0) =~= x + seq![key] + y);
    assert(inorder(n1) =~= x + y);
    lemma_sorted_remove(x, key, y);
    assert forall|q: int| 0 <= q < n1.children.len() implies (#[trigger] n1.children@[q]).keys.len()
        >= t - 1 && shape(n1.children@[q], t, (h - 1) as nat) by {
        if q != i + 1 {
            assert(n1.children@[q] == n0.children@[q]);
        }
    }
}

/// Removes `key`, which stands at slot `i` of the internal node `node`.
fn delete_internal_node(node: &mut Node, i: usize, key: usize, t: usize, Ghost(h): Ghost<nat>)
    requires
        2 <= t,
        h > 0,
        shape(*old(node), t as nat, h),
        sorted(inorder(*old(node))),
        i < old(node).keys.len(),
        old(node).keys@[i as int] == key,
        forall|q: int| 0 <= q < i ==> old(node).keys@[q] < key,
    ensures
        shape(*final(node), t as nat, h),
        final(node).keys.len() + 1 >= old(node).keys.len(),
        sorted(inorder(*final(node))),
        forall|e: usize| #[trigger]
            inorder(*final(node)).contains(e) <==> (inorder(*old(node)).contains(e) && e != key),
        old(node).children@[i as int].keys.len() >= t ==> final(node).keys@ == old(node).keys@.update(
            i as int,
            inorder(old(node).children@[i as int]).last(),
        ),
        old(node).children@[i as int].keys.len() < t && old(node).children@[i + 1].keys.len() >= t
            ==> final(node).keys@ == old(node).keys@.update(
            i as int,
            inorder(old(node).children@[i + 1])[0],
        ),
        old(node).children@[i as int].keys.len() < t && old(node).children@[i + 1].keys.len() < t
            ==> final(node).keys@ == old(node).keys@.remove(i as int),
        layout(*final(node)) == delete_internal_layout(layout(*old(node)), i as int, key, t as nat, h),
    decreases h, 0nat,
{
    let ghost n0 = *node;
    proof {
        lemma_layout(n0);
        lemma_layout(n0.children@[i as int]);
        lemma_layout(n0.children@[i + 1]);
        assert(n0.children@[i as int].keys.len() >= t - 1);
        assert(shape(n0.children@[i as int], t as nat, (h - 1) as nat));
        assert(n0.children@[i + 1].keys.len() >= t - 1);
        assert(shape(n0.children@[i + 1], t as nat, (h - 1) as nat));
        lemma_child_sorted(n0, i as int);
        lemma_child_sorted(n0, i + 1);
    }
    if node.children[i].keys.len() >= t {
        let pred = delete_predecessor(&mut node.children[i], t, Ghost((h - 1) as nat));
        node.keys.set(i, pred);
        proof {
            lemma_take_predecessor(n0, *node, i as int, pred, t as nat, h);
            lemma_update_layout(n0, *node, i as int);
        }
    } else if node.children[i + 1].keys.len() >= t {
        let succ = delete_successor(&mut node.children[i + 1], t, Ghost((h - 1) as nat));
        node.keys.set(i, succ);
        proof {
            lemma_take_successor(n0, *node, i as int, succ, t as nat, h);
            lemma_update_layout(n0, *node, i + 1);
        }
    } else {
        merge_children(node, i, t, Ghost(h));
        let ghost n1 = *node;
        proof {
            if i + 1 < n0.keys.len() {
                lemma_keys_increase(n0, t as nat, h, i as int);
            }
            assert(routes(n1, i as int, key));
            assert(shape(n1.children@[i as int], t as nat, (h - 1) as nat));
            lemma_route(n1, i as int, key);
        }
        delete_from_node(&mut node.children[i], key, t, Ghost((h - 1) as nat));
        proof {
            let n2 = *node;
            lemma_update_layout(n1, n2, i as int);
            lemma_layout(n1);
            assert(n2.children@ == n1.children@.update(i as int, n2.children@[i as int]));
            lemma_child_update(n1, n2, i as int, key, false);
            assert forall|q: int| 0 <= q < n2.children.len() implies (#[trigger] n2.children@[q]).keys.len()
                >= t - 1 && shape(n2.children@[q], t as nat, (h - 1) as nat) by {
                if q != i {
                    assert(n2.children@[q] == n1.children@[q]);
                }
            }
        }
    }
}

/// Removes `key` from under `node`, if it is there, and says whether it was.
fn delete_from_node(node: &mut Node, key: usize, t: usize, Ghost(h): Ghost<nat>) -> (r: bool)
    requires
        2 <= t,
        shape(*old(node), t as nat, h),
        h > 0 ==> old(node).keys.len() >= 1,
        sorted(inorder(*old(node))),
    ensures
        shape(*final(node), t as nat, h),
        final(node).keys.len() + 1 >= old(node).keys.len(),
        sorted(inorder(*final(node))),
        r == inorder(*old(node)).contains(key),
        forall|e: usize| #[trigger]
            inorder(*final(node)).contains(e) <==> (inorder(*old(node)).contains(e) && e != key),
        h > 0 ==> final(node).keys.len() <= old(node).keys.len(),
        h > 0 && old(node).keys.len() == 1 ==> (final(node).keys.len() == 0 <==> (old(
            node,
        ).children@[0].keys.len() < t && old(node).children@[1].keys.len() < t)),
        layout(*final(node)) == delete_node_layout(layout(*old(node)), key, t as nat, h),
    decreases h, 1nat,
{
    let ghost n0 = *node;
    proof {
        lemma_layout(n0);
    }
    let i = find_index(&node.keys, key);
    if node.leaf {
        if i < node.keys.len() && node.keys[i] == key {
            node.keys.remove(i);
            proof {
                let k0 = n0.keys@;
                assert(k0 =~= k0.take(i as int) + seq![key] + k0.skip(i + 1));
                assert(node.keys@ =~= k0.take(i as int) + k0.skip(i + 1));
                lemma_sorted_remove(k0.take(i as int), key, k0.skip(i + 1));
                assert(k0[i as int] == key);
                lemma_layout(*node);
                assert(layout(*node).keys =~= k0.remove(i as int));
                assert(layout(*node).children =~= layout(n0).children);
            }
            return true;
        }
        proof {
            if n0.keys@.contains(key) {
                let m = choose|m: int| 0 <= m < n0.keys.len() && n0.keys@[m] == key;
                if m > i {
                    assert(n0.keys@[i as int] < n0.keys@[m]);
                }
            }
        }
        return false;
    }
    if i < node.keys.len() && node.keys[i] == key {
        delete_internal_node(node, i, key, t, Ghost(h));
        proof {
            lemma_key_in_walk(n0, i as int);
        }
        return true;
    }
    let mut j = i;
    proof {
        lemma_layout(n0.children@[i as int]);
    }
    if node.children[i].keys.len() < t {
        j = reinforce_child(node, i, key, t, Ghost(h));
    }
    let ghost n1 = *node;
    proof {
        assert(n1.children@[j as int].keys.len() >= t - 1);
        assert(shape(n1.children@[j as int], t as nat, (h - 1) as nat));
        lemma_route(n1, j as int, key);
    }
    let r = delete_from_node(&mut node.children[j], key, t, Ghost((h - 1) as nat));
    proof {
        let n2 = *node;
        lemma_update_layout(n1, n2, j as int);
        lemma_layout(n1);
        assert(n2.children@ == n1.children@.update(j as int, n2.children@[j as int]));
        lemma_child_update(n1, n2, j as int, key, false);
        assert forall|q: int| 0 <= q < n2.children.len() implies (#[trigger] n2.children@[q]).keys.len()
            >= t - 1 && shape(n2.children@[q], t as nat, (h - 1) as nat) by {
            if q != j {
                assert(n2.children@[q] == n1.children@[q]);
            }
        }
    }
    r
}

/// Lying within is transitive.
proof fn lemma_within_trans(a: Node, b: Node, c: Node)
    requires
        within(a, b),
        within(b, c),
    ensures
        within(a, c),
    decreases c, c.children.len() + 1,
{
    if b != c {
        lemma_within_some_trans(a, b, c, c.children.len() as int);
    }
}

/// Lying within one of the first `i` children is carried over from a node to
/// what lies within it.
proof fn lemma_within_some_trans(a: Node, b: Node, c: Node, i: int)
    requires
        within(a, b),
        within_some(b, c, i),
    ensures
        within_some(a, c, i),
    decreases c, i,
{
    if 0 < i <= c.children.len() {
        if within(b, c.children@[i - 1]) {
            lemma_within_trans(a, b, c.children@[i - 1]);
        } else {
            lemma_within_some_trans(a, b, c, i - 1);
        }
    }
}

/// Child `i` of `m` lies within `m`.
proof fn lemma_child_within(m: Node, i: int, j: int)
    requires
        0 <= i < j <= m.children.len(),
    ensures
        within_some(m.children@[i], m, j),
    decreases j,
{
    if j - 1 == i {
        assert(within(m.children@[i], m.children@[i]));
    } else {
        lemma_child_within(m, i, j - 1);
    }
}

impl View for BTree {
    type V = Set<usize>;

    /// The keys that the tree holds.
    open spec fn view(&self) -> Set<usize> {
        inorder(self.root_node()).to_set()
    }
}

impl BTree {
    /// The root node.
    pub closed spec fn root_node(&self) -> Node {
        self.root
    }

    /// The number of levels below the root.
    pub open spec fn depth(&self) -> nat {
        height(self.root_node())
    }

    /// The minimum degree `t`.
    pub closed spec fn min_degree(&self) -> nat {
        self.degree as nat
    }

    /// A well-formed tree that holds no key is a single leaf without keys.
    pub proof fn lemma_empty_root(tree: BTree)
        requires
            tree.wf(),
            tree@ == Set::<usize>::empty(),
        ensures
            tree.root_node().keys.len() == 0,
            tree.root_node().children.len() == 0,
            tree.root_node().leaf,
            tree.depth() == 0,
    {
        let r = tree.root_node();
        if r.keys.len() > 0 {
            lemma_key_in_walk(r, 0);
            assert(tree@.contains(r.keys@[0]));
        }
    }

    /// Two trees with the same root and the same minimum degree are the same tree.
    pub proof fn lemma_equal_trees(a: BTree, b: BTree)
        requires
            a.root_node() == b.root_node(),
            a.min_degree() == b.min_degree(),
        ensures
            a == b,
    {
    }

    /// The tree is well formed: `t >= 2` (and `2t` fits in a `usize`); every node
    /// holds at most `2t - 1` keys, every node but the root at least `t - 1`, and
    /// the root at least one unless it is a leaf; every internal node has one child
    /// more than keys; all leaves lie at the same depth; and the in-order walk of
    /// the keys is strictly increasing.
    pub open spec fn wf(&self) -> bool {
        &&& 2 <= self.min_degree() <= usize::MAX / 2
        &&& shape(self.root_node(), self.min_degree(), height(self.root_node()))
        &&& height(self.root_node()) > 0 ==> self.root_node().keys.len() > 0
        &&& sorted(inorder(self.root_node()))
    }

    /// An empty tree of minimum degree `degree`.
    pub fn degree(degree: usize) -> (r: BTree)
        requires
            2 <= degree <= usize::MAX / 2,
        ensures
            r.wf(),
            r@ == Set::<usize>::empty(),
            r.min_degree() == degree,
            r.root_node().keys.len() == 0,
            r.root_node().leaf,
    {
        let r = BTree { root: Node::empty(), degree };
        proof {
            assert(r@ =~= Set::<usize>::empty());
        }
        r
    }

    /// An empty tree of order `order`, that is of minimum degree `order / 2`.
    pub fn order(order: usize) -> (r: BTree)
        requires
            4 <= order,
        ensures
            r.wf(),
            r@ == Set::<usize>::empty(),
            r.min_degree() == order / 2,
            r.root_node().keys.len() == 0,
            r.root_node().leaf,
    {
        BTree::degree(order / 2)
    }

    /// The root node.
    pub fn root(&self) -> (r: &Node)
        ensures
            *r == self.root_node(),
    {
        &self.root
    }

    /// Finds the node of the tree that holds `key`, with the 1-based slot of `key`
    /// in it.
    pub fn search(&self, key: usize) -> (r: Option<(&Node, usize)>)
        requires
            self.wf(),
        ensures
            r.is_some() == self@.contains(key),
            r matches Some((n, s)) ==> 1 <= s <= n.keys.len() && n.keys@[s - 1] == key
                && within(*n, self.root_node()),
    {
        let ghost t = self.degree as nat;
        let mut node: &Node = &self.root;
        let ghost mut h: nat = height(self.root);
        proof {
            assert(within(self.root, self.root));
        }
        loop
            invariant
                2 <= t,
                shape(*node, t, h),
                sorted(inorder(*node)),
                within(*node, self.root),
                inorder(*node).contains(key) == inorder(self.root).contains(key),
            decreases h,
        {
            let i = find_index(&node.keys, key);
            if i < node.keys.len() && node.keys[i] == key {
                proof {
                    lemma_key_in_walk(*node, i as int);
                }
                return Some((node, i + 1));
            }
            if node.leaf {
                proof {
                    if inorder(*node).contains(key) {
                        let m = choose|m: int| 0 <= m < node.keys.len() && node.keys@[m] == key;
                        if m >= i {
                            assert(node.keys@[i as int] <= node.keys@[m]);
                        }
                    }
                }
                return None;
            }
            proof {
                lemma_route(*node, i as int, key);
                let c = node.children@[i as int];
                assert(c.keys.len() >= t - 1 && shape(c, t, (h - 1) as nat));
                lemma_child_within(*node, i as int, node.children.len() as int);
                assert(within(c, *node));
                lemma_within_trans(c, *node, self.root);
                h = (h - 1) as nat;
            }
            node = &node.children[i];
        }
    }

    /// Adds `key` to the tree; a key already there is left as it is.
    pub fn insert(&mut self, key: usize)
        requires
            old(self).wf(),
        ensures
            final(self).wf(),
            final(self)@ == old(self)@.insert(key),
            final(self).min_degree() == old(self).min_degree(),
            old(self)@.contains(key) ==> *final(self) == *old(self),
            !old(self)@.contains(key) ==> layout(final(self).root_node()) == insert_layout(
                layout(old(self).root_node()),
                key,
                old(self).min_degree(),
                old(self).depth(),
            ),
            final(self).depth() == if !old(self)@.contains(key) && old(self).root_node().keys.len()
                == 2 * old(self).min_degree() - 1 {
                old(self).depth() + 1
            } else {
                old(self).depth()
            },
    {
        if self.search(key).is_some() {
            proof {
                assert(old(self)@.insert(key) =~= old(self)@);
            }
            return;
        }
        let t = self.degree;
        let ghost h0 = height(self.root);
        let ghost r0 = self.root;
        let grew = self.root.keys.len() == 2 * t - 1;
        if grew {
            let mut top = Node::new(Vec::new(), Vec::new(), false);
            std::mem::swap(&mut top, &mut self.root);
            self.root.children.push(top);
            proof {
                let r1 = self.root;
                assert(r1.children@[0] == r0);
                assert(shape(r1, t as nat, h0 + 1));
                lemma_only_child(r1);
                lemma_layout(r1);
                assert(layout(r1).keys =~= Seq::<usize>::empty());
                assert(layout(r1).children =~= seq![layout(r0)]);
                assert(layout(r1) == Layout { keys: Seq::empty(), children: seq![layout(r0)] });
            }
            split_child(&mut self.root, 0, t, Ghost(h0 + 1));
        }
        let ghost h = if grew { h0 + 1 } else { h0 };
        insert_nonfull(&mut self.root, key, t, Ghost(h));
        proof {
            lemma_height(self.root, t as nat, h);
            lemma_height(r0, t as nat, h0);
            assert(self@ =~= old(self)@.insert(key));
        }
    }

    /// Removes `key` from the tree and says whether it was there.
    pub fn delete(&mut self, key: usize) -> (r: bool)
        requires
            old(self).wf(),
        ensures
            final(self).wf(),
            r == old(self)@.contains(key),
            final(self)@ == old(self)@.remove(key),
            final(self).min_degree() == old(self).min_degree(),
            !old(self)@.contains(key) ==> *final(self) == *old(self),
            old(self)@.contains(key) ==> layout(final(self).root_node()) == delete_layout(
                layout(old(self).root_node()),
                key,
                old(self).min_degree(),
                old(self).depth(),
            ),
            final(self).depth() == old(self).depth() || final(self).depth() + 1 == old(self).depth(),
            final(self).depth() + 1 == old(self).depth() <==> (old(self)@.contains(key) && !old(
                self,
            ).root_node().leaf && old(self).root_node().keys.len() == 1
                && old(self).root_node().children@[0].keys.len() == old(self).min_degree() - 1
                && old(self).root_node().children@[1].keys.len() == old(self).min_degree() - 1),
    {
        if self.search(key).is_none() {
            proof {
                assert(old(self)@.remove(key) =~= old(self)@);
            }
            return false;
        }
        let t = self.degree;
        let ghost h = height(self.root);
        proof {
            if h > 0 {
                assert(self.root.children@[0].keys.len() >= t - 1);
                assert(self.root.children@[1].keys.len() >= t - 1);
            }
        }
        let r = delete_from_node(&mut self.root, key, t, Ghost(h));
        let ghost r1 = self.root;
        proof {
            lemma_layout(r1);
        }
        if self.root.keys.len() == 0 && !self.root.leaf {
            let child = self.root.children.pop().unwrap();
            self.root = child;
            proof {
                assert(r1.children@[0] == child);
                assert(child.keys.len() >= t - 1 && shape(child, t as nat, (h - 1) as nat));
                lemma_only_child(r1);
                lemma_height(child, t as nat, (h - 1) as nat);
            }
        } else {
            proof {
                lemma_height(self.root, t as nat, h);
            }
        }
        proof {
            assert(self@ =~= old(self)@.remove(key));
        }
        r
    }
}

/// The layout after inserting the keys 1 to `k`, in increasing order, into an
/// empty tree of minimum degree `t`.
pub open spec fn ascending_layout(t: nat, k: nat) -> Layout
    decreases k,
{
    if k == 0 {
        Layout { keys: Seq::empty(), children: Seq::empty() }
    } else {
        let prev = ascending_layout(t, (k - 1) as nat);
        insert_layout(prev, k as usize, t, layout_height(prev))
    }
}

/// Inserts the keys 1 to 19, in increasing order.
pub fn fill_btree(btree: &mut BTree)
    requires
        old(btree).wf(),
    ensures
        final(btree).wf(),
        final(btree)@ == old(btree)@.union(Set::new(|k: usize| 1 <= k <= 19)),
        final(btree).min_degree() == old(btree).min_degree(),
        old(btree)@ == Set::<usize>::empty() ==> layout(final(btree).root_node()) == ascending_layout(
            old(btree).min_degree(),
            19,
        ),
{
    proof {
        if old(btree)@ == Set::<usize>::empty() {
            BTree::lemma_empty_root(*old(btree));
            lemma_layout(old(btree).root_node());
            assert(layout(old(btree).root_node()).keys =~= Seq::<usize>::empty());
            assert(layout(old(btree).root_node()).children =~= Seq::<Layout>::empty());
        }
    }
    let mut k: usize = 1;
    while k <= 19
        invariant
            1 <= k <= 20,
            btree.wf(),
            btree@ == old(btree)@.union(Set::new(|x: usize| 1 <= x < k)),
            btree.min_degree() == old(btree).min_degree(),
            old(btree)@ == Set::<usize>::empty() ==> layout(btree.root_node()) == ascending_layout(
                btree.min_degree(),
                (k - 1) as nat,
            ),
        decreases 20 - k,
    {
        proof {
            lemma_layout_height(btree.root_node());
        }
        btree.insert(k);
        k = k + 1;
        assert(btree@ =~= old(btree)@.union(Set::new(|x: usize| 1 <= x < k)));
    }
    assert(btree@ =~= old(btree)@.union(Set::new(|x: usize| 1 <= x <= 19)));
}

} // verus!
