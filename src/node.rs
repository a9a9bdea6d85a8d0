use vstd::prelude::*;
use vstd::seq_lib::lemma_flatten_concat;

verus! {

/// A B-tree node: its keys in increasing order, its children (none for a leaf),
/// and a flag that says whether it is a leaf.
#[derive(Debug, PartialEq, Eq)]
pub struct Node {
    pub keys: Vec<usize>,
    pub children: Vec<Node>,
    pub leaf: bool,
}

impl Node {
    /// A leaf without keys.
    pub fn empty() -> (r: Node)
        ensures
            r.keys@.len() == 0,
            r.children@.len() == 0,
            r.leaf,
    {
        Node { keys: Vec::new(), children: Vec::new(), leaf: true }
    }

    /// A node made of the given parts.
    pub fn new(keys: Vec<usize>, children: Vec<Node>, leaf: bool) -> (r: Node)
        ensures
            r.keys == keys,
            r.children == children,
            r.leaf == leaf,
    {
        Node { keys, children, leaf }
    }
}

/// The key that follows child `i` in an in-order walk of `n`, if there is one.
pub open spec fn key_piece(n: Node, i: int) -> Seq<usize> {
    if 0 <= i < n.keys.len() {
        seq![n.keys@[i]]
    } else {
        Seq::empty()
    }
}

/// The keys under `n`, in the order of an in-order walk.
pub open spec fn inorder(n: Node) -> Seq<usize>
    decreases n, n.children.len() + 1,
{
    if n.children.len() == 0 {
        n.keys@
    } else {
        walk_upto(n, n.children.len() as int)
    }
}

/// The in-order walk of the first `i` children of `n`, each followed by its key.
pub open spec fn walk_upto(n: Node, i: int) -> Seq<usize>
    decreases n, i,
{
    if i <= 0 || i > n.children.len() {
        Seq::empty()
    } else {
        walk_upto(n, i - 1) + inorder(n.children@[i - 1]) + key_piece(n, i - 1)
    }
}

/// The walk of an internal node cut in pieces: child `i`'s walk, then the key after it.
pub open spec fn pieces(n: Node) -> Seq<Seq<usize>> {
    Seq::new(n.children.len() as nat, |i: int| inorder(n.children@[i]) + key_piece(n, i))
}

/// What an in-order walk of `n` meets before child `i`.
pub open spec fn before(n: Node, i: int) -> Seq<usize> {
    pieces(n).take(i).flatten()
}

/// What an in-order walk of `n` meets after child `i`.
pub open spec fn after(n: Node, i: int) -> Seq<usize> {
    key_piece(n, i) + pieces(n).skip(i + 1).flatten()
}

/// Strictly increasing.
pub open spec fn sorted(s: Seq<usize>) -> bool {
    forall|i: int, j: int| 0 <= i < j < s.len() ==> s[i] < s[j]
}

/// Length of the leftmost path from `n` down to a leaf.
pub open spec fn height(n: Node) -> nat
    decreases n,
{
    if n.children.len() == 0 {
        0
    } else {
        1 + height(n.children@[0])
    }
}

/// `n` is a B-tree node of minimum degree `t` whose leaves all lie `h` levels down:
/// at most `2t - 1` keys, one child more than keys unless it is a leaf, and every
/// child holds at least `t - 1` keys. How few keys `n` itself may hold is left to
/// whoever owns it.
pub open spec fn shape(n: Node, t: nat, h: nat) -> bool
    decreases n,
{
    &&& n.leaf == (n.children.len() == 0)
    &&& n.keys.len() <= 2 * t - 1
    &&& if h == 0 {
        n.children.len() == 0
    } else {
        &&& n.children.len() == n.keys.len() + 1
        &&& forall|i: int|
            0 <= i < n.children.len() ==> (#[trigger] n.children@[i]).keys.len() >= t - 1
                && shape(n.children@[i], t, (h - 1) as nat)
    }
}

/// The layout of a tree: the keys of its root and the layouts of its children.
pub struct Layout {
    pub keys: Seq<usize>,
    pub children: Seq<Layout>,
}

/// The layout of the tree under `n`.
pub open spec fn layout(n: Node) -> Layout
    decreases n,
{
    Layout {
        keys: n.keys@,
        children: Seq::new(
            n.children.len() as nat,
            |i: int|
                if 0 <= i < n.children.len() {
                    layout(n.children@[i])
                } else {
                    Layout { keys: Seq::empty(), children: Seq::empty() }
                },
        ),
    }
}

/// Length of the leftmost path of a layout.
pub open spec fn layout_height(l: Layout) -> nat
    decreases l,
{
    if l.children.len() == 0 {
        0
    } else {
        1 + layout_height(l.children[0])
    }
}

/// The layout of a node is made of its keys and its children's layouts.
pub proof fn lemma_layout(n: Node)
    ensures
        layout(n).keys == n.keys@,
        layout(n).children.len() == n.children.len(),
        forall|q: int| 0 <= q < n.children.len() ==> layout(n).children[q] == layout(#[trigger] n.children@[q]),
{
}

/// The height of a node is that of its layout.
pub proof fn lemma_layout_height(n: Node)
    ensures
        layout_height(layout(n)) == height(n),
    decreases n,
{
    lemma_layout(n);
    if n.children.len() > 0 {
        lemma_layout_height(n.children@[0]);
    }
}

/// The walk up to child `i` is the first `i` pieces, flattened.
pub proof fn lemma_walk_upto(n: Node, i: int)
    requires
        0 <= i <= n.children.len(),
    ensures
        walk_upto(n, i) == pieces(n).take(i).flatten(),
    decreases i,
{
    if i > 0 {
        lemma_walk_upto(n, i - 1);
        lemma_flatten_take(pieces(n), i - 1);
    } else {
        assert(pieces(n).take(0) =~= Seq::<Seq<usize>>::empty());
    }
}

/// The walk of an internal node is its pieces, flattened.
pub proof fn lemma_inorder_pieces(n: Node)
    requires
        n.children.len() > 0,
    ensures
        inorder(n) == pieces(n).flatten(),
{
    lemma_walk_upto(n, n.children.len() as int);
    assert(pieces(n).take(n.children.len() as int) =~= pieces(n));
}

/// The leftmost path of a node of shape height `h` is `h` long.
pub proof fn lemma_height(n: Node, t: nat, h: nat)
    requires
        shape(n, t, h),
    ensures
        height(n) == h,
    decreases h,
{
    if h > 0 {
        assert(n.children@[0].keys.len() >= t - 1);
        lemma_height(n.children@[0], t, (h - 1) as nat);
    }
}

/// What a concatenation contains.
pub proof fn lemma_contains_concat(a: Seq<usize>, b: Seq<usize>)
    ensures
        forall|e: usize| #[trigger] (a + b).contains(e) <==> a.contains(e) || b.contains(e),
{
    assert forall|e: usize| #[trigger] (a + b).contains(e) <==> a.contains(e) || b.contains(e) by {
        if (a + b).contains(e) {
            let j = choose|j: int| 0 <= j < (a + b).len() && (a + b)[j] == e;
            if j < a.len() {
                assert(a[j] == e);
            } else {
                assert(b[j - a.len()] == e);
            }
        }
        if a.contains(e) {
            let j = choose|j: int| 0 <= j < a.len() && a[j] == e;
            assert((a + b)[j] == e);
        }
        if b.contains(e) {
            let j = choose|j: int| 0 <= j < b.len() && b[j] == e;
            assert((a + b)[j + a.len()] == e);
        }
    }
}

/// A concatenation is sorted when both parts are and the first lies below the second.
pub proof fn lemma_sorted_concat(a: Seq<usize>, b: Seq<usize>)
    ensures
        sorted(a + b) <==> (sorted(a) && sorted(b) && forall|i: int, j: int|
            0 <= i < a.len() && 0 <= j < b.len() ==> a[i] < b[j]),
{
    let s = a + b;
    if sorted(s) {
        assert forall|i: int, j: int| 0 <= i < j < a.len() implies a[i] < a[j] by {
            assert(s[i] == a[i] && s[j] == a[j]);
        }
        assert forall|i: int, j: int| 0 <= i < j < b.len() implies b[i] < b[j] by {
            assert(s[i + a.len()] == b[i] && s[j + a.len()] == b[j]);
        }
        assert forall|i: int, j: int| 0 <= i < a.len() && 0 <= j < b.len() implies a[i] < b[j] by {
            assert(s[i] == a[i] && s[j + a.len()] == b[j]);
        }
    }
    if sorted(a) && sorted(b) && forall|i: int, j: int|
        0 <= i < a.len() && 0 <= j < b.len() ==> a[i] < b[j] {
        assert forall|i: int, j: int| 0 <= i < j < s.len() implies s[i] < s[j] by {
            if j < a.len() {
            } else if i >= a.len() {
                assert(s[i] == b[i - a.len()] && s[j] == b[j - a.len()]);
            } else {
                assert(s[i] == a[i] && s[j] == b[j - a.len()]);
            }
        }
    }
}

/// Swapping the middle `x` of a sorted `a + x + b` for a sorted `y` keeps it sorted
/// when `y` holds only elements of `x` and, where `allow` says so, `k`, which lies
/// between the end of `a` and the start of `b`.
pub proof fn lemma_sorted_swap(
    a: Seq<usize>,
    x: Seq<usize>,
    y: Seq<usize>,
    b: Seq<usize>,
    k: usize,
    allow: bool,
)
    requires
        sorted(a + x + b),
        sorted(y),
        forall|e: usize| #[trigger] y.contains(e) ==> x.contains(e) || (allow && e == k),
        allow && a.len() > 0 ==> a.last() < k,
        allow && b.len() > 0 ==> k < b[0],
    ensures
        sorted(a + y + b),
{
    lemma_sorted_concat(a + x, b);
    lemma_sorted_concat(a, x);
    assert forall|i: int, j: int| 0 <= i < a.len() && 0 <= j < y.len() implies a[i] < y[j] by {
        assert(y.contains(y[j]));
        if x.contains(y[j]) {
            let m = choose|m: int| 0 <= m < x.len() && x[m] == y[j];
            assert(a[i] < x[m]);
        } else {
            assert(a[i] <= a.last());
        }
    }
    lemma_sorted_concat(a, y);
    assert forall|i: int, j: int| 0 <= i < (a + y).len() && 0 <= j < b.len() implies (a
        + y)[i] < b[j] by {
        if i < a.len() {
            assert((a + x)[i] == a[i]);
        } else {
            let e = y[i - a.len()];
            assert(y.contains(e));
            if x.contains(e) {
                let m = choose|m: int| 0 <= m < x.len() && x[m] == e;
                assert((a + x)[m + a.len()] == e);
            } else {
                assert(b[0] <= b[j]);
            }
        }
    }
    lemma_sorted_concat(a + y, b);
}

/// Flattening respects a cut at `i`.
pub proof fn lemma_flatten_split(s: Seq<Seq<usize>>, i: int)
    requires
        0 <= i <= s.len(),
    ensures
        s.flatten() == s.take(i).flatten() + s.skip(i).flatten(),
{
    assert(s =~= s.take(i) + s.skip(i));
    lemma_flatten_concat(s.take(i), s.skip(i));
}

/// Flattening from `i` on starts with element `i`.
pub proof fn lemma_flatten_skip(s: Seq<Seq<usize>>, i: int)
    requires
        0 <= i < s.len(),
    ensures
        s.skip(i).flatten() == s[i] + s.skip(i + 1).flatten(),
{
    assert(s.skip(i).drop_first() =~= s.skip(i + 1));
    assert(s.skip(i).first() == s[i]);
}

/// Flattening up to `i + 1` ends with element `i`.
pub proof fn lemma_flatten_take(s: Seq<Seq<usize>>, i: int)
    requires
        0 <= i < s.len(),
    ensures
        s.take(i + 1).flatten() == s.take(i).flatten() + s[i],
{
    assert(s.take(i + 1) =~= s.take(i).push(s[i]));
    s.take(i).lemma_flatten_push(s[i]);
}

/// The walk of an internal node around its child `i`.
pub proof fn lemma_decompose(n: Node, i: int)
    requires
        0 <= i < n.children.len(),
    ensures
        inorder(n) == before(n, i) + inorder(n.children@[i]) + after(n, i),
{
    let p = pieces(n);
    lemma_inorder_pieces(n);
    lemma_flatten_split(p, i);
    lemma_flatten_skip(p, i);
    assert(p[i] == inorder(n.children@[i]) + key_piece(n, i));
    assert(inorder(n) =~= before(n, i) + inorder(n.children@[i]) + after(n, i));
}

/// The walk of an internal node around its children `i` and `i + 1`.
pub proof fn lemma_decompose2(n: Node, i: int)
    requires
        0 <= i,
        i + 1 < n.children.len(),
        i < n.keys.len(),
    ensures
        inorder(n) == before(n, i) + inorder(n.children@[i]) + seq![n.keys@[i]] + inorder(
            n.children@[i + 1],
        ) + after(n, i + 1),
{
    let p = pieces(n);
    lemma_decompose(n, i);
    lemma_flatten_skip(p, i + 1);
    assert(p[i + 1] == inorder(n.children@[i + 1]) + key_piece(n, i + 1));
    assert(inorder(n) =~= before(n, i) + inorder(n.children@[i]) + seq![n.keys@[i]] + inorder(
        n.children@[i + 1],
    ) + after(n, i + 1));
}

/// Before child `i > 0` the walk ends with key `i - 1`.
pub proof fn lemma_before_last(n: Node, i: int)
    requires
        0 < i < n.children.len(),
        i - 1 < n.keys.len(),
    ensures
        before(n, i).len() > 0,
        before(n, i).last() == n.keys@[i - 1],
{
    let p = pieces(n);
    lemma_flatten_take(p, i - 1);
    assert(p[i - 1] == inorder(n.children@[i - 1]) + seq![n.keys@[i - 1]]);
}

/// After the last child of a node with one child more than keys, the walk is over.
pub proof fn lemma_after_last(n: Node)
    requires
        n.children.len() == n.keys.len() + 1,
    ensures
        after(n, n.keys.len() as int) == Seq::<usize>::empty(),
{
    let i = n.keys.len() as int;
    assert(pieces(n).skip(i + 1) =~= Seq::<Seq<usize>>::empty());
    assert(after(n, i) =~= Seq::<usize>::empty());
}

/// Replacing child `i` leaves what the walk meets around it unchanged.
pub proof fn lemma_replace_child(n: Node, m: Node, i: int)
    requires
        0 <= i < n.children.len(),
        m.keys@ == n.keys@,
        m.children@ == n.children@.update(i, m.children@[i]),
    ensures
        before(m, i) == before(n, i),
        after(m, i) == after(n, i),
{
    assert(pieces(m).take(i) =~= pieces(n).take(i));
    assert(pieces(m).skip(i + 1) =~= pieces(n).skip(i + 1));
}

/// Replacing children `i` and `i + 1` and the key between them leaves what the
/// walk meets around them unchanged.
pub proof fn lemma_replace_pair(n: Node, m: Node, i: int)
    requires
        0 <= i,
        i + 1 < n.children.len(),
        i < n.keys.len(),
        m.keys@ == n.keys@.update(i, m.keys@[i]),
        m.children@ == n.children@.update(i, m.children@[i]).update(i + 1, m.children@[i + 1]),
    ensures
        before(m, i) == before(n, i),
        after(m, i + 1) == after(n, i + 1),
{
    assert(pieces(m).take(i) =~= pieces(n).take(i));
    assert(pieces(m).skip(i + 2) =~= pieces(n).skip(i + 2));
}

/// Putting two children with a key between them in place of child `i` leaves what
/// the walk meets around them unchanged.
pub proof fn lemma_widen(n: Node, m: Node, i: int)
    requires
        0 <= i < n.children.len(),
        i <= n.keys.len(),
        m.keys@ == n.keys@.insert(i, m.keys@[i]),
        m.children@ == n.children@.update(i, m.children@[i]).insert(i + 1, m.children@[i + 1]),
    ensures
        before(m, i) == before(n, i),
        after(m, i + 1) == after(n, i),
{
    assert(pieces(m).take(i) =~= pieces(n).take(i));
    assert(pieces(m).skip(i + 2) =~= pieces(n).skip(i + 1));
    assert(key_piece(m, i + 1) == key_piece(n, i));
}

/// The walk of a node made of `l`, then `k`, then `r`.
pub proof fn lemma_join(l: Node, k: usize, r: Node, j: Node)
    requires
        j.keys@ == l.keys@.push(k) + r.keys@,
        j.children@ == l.children@ + r.children@,
        (l.children.len() == 0 && r.children.len() == 0) || (l.children.len() == l.keys.len() + 1
            && r.children.len() == r.keys.len() + 1),
    ensures
        inorder(j) == inorder(l) + seq![k] + inorder(r),
{
    if l.children.len() == 0 {
        assert(inorder(j) =~= inorder(l) + seq![k] + inorder(r));
    } else {
        let pl = pieces(l);
        let pr = pieces(r);
        let a = pl.drop_last();
        let z = pl.last() + seq![k];
        assert(pieces(j) =~= a.push(z) + pr) by {
            assert forall|q: int| 0 <= q < pieces(j).len() implies pieces(j)[q] == (a.push(z)
                + pr)[q] by {
                if q < l.keys.len() {
                    assert(j.keys@[q] == l.keys@[q]);
                } else if q == l.keys.len() {
                    assert(j.keys@[q] == k);
                } else {
                    let q2 = q - l.children.len();
                    if q2 < r.keys.len() {
                        assert(j.keys@[q] == r.keys@[q2]);
                    }
                    assert(j.children@[q] == r.children@[q2]);
                }
            }
        }
        lemma_inorder_pieces(j);
        lemma_inorder_pieces(l);
        lemma_inorder_pieces(r);
        lemma_flatten_concat(a.push(z), pr);
        a.lemma_flatten_push(z);
        assert(pl =~= a.push(pl.last()));
        a.lemma_flatten_push(pl.last());
        assert(inorder(j) =~= inorder(l) + seq![k] + inorder(r));
    }
}

/// The walk of a node with one key and (unless a leaf) one child put in front.
pub proof fn lemma_push_front(r: Node, k: usize, m: Node)
    requires
        m.keys@ == seq![k] + r.keys@,
        (r.children.len() == 0 && m.children.len() == 0) || (r.children.len() == r.keys.len() + 1
            && m.children@ == seq![m.children@[0]] + r.children@),
    ensures
        r.children.len() == 0 ==> inorder(m) == seq![k] + inorder(r),
        r.children.len() > 0 ==> inorder(m) == inorder(m.children@[0]) + seq![k] + inorder(r),
{
    if r.children.len() > 0 {
        let pm = pieces(m);
        assert(pm.skip(1) =~= pieces(r)) by {
            assert forall|q: int| 0 <= q < pieces(r).len() implies pm.skip(1)[q] == pieces(r)[q] by {
                assert(m.children@[q + 1] == r.children@[q]);
                if q < r.keys.len() {
                    assert(m.keys@[q + 1] == r.keys@[q]);
                }
            }
        }
        lemma_inorder_pieces(m);
        lemma_inorder_pieces(r);
        lemma_flatten_skip(pm, 0);
        assert(pm.skip(0) =~= pm);
        assert(inorder(m) =~= inorder(m.children@[0]) + seq![k] + inorder(r));
    } else {
        assert(inorder(m) =~= seq![k] + inorder(r));
    }
}

/// The walk of a node with its last key and (unless a leaf) its last child taken off.
pub proof fn lemma_pop_back(l: Node, k: usize, m: Node)
    requires
        l.keys@ == m.keys@.push(k),
        (l.children.len() == 0 && m.children.len() == 0) || (m.children.len() == m.keys.len() + 1
            && l.children@ == m.children@.push(l.children@.last())),
    ensures
        l.children.len() == 0 ==> inorder(l) == inorder(m) + seq![k],
        l.children.len() > 0 ==> inorder(l) == inorder(m) + seq![k] + inorder(l.children@.last()),
{
    if l.children.len() > 0 {
        let pl = pieces(l);
        let pm = pieces(m);
        let c = l.children@.last();
        assert(pl =~= pm.drop_last().push(pm.last() + seq![k]).push(inorder(c))) by {
            assert forall|q: int| 0 <= q < pl.len() implies pl[q] == pm.drop_last().push(
                pm.last() + seq![k],
            ).push(inorder(c))[q] by {
                if q < m.children.len() {
                    assert(l.children@[q] == m.children@[q]);
                }
                if q < m.keys.len() {
                    assert(l.keys@[q] == m.keys@[q]);
                }
            }
        }
        lemma_inorder_pieces(l);
        lemma_inorder_pieces(m);
        let a = pm.drop_last();
        a.push(pm.last() + seq![k]).lemma_flatten_push(inorder(c));
        a.lemma_flatten_push(pm.last() + seq![k]);
        assert(pm =~= a.push(pm.last()));
        a.lemma_flatten_push(pm.last());
        assert(inorder(l) =~= inorder(m) + seq![k] + inorder(c));
    } else {
        assert(inorder(l) =~= inorder(m) + seq![k]);
    }
}

} // verus!
