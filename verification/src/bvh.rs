//! Bounding volume hierarchy over a list of primitives.
//!
//! The tree stores only its shape: for every node the index of its left child
//! (the right child always sits right after it), and for a leaf the run of
//! primitives it owns. Primitives are referred to by their index in the
//! caller's list; `prims` is the order in which the tree keeps them.
//!
//! Everything geometric (boxes, split planes, ray hits, distances) is done by
//! the caller through closures: the tree decides how the primitives are
//! partitioned, how nodes are allocated and how the two halves of a traversal
//! are combined.
use vstd::prelude::*;

verus! {

/// A node of the hierarchy.
///
/// A node with `prim_count > 0` is a leaf that owns the primitives at
/// positions `first_prim .. first_prim + prim_count` of `BVH::prims`.
/// A node with `prim_count == 0` is an inner node whose children are
/// `l_idx` and `l_idx + 1`.
#[derive(Clone, Copy)]
pub struct BVHNode {
    pub l_idx: usize,
    pub first_prim: usize,
    pub prim_count: usize,
}

impl BVHNode {
    pub open spec fn blank() -> BVHNode {
        BVHNode { l_idx: 0, first_prim: 0, prim_count: 0 }
    }

    /// A node with no child and no primitive.
    pub fn default() -> (node: BVHNode)
        ensures
            node == BVHNode::blank(),
    {
        BVHNode { l_idx: 0, first_prim: 0, prim_count: 0 }
    }
}

/// A bounding volume hierarchy.
pub struct BVH {
    /// Room for `2 * n + 1` nodes; the first `nodes_used` of them are in the tree.
    pub bvh_nodes: Vec<BVHNode>,
    /// The primitives (indices into the caller's list), in tree order.
    pub prims: Vec<usize>,
    /// Number of nodes of `bvh_nodes` that belong to the tree.
    pub nodes_used: usize,
    /// For each node of the tree, how many primitives lie below it: they
    /// are at positions `first_prim .. first_prim + span` of `prims`.
    pub span: Ghost<Seq<nat>>,
    /// For each node of the tree, its primitives in the order they had when
    /// the building procedure reached the node.
    pub asked: Ghost<Seq<Seq<usize>>>,
    /// For each node of the tree, how many nodes were in use once the
    /// building procedure was done with the node and everything below it.
    pub next: Ghost<Seq<int>>,
}

/// The side of the split for each primitive in the order they were given.
pub open spec fn tagged(prims: Seq<usize>, first: int, sides: Seq<bool>) -> Seq<(usize, bool)> {
    Seq::new(sides.len(), |k: int| (prims[first + k], sides[k]))
}

/// Each primitive paired with the side it was given.
pub open spec fn pair_up(ids: Seq<usize>, sides: Seq<bool>) -> Seq<(usize, bool)> {
    Seq::new(sides.len(), |k: int| (ids[k], sides[k]))
}

/// The two-cursor partition of `t` between the cursors `i` (front) and `j`
/// (back, exclusive): a pair of the left side under the front cursor stays
/// and the front cursor moves on; any other pair is swapped with the one
/// just before the back cursor, which moves back. Gives the rearranged
/// pairs and where the cursors met.
pub open spec fn cursor_pass(t: Seq<(usize, bool)>, i: int, j: int) -> (Seq<(usize, bool)>, int)
    decreases j - i,
{
    if i >= j || i < 0 || j > t.len() {
        (t, i)
    } else if t[i].1 {
        cursor_pass(t, i + 1, j)
    } else {
        cursor_pass(t.update(i, t[j - 1]).update(j - 1, t[i]), i, j - 1)
    }
}

/// The order in which the partition leaves primitives `ids` with the sides `sides`.
pub open spec fn arranged(ids: Seq<usize>, sides: Seq<bool>) -> Seq<usize> {
    cursor_pass(pair_up(ids, sides), 0, sides.len() as int).0.map_values(|t: (usize, bool)| t.0)
}

/// How many of `ids` the partition puts on the left.
pub open spec fn cut(ids: Seq<usize>, sides: Seq<bool>) -> int {
    cursor_pass(pair_up(ids, sides), 0, sides.len() as int).1
}

/// The closure answers every argument, and always the same way.
pub open spec fn steady<F: Fn(usize) -> bool>(f: F) -> bool {
    &&& forall|i: usize| #[trigger] call_requires(f, (i,))
    &&& forall|i: usize, r1: bool, r2: bool|
        #![trigger call_ensures(f, (i,), r1), call_ensures(f, (i,), r2)]
        call_ensures(f, (i,), r1) && call_ensures(f, (i,), r2) ==> r1 == r2
}

/// The closure answers every pair of arguments, and always the same way.
pub open spec fn steady2<F: Fn(usize, usize) -> bool>(f: F) -> bool {
    &&& forall|i: usize, j: usize| #[trigger] call_requires(f, (i, j))
    &&& forall|i: usize, j: usize, r1: bool, r2: bool|
        #![trigger call_ensures(f, (i, j), r1), call_ensures(f, (i, j), r2)]
        call_ensures(f, (i, j), r1) && call_ensures(f, (i, j), r2) ==> r1 == r2
}

/// What a steady closure answers for `i`.
pub open spec fn answer<F: Fn(usize) -> bool>(f: F, i: usize) -> bool {
    choose|r: bool| call_ensures(f, (i,), r)
}

/// What a steady closure answers for `(i, j)`.
pub open spec fn answer2<F: Fn(usize, usize) -> bool>(f: F, i: usize, j: usize) -> bool {
    choose|r: bool| call_ensures(f, (i, j), r)
}

/// The classification closure can be called on any list of primitives.
pub open spec fn classifier<C: Fn(&Vec<usize>) -> Vec<bool>>(classify: C) -> bool {
    forall|ids: &Vec<usize>| #[trigger] call_requires(classify, (ids,))
}

/// Some position of `lo .. hi` in `s` holds `v`.
pub open spec fn held_in(s: Seq<usize>, lo: int, hi: int, v: usize) -> bool {
    exists|q: int| lo <= q < hi && #[trigger] s[q] == v
}

/// Every primitive at a position of `lo .. hi` in `now` was somewhere in
/// `lo .. hi` in `before`.
pub open spec fn stays_within(now: Seq<usize>, before: Seq<usize>, lo: int, hi: int) -> bool {
    forall|p: int| lo <= p < hi ==> held_in(before, lo, hi, #[trigger] now[p])
}

/// `v` is one of `ids` and was given the side `side`.
pub open spec fn sided(ids: Seq<usize>, sides: Seq<bool>, v: usize, side: bool) -> bool {
    exists|k: int| 0 <= k < ids.len() && #[trigger] ids[k] == v && sides[k] == side
}

/// `v` is one of `ids`.
pub open spec fn listed(ids: Seq<usize>, v: usize) -> bool {
    exists|j: int| 0 <= j < ids.len() && #[trigger] ids[j] == v
}

/// Positions `lo .. mid` of `now` hold primitives classified left, and
/// positions `mid .. hi` primitives classified right.
pub open spec fn honours(
    ids: Seq<usize>,
    sides: Seq<bool>,
    now: Seq<usize>,
    lo: int,
    mid: int,
    hi: int,
) -> bool {
    &&& forall|p: int| lo <= p < mid ==> sided(ids, sides, #[trigger] now[p], true)
    &&& forall|p: int| mid <= p < hi ==> sided(ids, sides, #[trigger] now[p], false)
}

proof fn lemma_within_trans(a: Seq<usize>, b: Seq<usize>, c: Seq<usize>, lo: int, hi: int)
    requires
        stays_within(b, a, lo, hi),
        stays_within(c, b, lo, hi),
    ensures
        stays_within(c, a, lo, hi),
{
    assert forall|p: int| lo <= p < hi implies held_in(a, lo, hi, #[trigger] c[p]) by {
        assert(held_in(b, lo, hi, c[p]));
        let q = choose|q: int| lo <= q < hi && #[trigger] b[q] == c[p];
        assert(held_in(a, lo, hi, b[q]));
    }
}

/// Two neighbouring runs that each stay within themselves make a run that does.
proof fn lemma_within_join(a: Seq<usize>, b: Seq<usize>, lo: int, mid: int, hi: int)
    requires
        lo <= mid <= hi,
        stays_within(b, a, lo, mid),
        stays_within(b, a, mid, hi),
    ensures
        stays_within(b, a, lo, hi),
{
    assert forall|p: int| lo <= p < hi implies held_in(a, lo, hi, #[trigger] b[p]) by {
        if p < mid {
            assert(held_in(a, lo, mid, b[p]));
            let q = choose|q: int| lo <= q < mid && #[trigger] a[q] == b[p];
            assert(a[q] == b[p]);
        } else {
            assert(held_in(a, mid, hi, b[p]));
            let q = choose|q: int| mid <= q < hi && #[trigger] a[q] == b[p];
            assert(a[q] == b[p]);
        }
    }
}

/// Classification results carry over to any rearrangement that keeps each side within itself.
proof fn lemma_honours_carried(
    ids: Seq<usize>,
    sides: Seq<bool>,
    a: Seq<usize>,
    b: Seq<usize>,
    lo: int,
    mid: int,
    hi: int,
)
    requires
        honours(ids, sides, a, lo, mid, hi),
        stays_within(b, a, lo, mid),
        stays_within(b, a, mid, hi),
    ensures
        honours(ids, sides, b, lo, mid, hi),
{
    assert forall|p: int| lo <= p < mid implies sided(ids, sides, #[trigger] b[p], true) by {
        assert(held_in(a, lo, mid, b[p]));
        let q = choose|q: int| lo <= q < mid && #[trigger] a[q] == b[p];
        assert(sided(ids, sides, a[q], true));
    }
    assert forall|p: int| mid <= p < hi implies sided(ids, sides, #[trigger] b[p], false) by {
        assert(held_in(a, mid, hi, b[p]));
        let q = choose|q: int| mid <= q < hi && #[trigger] a[q] == b[p];
        assert(sided(ids, sides, a[q], false));
    }
}

/// An untouched run stays within itself.
proof fn lemma_within_same(a: Seq<usize>, b: Seq<usize>, lo: int, hi: int)
    requires
        forall|p: int| lo <= p < hi ==> #[trigger] b[p] == a[p],
    ensures
        stays_within(b, a, lo, hi),
{
    assert forall|p: int| lo <= p < hi implies held_in(a, lo, hi, #[trigger] b[p]) by {
        assert(a[p] == b[p]);
    }
}

/// What a partition's multiset guarantee means position by position.
proof fn lemma_partition_meaning(
    before: Seq<usize>,
    after: Seq<usize>,
    first: int,
    count: int,
    sides0: Seq<bool>,
    sides1: Seq<bool>,
    left: int,
)
    requires
        0 <= first,
        0 <= left <= count,
        first + count <= before.len(),
        before.len() == after.len(),
        sides0.len() == count,
        sides1.len() == count,
        tagged(after, first, sides1).to_multiset() == tagged(before, first, sides0).to_multiset(),
        forall|k: int| 0 <= k < left ==> #[trigger] sides1[k],
        forall|k: int| left <= k < count ==> !#[trigger] sides1[k],
    ensures
        stays_within(after, before, first, first + count),
        honours(
            before.subrange(first, first + count),
            sides0,
            after,
            first,
            first + left,
            first + count,
        ),
        left == count ==> forall|k: int| 0 <= k < count ==> #[trigger] sides0[k],
        left == 0 ==> forall|k: int| 0 <= k < count ==> !#[trigger] sides0[k],
{
    broadcast use vstd::seq_lib::group_to_multiset_ensures;

    let t0 = tagged(before, first, sides0);
    let t1 = tagged(after, first, sides1);
    let ids = before.subrange(first, first + count);
    assert forall|p: int| first <= p < first + count implies held_in(
        before,
        first,
        first + count,
        #[trigger] after[p],
    ) && sided(ids, sides0, after[p], sides1[p - first]) by {
        let k = p - first;
        assert(t1[k] == (after[p], sides1[k]));
        assert(t1.contains(t1[k]));
        assert(t1.to_multiset().count(t1[k]) > 0);
        assert(t0.contains(t1[k]));
        let k0 = choose|k0: int| 0 <= k0 < t0.len() && t0[k0] == t1[k];
        assert(before[first + k0] == after[p]);
        assert(ids[k0] == after[p]);
    }
    assert forall|p: int| first <= p < first + left implies sided(ids, sides0, #[trigger] after[p], true) by {
        assert(sided(ids, sides0, after[p], sides1[p - first]));
    }
    assert forall|p: int| first + left <= p < first + count implies sided(
        ids,
        sides0,
        #[trigger] after[p],
        false,
    ) by {
        assert(sided(ids, sides0, after[p], sides1[p - first]));
    }
    // each side given before is still carried by some primitive after
    assert forall|k: int| #![trigger sides0[k]] 0 <= k < count implies exists|j: int|
        0 <= j < count && #[trigger] sides1[j] == sides0[k] by {
        assert(t0[k] == (before[first + k], sides0[k]));
        assert(t0.contains(t0[k]));
        assert(t0.to_multiset().count(t0[k]) > 0);
        assert(t1.contains(t0[k]));
        let j = choose|j: int| 0 <= j < t1.len() && t1[j] == t0[k];
        assert(sides1[j] == sides0[k]);
    }
}

proof fn lemma_answer<F: Fn(usize) -> bool>(f: F, i: usize, r: bool)
    requires
        steady(f),
        call_ensures(f, (i,), r),
    ensures
        r == answer(f, i),
{
}

proof fn lemma_answer2<F: Fn(usize, usize) -> bool>(f: F, i: usize, j: usize, r: bool)
    requires
        steady2(f),
        call_ensures(f, (i, j), r),
    ensures
        r == answer2(f, i, j),
{
}

impl BVH {
    pub open spec fn n(self) -> int {
        self.prims@.len() as int
    }

    pub open spec fn is_leaf(self, k: int) -> bool {
        self.bvh_nodes@[k].prim_count > 0
    }

    /// Leaf `k` owns position `p` of `prims`.
    pub open spec fn owns(self, k: int, p: int) -> bool {
        &&& self.is_leaf(k)
        &&& self.bvh_nodes@[k].first_prim <= p
        &&& p < self.bvh_nodes@[k].first_prim + self.bvh_nodes@[k].prim_count
    }

    /// Node `k` is a leaf inside `prims` or an inner node with both children in the tree.
    pub open spec fn node_ok(self, k: int) -> bool {
        let node = self.bvh_nodes@[k];
        if node.prim_count > 0 {
            &&& node.first_prim + node.prim_count <= self.n()
            &&& self.span@[k] == node.prim_count
        } else {
            let l = node.l_idx as int;
            &&& k < l
            &&& l + 1 < self.nodes_used
            &&& self.span@[k] == self.span@[l] + self.span@[l + 1]
            &&& self.bvh_nodes@[l].first_prim == node.first_prim
            &&& self.bvh_nodes@[l + 1].first_prim == node.first_prim + self.span@[l]
        }
    }

    /// `prims` holds each of `0 .. n` once.
    pub open spec fn prims_permuted(self) -> bool {
        &&& forall|p: int| 0 <= p < self.n() ==> (#[trigger] self.prims@[p] as int) < self.n()
        &&& forall|p: int, q: int|
            0 <= p < self.n() && 0 <= q < self.n() && p != q ==> #[trigger] self.prims@[p]
                != #[trigger] self.prims@[q]
    }

    /// Some leaf of the tree owns position `p`.
    pub open spec fn owned(self, p: int) -> bool {
        exists|k: int| 0 <= k < self.nodes_used && #[trigger] self.owns(k, p)
    }

    /// Every position of `prims` is owned by exactly one leaf of the tree.
    pub open spec fn leaves_tile(self) -> bool {
        &&& forall|p: int| 0 <= p < self.n() ==> #[trigger] self.owned(p)
        &&& forall|k1: int, k2: int, p: int|
            0 <= k1 < self.nodes_used && 0 <= k2 < self.nodes_used && #[trigger] self.owns(k1, p)
                && #[trigger] self.owns(k2, p) ==> k1 == k2
    }

    /// The invariant of a built hierarchy.
    pub open spec fn wf(self) -> bool {
        &&& self.n() >= 1
        &&& 1 <= self.nodes_used <= self.bvh_nodes@.len()
        &&& self.span@.len() == self.bvh_nodes@.len()
        &&& self.asked@.len() == self.bvh_nodes@.len()
        &&& self.next@.len() == self.bvh_nodes@.len()
        &&& self.nodes_used % 2 == 1
        &&& self.bvh_nodes@[0].first_prim == 0
        &&& self.span@[0] == self.n()
        &&& self.prims_permuted()
        &&& forall|k: int| 0 <= k < self.nodes_used ==> #[trigger] self.node_ok(k)
        &&& forall|k: int|
            self.nodes_used <= k < self.bvh_nodes@.len() ==> #[trigger] self.bvh_nodes@[k]
                == BVHNode::blank()
        &&& self.leaves_tile()
    }

    /// Builds the hierarchy over `n` primitives.
    ///
    /// The root starts as a leaf owning all of them; then each leaf of more
    /// than one primitive is handed to `classify`, which says for each of
    /// its primitives whether it goes to the left half, and the leaf is
    /// split accordingly (see `subdivide`), depth first, left before right.
    /// The root is reached with the primitives in the order `0 .. n`, and
    /// every node of the result is as `shaped` describes.
    pub fn build<C: Fn(&Vec<usize>) -> Vec<bool>>(n: usize, classify: &C) -> (tree: BVH)
        requires
            n >= 1,
            n <= (usize::MAX - 1) / 2,
            classifier(*classify),
        ensures
            tree.wf(),
            tree.prims@.len() == n,
            tree.bvh_nodes@.len() == 2 * n + 1,
            tree.nodes_used <= 2 * n - 1,
            tree.bvh_nodes@[0].first_prim == 0,
            tree.span@[0] == n,
            tree.asked@[0] == Seq::new(n as nat, |p: int| p as usize),
            tree.start(0) == 1,
            tree.next@[0] == tree.nodes_used,
            forall|k: int| 0 <= k < tree.nodes_used ==> #[trigger] tree.shaped(k, *classify),
    {
        let mut prims: Vec<usize> = Vec::new();
        let mut i: usize = 0;
        while i < n
            invariant
                i <= n,
                prims@.len() == i,
                forall|p: int| 0 <= p < i ==> prims@[p] == p,
            decreases n - i,
        {
            prims.push(i);
            i = i + 1;
        }
        let mut bvh_nodes: Vec<BVHNode> = Vec::new();
        let cap: usize = 2 * n + 1;
        let mut k: usize = 0;
        while k < cap
            invariant
                k <= cap,
                cap == 2 * n + 1,
                bvh_nodes@.len() == k,
                forall|j: int| 0 <= j < k ==> bvh_nodes@[j] == BVHNode::blank(),
            decreases cap - k,
        {
            bvh_nodes.push(BVHNode::default());
            k = k + 1;
        }
        bvh_nodes.set(0, BVHNode { l_idx: 0, first_prim: 0, prim_count: n });
        let ghost span = Seq::new(cap as nat, |j: int| if j == 0 { n as nat } else { 0nat });
        let ghost asked = Seq::new(
            cap as nat,
            |j: int| if j == 0 { prims@ } else { Seq::<usize>::empty() },
        );
        let ghost next = Seq::new(cap as nat, |j: int| 0int);
        let mut tree = BVH {
            bvh_nodes,
            prims,
            nodes_used: 1,
            span: Ghost(span),
            asked: Ghost(asked),
            next: Ghost(next),
        };
        assert(tree.prims@.subrange(0, n as int) =~= tree.prims@);
        assert(tree.owns(0, 0));
        assert forall|p: int| 0 <= p < tree.n() implies #[trigger] tree.owned(p) by {
            assert(tree.owns(0, p));
        }
        assert(tree.node_ok(0));
        tree.subdivide(0, classify);
        assert(tree.shaped(0, *classify));
        assert(tree.asked@[0] =~= Seq::new(n as nat, |p: int| p as usize));
        tree
    }

    /// The number of nodes in use when the building procedure reached node
    /// `k`: an inner node's children are the next two nodes, and a leaf
    /// adds none.
    pub open spec fn start(self, k: int) -> int {
        if self.is_leaf(k) {
            self.next@[k]
        } else {
            self.bvh_nodes@[k].l_idx as int
        }
    }

    /// The primitives now at positions `first .. first + count` of `prims`.
    pub open spec fn run(self, first: int, count: int) -> Seq<usize> {
        self.prims@.subrange(first, first + count)
    }

    /// Node `k` is as the building procedure leaves it, given the answers
    /// of `classify`, where `asked` is the order of its primitives when the
    /// procedure reached it:
    /// - a leaf of one primitive, which is where it was;
    /// - a leaf of several primitives for which `classify` was asked about
    ///   them in that order and gave an answer that cannot split them: of
    ///   the wrong length, and they stay where they were, or all on one
    ///   side, and they are left in the order the partition gives;
    /// - an inner node for which `classify` was asked about its primitives
    ///   in that order; the partition of them by the answer gives the order
    ///   in which the left child and then the right child were reached,
    ///   neither of them empty, and the left child holds those sent left,
    ///   the right child those sent right. The children were the next two
    ///   free nodes, and the left one was done with before the right one.
    pub open spec fn shaped<C: Fn(&Vec<usize>) -> Vec<bool>>(self, k: int, classify: C) -> bool {
        let node = self.bvh_nodes@[k];
        let first = node.first_prim as int;
        let end = first + self.span@[k];
        let asked = self.asked@[k];
        if node.prim_count > 0 {
            ||| node.prim_count == 1 && self.run(first, 1) == asked
            ||| exists|ids: Vec<usize>, sides: Vec<bool>|
                #![trigger call_ensures(classify, (&ids,), sides)]
                {
                    &&& call_ensures(classify, (&ids,), sides)
                    &&& ids@ == asked
                    &&& ids@.len() == node.prim_count
                    &&& ids@.no_duplicates()
                    &&& forall|p: int| first <= p < end ==> listed(ids@, #[trigger] self.prims@[p])
                    &&& sides@.len() != node.prim_count ==> self.run(first, node.prim_count as int) == asked
                    &&& sides@.len() == node.prim_count ==> {
                        &&& (forall|j: int| 0 <= j < sides@.len() ==> #[trigger] sides@[j]) || (forall|j: int|
                            0 <= j < sides@.len() ==> !#[trigger] sides@[j])
                        &&& self.run(first, node.prim_count as int) == arranged(ids@, sides@)
                    }
                }
        } else {
            let l = node.l_idx as int;
            let mid = self.bvh_nodes@[l + 1].first_prim as int;
            &&& self.start(l) == l + 2
            &&& self.start(l + 1) == self.next@[l]
            &&& self.next@[k] == self.next@[l + 1]
            &&& exists|ids: Vec<usize>, sides: Vec<bool>|
                #![trigger call_ensures(classify, (&ids,), sides)]
                {
                    &&& call_ensures(classify, (&ids,), sides)
                    &&& ids@ == asked
                    &&& ids@.len() == self.span@[k]
                    &&& ids@.no_duplicates()
                    &&& sides@.len() == self.span@[k]
                    &&& first < mid < end
                    &&& cut(ids@, sides@) == mid - first
                    &&& self.asked@[l] == arranged(ids@, sides@).take(mid - first)
                    &&& self.asked@[l + 1] == arranged(ids@, sides@).skip(mid - first)
                    &&& honours(ids@, sides@, self.prims@, first, mid, end)
                }
        }
    }

    /// Every node from `from` on is as the building procedure leaves it
    /// (see `shaped`) and lies within positions `lo .. hi` of `prims`.
    pub open spec fn grown_from<C: Fn(&Vec<usize>) -> Vec<bool>>(self, from: int, lo: int, hi: int, classify: C) -> bool {
        forall|k: int|
            from <= k < self.nodes_used ==> {
                &&& #[trigger] self.shaped(k, classify)
                &&& lo <= self.bvh_nodes@[k].first_prim
                &&& self.bvh_nodes@[k].first_prim + self.span@[k] <= hi
            }
    }

    /// Whether node `k` keeps its shape does not depend on anything but the
    /// node and its children, what is recorded of them, and the primitives
    /// below it.
    proof fn lemma_shaped_frame<C: Fn(&Vec<usize>) -> Vec<bool>>(a: BVH, b: BVH, k: int, classify: C)
        requires
            a.shaped(k, classify),
            b.bvh_nodes@[k] == a.bvh_nodes@[k],
            b.span@[k] == a.span@[k],
            b.asked@[k] == a.asked@[k],
            b.next@[k] == a.next@[k],
            a.bvh_nodes@[k].prim_count > 0 ==> a.span@[k] == a.bvh_nodes@[k].prim_count,
            a.bvh_nodes@[k].prim_count == 0 ==> {
                let l = a.bvh_nodes@[k].l_idx as int;
                &&& b.bvh_nodes@[l] == a.bvh_nodes@[l]
                &&& b.bvh_nodes@[l + 1] == a.bvh_nodes@[l + 1]
                &&& b.asked@[l] == a.asked@[l]
                &&& b.asked@[l + 1] == a.asked@[l + 1]
                &&& b.next@[l] == a.next@[l]
                &&& b.next@[l + 1] == a.next@[l + 1]
            },
            forall|p: int|
                a.bvh_nodes@[k].first_prim <= p < a.bvh_nodes@[k].first_prim + a.span@[k]
                    ==> #[trigger] b.prims@[p] == a.prims@[p],
            a.bvh_nodes@[k].first_prim + a.span@[k] <= a.prims@.len(),
            b.prims@.len() == a.prims@.len(),
        ensures
            b.shaped(k, classify),
    {
        let node = a.bvh_nodes@[k];
        let first = node.first_prim as int;
        let end = first + a.span@[k];
        assert(b.run(first, a.span@[k] as int) =~= a.run(first, a.span@[k] as int));
        if node.prim_count == 1 && a.run(first, 1) == a.asked@[k] {
            assert(b.run(first, 1) =~= a.run(first, 1));
        } else if node.prim_count > 0 {
            let (ids, sides) = choose|ids: Vec<usize>, sides: Vec<bool>|
                #![trigger call_ensures(classify, (&ids,), sides)]
                {
                    &&& call_ensures(classify, (&ids,), sides)
                    &&& ids@ == a.asked@[k]
                    &&& ids@.len() == node.prim_count
                    &&& ids@.no_duplicates()
                    &&& forall|p: int| first <= p < end ==> listed(ids@, #[trigger] a.prims@[p])
                    &&& sides@.len() != node.prim_count ==> a.run(first, node.prim_count as int) == a.asked@[k]
                    &&& sides@.len() == node.prim_count ==> {
                        &&& (forall|j: int| 0 <= j < sides@.len() ==> #[trigger] sides@[j]) || (forall|j: int|
                            0 <= j < sides@.len() ==> !#[trigger] sides@[j])
                        &&& a.run(first, node.prim_count as int) == arranged(ids@, sides@)
                    }
                };
            assert forall|p: int| first <= p < end implies listed(ids@, #[trigger] b.prims@[p]) by {
                assert(listed(ids@, a.prims@[p]));
            }
        } else if node.prim_count == 0 {
            let l = node.l_idx as int;
            let mid = a.bvh_nodes@[l + 1].first_prim as int;
            let (ids, sides) = choose|ids: Vec<usize>, sides: Vec<bool>|
                {
                    &&& call_ensures(classify, (&ids,), sides)
                    &&& ids@ == a.asked@[k]
                    &&& ids@.len() == a.span@[k]
                    &&& ids@.no_duplicates()
                    &&& sides@.len() == a.span@[k]
                    &&& first < mid < end
                    &&& cut(ids@, sides@) == mid - first
                    &&& a.asked@[l] == arranged(ids@, sides@).take(mid - first)
                    &&& a.asked@[l + 1] == arranged(ids@, sides@).skip(mid - first)
                    &&& honours(ids@, sides@, a.prims@, first, mid, end)
                };
            assert forall|p: int| first <= p < mid implies sided(ids@, sides@, #[trigger] b.prims@[p], true) by {
                assert(sided(ids@, sides@, a.prims@[p], true));
            }
            assert forall|p: int| mid <= p < end implies sided(ids@, sides@, #[trigger] b.prims@[p], false) by {
                assert(sided(ids@, sides@, a.prims@[p], false));
            }
            assert(b.start(l) == a.start(l));
            assert(b.start(l + 1) == a.start(l + 1));
        }
    }

    /// Splits the primitives of a leaf in two and recurses into both halves.
    ///
    /// A leaf of one primitive is left alone. Otherwise `classify` gets the
    /// leaf's primitives and answers, for each, whether it goes left. If the
    /// answer has the wrong length, the node stays a leaf. Otherwise the run
    /// is partitioned (left ones first); if that sent all of them to one
    /// side the node stays a leaf, else the two next free nodes become the
    /// children and are subdivided in turn, left first. The order of each
    /// new child's primitives when it is reached goes to `asked`, and the
    /// number of nodes in use once a node is done with goes to `next`.
    #[verifier::rlimit(50)]
    fn subdivide<C: Fn(&Vec<usize>) -> Vec<bool>>(&mut self, index: usize, classify: &C)
        requires
            old(self).wf(),
            index < old(self).nodes_used,
            old(self).is_leaf(index as int),
            old(self).nodes_used + 2 * (old(self).bvh_nodes@[index as int].prim_count - 1)
                <= old(self).bvh_nodes@.len(),
            old(self).asked@[index as int] == old(self).run(
                old(self).bvh_nodes@[index as int].first_prim as int,
                old(self).bvh_nodes@[index as int].prim_count as int,
            ),
            classifier(*classify),
        ensures
            forall|k: int| 0 <= k < old(self).nodes_used ==> #[trigger] final(self).asked@[k] == old(self).asked@[k],
            forall|k: int|
                0 <= k < old(self).nodes_used && k != index ==> #[trigger] final(self).next@[k] == old(self).next@[k],
            final(self).next@[index as int] == final(self).nodes_used,
            final(self).start(index as int) == old(self).nodes_used,
            final(self).is_leaf(index as int) ==> final(self).nodes_used == old(self).nodes_used,
            final(self).wf(),
            final(self).prims@.len() == old(self).prims@.len(),
            final(self).bvh_nodes@.len() == old(self).bvh_nodes@.len(),
            old(self).nodes_used <= final(self).nodes_used,
            final(self).nodes_used <= old(self).nodes_used + 2 * (
            old(self).bvh_nodes@[index as int].prim_count - 1),
            forall|k: int|
                0 <= k < old(self).nodes_used && k != index ==> #[trigger] final(self).bvh_nodes@[k]
                    == old(self).bvh_nodes@[k],
            forall|k: int| 0 <= k < old(self).nodes_used ==> #[trigger] final(self).span@[k] == old(self).span@[k],
            forall|p: int|
                0 <= p < old(self).prims@.len() && !(old(self).bvh_nodes@[index as int].first_prim
                    <= p < old(self).bvh_nodes@[index as int].first_prim + old(
                self).bvh_nodes@[index as int].prim_count) ==> #[trigger] final(self).prims@[p]
                    == old(self).prims@[p],
            final(self).bvh_nodes@[index as int].first_prim == old(self).bvh_nodes@[index as int].first_prim,
            final(self).is_leaf(index as int) ==> final(self).bvh_nodes@[index as int] == old(self).bvh_nodes@[index as int],
            final(self).shaped(index as int, *classify),
            ({
                let first = old(self).bvh_nodes@[index as int].first_prim as int;
                let count = old(self).bvh_nodes@[index as int].prim_count as int;
                stays_within(final(self).prims@, old(self).prims@, first, first + count)
            }),
            final(self).grown_from(
                old(self).nodes_used as int,
                old(self).bvh_nodes@[index as int].first_prim as int,
                old(self).bvh_nodes@[index as int].first_prim + old(self).bvh_nodes@[index as int].prim_count,
                *classify,
            ),
        decreases old(self).bvh_nodes@[index as int].prim_count,
    {
        let ghost start = *self;
        let node = self.bvh_nodes[index];
        if node.prim_count == 1 {
            proof {
                lemma_within_same(start.prims@, self.prims@, node.first_prim as int, node.first_prim + 1);
                let ghost before = *self;
                self.next@ = self.next@.update(index as int, self.nodes_used as int);
                BVH::lemma_same_shape(before, *self);
            }
            return;
        }
        let first = node.first_prim;
        let count = node.prim_count;
        let n = self.prims.len();
        let cap = self.bvh_nodes.len();
        assert(self.node_ok(index as int));

        // The primitives of this leaf, in their current order.
        let mut ids: Vec<usize> = Vec::new();
        let mut k: usize = 0;
        while k < count
            invariant
                k <= count,
                n == self.prims@.len(),
                first + count <= n,
                ids@.len() == k,
                forall|j: int| 0 <= j < k ==> ids@[j] == self.prims@[first + j],
            decreases count - k,
        {
            ids.push(self.prims[first + k]);
            k = k + 1;
        }
        assert(ids@ =~= start.prims@.subrange(first as int, first + count));
        assert(ids@.no_duplicates()) by {
            assert forall|i: int, j: int| 0 <= i < ids@.len() && 0 <= j < ids@.len() && i != j implies ids@[i] != ids@[j] by {
                assert(ids@[i] == start.prims@[first + i]);
                assert(ids@[j] == start.prims@[first + j]);
            }
        }
        let mut sides = classify(&ids);
        let ghost sides0 = sides;
        if sides.len() != count {
            proof {
                lemma_within_same(start.prims@, self.prims@, first as int, first + count);
                assert forall|p: int| first <= p < first + count implies listed(
                    ids@,
                    #[trigger] self.prims@[p],
                ) by {
                    assert(ids@[p - first] == self.prims@[p]);
                }
                assert(call_ensures(*classify, (&ids,), sides0));
                let ghost before = *self;
                self.next@ = self.next@.update(index as int, self.nodes_used as int);
                BVH::lemma_same_shape(before, *self);
            }
            return;
        }
        let left_count = self.partition(first, count, &mut sides);
        proof {
            lemma_partition_meaning(
                start.prims@,
                self.prims@,
                first as int,
                count as int,
                sides0@,
                sides@,
                left_count as int,
            );
            // the order the partition leaves them in, and where it cut
            assert(tagged(start.prims@, first as int, sides0@) =~= pair_up(ids@, sides0@));
            assert(self.run(first as int, count as int) =~= tagged(self.prims@, first as int, sides@).map_values(
                |t: (usize, bool)| t.0,
            ));
            assert(self.run(first as int, count as int) == arranged(ids@, sides0@));
            assert(left_count == cut(ids@, sides0@));
        }
        if left_count == 0 || left_count == count {
            proof {
                assert forall|p: int| first <= p < first + count implies listed(
                    ids@,
                    #[trigger] self.prims@[p],
                ) by {
                    assert(held_in(start.prims@, first as int, first + count, self.prims@[p]));
                    let q = choose|q: int| first <= q < first + count && #[trigger] start.prims@[q] == self.prims@[p];
                    assert(ids@[q - first] == self.prims@[p]);
                }
                assert(call_ensures(*classify, (&ids,), sides0));
                let ghost before = *self;
                self.next@ = self.next@.update(index as int, self.nodes_used as int);
                BVH::lemma_same_shape(before, *self);
            }
            return;
        }
        let ghost mid = *self;
        let l_idx = self.nodes_used;
        assert(l_idx + 1 < self.bvh_nodes@.len());
        assert(self.bvh_nodes@[l_idx as int] == BVHNode::blank());
        assert(self.bvh_nodes@[l_idx + 1] == BVHNode::blank());
        self.bvh_nodes.set(l_idx, BVHNode { l_idx: 0, first_prim: first, prim_count: left_count });
        self.bvh_nodes.set(
            l_idx + 1,
            BVHNode { l_idx: 0, first_prim: first + left_count, prim_count: count - left_count },
        );
        self.bvh_nodes.set(index, BVHNode { l_idx: l_idx, first_prim: first, prim_count: 0 });
        self.nodes_used = l_idx + 2;
        proof {
            self.span@ = self.span@.update(l_idx as int, left_count as nat).update(
                l_idx + 1,
                (count - left_count) as nat,
            );
            self.asked@ = self.asked@.update(l_idx as int, self.run(first as int, left_count as int)).update(
                l_idx + 1,
                self.run(first + left_count, count - left_count),
            );
            assert(self.asked@[l_idx as int] =~= mid.run(first as int, count as int).take(left_count as int));
            assert(self.asked@[l_idx + 1] =~= mid.run(first as int, count as int).skip(left_count as int));
        }
        proof {
            self.lemma_split_keeps_tiling(mid, index as int, l_idx as int);
        }
        let ghost split = *self;
        let ghost lo = first as int;
        let ghost mi = first + left_count;
        let ghost hi = first + count;
        self.subdivide(l_idx, classify);
        let ghost after_left = *self;
        assert(after_left.run(mi, count - left_count) =~= split.run(mi, count - left_count));
        self.subdivide(l_idx + 1, classify);
        let ghost done = *self;
        proof {
            self.next@ = self.next@.update(index as int, self.nodes_used as int);
            BVH::lemma_same_shape(done, *self);
        }
        let ghost fin = *self;
        proof {
            assert(fin.bvh_nodes@[index as int] == split.bvh_nodes@[index as int]);
            assert(after_left.bvh_nodes@[l_idx + 1] == split.bvh_nodes@[l_idx + 1]);
            // the left call only rearranged lo .. mi, the right one only mi .. hi
            assert(stays_within(fin.prims@, start.prims@, lo, hi) && honours(
                ids@,
                sides0@,
                fin.prims@,
                lo,
                mi,
                hi,
            )) by {
                lemma_within_same(split.prims@, after_left.prims@, mi, hi);
                lemma_within_same(after_left.prims@, fin.prims@, lo, mi);
                lemma_within_trans(split.prims@, after_left.prims@, fin.prims@, lo, mi);
                lemma_within_trans(split.prims@, after_left.prims@, fin.prims@, mi, hi);
                lemma_honours_carried(ids@, sides0@, split.prims@, fin.prims@, lo, mi, hi);
                lemma_within_join(split.prims@, fin.prims@, lo, mi, hi);
                assert(stays_within(fin.prims@, split.prims@, lo, hi));
                lemma_within_trans(start.prims@, split.prims@, fin.prims@, lo, hi);
            }
            assert(call_ensures(*classify, (&ids,), sides0));
            assert(fin.span@[index as int] == count);
            // the left child was reached first, with the two next free
            // nodes, and the right child once the left one was done with
            let l = l_idx as int;
            assert(after_left.start(l) == l + 2);
            assert(fin.bvh_nodes@[l] == after_left.bvh_nodes@[l]);
            assert(fin.next@[l] == after_left.next@[l]);
            assert(fin.start(l) == l + 2);
            assert(done.start(l + 1) == after_left.nodes_used);
            assert(fin.start(l + 1) == fin.next@[l]);
            assert(fin.next@[index as int] == fin.next@[l + 1]);
            assert(fin.asked@[index as int] == start.asked@[index as int]);
            assert(fin.asked@[l] == split.asked@[l]);
            assert(fin.asked@[l + 1] == split.asked@[l + 1]);
            assert(fin.bvh_nodes@[l + 1].first_prim == mi);
            assert(fin.shaped(index as int, *classify));
            // the nodes both calls built keep their shape: the right call
            // leaves what the left one built alone
            assert forall|k: int|
                start.nodes_used <= k < fin.nodes_used implies {
                    &&& #[trigger] fin.shaped(k, *classify)
                    &&& first <= fin.bvh_nodes@[k].first_prim
                    &&& fin.bvh_nodes@[k].first_prim + fin.span@[k] <= first + count
                } by {
                if k < after_left.nodes_used && k != l_idx + 1 {
                    assert(after_left.shaped(k, *classify));
                    assert(after_left.node_ok(k));
                    assert(fin.bvh_nodes@[k] == after_left.bvh_nodes@[k]);
                    assert(fin.span@[k] == after_left.span@[k]);
                    assert(fin.next@[k] == after_left.next@[k]);
                    if after_left.bvh_nodes@[k].prim_count == 0 {
                        let c = after_left.bvh_nodes@[k].l_idx as int;
                        if k == l {
                            assert(c == l + 2);
                        }
                        assert(fin.bvh_nodes@[c + 1] == after_left.bvh_nodes@[c + 1]);
                        assert(fin.bvh_nodes@[c] == after_left.bvh_nodes@[c]);
                        assert(fin.next@[c] == after_left.next@[c]);
                        assert(fin.next@[c + 1] == after_left.next@[c + 1]);
                    }
                    assert forall|p: int|
                        after_left.bvh_nodes@[k].first_prim <= p < after_left.bvh_nodes@[k].first_prim
                            + after_left.span@[k] implies #[trigger] fin.prims@[p] == after_left.prims@[p] by {
                        if k == l_idx {
                            assert(after_left.span@[k] == left_count);
                        }
                    }
                    BVH::lemma_shaped_frame(after_left, fin, k, *classify);
                } else {
                    assert(done.shaped(k, *classify));
                    assert(done.node_ok(k));
                    assert(done.bvh_nodes@[k].first_prim + done.span@[k] <= first + count);
                    BVH::lemma_shaped_frame(done, fin, k, *classify);
                }
            }
            assert(fin.grown_from(start.nodes_used as int, first as int, first + count, *classify));
        }
    }

    /// After a leaf is turned into an inner node with two fresh leaf
    /// children that share its run, every position is still owned by
    /// exactly one leaf.
    proof fn lemma_split_keeps_tiling(self, mid: BVH, index: int, l: int)
        requires
            mid.wf(),
            0 <= index < mid.nodes_used,
            mid.is_leaf(index),
            l == mid.nodes_used,
            l + 1 < mid.bvh_nodes@.len(),
            self.prims == mid.prims,
            self.nodes_used == l + 2,
            self.asked@.len() == mid.asked@.len(),
            self.next@.len() == mid.next@.len(),
            self.span@ == mid.span@.update(l, self.bvh_nodes@[l].prim_count as nat).update(
                l + 1,
                self.bvh_nodes@[l + 1].prim_count as nat,
            ),
            self.bvh_nodes@.len() == mid.bvh_nodes@.len(),
            self.bvh_nodes@[index].prim_count == 0,
            self.bvh_nodes@[index].l_idx == l,
            self.bvh_nodes@[index].first_prim == mid.bvh_nodes@[index].first_prim,
            self.bvh_nodes@[l].first_prim == mid.bvh_nodes@[index].first_prim,
            0 < self.bvh_nodes@[l].prim_count,
            0 < self.bvh_nodes@[l + 1].prim_count,
            self.bvh_nodes@[l + 1].first_prim == self.bvh_nodes@[l].first_prim
                + self.bvh_nodes@[l].prim_count,
            self.bvh_nodes@[l].prim_count + self.bvh_nodes@[l + 1].prim_count
                == mid.bvh_nodes@[index].prim_count,
            forall|k: int|
                0 <= k < self.bvh_nodes@.len() && k != index && k != l && k != l + 1
                    ==> #[trigger] self.bvh_nodes@[k] == mid.bvh_nodes@[k],
        ensures
            self.wf(),
    {
        assert(mid.node_ok(index));
        assert forall|k: int| 0 <= k < self.nodes_used implies #[trigger] self.node_ok(k) by {
            if k != index && k != l && k != l + 1 {
                assert(mid.node_ok(k));
            }
        }
        assert forall|p: int| 0 <= p < self.n() implies #[trigger] self.owned(p) by {
            assert(mid.owned(p));
            let k0 = choose|k: int| 0 <= k < mid.nodes_used && #[trigger] mid.owns(k, p);
            if k0 == index {
                if p < self.bvh_nodes@[l].first_prim + self.bvh_nodes@[l].prim_count {
                    assert(self.owns(l, p));
                } else {
                    assert(self.owns(l + 1, p));
                }
            } else {
                assert(self.owns(k0, p));
            }
        }
        assert forall|k1: int, k2: int, p: int|
            0 <= k1 < self.nodes_used && 0 <= k2 < self.nodes_used && #[trigger] self.owns(k1, p)
                && #[trigger] self.owns(k2, p) implies k1 == k2 by {
            if k1 != l && k1 != l + 1 {
                assert(mid.owns(k1, p));
            }
            if k2 != l && k2 != l + 1 {
                assert(mid.owns(k2, p));
            }
            if (k1 == l || k1 == l + 1) && k2 != l && k2 != l + 1 {
                assert(mid.owns(index, p));
            }
            if (k2 == l || k2 == l + 1) && k1 != l && k1 != l + 1 {
                assert(mid.owns(index, p));
            }
        }
    }

    /// Rearranging `prims` keeps a hierarchy well formed as long as they
    /// still hold each primitive once.
    proof fn lemma_same_shape(a: BVH, b: BVH)
        requires
            a.wf(),
            b.bvh_nodes == a.bvh_nodes,
            b.nodes_used == a.nodes_used,
            b.span == a.span,
            b.asked@.len() == a.asked@.len(),
            b.next@.len() == a.next@.len(),
            b.prims@.len() == a.prims@.len(),
            b.prims_permuted(),
        ensures
            b.wf(),
    {
        assert forall|k: int| 0 <= k < b.nodes_used implies #[trigger] b.node_ok(k) by {
            assert(a.node_ok(k));
        }
        assert forall|p: int| 0 <= p < b.n() implies #[trigger] b.owned(p) by {
            assert(a.owned(p));
            let k = choose|k: int| 0 <= k < a.nodes_used && #[trigger] a.owns(k, p);
            assert(b.owns(k, p));
        }
        assert forall|k1: int, k2: int, p: int|
            0 <= k1 < b.nodes_used && 0 <= k2 < b.nodes_used && #[trigger] b.owns(k1, p)
                && #[trigger] b.owns(k2, p) implies k1 == k2 by {
            assert(a.owns(k1, p));
            assert(a.owns(k2, p));
        }
    }

    /// Partitions the run `first .. first + count` of `prims` so that the
    /// primitives whose side is `true` come first, and returns how many
    /// there are. `sides[k]` is the side of the primitive at position
    /// `first + k`; the sides move along with their primitives.
    ///
    /// Two cursors close in on each other from both ends of the run: a
    /// left-side primitive under the front cursor stays, any other is
    /// swapped with the one under the back cursor.
    fn partition(&mut self, first: usize, count: usize, sides: &mut Vec<bool>) -> (left_count:
        usize)
        requires
            old(self).wf(),
            first + count <= old(self).prims@.len(),
            old(sides)@.len() == count,
        ensures
            final(self).wf(),
            final(self).bvh_nodes == old(self).bvh_nodes,
            final(self).nodes_used == old(self).nodes_used,
            final(self).span == old(self).span,
            final(self).asked == old(self).asked,
            final(self).next == old(self).next,
            final(self).prims@.len() == old(self).prims@.len(),
            final(sides)@.len() == count,
            left_count <= count,
            forall|p: int|
                0 <= p < old(self).prims@.len() && !(first <= p < first + count)
                    ==> #[trigger] final(self).prims@[p] == old(self).prims@[p],
            tagged(final(self).prims@, first as int, final(sides)@).to_multiset() == tagged(
                old(self).prims@,
                first as int,
                old(sides)@,
            ).to_multiset(),
            forall|k: int| 0 <= k < left_count ==> #[trigger] final(sides)@[k],
            forall|k: int| left_count <= k < count ==> !#[trigger] final(sides)@[k],
            tagged(final(self).prims@, first as int, final(sides)@) == cursor_pass(
                tagged(old(self).prims@, first as int, old(sides)@),
                0,
                count as int,
            ).0,
            left_count == cursor_pass(tagged(old(self).prims@, first as int, old(sides)@), 0, count as int).1,
    {
        broadcast use vstd::seq_lib::group_to_multiset_ensures;

        broadcast use vstd::multiset::group_multiset_axioms;

        let ghost start = *self;
        let ghost start_sides = sides@;
        let n = self.prims.len();
        assert(first + count <= n);
        let mut i: usize = first;
        let mut j: usize = first + count;
        while i < j
            invariant
                first <= i <= j <= first + count,
                n == self.prims@.len(),
                first + count <= n,
                sides@.len() == count,
                self.wf(),
                start.wf(),
                self.bvh_nodes == start.bvh_nodes,
                self.nodes_used == start.nodes_used,
                self.span == start.span,
                self.asked == start.asked,
                self.next == start.next,
                self.prims@.len() == start.prims@.len(),
                forall|p: int|
                    0 <= p < start.prims@.len() && !(first <= p < first + count)
                        ==> #[trigger] self.prims@[p] == start.prims@[p],
                tagged(self.prims@, first as int, sides@).to_multiset() == tagged(
                    start.prims@,
                    first as int,
                    start_sides,
                ).to_multiset(),
                forall|k: int| 0 <= k < i - first ==> #[trigger] sides@[k],
                forall|k: int| j - first <= k < count ==> !#[trigger] sides@[k],
                cursor_pass(tagged(self.prims@, first as int, sides@), i - first, j - first)
                    == cursor_pass(tagged(start.prims@, first as int, start_sides), 0, count as int),
            decreases j - i,
        {
            if sides[i - first] {
                i = i + 1;
            } else {
                j = j - 1;
                let ghost before = tagged(self.prims@, first as int, sides@);
                let ghost old_prims = self.prims@;
                let a = self.prims[i];
                let b = self.prims[j];
                self.prims.set(i, b);
                self.prims.set(j, a);
                let sa = sides[i - first];
                let sb = sides[j - first];
                sides.set(i - first, sb);
                sides.set(j - first, sa);
                proof {
                    let ii = i - first;
                    let jj = j - first;
                    let after = tagged(self.prims@, first as int, sides@);
                    assert(after =~= before.update(ii, before[jj]).update(jj, before[ii]));
                    vstd::seq_lib::to_multiset_update(before, ii, before[jj]);
                    vstd::seq_lib::to_multiset_update(
                        before.update(ii, before[jj]),
                        jj,
                        before[ii],
                    );
                    let m = before.to_multiset();
                    let x = before[jj];
                    let y = before[ii];
                    assert(before.contains(y));
                    before.to_multiset_ensures();
                    assert(m.count(y) > 0);
                    assert(before.update(ii, x)[jj] == x);
                    assert(m.insert(x).remove(y).insert(y) =~= m.insert(x));
                    assert(m.insert(x).remove(x) =~= m);
                    assert(after.to_multiset() =~= before.to_multiset());
                    assert forall|p: int, q: int|
                        0 <= p < self.n() && 0 <= q < self.n() && p != q implies #[trigger] self.prims@[p]
                        != #[trigger] self.prims@[q] by {
                        let op = if p == i { j as int } else if p == j { i as int } else { p };
                        let oq = if q == i { j as int } else if q == j { i as int } else { q };
                        assert(self.prims@[p] == old_prims[op]);
                        assert(self.prims@[q] == old_prims[oq]);
                    }
                    assert forall|p: int| 0 <= p < self.n() implies (#[trigger] self.prims@[p] as int)
                        < self.n() by {
                        let op = if p == i { j as int } else if p == j { i as int } else { p };
                        assert(self.prims@[p] == old_prims[op]);
                    }
                    BVH::lemma_same_shape(start, *self);
                }
            }
        }
        i - first
    }

    /// The primitive that a traversal from node `idx` reports: `None` when
    /// the box of `idx` is missed; at a leaf its first primitive if that one
    /// is hit; at an inner node the result of whichever child has one, and
    /// when both have one, the left one if `nearer` says it is nearer than
    /// the right one, else the right one.
    pub open spec fn traverse_spec<B, H, N>(self, idx: int, hit_box: B, hit_prim: H, nearer: N) -> Option<
        usize,
    > where B: Fn(usize) -> bool, H: Fn(usize) -> bool, N: Fn(usize, usize) -> bool
        decreases self.bvh_nodes@.len() - idx,
    {
        if idx < 0 || idx >= self.bvh_nodes@.len() {
            None
        } else if !answer(hit_box, idx as usize) {
            None
        } else {
            let node = self.bvh_nodes@[idx];
            if node.prim_count > 0 {
                let p = self.prims@[node.first_prim as int];
                if answer(hit_prim, p) {
                    Some(p)
                } else {
                    None
                }
            } else if idx < node.l_idx && node.l_idx + 1 < self.bvh_nodes@.len() {
                let left = self.traverse_spec(node.l_idx as int, hit_box, hit_prim, nearer);
                let right = self.traverse_spec(node.l_idx + 1, hit_box, hit_prim, nearer);
                match (left, right) {
                    (None, None) => None,
                    (Some(a), None) => Some(a),
                    (None, Some(b)) => Some(b),
                    (Some(a), Some(b)) => if answer2(nearer, a, b) {
                        Some(a)
                    } else {
                        Some(b)
                    },
                }
            } else {
                None
            }
        }
    }

    /// Traverses the hierarchy from node `idx` (0 for the whole tree).
    ///
    /// `hit_box(k)` says whether the ray meets the box of node `k`,
    /// `hit_prim(p)` whether it meets primitive `p`, and `nearer(a, b)`
    /// whether the hit on `a` is nearer than the hit on `b`.
    pub fn traverse<B, H, N>(&self, idx: usize, hit_box: &B, hit_prim: &H, nearer: &N) -> (found:
        Option<usize>) where B: Fn(usize) -> bool, H: Fn(usize) -> bool, N: Fn(usize, usize) -> bool
        requires
            self.wf(),
            idx < self.nodes_used,
            steady(*hit_box),
            steady(*hit_prim),
            steady2(*nearer),
        ensures
            found == self.traverse_spec(idx as int, *hit_box, *hit_prim, *nearer),
        decreases self.bvh_nodes@.len() - idx,
    {
        let node = self.bvh_nodes[idx];
        let in_box = hit_box(idx);
        proof {
            lemma_answer(*hit_box, idx, in_box);
        }
        if !in_box {
            return None;
        }
        assert(self.node_ok(idx as int));
        if node.prim_count > 0 {
            let p = self.prims[node.first_prim];
            let hit = hit_prim(p);
            proof {
                lemma_answer(*hit_prim, p, hit);
            }
            if hit {
                Some(p)
            } else {
                None
            }
        } else {
            let left = self.traverse(node.l_idx, hit_box, hit_prim, nearer);
            let right = self.traverse(node.l_idx + 1, hit_box, hit_prim, nearer);
            match (left, right) {
                (None, None) => None,
                (Some(a), None) => Some(a),
                (None, Some(b)) => Some(b),
                (Some(a), Some(b)) => {
                    let closer = nearer(a, b);
                    proof {
                        lemma_answer2(*nearer, a, b, closer);
                    }
                    if closer {
                        Some(a)
                    } else {
                        Some(b)
                    }
                },
            }
        }
    }
}


impl BVH {
    /// A traversal only ever reports a primitive that the tree holds, that
    /// `hit_prim` says the ray meets, and that is the first primitive of one
    /// of the tree's leaves.
    pub proof fn lemma_traverse_reports_hit<B, H, N>(self, idx: int, hit_box: B, hit_prim: H, nearer: N)
        where B: Fn(usize) -> bool, H: Fn(usize) -> bool, N: Fn(usize, usize) -> bool
        requires
            self.wf(),
            0 <= idx < self.nodes_used,
            self.traverse_spec(idx, hit_box, hit_prim, nearer) is Some,
        ensures
            ({
                let p = self.traverse_spec(idx, hit_box, hit_prim, nearer)->0;
                &&& (p as int) < self.n()
                &&& answer(hit_prim, p)
                &&& exists|k: int|
                    0 <= k < self.nodes_used && #[trigger] self.is_leaf(k) && self.prims@[self.bvh_nodes@[k].first_prim as int] == p
            }),
        decreases self.bvh_nodes@.len() - idx,
    {
        assert(self.node_ok(idx));
        let node = self.bvh_nodes@[idx];
        if node.prim_count > 0 {
            assert(self.is_leaf(idx));
        } else {
            let l = node.l_idx as int;
            let left = self.traverse_spec(l, hit_box, hit_prim, nearer);
            let right = self.traverse_spec(l + 1, hit_box, hit_prim, nearer);
            if left is Some {
                self.lemma_traverse_reports_hit(l, hit_box, hit_prim, nearer);
            }
            if right is Some {
                self.lemma_traverse_reports_hit(l + 1, hit_box, hit_prim, nearer);
            }
        }
    }

    /// When `hit_prim` reports no hit at all, a traversal finds nothing.
    pub proof fn lemma_traverse_without_hits<B, H, N>(self, idx: int, hit_box: B, hit_prim: H, nearer: N)
        where B: Fn(usize) -> bool, H: Fn(usize) -> bool, N: Fn(usize, usize) -> bool
        requires
            forall|p: usize| !#[trigger] answer(hit_prim, p),
        ensures
            self.traverse_spec(idx, hit_box, hit_prim, nearer) is None,
        decreases self.bvh_nodes@.len() - idx,
    {
        if 0 <= idx < self.bvh_nodes@.len() {
            let node = self.bvh_nodes@[idx];
            if node.prim_count == 0 && idx < node.l_idx && node.l_idx + 1 < self.bvh_nodes@.len() {
                self.lemma_traverse_without_hits(node.l_idx as int, hit_box, hit_prim, nearer);
                self.lemma_traverse_without_hits(node.l_idx + 1, hit_box, hit_prim, nearer);
            }
        }
    }
}

impl BVH {
    /// Leaf `k` can be reached from node `idx` through nodes whose boxes
    /// are all hit.
    pub open spec fn reaches<B: Fn(usize) -> bool>(self, idx: int, k: int, hit_box: B) -> bool
        decreases self.bvh_nodes@.len() - idx,
    {
        if idx < 0 || idx >= self.bvh_nodes@.len() || !answer(hit_box, idx as usize) {
            false
        } else if idx == k {
            self.is_leaf(k)
        } else {
            let node = self.bvh_nodes@[idx];
            if node.prim_count == 0 && idx < node.l_idx && node.l_idx + 1 < self.bvh_nodes@.len() {
                self.reaches(node.l_idx as int, k, hit_box) || self.reaches(node.l_idx + 1, k, hit_box)
            } else {
                false
            }
        }
    }

    /// The traversal finds the nearest hit: when `nearer` orders hits
    /// strictly and weakly (as comparing distances does), no primitive that
    /// the traversal could have reported is nearer than the one it reports.
    pub proof fn lemma_traverse_nearest<B, H, N>(self, idx: int, k: int, hit_box: B, hit_prim: H, nearer: N)
        where B: Fn(usize) -> bool, H: Fn(usize) -> bool, N: Fn(usize, usize) -> bool
        requires
            self.wf(),
            0 <= idx < self.nodes_used,
            forall|a: usize| !#[trigger] answer2(nearer, a, a),
            forall|a: usize, b: usize, c: usize|
                #[trigger] answer2(nearer, a, b) && #[trigger] answer2(nearer, b, c) ==> answer2(nearer, a, c),
            forall|a: usize, b: usize, c: usize|
                !#[trigger] answer2(nearer, a, b) && !#[trigger] answer2(nearer, b, c) ==> !answer2(nearer, a, c),
            self.reaches(idx, k, hit_box),
            answer(hit_prim, self.prims@[self.bvh_nodes@[k].first_prim as int]),
        ensures
            ({
                let p = self.prims@[self.bvh_nodes@[k].first_prim as int];
                let found = self.traverse_spec(idx, hit_box, hit_prim, nearer);
                found is Some && !answer2(nearer, p, found->0)
            }),
        decreases self.bvh_nodes@.len() - idx,
    {
        let p = self.prims@[self.bvh_nodes@[k].first_prim as int];
        assert(self.node_ok(idx));
        let node = self.bvh_nodes@[idx];
        if idx == k {
            assert(self.is_leaf(k));
        } else {
            let l = node.l_idx as int;
            let left = self.traverse_spec(l, hit_box, hit_prim, nearer);
            let right = self.traverse_spec(l + 1, hit_box, hit_prim, nearer);
            if self.reaches(l, k, hit_box) {
                self.lemma_traverse_nearest(l, k, hit_box, hit_prim, nearer);
                if right is Some {
                    let a = left->0;
                    let b = right->0;
                    if !answer2(nearer, a, b) {
                        assert(!answer2(nearer, p, a) && !answer2(nearer, a, b));
                    }
                }
            } else {
                self.lemma_traverse_nearest(l + 1, k, hit_box, hit_prim, nearer);
                if left is Some {
                    let a = left->0;
                    let b = right->0;
                    if answer2(nearer, a, b) {
                        if answer2(nearer, p, a) {
                            assert(answer2(nearer, p, a) && answer2(nearer, a, b));
                        }
                    }
                }
            }
        }
    }
}

impl BVH {
    /// A leaf reached from node `idx` is a node of the tree below `idx`
    /// whose run lies within the run of `idx`.
    proof fn lemma_reached_is_below<B: Fn(usize) -> bool>(self, idx: int, k: int, hit_box: B)
        requires
            self.wf(),
            0 <= idx < self.nodes_used,
            self.reaches(idx, k, hit_box),
        ensures
            idx <= k < self.nodes_used,
            self.is_leaf(k),
        decreases self.bvh_nodes@.len() - idx,
    {
        assert(self.node_ok(idx));
        if idx != k {
            let l = self.bvh_nodes@[idx].l_idx as int;
            if self.reaches(l, k, hit_box) {
                self.lemma_reached_is_below(l, k, hit_box);
            } else {
                self.lemma_reached_is_below(l + 1, k, hit_box);
            }
        }
    }

    /// When every box is hit, each position of the run of node `idx` is
    /// owned by a leaf reached from `idx`.
    proof fn lemma_run_reached<B: Fn(usize) -> bool>(self, idx: int, p: int, hit_box: B)
        requires
            self.wf(),
            0 <= idx < self.nodes_used,
            forall|i: usize| #[trigger] answer(hit_box, i),
            self.bvh_nodes@[idx].first_prim <= p < self.bvh_nodes@[idx].first_prim + self.span@[idx],
        ensures
            exists|k: int| #[trigger] self.reaches(idx, k, hit_box) && self.owns(k, p),
        decreases self.bvh_nodes@.len() - idx,
    {
        assert(self.node_ok(idx));
        assert(answer(hit_box, idx as usize));
        let node = self.bvh_nodes@[idx];
        if node.prim_count > 0 {
            assert(self.reaches(idx, idx, hit_box) && self.owns(idx, p));
        } else {
            let l = node.l_idx as int;
            let c = if p < self.bvh_nodes@[l + 1].first_prim { l } else { l + 1 };
            self.lemma_run_reached(c, p, hit_box);
            let k = choose|k: int| #[trigger] self.reaches(c, k, hit_box) && self.owns(k, p);
            self.lemma_reached_is_below(c, k, hit_box);
            assert(self.reaches(idx, k, hit_box) && self.owns(k, p));
        }
    }

    /// A traversal from a node whose box the ray misses reports nothing,
    /// whether the node is a leaf or an inner node.
    pub proof fn lemma_missed_box_reports_nothing<B, H, N>(self, idx: int, hit_box: B, hit_prim: H, nearer: N)
        where B: Fn(usize) -> bool, H: Fn(usize) -> bool, N: Fn(usize, usize) -> bool
        requires
            0 <= idx,
            !answer(hit_box, idx as usize),
        ensures
            self.traverse_spec(idx, hit_box, hit_prim, nearer) is None,
    {
    }

    /// Every primitive a traversal reports is the first primitive of a leaf
    /// that is reached through hit boxes only: the leaf's own box and the
    /// boxes of all nodes on the way down to it are hit.
    pub proof fn lemma_reported_leaf_is_reached<B, H, N>(self, idx: int, hit_box: B, hit_prim: H, nearer: N)
        where B: Fn(usize) -> bool, H: Fn(usize) -> bool, N: Fn(usize, usize) -> bool
        requires
            self.wf(),
            0 <= idx < self.nodes_used,
            self.traverse_spec(idx, hit_box, hit_prim, nearer) is Some,
        ensures
            exists|k: int|
                #[trigger] self.reaches(idx, k, hit_box) && self.prims@[self.bvh_nodes@[k].first_prim as int]
                    == self.traverse_spec(idx, hit_box, hit_prim, nearer)->0,
        decreases self.bvh_nodes@.len() - idx,
    {
        assert(self.node_ok(idx));
        let node = self.bvh_nodes@[idx];
        let found = self.traverse_spec(idx, hit_box, hit_prim, nearer)->0;
        if node.prim_count > 0 {
            assert(self.reaches(idx, idx, hit_box));
        } else {
            let l = node.l_idx as int;
            let left = self.traverse_spec(l, hit_box, hit_prim, nearer);
            let right = self.traverse_spec(l + 1, hit_box, hit_prim, nearer);
            let c = if left is Some && found == left->0 { l } else { l + 1 };
            self.lemma_reported_leaf_is_reached(c, hit_box, hit_prim, nearer);
            let k = choose|k: int|
                #[trigger] self.reaches(c, k, hit_box) && self.prims@[self.bvh_nodes@[k].first_prim as int]
                    == self.traverse_spec(c, hit_box, hit_prim, nearer)->0;
            self.lemma_reached_is_below(c, k, hit_box);
            assert(self.reaches(idx, k, hit_box));
        }
    }

    /// When every box is hit, the leaves a traversal from the root can
    /// reach are exactly the leaves among the nodes in use.
    pub proof fn lemma_root_reaches_every_leaf<B: Fn(usize) -> bool>(self, k: int, hit_box: B)
        requires
            self.wf(),
            forall|i: usize| #[trigger] answer(hit_box, i),
        ensures
            self.reaches(0, k, hit_box) <==> (0 <= k < self.nodes_used && self.is_leaf(k)),
    {
        if self.reaches(0, k, hit_box) {
            self.lemma_reached_is_below(0, k, hit_box);
        }
        if 0 <= k < self.nodes_used && self.is_leaf(k) {
            assert(self.node_ok(k));
            let p = self.bvh_nodes@[k].first_prim as int;
            assert(self.owns(k, p));
            self.lemma_run_reached(0, p, hit_box);
            let j = choose|j: int| #[trigger] self.reaches(0, j, hit_box) && self.owns(j, p);
            self.lemma_reached_is_below(0, j, hit_box);
            assert(j == k);
        }
    }
}

} // verus!
