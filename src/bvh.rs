use crate::utilities::random_int;
use vstd::prelude::*;
use vstd::seq_lib::{to_multiset_update, group_to_multiset_ensures};

verus! {

/// One side of a BVH node: a primitive (an index into the caller's primitive
/// list) or another node of the same layout.
#[derive(Clone, Copy, PartialEq, Eq, Structural, Debug)]
pub enum BvhChild {
    Prim(usize),
    Node(usize),
}

/// An inner node of the hierarchy: its two children and the axis along which
/// its primitives were ordered. A node over a single primitive has that
/// primitive on both sides.
#[derive(Clone, Copy, PartialEq, Eq, Structural, Debug)]
pub struct BvhLink {
    pub left: BvhChild,
    pub right: BvhChild,
    pub axis: usize,
}

/// A bounding-volume hierarchy over a list of primitives, stored bottom-up:
/// every node's children come before it, and the root is the last node.
pub struct BvhLayout {
    pub nodes: Vec<BvhLink>,
    pub root: usize,
}

/// Why no hierarchy could be built.
#[derive(Clone, Copy, PartialEq, Eq, Structural, Debug)]
pub enum BvhError {
    /// There were no primitives.
    Empty,
    /// The primitive at this index (the first such) has no bounding box.
    Unbounded(usize),
}

/// Sort key of primitive `p` along `axis`.
pub open spec fn key(keys: Seq<[u32; 3]>, p: usize, axis: usize) -> u32 {
    keys[p as int][axis as int]
}

/// Primitives under child `c` of node `i`, in left-to-right order.
pub open spec fn child_leaves(nodes: Seq<BvhLink>, c: BvhChild, i: int) -> Seq<usize>
    decreases i, 0int,
{
    match c {
        BvhChild::Prim(p) => seq![p],
        BvhChild::Node(j) => if 0 <= j < i {
            leaves(nodes, j as int)
        } else {
            Seq::empty()
        },
    }
}

/// Primitives under node `i`, in left-to-right order; a node whose two sides
/// are the same contributes them once.
pub open spec fn leaves(nodes: Seq<BvhLink>, i: int) -> Seq<usize>
    decreases i, 1int,
{
    if 0 <= i < nodes.len() {
        let n = nodes[i];
        if n.left == n.right {
            child_leaves(nodes, n.left, i)
        } else {
            child_leaves(nodes, n.left, i) + child_leaves(nodes, n.right, i)
        }
    } else {
        Seq::empty()
    }
}

/// Child `c` of node `i` refers to an existing primitive or an earlier node.
pub open spec fn child_ok(c: BvhChild, i: int, n_prims: nat) -> bool {
    match c {
        BvhChild::Prim(p) => p < n_prims,
        BvhChild::Node(j) => j < i,
    }
}

/// Node `i` is well formed: its children exist, only a primitive may stand
/// on both sides, and its axis is one of the three.
pub open spec fn link_ok(n: BvhLink, i: int, n_prims: nat) -> bool {
    &&& child_ok(n.left, i, n_prims)
    &&& child_ok(n.right, i, n_prims)
    &&& n.left == n.right ==> n.left is Prim
    &&& n.axis < 3
}

/// Node `i` splits its primitives in two halves (the left one holding the
/// smaller half), every key on the left at most every key on the right along
/// the node's axis.
pub open spec fn split_ok(nodes: Seq<BvhLink>, i: int, keys: Seq<[u32; 3]>) -> bool {
    let n = nodes[i];
    let l = child_leaves(nodes, n.left, i);
    let r = child_leaves(nodes, n.right, i);
    n.left != n.right ==> {
        &&& l.len() == (l.len() + r.len()) / 2
        &&& forall|a: int, b: int|
            0 <= a < l.len() && 0 <= b < r.len() ==> #[trigger] key(keys, l[a], n.axis) <= #[trigger] key(
                keys,
                r[b],
                n.axis,
            )
    }
}

/// The entries of `order` in `lo..hi` are sorted by their keys along `axis`.
pub open spec fn sorted_between(
    keys: Seq<[u32; 3]>,
    order: Seq<usize>,
    axis: usize,
    lo: int,
    hi: int,
) -> bool {
    forall|x: int, y: int|
        lo <= x < y < hi ==> #[trigger] key(keys, order[x], axis) <= #[trigger] key(
            keys,
            order[y],
            axis,
        )
}

/// The identity sequence `0, 1, ..., n - 1`.
pub open spec fn index_seq(n: nat) -> Seq<usize> {
    Seq::new(n, |i: int| i as usize)
}

/// The keys of a list of bounds that are all present.
pub open spec fn present_keys(bounds: Seq<Option<[u32; 3]>>) -> Seq<[u32; 3]> {
    Seq::new(bounds.len(), |i: int| bounds[i]->0)
}

impl BvhLayout {
    /// Every node is well formed and the root is the last one.
    pub open spec fn wf(&self, n_prims: nat) -> bool {
        &&& self.nodes@.len() > 0
        &&& self.root == self.nodes@.len() - 1
        &&& forall|i: int| 0 <= i < self.nodes@.len() ==> link_ok(#[trigger] self.nodes@[i], i, n_prims)
    }

    /// Primitives under the root, in left-to-right order.
    pub open spec fn prims(&self) -> Seq<usize> {
        leaves(self.nodes@, self.root as int)
    }
}

/// Swapping two entries keeps the multiset of a sequence.
proof fn lemma_swap_multiset<A>(s: Seq<A>, x: int, y: int)
    requires
        0 <= x < s.len(),
        0 <= y < s.len(),
    ensures
        s.update(x, s[y]).update(y, s[x]).to_multiset() == s.to_multiset(),
{
    broadcast use vstd::multiset::group_multiset_axioms;
    let mid = s.update(x, s[y]);
    to_multiset_update(s, x, s[y]);
    to_multiset_update(mid, y, s[x]);
    assert(s.to_multiset().count(s[x]) > 0) by {
        broadcast use group_to_multiset_ensures;
        assert(s.contains(s[x]));
    }
    assert(s.update(x, s[y]).update(y, s[x]).to_multiset() =~= s.to_multiset());
}

/// Swaps the entries at `x` and `y`.
fn swap_entries(order: &mut Vec<usize>, x: usize, y: usize)
    requires
        x < old(order).len(),
        y < old(order).len(),
    ensures
        final(order)@ == old(order)@.update(x as int, old(order)@[y as int]).update(
            y as int,
            old(order)@[x as int],
        ),
{
    let a = order[x];
    let b = order[y];
    order.set(x, b);
    order.set(y, a);
}

/// Swapping two entries inside `lo..hi` keeps the multiset of that range.
proof fn lemma_swap_range_multiset<A>(s: Seq<A>, lo: int, hi: int, x: int, y: int)
    requires
        0 <= lo <= x < hi <= s.len(),
        lo <= y < hi,
    ensures
        s.update(x, s[y]).update(y, s[x]).subrange(lo, hi).to_multiset() == s.subrange(
            lo,
            hi,
        ).to_multiset(),
{
    let t = s.subrange(lo, hi);
    lemma_swap_multiset(t, x - lo, y - lo);
    assert(s.update(x, s[y]).update(y, s[x]).subrange(lo, hi) =~= t.update(x - lo, t[y - lo]).update(
        y - lo,
        t[x - lo],
    ));
}

/// Stable insertion sort of `order[start..end]` by key along `axis`.
fn sort_range(keys: &Vec<[u32; 3]>, order: &mut Vec<usize>, start: usize, end: usize, axis: usize)
    requires
        start < end <= old(order).len(),
        axis < 3,
        forall|k: int| 0 <= k < old(order)@.len() ==> old(order)@[k] < keys@.len(),
    ensures
        final(order)@.len() == old(order)@.len(),
        forall|k: int| 0 <= k < final(order)@.len() ==> final(order)@[k] < keys@.len(),
        forall|k: int|
            0 <= k < old(order)@.len() && !(start <= k < end) ==> final(order)@[k] == old(order)@[k],
        final(order)@.subrange(start as int, end as int).to_multiset() == old(order)@.subrange(
            start as int,
            end as int,
        ).to_multiset(),
        sorted_between(keys@, final(order)@, axis, start as int, end as int),
{
    let mut i: usize = start + 1;
    while i < end
        invariant
            start < i <= end,
            end <= order@.len(),
            axis < 3,
            order@.len() == old(order)@.len(),
            forall|k: int| 0 <= k < order@.len() ==> order@[k] < keys@.len(),
            forall|k: int|
                0 <= k < old(order)@.len() && !(start <= k < end) ==> order@[k] == old(order)@[k],
            order@.subrange(start as int, end as int).to_multiset() == old(order)@.subrange(
                start as int,
                end as int,
            ).to_multiset(),
            sorted_between(keys@, order@, axis, start as int, i as int),
        decreases end - i,
    {
        let mut j: usize = i;
        while j > start && keys[order[j - 1]][axis] > keys[order[j]][axis]
            invariant
                start <= j <= i < end,
                end <= order@.len(),
                axis < 3,
                order@.len() == old(order)@.len(),
                forall|k: int| 0 <= k < order@.len() ==> order@[k] < keys@.len(),
                forall|k: int|
                    0 <= k < old(order)@.len() && !(start <= k < end) ==> order@[k] == old(
                        order,
                    )@[k],
                order@.subrange(start as int, end as int).to_multiset() == old(order)@.subrange(
                    start as int,
                    end as int,
                ).to_multiset(),
                forall|x: int, y: int|
                    start <= x < y <= i && x != j && y != j ==> #[trigger] key(
                        keys@,
                        order@[x],
                        axis,
                    ) <= #[trigger] key(keys@, order@[y], axis),
                forall|y: int|
                    j < y <= i ==> key(keys@, order@[j as int], axis) < #[trigger] key(
                        keys@,
                        order@[y],
                        axis,
                    ),
            decreases j,
        {
            proof {
                lemma_swap_range_multiset(order@, start as int, end as int, j - 1, j as int);
            }
            swap_entries(order, j - 1, j);
            j = j - 1;
        }
        proof {
            assert forall|x: int, y: int|
                start <= x < y < i + 1 implies #[trigger] key(keys@, order@[x], axis) <= #[trigger] key(
                keys@,
                order@[y],
                axis,
            ) by {
                if x == j && y > j {
                } else if y == j && x < j {
                    if x < j - 1 {
                        assert(key(keys@, order@[x], axis) <= key(keys@, order@[j - 1], axis));
                    }
                }
            }
        }
        i = i + 1;
    }
}

/// What lies under a node depends only on the nodes up to it.
proof fn lemma_leaves_prefix(s: Seq<BvhLink>, t: Seq<BvhLink>, i: int)
    requires
        0 <= i < s.len() <= t.len(),
        s == t.subrange(0, s.len() as int),
    ensures
        leaves(s, i) == leaves(t, i),
        child_leaves(s, s[i].left, i) == child_leaves(t, t[i].left, i),
        child_leaves(s, s[i].right, i) == child_leaves(t, t[i].right, i),
    decreases i,
{
    assert(s[i] == t[i]);
    if let BvhChild::Node(j) = s[i].left {
        if 0 <= j < i {
            lemma_leaves_prefix(s, t, j as int);
        }
    }
    if let BvhChild::Node(j) = s[i].right {
        if 0 <= j < i {
            lemma_leaves_prefix(s, t, j as int);
        }
    }
}

/// Nodes well formed and split in `s` stay so in any extension `t`.
proof fn lemma_nodes_prefix(s: Seq<BvhLink>, t: Seq<BvhLink>, lo: int, n_prims: nat, keys: Seq<[u32; 3]>)
    requires
        0 <= lo <= s.len() <= t.len(),
        s == t.subrange(0, s.len() as int),
        forall|i: int| lo <= i < s.len() ==> link_ok(#[trigger] s[i], i, n_prims) && split_ok(s, i, keys),
    ensures
        forall|i: int| lo <= i < s.len() ==> link_ok(#[trigger] t[i], i, n_prims) && split_ok(t, i, keys),
{
    assert forall|i: int| lo <= i < s.len() implies link_ok(#[trigger] t[i], i, n_prims) && split_ok(t, i, keys) by {
        assert(s[i] == t[i]);
        lemma_leaves_prefix(s, t, i);
        assert(link_ok(s[i], i, n_prims) && split_ok(s, i, keys));
    }
}

/// A rearrangement of a sequence without duplicates has none either.
proof fn lemma_perm_no_duplicates<A>(a: Seq<A>, b: Seq<A>)
    requires
        a.to_multiset() == b.to_multiset(),
        a.no_duplicates(),
    ensures
        b.no_duplicates(),
{
    a.lemma_multiset_has_no_duplicates();
    b.lemma_multiset_has_no_duplicates_conv();
}

#[verifier::rlimit(50)]
/// Builds the hierarchy over `order[start..end]`, appending its nodes to
/// `nodes`; returns the index of its root, the last node appended. The range
/// is rearranged so that it lists the primitives in the hierarchy's
/// left-to-right order.
fn build_range(
    keys: &Vec<[u32; 3]>,
    order: &mut Vec<usize>,
    start: usize,
    end: usize,
    nodes: &mut Vec<BvhLink>,
) -> (r: usize)
    requires
        start < end <= old(order).len(),
        forall|k: int| 0 <= k < old(order)@.len() ==> old(order)@[k] < keys@.len(),
        old(order)@.subrange(start as int, end as int).no_duplicates(),
    ensures
        final(order)@.len() == old(order)@.len(),
        forall|k: int| 0 <= k < final(order)@.len() ==> final(order)@[k] < keys@.len(),
        forall|k: int|
            0 <= k < old(order)@.len() && !(start <= k < end) ==> final(order)@[k] == old(order)@[k],
        final(order)@.subrange(start as int, end as int).to_multiset() == old(order)@.subrange(
            start as int,
            end as int,
        ).to_multiset(),
        final(nodes)@.len() > old(nodes)@.len(),
        final(nodes)@.subrange(0, old(nodes)@.len() as int) == old(nodes)@,
        r == final(nodes)@.len() - 1,
        forall|i: int|
            old(nodes)@.len() <= i < final(nodes)@.len() ==> link_ok(
                #[trigger] final(nodes)@[i],
                i,
                keys@.len(),
            ) && split_ok(final(nodes)@, i, keys@),
        leaves(final(nodes)@, r as int) == final(order)@.subrange(start as int, end as int),
    decreases end - start,
{
    let ghost order0 = order@;
    let ghost nodes0 = nodes@;
    let axis = random_int(0, 2) as usize;
    let span = end - start;
    if span == 1 {
        let p = order[start];
        nodes.push(BvhLink { left: BvhChild::Prim(p), right: BvhChild::Prim(p), axis });
        proof {
            assert(nodes@.subrange(0, nodes0.len() as int) =~= nodes0);
            assert(order@.subrange(start as int, end as int) =~= seq![p]);
        }
    } else if span == 2 {
        let a = order[start];
        let b = order[start + 1];
        proof {
            assert(order@.subrange(start as int, end as int)[0] == a);
            assert(order@.subrange(start as int, end as int)[1] == b);
        }
        if keys[b][axis] < keys[a][axis] {
            proof {
                lemma_swap_range_multiset(order@, start as int, end as int, start as int, start + 1);
            }
            swap_entries(order, start, start + 1);
            nodes.push(BvhLink { left: BvhChild::Prim(b), right: BvhChild::Prim(a), axis });
        } else {
            nodes.push(BvhLink { left: BvhChild::Prim(a), right: BvhChild::Prim(b), axis });
        }
        proof {
            assert(nodes@.subrange(0, nodes0.len() as int) =~= nodes0);
            let sub = order@.subrange(start as int, end as int);
            assert(sub =~= seq![order@[start as int]] + seq![order@[start + 1]]);
        }
    } else {
        sort_range(keys, order, start, end, axis);
        let ghost sorted = order@;
        proof {
            lemma_perm_no_duplicates(
                order0.subrange(start as int, end as int),
                sorted.subrange(start as int, end as int),
            );
        }
        let mid = start + span / 2;
        proof {
            assert(order@.subrange(start as int, mid as int) =~= sorted.subrange(start as int, end as int).subrange(0, mid - start));
        }
        let l = build_range(keys, order, start, mid, nodes);
        let ghost order1 = order@;
        let ghost nodes1 = nodes@;
        proof {
            assert(order@.subrange(mid as int, end as int) =~= sorted.subrange(start as int, end as int).subrange(mid - start, end - start));
        }
        let r = build_range(keys, order, mid, end, nodes);
        let ghost order2 = order@;
        let ghost nodes2 = nodes@;
        nodes.push(BvhLink { left: BvhChild::Node(l), right: BvhChild::Node(r), axis });
        proof {
            let nodes3 = nodes@;
            let ri = nodes3.len() - 1;
            assert(nodes1 =~= nodes2.subrange(0, nodes1.len() as int));
            assert(nodes2 =~= nodes3.subrange(0, nodes2.len() as int));
            assert(nodes1 =~= nodes3.subrange(0, nodes1.len() as int));
            assert(nodes0 =~= nodes3.subrange(0, nodes0.len() as int));
            lemma_leaves_prefix(nodes1, nodes3, l as int);
            lemma_leaves_prefix(nodes2, nodes3, r as int);
            lemma_nodes_prefix(nodes1, nodes3, nodes0.len() as int, keys@.len(), keys@);
            lemma_nodes_prefix(nodes2, nodes3, nodes1.len() as int, keys@.len(), keys@);
            // the halves as they stand now
            let lh = order2.subrange(start as int, mid as int);
            let rh = order2.subrange(mid as int, end as int);
            assert(lh =~= order1.subrange(start as int, mid as int));
            assert(order2.subrange(start as int, end as int) =~= lh + rh);
            assert(child_leaves(nodes3, nodes3[ri].left, ri) == lh);
            assert(child_leaves(nodes3, nodes3[ri].right, ri) == rh);
            // every key on the left is at most every key on the right
            assert forall|a: int, b: int| 0 <= a < lh.len() && 0 <= b < rh.len() implies
                #[trigger] key(keys@, lh[a], axis) <= #[trigger] key(keys@, rh[b], axis) by {
                broadcast use group_to_multiset_ensures;
                let sl = sorted.subrange(start as int, mid as int);
                let sr = sorted.subrange(mid as int, end as int);
                assert(lh.contains(lh[a]));
                assert(sl.to_multiset() == lh.to_multiset());
                assert(lh.to_multiset().count(lh[a]) > 0);
                assert(sl.to_multiset().count(lh[a]) > 0);
                assert(sl.contains(lh[a]));
                let x = choose|x: int| 0 <= x < sl.len() && sl[x] == lh[a];
                assert(rh.contains(rh[b]));
                assert(order1.subrange(mid as int, end as int) =~= sr);
                assert(sr.to_multiset() == rh.to_multiset());
                assert(rh.to_multiset().count(rh[b]) > 0);
                assert(sr.to_multiset().count(rh[b]) > 0);
                assert(sr.contains(rh[b]));
                let y = choose|y: int| 0 <= y < sr.len() && sr[y] == rh[b];
                assert(sorted[start + x] == lh[a]);
                assert(sorted[mid + y] == rh[b]);
            }
            assert(split_ok(nodes3, ri, keys@));
            // the whole range is still a rearrangement of what it was
            assert(order2.subrange(start as int, end as int).to_multiset() == sorted.subrange(
                start as int,
                end as int,
            ).to_multiset()) by {
                let sl = sorted.subrange(start as int, mid as int);
                let sr = sorted.subrange(mid as int, end as int);
                assert(sorted.subrange(start as int, end as int) =~= sl + sr);
                assert(order1.subrange(mid as int, end as int) =~= sr);
                vstd::seq_lib::lemma_multiset_commutative(lh, rh);
                vstd::seq_lib::lemma_multiset_commutative(sl, sr);
            }
        }
    }
    nodes.len() - 1
}

impl BvhLayout {
    /// Builds a hierarchy over primitives whose bounding boxes have the given
    /// sort keys: `bounds[p]` holds, for each axis, a key that orders primitive
    /// `p` by its box's minimum corner along that axis, or is absent when `p`
    /// has no bounding box. Each node orders its primitives along an axis drawn
    /// at random; a run of one primitive becomes a node with that primitive on
    /// both sides, a run of two a node with one on each side, in key order (the
    /// first one on the left when their keys tie), and a longer run is sorted
    /// stably and split at its middle.
    pub fn new(bounds: &Vec<Option<[u32; 3]>>) -> (r: Result<BvhLayout, BvhError>)
        ensures
            match r {
                Ok(layout) => {
                    &&& bounds@.len() > 0
                    &&& forall|k: int| 0 <= k < bounds@.len() ==> #[trigger] bounds@[k] is Some
                    &&& layout.wf(bounds@.len())
                    &&& layout.prims().to_multiset() == index_seq(bounds@.len()).to_multiset()
                    &&& forall|i: int|
                        0 <= i < layout.nodes@.len() ==> #[trigger] split_ok(
                            layout.nodes@,
                            i,
                            present_keys(bounds@),
                        )
                },
                Err(BvhError::Empty) => bounds@.len() == 0,
                Err(BvhError::Unbounded(i)) => {
                    &&& i < bounds@.len()
                    &&& bounds@[i as int] is None
                    &&& forall|k: int| 0 <= k < i ==> #[trigger] bounds@[k] is Some
                },
            },
    {
        let n = bounds.len();
        if n == 0 {
            return Err(BvhError::Empty);
        }
        let mut keys: Vec<[u32; 3]> = Vec::new();
        let mut order: Vec<usize> = Vec::new();
        let mut i: usize = 0;
        while i < n
            invariant
                n == bounds@.len(),
                i <= n,
                keys@.len() == i,
                order@ == index_seq(i as nat),
                forall|k: int| 0 <= k < i ==> #[trigger] bounds@[k] is Some,
                forall|k: int| 0 <= k < i ==> keys@[k] == #[trigger] bounds@[k]->0,
            decreases n - i,
        {
            match bounds[i] {
                Some(k) => {
                    keys.push(k);
                    order.push(i);
                },
                None => {
                    return Err(BvhError::Unbounded(i));
                },
            }
            i = i + 1;
            assert(order@ =~= index_seq(i as nat));
        }
        proof {
            assert(keys@ =~= present_keys(bounds@));
            assert(order@.subrange(0, n as int) =~= order@);
        }
        let mut nodes: Vec<BvhLink> = Vec::new();
        let root = build_range(&keys, &mut order, 0, n, &mut nodes);
        proof {
            assert(nodes@.subrange(0, nodes@.len() as int) =~= nodes@);
            assert(order@.subrange(0, n as int) =~= order@);
        }
        Ok(BvhLayout { nodes, root })
    }
}

/// The bit pattern of an IEEE-754 single-precision float is a NaN: all
/// exponent bits set and a non-zero fraction.
pub open spec fn is_nan_bits(bits: u32) -> bool {
    bits % 0x8000_0000 > 0x7f80_0000
}

/// Position of a non-NaN float on the number line, read from its bit pattern:
/// the magnitude bits grow with the absolute value, and the sign bit negates.
/// Both zeros stand at 0.
pub open spec fn float_rank(bits: u32) -> int {
    let magnitude = (bits % 0x8000_0000) as int;
    if bits >= 0x8000_0000 {
        -magnitude
    } else {
        magnitude
    }
}

/// Sort key of a box coordinate given as the bit pattern of a float: keys
/// compare as the floats do, and a NaN, which compares with nothing, has none.
pub fn sort_key(bits: u32) -> (r: Option<u32>)
    ensures
        r is None <==> is_nan_bits(bits),
        r matches Some(k) ==> k == float_rank(bits) + 0x8000_0000,
{
    let magnitude = bits & 0x7fff_ffff;
    assert(bits & 0x7fff_ffff == bits % 0x8000_0000) by (bit_vector);
    if magnitude > 0x7f80_0000 {
        None
    } else if bits >= 0x8000_0000 {
        Some(0x8000_0000 - magnitude)
    } else {
        Some(0x8000_0000 + magnitude)
    }
}

} // verus!
