use crate::aabb::{
    coord_key, encloses, lemma_encloses_transitive, lemma_surrounding_box_exact, order_key,
    surrounding, AABB,
};
use crate::random::random_below;
use std::cmp::Ordering;
use vstd::multiset::Multiset;
use vstd::prelude::*;

verus! {

/// Key of a box on an axis: the key of its minimum corner's coordinate there.
pub open spec fn min_key(b: AABB, axis: int) -> u64 {
    coord_key(b._min.axis(axis))
}

/// The objects that `order` holds at positions `lo..hi`.
pub open spec fn items(order: Seq<usize>, lo: int, hi: int) -> Set<usize> {
    Set::new(|o: usize| exists|k: int| lo <= k < hi && order[k] == o)
}

/// Positions `lo..hi` of `order` are sorted by the key of each object's box on `axis`.
pub open spec fn sorted_on(boxes: Seq<AABB>, order: Seq<usize>, lo: int, hi: int, axis: int) -> bool {
    forall|i: int, j: int|
        lo <= i < j < hi ==> min_key(boxes[#[trigger] order[i] as int], axis) <= min_key(
            boxes[#[trigger] order[j] as int],
            axis,
        )
}

/// Positions `lo..hi` of `order` hold pairwise distinct objects.
pub open spec fn distinct_on(order: Seq<usize>, lo: int, hi: int) -> bool {
    forall|i: int, j: int| lo <= i < hi && lo <= j < hi && i != j ==> #[trigger] order[i] != #[trigger] order[j]
}

/// A value found at two positions of a sequence occurs at least twice in it.
proof fn lemma_count_two<A>(s: Seq<A>, i: int, j: int)
    requires
        0 <= i < s.len(),
        0 <= j < s.len(),
        i != j,
        s[i] == s[j],
    ensures
        s.to_multiset().count(s[i]) >= 2,
{
    s.to_multiset_ensures();
    let rest = s.remove(i);
    rest.to_multiset_ensures();
    let k = if j < i {
        j
    } else {
        j - 1
    };
    assert(0 <= k < rest.len());
    assert(rest[k] == s[i]);
    assert(rest.contains(s[i]));
    assert(rest.to_multiset() =~= s.to_multiset().remove(s[i]));
    assert(rest.to_multiset().count(s[i]) > 0);
    assert(s.contains(s[i]));
    assert(s.to_multiset().count(s[i]) > 0);
    assert(Multiset::singleton(s[i]).count(s[i]) == 1);
    assert(s.to_multiset().remove(s[i]).count(s[i]) == s.to_multiset().count(s[i]) - 1);
}

/// A value found at one position only of a sequence occurs once in it.
proof fn lemma_count_one<A>(s: Seq<A>, i: int)
    requires
        0 <= i < s.len(),
        forall|j: int| 0 <= j < s.len() && j != i ==> s[j] != s[i],
    ensures
        s.to_multiset().count(s[i]) == 1,
{
    s.to_multiset_ensures();
    let rest = s.remove(i);
    rest.to_multiset_ensures();
    assert(!rest.contains(s[i])) by {
        if rest.contains(s[i]) {
            let k = choose|k: int| 0 <= k < rest.len() && rest[k] == s[i];
            assert(rest.len() == s.len() - 1);
            if k < i {
                assert(s[k] == s[i]);
            } else {
                assert(s[k + 1] == s[i]);
            }
        }
    }
    assert(rest.to_multiset() =~= s.to_multiset().remove(s[i]));
    assert(rest.to_multiset().count(s[i]) == 0);
    assert(s.contains(s[i]));
    assert(s.to_multiset().count(s[i]) > 0);
    assert(Multiset::singleton(s[i]).count(s[i]) == 1);
    assert(s.to_multiset().remove(s[i]).count(s[i]) == s.to_multiset().count(s[i]) - 1);
}

/// Distinct objects at positions `lo..hi` make a set of `hi - lo` objects.
proof fn lemma_items_len(order: Seq<usize>, lo: int, hi: int)
    requires
        0 <= lo <= hi <= order.len(),
        distinct_on(order, lo, hi),
    ensures
        items(order, lo, hi).finite(),
        items(order, lo, hi).len() == hi - lo,
    decreases hi - lo,
{
    if hi == lo {
        assert(items(order, lo, hi) =~= Set::<usize>::empty());
    } else {
        lemma_items_len(order, lo, hi - 1);
        assert(items(order, lo, hi) =~= items(order, lo, hi - 1).insert(order[hi - 1]));
        assert(!items(order, lo, hi - 1).contains(order[hi - 1]));
    }
}

/// Lexicographic order of pairs.
pub open spec fn pair_le(a: (u64, usize), b: (u64, usize)) -> bool {
    a.0 < b.0 || (a.0 == b.0 && a.1 <= b.1)
}

/// Relies on slice::sort: an ascending sort of the pairs, in lexicographic order.
#[verifier::external_body]
fn sort_pairs(v: Vec<(u64, usize)>) -> (r: Vec<(u64, usize)>)
    ensures
        r@.to_multiset() == v@.to_multiset(),
        forall|i: int, j: int| 0 <= i < j < r@.len() ==> pair_le(#[trigger] r@[i], #[trigger] r@[j]),
{
    let mut v = v;
    v.sort();
    v
}

/// Sorts positions `start..end` of `order` by the minimum of each object's box
/// on `axis`, leaving the other positions alone. Each object is paired with its
/// position in the range, so the pairs are distinct.
pub fn sort_range_on_axis(
    boxes: &Vec<AABB>,
    order: &mut Vec<usize>,
    start: usize,
    end: usize,
    axis: usize,
)
    requires
        start < end <= old(order)@.len(),
        axis < 3,
        forall|k: int| 0 <= k < old(order)@.len() ==> #[trigger] old(order)@[k] < boxes@.len(),
        distinct_on(old(order)@, start as int, end as int),
    ensures
        distinct_on(final(order)@, start as int, end as int),
        final(order)@.len() == old(order)@.len(),
        forall|k: int|
            0 <= k < old(order)@.len() && !(start <= k < end) ==> #[trigger] final(order)@[k]
                == old(order)@[k],
        items(final(order)@, start as int, end as int) == items(old(order)@, start as int, end as int),
        forall|k: int| 0 <= k < final(order)@.len() ==> #[trigger] final(order)@[k] < boxes@.len(),
        sorted_on(boxes@, final(order)@, start as int, end as int, axis as int),
{
    let span = end - start;
    let ghost old_order = order@;
    let mut keyed: Vec<(u64, usize)> = Vec::new();
    let mut i: usize = 0;
    while i < span
        invariant
            i <= span,
            span == end - start,
            start < end <= order@.len(),
            order@ == old_order,
            axis < 3,
            forall|k: int| 0 <= k < old_order.len() ==> #[trigger] old_order[k] < boxes@.len(),
            keyed@.len() == i,
            forall|p: int|
                0 <= p < i ==> #[trigger] keyed@[p] == (
                    min_key(boxes@[old_order[start + p] as int], axis as int),
                    p as usize,
                ),
        decreases span - i,
    {
        let b = boxes[order[start + i]];
        let k = order_key(b._min.get(axis));
        keyed.push((k, i));
        i = i + 1;
    }
    let ghost keyed_seq = keyed@;
    let sorted = sort_pairs(keyed);
    proof {
        keyed_seq.to_multiset_ensures();
        sorted@.to_multiset_ensures();
        assert forall|q: int| 0 <= q < sorted@.len() implies keyed_seq.contains(
            #[trigger] sorted@[q],
        ) by {
            assert(sorted@.contains(sorted@[q]));
            assert(sorted@.to_multiset().count(sorted@[q]) > 0);
            assert(keyed_seq.to_multiset().count(sorted@[q]) > 0);
            assert(keyed_seq.contains(sorted@[q]));
        }
        assert(keyed_seq.len() == span);
        assert(sorted@.len() == span);
    }
    let mut placed: Vec<usize> = Vec::new();
    let mut i: usize = 0;
    while i < span
        invariant
            i <= span,
            span == end - start,
            start < end <= order@.len(),
            order@ == old_order,
            sorted@.len() == span,
            keyed_seq.len() == span,
            forall|q: int| 0 <= q < sorted@.len() ==> keyed_seq.contains(#[trigger] sorted@[q]),
            forall|p: int|
                0 <= p < span ==> #[trigger] keyed_seq[p] == (
                    min_key(boxes@[old_order[start + p] as int], axis as int),
                    p as usize,
                ),
            placed@.len() == i,
            forall|q: int| 0 <= q < i ==> #[trigger] placed@[q] == old_order[start + sorted@[q].1],
        decreases span - i,
    {
        let pos = sorted[i].1;
        proof {
            let p = choose|p: int| 0 <= p < keyed_seq.len() && keyed_seq[p] == sorted@[i as int];
            assert(keyed_seq[p].1 == p);
        }
        placed.push(order[start + pos]);
        i = i + 1;
    }
    let mut i: usize = 0;
    while i < span
        invariant
            i <= span,
            span == end - start,
            start < end <= order@.len(),
            order@.len() == old_order.len(),
            placed@.len() == span,
            forall|k: int| 0 <= k < old_order.len() && !(start <= k < start + i) ==> #[trigger] order@[k] == old_order[k],
            forall|q: int| 0 <= q < i ==> #[trigger] order@[start + q] == placed@[q],
        decreases span - i,
    {
        order.set(start + i, placed[i]);
        i = i + 1;
    }
    proof {
        let new_order = order@;
        assert forall|q: int| 0 <= q < span implies {
            &&& 0 <= #[trigger] sorted@[q].1 < span
            &&& new_order[start + q] == old_order[start + sorted@[q].1]
            &&& sorted@[q].0 == min_key(boxes@[new_order[start + q] as int], axis as int)
        } by {
            let p = choose|p: int| 0 <= p < keyed_seq.len() && keyed_seq[p] == sorted@[q];
            assert(keyed_seq[p].1 == p);
        }
        assert forall|i: int, j: int| start <= i < j < end implies min_key(
            boxes@[#[trigger] new_order[i] as int],
            axis as int,
        ) <= min_key(boxes@[#[trigger] new_order[j] as int], axis as int) by {
            assert(0 <= sorted@[i - start].1 < span);
            assert(0 <= sorted@[j - start].1 < span);
            assert(pair_le(sorted@[i - start], sorted@[j - start]));
        }
        assert forall|k: int| 0 <= k < new_order.len() implies #[trigger] new_order[k]
            < boxes@.len() by {
            if start <= k < end {
                assert(0 <= sorted@[k - start].1 < span);
                assert(new_order[k] == old_order[start + sorted@[k - start].1]);
            }
        }
        let a = items(new_order, start as int, end as int);
        let b = items(old_order, start as int, end as int);
        assert forall|o: usize| a.contains(o) implies b.contains(o) by {
            let k = choose|k: int| start <= k < end && new_order[k] == o;
            assert(0 <= sorted@[k - start].1 < span);
            assert(new_order[k] == old_order[start + sorted@[k - start].1]);
        }
        assert forall|o: usize| b.contains(o) implies a.contains(o) by {
            let k = choose|k: int| start <= k < end && old_order[k] == o;
            let pr = keyed_seq[k - start];
            assert(keyed_seq.contains(pr));
            assert(keyed_seq.to_multiset().count(pr) > 0);
            assert(sorted@.to_multiset().count(pr) > 0);
            assert(sorted@.contains(pr));
            let q = choose|q: int| 0 <= q < sorted@.len() && sorted@[q] == pr;
            assert(sorted@[q].1 == k - start);
            assert(new_order[start + q] == old_order[k]);
        }
        assert(a =~= b);
        assert forall|i: int, j: int|
            start <= i < end && start <= j < end && i != j implies #[trigger] new_order[i]
            != #[trigger] new_order[j] by {
            let (qi, qj) = (i - start, j - start);
            let (pi, pj) = (sorted@[qi].1 as int, sorted@[qj].1 as int);
            assert(0 <= pi < span && 0 <= pj < span);
            if pi == pj {
                assert(sorted@[qi] == keyed_seq[pi]);
                assert(sorted@[qj] == keyed_seq[pj]);
                lemma_count_two(sorted@, qi, qj);
                assert forall|k: int| 0 <= k < keyed_seq.len() && k != pi implies keyed_seq[k]
                    != keyed_seq[pi] by {
                    assert(keyed_seq[k].1 == k);
                }
                lemma_count_one(keyed_seq, pi);
            }
            assert(new_order[i] == old_order[start + pi]);
            assert(new_order[j] == old_order[start + pj]);
        }
    }
}


/// A child of an interior node: an object of the scene, by its index in the
/// list of bounding boxes, or another interior node, by its index in the arena.
#[derive(Clone, Copy, PartialEq, Eq, Structural, Debug)]
pub enum BVHChild {
    Object(usize),
    Node(usize),
}

/// An interior node of the hierarchy: two children and the union of their boxes.
#[derive(Clone, Copy, PartialEq, Eq, Structural, Debug)]
pub struct BVHBranch {
    pub left: BVHChild,
    pub right: BVHChild,
    pub _box: AABB,
}

/// A bounding volume hierarchy over a list of object boxes. Interior nodes
/// live in an arena; a node's children always come before it, and `root` is
/// the last node.
pub struct BVHNode {
    pub nodes: Vec<BVHBranch>,
    pub root: usize,
}

/// Measure that strictly decreases from a node to its children.
pub open spec fn child_rank(c: BVHChild) -> nat {
    match c {
        BVHChild::Object(_) => 0,
        BVHChild::Node(h) => h as nat + 1,
    }
}

/// The child refers to an object among `n_objects` or to a node before `bound`.
pub open spec fn child_valid(c: BVHChild, bound: int, n_objects: int) -> bool {
    match c {
        BVHChild::Object(o) => o < n_objects,
        BVHChild::Node(h) => h < bound,
    }
}

/// The box of a child.
pub open spec fn child_box(nodes: Seq<BVHBranch>, boxes: Seq<AABB>, c: BVHChild) -> AABB {
    match c {
        BVHChild::Object(o) => boxes[o as int],
        BVHChild::Node(h) => nodes[h as int]._box,
    }
}

/// On `axis`, every object below the left child of node `i` has a box
/// minimum no greater than that of every object below its right child.
pub open spec fn ordered_on(nodes: Seq<BVHBranch>, boxes: Seq<AABB>, i: int, axis: int) -> bool {
    forall|a: usize, b: usize|
        #[trigger] leaves(nodes, nodes[i].left).contains(a) && #[trigger] leaves(
            nodes,
            nodes[i].right,
        ).contains(b) ==> min_key(boxes[a as int], axis) <= min_key(boxes[b as int], axis)
}

/// Node `i` splits its objects along one of the three axes.
pub open spec fn split_ordered(nodes: Seq<BVHBranch>, boxes: Seq<AABB>, i: int) -> bool {
    exists|axis: int| 0 <= axis < 3 && #[trigger] ordered_on(nodes, boxes, i, axis)
}

/// The right child of node `i` holds as many objects as the left one, or one more.
pub open spec fn split_at_midpoint(nodes: Seq<BVHBranch>, i: int) -> bool {
    let l = leaves(nodes, nodes[i].left).len();
    let r = leaves(nodes, nodes[i].right).len();
    l <= r <= l + 1
}

/// Node `i` refers to earlier nodes only, its box is the union of its
/// children's, and its children are split along one axis at the midpoint.
pub open spec fn branch_wf(nodes: Seq<BVHBranch>, boxes: Seq<AABB>, i: int) -> bool {
    &&& split_ordered(nodes, boxes, i)
    &&& split_at_midpoint(nodes, i)
    &&& child_valid(nodes[i].left, i, boxes.len() as int)
    &&& child_valid(nodes[i].right, i, boxes.len() as int)
    &&& nodes[i]._box == surrounding(
        child_box(nodes, boxes, nodes[i].left),
        child_box(nodes, boxes, nodes[i].right),
    )
}

/// Every node of the arena is well formed.
pub open spec fn arena_wf(nodes: Seq<BVHBranch>, boxes: Seq<AABB>) -> bool {
    forall|i: int| 0 <= i < nodes.len() ==> #[trigger] branch_wf(nodes, boxes, i)
}

/// The objects found below a child.
pub open spec fn leaves(nodes: Seq<BVHBranch>, c: BVHChild) -> Set<usize>
    decreases child_rank(c),
{
    match c {
        BVHChild::Object(o) => set![o],
        BVHChild::Node(h) => if h < nodes.len() && child_rank(nodes[h as int].left) <= h
            && child_rank(nodes[h as int].right) <= h {
            leaves(nodes, nodes[h as int].left).union(leaves(nodes, nodes[h as int].right))
        } else {
            Set::empty()
        },
    }
}

/// The objects `0..n`.
pub open spec fn all_objects(n: nat) -> Set<usize> {
    Set::new(|o: usize| o < n)
}

/// Extending the arena does not change what lies below an existing child.
proof fn lemma_leaves_stable(small: Seq<BVHBranch>, big: Seq<BVHBranch>, c: BVHChild)
    requires
        small.len() <= big.len(),
        forall|i: int| 0 <= i < small.len() ==> big[i] == small[i],
        child_rank(c) <= small.len(),
    ensures
        leaves(big, c) == leaves(small, c),
    decreases child_rank(c),
{
    if let BVHChild::Node(h) = c {
        let n = small[h as int];
        if child_rank(n.left) <= h && child_rank(n.right) <= h {
            lemma_leaves_stable(small, big, n.left);
            lemma_leaves_stable(small, big, n.right);
        }
    }
}

/// Compares two boxes by the key of their minimum corner on `axis`.
fn box_compare(a: &AABB, b: &AABB, axis: usize) -> (r: Ordering)
    requires
        axis < 3,
    ensures
        r == Ordering::Less <==> min_key(*a, axis as int) < min_key(*b, axis as int),
        r == Ordering::Equal <==> min_key(*a, axis as int) == min_key(*b, axis as int),
        r == Ordering::Greater <==> min_key(*a, axis as int) > min_key(*b, axis as int),
{
    let ka = order_key(a._min.get(axis));
    let kb = order_key(b._min.get(axis));
    if ka < kb {
        Ordering::Less
    } else if ka == kb {
        Ordering::Equal
    } else {
        Ordering::Greater
    }
}

/// Builds the hierarchy over positions `start..end` of `order`, appending its
/// nodes to the arena, and returns the index of its root node.
fn build_range(
    boxes: &Vec<AABB>,
    order: &mut Vec<usize>,
    start: usize,
    end: usize,
    nodes: &mut Vec<BVHBranch>,
) -> (r: usize)
    requires
        start < end <= old(order)@.len(),
        forall|k: int| 0 <= k < old(order)@.len() ==> #[trigger] old(order)@[k] < boxes@.len(),
        distinct_on(old(order)@, start as int, end as int),
        arena_wf(old(nodes)@, boxes@),
    ensures
        distinct_on(final(order)@, start as int, end as int),
        final(order)@.len() == old(order)@.len(),
        forall|k: int|
            0 <= k < old(order)@.len() && !(start <= k < end) ==> #[trigger] final(order)@[k]
                == old(order)@[k],
        items(final(order)@, start as int, end as int) == items(old(order)@, start as int, end as int),
        forall|k: int| 0 <= k < final(order)@.len() ==> #[trigger] final(order)@[k] < boxes@.len(),
        arena_wf(final(nodes)@, boxes@),
        old(nodes)@.len() <= r,
        r + 1 == final(nodes)@.len(),
        forall|i: int| 0 <= i < old(nodes)@.len() ==> #[trigger] final(nodes)@[i] == old(nodes)@[i],
        leaves(final(nodes)@, BVHChild::Node(r)) == items(old(order)@, start as int, end as int),
    decreases end - start,
{
    let axis = random_below(3);
    let span = end - start;
    let ghost order0 = order@;
    let ghost nodes0 = nodes@;
    let left: BVHChild;
    let right: BVHChild;
    if span == 1 {
        left = BVHChild::Object(order[start]);
        right = BVHChild::Object(order[start]);
        proof {
            assert(items(order0, start as int, end as int) =~= set![order0[start as int]]);
            assert(leaves(nodes@, left) =~= set![order0[start as int]]);
            assert(leaves(nodes@, left).len() == 1);
        }
    } else if span == 2 {
        let a = order[start];
        let b = order[start + 1];
        match box_compare(&boxes[a], &boxes[b], axis) {
            Ordering::Less => {
                left = BVHChild::Object(a);
                right = BVHChild::Object(b);
            },
            _ => {
                left = BVHChild::Object(b);
                right = BVHChild::Object(a);
            },
        }
        proof {
            assert(items(order0, start as int, end as int) =~= set![a, b]);
            assert(leaves(nodes@, left) =~= set![left->Object_0]);
            assert(leaves(nodes@, right) =~= set![right->Object_0]);
            assert(leaves(nodes@, left).len() == 1);
            assert(leaves(nodes@, right).len() == 1);
        }
    } else {
        sort_range_on_axis(boxes, order, start, end, axis);
        let mid = start + span / 2;
        let ghost order1 = order@;
        let l = build_range(boxes, order, start, mid, nodes);
        let ghost order2 = order@;
        let ghost nodes2 = nodes@;
        let r = build_range(boxes, order, mid, end, nodes);
        proof {
            lemma_leaves_stable(nodes2, nodes@, BVHChild::Node(l));
            let whole = items(order@, start as int, end as int);
            let lo = items(order2, start as int, mid as int);
            let hi = items(order2, mid as int, end as int);
            assert(items(order@, start as int, mid as int) =~= lo) by {
                let cur = items(order@, start as int, mid as int);
                assert forall|o: usize| cur.contains(o) implies lo.contains(o) by {
                    let k = choose|k: int| start <= k < mid && order@[k] == o;
                    assert(order2[k] == o);
                }
                assert forall|o: usize| lo.contains(o) implies cur.contains(o) by {
                    let k = choose|k: int| start <= k < mid && order2[k] == o;
                    assert(order@[k] == o);
                }
            }
            assert forall|o: usize| whole.contains(o) implies lo.union(items(order@, mid as int, end as int)).contains(o) by {
                let k = choose|k: int| start <= k < end && order@[k] == o;
                if k < mid {
                    assert(lo.contains(o));
                } else {
                    assert(items(order@, mid as int, end as int).contains(o));
                }
            }
            assert forall|o: usize| lo.union(items(order@, mid as int, end as int)).contains(o) implies whole.contains(o) by {
                if lo.contains(o) {
                    let k = choose|k: int| start <= k < mid && order2[k] == o;
                    assert(order@[k] == o);
                } else {
                    let k = choose|k: int| mid <= k < end && order@[k] == o;
                }
            }
            assert(whole =~= lo.union(items(order@, mid as int, end as int)));
            assert(items(order2, start as int, end as int) =~= items(order1, start as int, end as int)) by {
                let w2 = items(order2, start as int, end as int);
                let w1 = items(order1, start as int, end as int);
                assert forall|o: usize| w1.contains(o) implies w2.contains(o) by {
                    let k = choose|k: int| start <= k < end && order1[k] == o;
                    if k < mid {
                        assert(items(order1, start as int, mid as int).contains(o));
                    } else {
                        assert(order2[k] == o);
                    }
                }
                assert forall|o: usize| w2.contains(o) implies w1.contains(o) by {
                    let k = choose|k: int| start <= k < end && order2[k] == o;
                    if k >= mid {
                        assert(order1[k] == o);
                    } else {
                        assert(items(order2, start as int, mid as int).contains(o));
                    }
                }
            }
            assert(items(order@, start as int, end as int) =~= items(order1, start as int, end as int)) by {
                let w3 = items(order@, start as int, end as int);
                let w2 = items(order2, start as int, end as int);
                assert forall|o: usize| w2.contains(o) implies w3.contains(o) by {
                    let k = choose|k: int| start <= k < end && order2[k] == o;
                    if k < mid {
                        assert(order@[k] == o);
                    } else {
                        assert(items(order2, mid as int, end as int).contains(o));
                    }
                }
                assert forall|o: usize| w3.contains(o) implies w2.contains(o) by {
                    let k = choose|k: int| start <= k < end && order@[k] == o;
                    if k < mid {
                        assert(order2[k] == o);
                    } else {
                        assert(items(order@, mid as int, end as int).contains(o));
                    }
                }
            }
        }
        proof {
            assert(items(order@, mid as int, end as int) =~= items(order1, mid as int, end as int)) by {
                let a = items(order2, mid as int, end as int);
                let b = items(order1, mid as int, end as int);
                assert forall|o: usize| a.contains(o) implies b.contains(o) by {
                    let k = choose|k: int| mid <= k < end && order2[k] == o;
                    assert(order1[k] == o);
                }
                assert forall|o: usize| b.contains(o) implies a.contains(o) by {
                    let k = choose|k: int| mid <= k < end && order1[k] == o;
                    assert(order2[k] == o);
                }
                assert(a =~= b);
            }
            assert forall|a: usize, b: usize|
                #[trigger] leaves(nodes@, BVHChild::Node(l)).contains(a) && #[trigger] leaves(
                    nodes@,
                    BVHChild::Node(r),
                ).contains(b) implies min_key(boxes@[a as int], axis as int) <= min_key(
                boxes@[b as int],
                axis as int,
            ) by {
                assert(items(order1, start as int, mid as int).contains(a));
                let ka = choose|k: int| start <= k < mid && order1[k] == a;
                assert(items(order1, mid as int, end as int).contains(b));
                let kb = choose|k: int| mid <= k < end && order1[k] == b;
                assert(min_key(boxes@[order1[ka] as int], axis as int) <= min_key(
                    boxes@[order1[kb] as int],
                    axis as int,
                ));
            }
        }
        proof {
            lemma_items_len(order1, start as int, mid as int);
            lemma_items_len(order1, mid as int, end as int);
            assert(leaves(nodes@, BVHChild::Node(l)).len() == mid - start);
            assert(leaves(nodes@, BVHChild::Node(r)).len() == end - mid);
            let fin = order@;
            assert forall|i: int, j: int|
                start <= i < end && start <= j < end && i != j implies #[trigger] fin[i]
                != #[trigger] fin[j] by {
                if i < mid && mid <= j {
                    assert(items(fin, start as int, mid as int).contains(fin[i]));
                    assert(items(order1, start as int, mid as int).contains(fin[i]));
                    assert(items(order1, mid as int, end as int).contains(fin[j]));
                    let ki = choose|k: int| start <= k < mid && order1[k] == fin[i];
                    let kj = choose|k: int| mid <= k < end && order1[k] == fin[j];
                } else if j < mid && mid <= i {
                    assert(items(fin, start as int, mid as int).contains(fin[j]));
                    assert(items(order1, start as int, mid as int).contains(fin[j]));
                    assert(items(order1, mid as int, end as int).contains(fin[i]));
                    let ki = choose|k: int| mid <= k < end && order1[k] == fin[i];
                    let kj = choose|k: int| start <= k < mid && order1[k] == fin[j];
                } else if i < mid {
                    assert(fin[i] == order2[i] && fin[j] == order2[j]);
                }
            }
        }
        left = BVHChild::Node(l);
        right = BVHChild::Node(r);
    }
    proof {
        assert(forall|a: usize, b: usize|
            #[trigger] leaves(nodes@, left).contains(a) && #[trigger] leaves(nodes@, right).contains(b)
                ==> min_key(boxes@[a as int], axis as int) <= min_key(boxes@[b as int], axis as int));
    }
    let box_left = match left {
        BVHChild::Object(o) => boxes[o],
        BVHChild::Node(h) => nodes[h]._box,
    };
    let box_right = match right {
        BVHChild::Object(o) => boxes[o],
        BVHChild::Node(h) => nodes[h]._box,
    };
    let ghost before_push = nodes@;
    nodes.push(BVHBranch { left, right, _box: AABB::surrounding_box(box_left, box_right) });
    let idx = nodes.len() - 1;
    proof {
        assert forall|i: int| 0 <= i < nodes@.len() implies #[trigger] branch_wf(nodes@, boxes@, i) by {
            if i < before_push.len() {
                assert(branch_wf(before_push, boxes@, i));
                let n = before_push[i];
                lemma_leaves_stable(before_push, nodes@, n.left);
                lemma_leaves_stable(before_push, nodes@, n.right);
                let ax = choose|ax: int| 0 <= ax < 3 && #[trigger] ordered_on(before_push, boxes@, i, ax);
                assert(ordered_on(nodes@, boxes@, i, ax));
            } else {
                lemma_leaves_stable(before_push, nodes@, left);
                lemma_leaves_stable(before_push, nodes@, right);
                assert(ordered_on(nodes@, boxes@, i, axis as int));
                assert(split_at_midpoint(nodes@, i));
            }
        }
        lemma_leaves_stable(before_push, nodes@, left);
        lemma_leaves_stable(before_push, nodes@, right);
        assert(leaves(nodes@, BVHChild::Node(idx)) =~= leaves(nodes@, left).union(leaves(nodes@, right)));
    }
    idx
}


/// Every object below a child lies inside the child's box.
pub proof fn lemma_child_box_encloses(nodes: Seq<BVHBranch>, boxes: Seq<AABB>, c: BVHChild)
    requires
        arena_wf(nodes, boxes),
        child_valid(c, nodes.len() as int, boxes.len() as int),
    ensures
        forall|o: usize|
            #[trigger] leaves(nodes, c).contains(o) ==> encloses(
                child_box(nodes, boxes, c),
                boxes[o as int],
            ),
    decreases child_rank(c),
{
    match c {
        BVHChild::Object(o) => {
            assert(leaves(nodes, c) =~= set![o]);
        },
        BVHChild::Node(h) => {
            let n = nodes[h as int];
            assert(branch_wf(nodes, boxes, h as int));
            lemma_child_box_encloses(nodes, boxes, n.left);
            lemma_child_box_encloses(nodes, boxes, n.right);
            let lb = child_box(nodes, boxes, n.left);
            let rb = child_box(nodes, boxes, n.right);
            lemma_surrounding_box_exact(lb, rb);
            assert(leaves(nodes, c) == leaves(nodes, n.left).union(leaves(nodes, n.right)));
            assert forall|o: usize| #[trigger] leaves(nodes, c).contains(o) implies encloses(
                child_box(nodes, boxes, c),
                boxes[o as int],
            ) by {
                if leaves(nodes, n.left).contains(o) {
                    lemma_encloses_transitive(n._box, lb, boxes[o as int]);
                } else {
                    lemma_encloses_transitive(n._box, rb, boxes[o as int]);
                }
            }
        },
    }
}

impl BVHNode {
    /// The hierarchy is well formed over `boxes`: its arena is, the root is the
    /// last node, and every object lies below the root.
    pub open spec fn wf(&self, boxes: Seq<AABB>) -> bool {
        &&& arena_wf(self.nodes@, boxes)
        &&& self.root + 1 == self.nodes@.len()
        &&& leaves(self.nodes@, BVHChild::Node(self.root)) == all_objects(boxes.len())
    }

    /// Builds the hierarchy over the objects whose bounding boxes are `boxes`.
    /// Each interior node picks an axis at random and sorts its objects by
    /// their boxes' minimum on that axis; a range of one object gives a node
    /// whose two children are that object, a range of two is ordered by one
    /// comparison, and a longer range is split at its midpoint.
    pub fn new(boxes: &Vec<AABB>) -> (r: BVHNode)
        requires
            boxes@.len() >= 1,
        ensures
            r.wf(boxes@),
    {
        let n = boxes.len();
        let mut order: Vec<usize> = Vec::new();
        let mut i: usize = 0;
        while i < n
            invariant
                i <= n,
                n == boxes@.len(),
                order@.len() == i,
                forall|k: int| 0 <= k < i ==> #[trigger] order@[k] == k,
            decreases n - i,
        {
            order.push(i);
            i = i + 1;
        }
        let ghost order0 = order@;
        assert(distinct_on(order0, 0, n as int));
        let mut nodes: Vec<BVHBranch> = Vec::new();
        let root = build_range(boxes, &mut order, 0, n, &mut nodes);
        proof {
            let got = items(order0, 0, n as int);
            assert forall|o: usize| all_objects(n as nat).contains(o) implies got.contains(o) by {
                assert(order0[o as int] == o);
            }
            assert(got =~= all_objects(n as nat));
        }
        BVHNode { nodes, root }
    }

    /// Orders two boxes by the minimum of their x coordinates.
    pub fn box_x_compare(a: &AABB, b: &AABB) -> (r: Ordering)
        ensures
            r == Ordering::Less <==> min_key(*a, 0) < min_key(*b, 0),
            r == Ordering::Equal <==> min_key(*a, 0) == min_key(*b, 0),
            r == Ordering::Greater <==> min_key(*a, 0) > min_key(*b, 0),
    {
        box_compare(a, b, 0)
    }

    /// Orders two boxes by the minimum of their y coordinates.
    pub fn box_y_compare(a: &AABB, b: &AABB) -> (r: Ordering)
        ensures
            r == Ordering::Less <==> min_key(*a, 1) < min_key(*b, 1),
            r == Ordering::Equal <==> min_key(*a, 1) == min_key(*b, 1),
            r == Ordering::Greater <==> min_key(*a, 1) > min_key(*b, 1),
    {
        box_compare(a, b, 1)
    }

    /// Orders two boxes by the minimum of their z coordinates.
    pub fn box_z_compare(a: &AABB, b: &AABB) -> (r: Ordering)
        ensures
            r == Ordering::Less <==> min_key(*a, 2) < min_key(*b, 2),
            r == Ordering::Equal <==> min_key(*a, 2) == min_key(*b, 2),
            r == Ordering::Greater <==> min_key(*a, 2) > min_key(*b, 2),
    {
        box_compare(a, b, 2)
    }
}

/// In a well-formed hierarchy every object of the scene lies below the root,
/// and every object below a node lies inside that node's box; so a ray that
/// misses a node's box misses every object below it, and a search from the
/// root reaches every object.
pub proof fn lemma_bvh_encloses(tree: &BVHNode, boxes: Seq<AABB>)
    requires
        tree.wf(boxes),
    ensures
        forall|o: usize| o < boxes.len() ==> #[trigger] leaves(tree.nodes@, BVHChild::Node(tree.root)).contains(o),
        forall|i: int, o: usize|
            0 <= i < tree.nodes@.len() && #[trigger] leaves(tree.nodes@, BVHChild::Node(i as usize)).contains(o)
                ==> encloses(tree.nodes@[i]._box, boxes[o as int]),
{
    assert forall|i: int, o: usize|
        0 <= i < tree.nodes@.len() && #[trigger] leaves(tree.nodes@, BVHChild::Node(i as usize)).contains(o)
            implies encloses(tree.nodes@[i]._box, boxes[o as int]) by {
        lemma_child_box_encloses(tree.nodes@, boxes, BVHChild::Node(i as usize));
    }
    assert forall|o: usize| o < boxes.len() implies #[trigger] leaves(tree.nodes@, BVHChild::Node(tree.root)).contains(o) by {
        assert(all_objects(boxes.len()).contains(o));
    }
}

} // verus!
