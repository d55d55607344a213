use vstd::prelude::*;

verus! {

/// Sign bit of an IEEE-754 double.
pub const SIGN_BIT: u64 = 0x8000_0000_0000_0000;

/// Maps the bit pattern of a double to an unsigned key whose order is the
/// IEEE-754 total order (the order of `f64::total_cmp`): negative values have
/// all bits flipped, non-negative values get the sign bit set.
pub open spec fn coord_key(bits: u64) -> u64 {
    if bits & SIGN_BIT != 0 {
        !bits
    } else {
        bits | SIGN_BIT
    }
}

/// Executable form of `coord_key`.
pub fn order_key(bits: u64) -> (r: u64)
    ensures
        r == coord_key(bits),
{
    if bits & SIGN_BIT != 0 {
        !bits
    } else {
        bits | SIGN_BIT
    }
}

/// Distinct bit patterns have distinct keys.
pub proof fn lemma_coord_key_injective(a: u64, b: u64)
    ensures
        coord_key(a) == coord_key(b) ==> a == b,
{
    assert((if a & 0x8000_0000_0000_0000u64 != 0 { !a } else { a | 0x8000_0000_0000_0000u64 })
        == (if b & 0x8000_0000_0000_0000u64 != 0 { !b } else { b | 0x8000_0000_0000_0000u64 })
        ==> a == b) by (bit_vector);
}


/// Smaller of two coordinates in the total order of their keys.
pub open spec fn min_coord(a: u64, b: u64) -> u64 {
    if coord_key(a) <= coord_key(b) {
        a
    } else {
        b
    }
}

/// Larger of two coordinates in the total order of their keys.
pub open spec fn max_coord(a: u64, b: u64) -> u64 {
    if coord_key(b) <= coord_key(a) {
        a
    } else {
        b
    }
}

fn coord_min(a: u64, b: u64) -> (r: u64)
    ensures
        r == min_coord(a, b),
{
    if order_key(a) <= order_key(b) {
        a
    } else {
        b
    }
}

fn coord_max(a: u64, b: u64) -> (r: u64)
    ensures
        r == max_coord(a, b),
{
    if order_key(b) <= order_key(a) {
        a
    } else {
        b
    }
}

/// A point in space; each coordinate is the bit pattern of a double.
#[derive(Clone, Copy, PartialEq, Eq, Structural, Debug)]
pub struct Point3 {
    pub x: u64,
    pub y: u64,
    pub z: u64,
}

impl Point3 {
    pub fn new(x: u64, y: u64, z: u64) -> (r: Point3)
        ensures
            r == (Point3 { x, y, z }),
    {
        Point3 { x, y, z }
    }

    /// The coordinate on axis 0 (x), 1 (y) or 2 (z).
    pub open spec fn axis(self, axis: int) -> u64 {
        if axis == 0 {
            self.x
        } else if axis == 1 {
            self.y
        } else {
            self.z
        }
    }

    pub fn get(&self, axis: usize) -> (r: u64)
        requires
            axis < 3,
        ensures
            r == self.axis(axis as int),
    {
        if axis == 0 {
            self.x
        } else if axis == 1 {
            self.y
        } else {
            self.z
        }
    }
}

/// Componentwise minimum of two points.
pub open spec fn point_min(a: Point3, b: Point3) -> Point3 {
    Point3 { x: min_coord(a.x, b.x), y: min_coord(a.y, b.y), z: min_coord(a.z, b.z) }
}

/// Componentwise maximum of two points.
pub open spec fn point_max(a: Point3, b: Point3) -> Point3 {
    Point3 { x: max_coord(a.x, b.x), y: max_coord(a.y, b.y), z: max_coord(a.z, b.z) }
}

/// An axis-aligned bounding box given by its two extreme corners.
#[derive(Clone, Copy, PartialEq, Eq, Structural, Debug)]
pub struct AABB {
    pub _min: Point3,
    pub _max: Point3,
}

/// The smallest box holding both boxes.
pub open spec fn surrounding(b0: AABB, b1: AABB) -> AABB {
    AABB { _min: point_min(b0._min, b1._min), _max: point_max(b0._max, b1._max) }
}

/// `outer` holds `inner` on every axis.
pub open spec fn encloses(outer: AABB, inner: AABB) -> bool {
    forall|axis: int|
        0 <= axis < 3 ==> {
            &&& coord_key(#[trigger] outer._min.axis(axis)) <= coord_key(inner._min.axis(axis))
            &&& coord_key(inner._max.axis(axis)) <= coord_key(outer._max.axis(axis))
        }
}

impl AABB {
    /// The minimum corner lies below the maximum corner on every axis.
    pub open spec fn wf(self) -> bool {
        &&& coord_key(self._min.x) <= coord_key(self._max.x)
        &&& coord_key(self._min.y) <= coord_key(self._max.y)
        &&& coord_key(self._min.z) <= coord_key(self._max.z)
    }

    pub fn new(_mn: Point3, _mx: Point3) -> (r: AABB)
        ensures
            r._min == _mn,
            r._max == _mx,
    {
        AABB { _min: _mn, _max: _mx }
    }

    /// The union box of `box0` and `box1`: componentwise minimum of the minimum
    /// corners and maximum of the maximum corners.
    pub fn surrounding_box(box0: AABB, box1: AABB) -> (r: AABB)
        ensures
            r == surrounding(box0, box1),
    {
        AABB::new(
            Point3::new(
                coord_min(box0._min.x, box1._min.x),
                coord_min(box0._min.y, box1._min.y),
                coord_min(box0._min.z, box1._min.z),
            ),
            Point3::new(
                coord_max(box0._max.x, box1._max.x),
                coord_max(box0._max.y, box1._max.y),
                coord_max(box0._max.z, box1._max.z),
            ),
        )
    }
}

proof fn lemma_min_max_coord(a: u64, b: u64, c: u64)
    ensures
        min_coord(a, b) == min_coord(b, a),
        max_coord(a, b) == max_coord(b, a),
        min_coord(min_coord(a, b), c) == min_coord(a, min_coord(b, c)),
        max_coord(max_coord(a, b), c) == max_coord(a, max_coord(b, c)),
        coord_key(min_coord(a, b)) == if coord_key(a) <= coord_key(b) {
            coord_key(a)
        } else {
            coord_key(b)
        },
        coord_key(max_coord(a, b)) == if coord_key(b) <= coord_key(a) {
            coord_key(a)
        } else {
            coord_key(b)
        },
{
    lemma_coord_key_injective(a, b);
    lemma_coord_key_injective(b, c);
    lemma_coord_key_injective(a, c);
}

/// Union of boxes does not depend on the order of its arguments.
pub proof fn lemma_surrounding_box_commutative(a: AABB, b: AABB)
    ensures
        surrounding(a, b) == surrounding(b, a),
{
    lemma_min_max_coord(a._min.x, b._min.x, a._min.x);
    lemma_min_max_coord(a._min.y, b._min.y, a._min.y);
    lemma_min_max_coord(a._min.z, b._min.z, a._min.z);
    lemma_min_max_coord(a._max.x, b._max.x, a._max.x);
    lemma_min_max_coord(a._max.y, b._max.y, a._max.y);
    lemma_min_max_coord(a._max.z, b._max.z, a._max.z);
}

/// Union of boxes does not depend on how three boxes are grouped.
pub proof fn lemma_surrounding_box_associative(a: AABB, b: AABB, c: AABB)
    ensures
        surrounding(surrounding(a, b), c) == surrounding(a, surrounding(b, c)),
{
    lemma_min_max_coord(a._min.x, b._min.x, c._min.x);
    lemma_min_max_coord(a._min.y, b._min.y, c._min.y);
    lemma_min_max_coord(a._min.z, b._min.z, c._min.z);
    lemma_min_max_coord(a._max.x, b._max.x, c._max.x);
    lemma_min_max_coord(a._max.y, b._max.y, c._max.y);
    lemma_min_max_coord(a._max.z, b._max.z, c._max.z);
}

/// `r` is one of `a`, `b` and its key is at most both of theirs.
pub open spec fn is_min_of(r: u64, a: u64, b: u64) -> bool {
    &&& (r == a || r == b)
    &&& coord_key(r) <= coord_key(a)
    &&& coord_key(r) <= coord_key(b)
}

/// `r` is one of `a`, `b` and its key is at least both of theirs.
pub open spec fn is_max_of(r: u64, a: u64, b: u64) -> bool {
    &&& (r == a || r == b)
    &&& coord_key(a) <= coord_key(r)
    &&& coord_key(b) <= coord_key(r)
}

/// On every axis the union's minimum is the smaller of the two minima and its
/// maximum the larger of the two maxima, each taken from one of the inputs;
/// the union holds both inputs and is well formed when they are.
pub proof fn lemma_surrounding_box_exact(a: AABB, b: AABB)
    ensures
        is_min_of(surrounding(a, b)._min.x, a._min.x, b._min.x),
        is_min_of(surrounding(a, b)._min.y, a._min.y, b._min.y),
        is_min_of(surrounding(a, b)._min.z, a._min.z, b._min.z),
        is_max_of(surrounding(a, b)._max.x, a._max.x, b._max.x),
        is_max_of(surrounding(a, b)._max.y, a._max.y, b._max.y),
        is_max_of(surrounding(a, b)._max.z, a._max.z, b._max.z),
        encloses(surrounding(a, b), a),
        encloses(surrounding(a, b), b),
        a.wf() && b.wf() ==> surrounding(a, b).wf(),
{
    lemma_min_max_coord(a._min.x, b._min.x, a._min.x);
    lemma_min_max_coord(a._min.y, b._min.y, a._min.y);
    lemma_min_max_coord(a._min.z, b._min.z, a._min.z);
    lemma_min_max_coord(a._max.x, b._max.x, a._max.x);
    lemma_min_max_coord(a._max.y, b._max.y, a._max.y);
    lemma_min_max_coord(a._max.z, b._max.z, a._max.z);
}

/// Union of the boxes of a non-empty list, taken in list order: each box is
/// joined to the union of those before it.
pub open spec fn union_all(s: Seq<AABB>) -> AABB
    decreases s.len(),
{
    if s.len() <= 1 {
        s[0]
    } else {
        surrounding(s.last(), union_all(s.drop_last()))
    }
}

/// Every entry of the list is present.
pub open spec fn all_present(s: Seq<Option<AABB>>) -> bool {
    forall|i: int| 0 <= i < s.len() ==> (#[trigger] s[i]).is_some()
}

/// The boxes of a list whose entries are all present.
pub open spec fn unwrap_all(s: Seq<Option<AABB>>) -> Seq<AABB> {
    s.map_values(|b: Option<AABB>| b.unwrap())
}

impl AABB {
    /// Bounding box of a list of objects given their boxes: the union of all
    /// of them, or none when the list is empty or one object has no box.
    pub fn list_bounding_box(boxes: &Vec<Option<AABB>>) -> (r: Option<AABB>)
        ensures
            r.is_some() <==> boxes@.len() > 0 && all_present(boxes@),
            r.is_some() ==> r.unwrap() == union_all(unwrap_all(boxes@)),
            r.is_some() ==> forall|i: int|
                0 <= i < boxes@.len() ==> encloses(r.unwrap(), #[trigger] boxes@[i].unwrap()),
    {
        if boxes.len() == 0 {
            return None;
        }
        let mut acc: AABB = match boxes[0] {
            Some(b) => b,
            None => {
                return None;
            },
        };
        proof {
            assert(unwrap_all(boxes@.subrange(0, 1)) =~= seq![acc]);
            lemma_encloses_refl(acc);
        }
        let mut i: usize = 1;
        while i < boxes.len()
            invariant
                1 <= i <= boxes@.len(),
                all_present(boxes@.subrange(0, i as int)),
                acc == union_all(unwrap_all(boxes@.subrange(0, i as int))),
                forall|k: int| 0 <= k < i ==> encloses(acc, #[trigger] boxes@[k].unwrap()),
            decreases boxes@.len() - i,
        {
            let b = match boxes[i] {
                Some(b) => b,
                None => {
                    proof {
                        assert(!all_present(boxes@));
                    }
                    return None;
                },
            };
            let ghost prev = acc;
            acc = AABB::surrounding_box(b, acc);
            proof {
                lemma_surrounding_box_exact(b, prev);
                assert forall|k: int| 0 <= k < i + 1 implies encloses(acc, #[trigger] boxes@[k].unwrap()) by {
                    if k < i {
                        lemma_encloses_transitive(acc, prev, boxes@[k].unwrap());
                    }
                }
                let s = unwrap_all(boxes@.subrange(0, i + 1));
                assert(s.drop_last() =~= unwrap_all(boxes@.subrange(0, i as int)));
                assert(all_present(boxes@.subrange(0, i + 1))) by {
                    assert forall|k: int| 0 <= k < i + 1 implies (#[trigger] boxes@.subrange(0, i + 1)[k]).is_some() by {
                        if k < i {
                            assert(boxes@.subrange(0, i as int)[k].is_some());
                        }
                    }
                }
            }
            i = i + 1;
        }
        proof {
            assert(boxes@.subrange(0, boxes@.len() as int) =~= boxes@);
        }
        Some(acc)
    }
}

/// Every box holds itself.
pub proof fn lemma_encloses_refl(a: AABB)
    ensures
        encloses(a, a),
{
}

/// A box that holds a box holding a third one holds the third one too.
pub proof fn lemma_encloses_transitive(a: AABB, b: AABB, c: AABB)
    requires
        encloses(a, b),
        encloses(b, c),
    ensures
        encloses(a, c),
{
    assert forall|axis: int| 0 <= axis < 3 implies {
        &&& coord_key(#[trigger] a._min.axis(axis)) <= coord_key(c._min.axis(axis))
        &&& coord_key(c._max.axis(axis)) <= coord_key(a._max.axis(axis))
    } by {
        assert(coord_key(a._min.axis(axis)) <= coord_key(b._min.axis(axis)));
        assert(coord_key(b._min.axis(axis)) <= coord_key(c._min.axis(axis)));
        assert(coord_key(c._max.axis(axis)) <= coord_key(b._max.axis(axis)));
        assert(coord_key(b._max.axis(axis)) <= coord_key(a._max.axis(axis)));
    }
}

} // verus!
