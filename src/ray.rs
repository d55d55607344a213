use crate::aabb::Point3;
use vstd::prelude::*;

verus! {

/// A ray: an origin and a direction, each coordinate the bit pattern of a
/// double. The point at parameter `t` is `orig + t * dir`.
#[derive(Clone, Copy, PartialEq, Eq, Structural, Debug)]
pub struct Ray {
    pub orig: Point3,
    pub dir: Point3,
}

impl Ray {
    pub fn new(_orig: Point3, _dir: Point3) -> (r: Ray)
        ensures
            r.orig == _orig,
            r.dir == _dir,
    {
        Ray { orig: _orig, dir: _dir }
    }
}

} // verus!
