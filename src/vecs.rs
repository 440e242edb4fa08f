use vstd::prelude::*;

verus! {

/// Scale of the fixed-point numbers the library works with: a fixed-point
/// value `v` stands for `v / FIXED_ONE`.
pub const FIXED_ONE: i32 = 65536;

/// A point or direction in three dimensions.
#[derive(Clone, Copy, Debug, Default)]
pub struct Vec3<T> {
    pub x: T,
    pub y: T,
    pub z: T,
}

/// A point or direction in the plane.
#[derive(Clone, Copy, Debug, Default)]
pub struct Vec2<T> {
    pub x: T,
    pub y: T,
}

impl<T> Vec3<T> {
    pub fn from(x: T, y: T, z: T) -> (r: Self)
        ensures
            r.x == x,
            r.y == y,
            r.z == z,
    {
        Vec3 { x, y, z }
    }
}

impl<T> Vec2<T> {
    pub fn from(x: T, y: T) -> (r: Self)
        ensures
            r.x == x,
            r.y == y,
    {
        Vec2 { x, y }
    }
}

} // verus!
