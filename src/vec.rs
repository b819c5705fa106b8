//! Small fixed-size vectors used by the geometry decoder.
use vstd::prelude::*;

verus! {

/// Largest magnitude of a single product accepted by `cross` and `dot`, so that
/// sums of three such products stay inside `i64`.
pub open spec fn product_bound() -> int {
    0x2000_0000_0000_0000
}

#[derive(Clone, Copy, Debug, PartialEq, Eq)]
pub struct Vec2<Type> {
    pub x: Type,
    pub y: Type,
}

#[derive(Clone, Copy, Debug, PartialEq, Eq)]
pub struct Vec3<Type> {
    pub x: Type,
    pub y: Type,
    pub z: Type,
}

impl Vec2<u32> {
    /// Scales both components by `scalar`.
    pub fn mul(self, scalar: u32) -> (r: Vec2<u32>)
        requires
            self.x * scalar <= u32::MAX,
            self.y * scalar <= u32::MAX,
        ensures
            r.x == self.x * scalar,
            r.y == self.y * scalar,
    {
        Vec2 { x: self.x * scalar, y: self.y * scalar }
    }
}

/// Every product of a component of `a` with a component of `b` is small enough
/// for a sum of three of them to fit in `i64`.
pub open spec fn products_bounded(a: Vec3<i64>, b: Vec3<i64>) -> bool {
    &&& -product_bound() <= a.x * b.x <= product_bound()
    &&& -product_bound() <= a.x * b.y <= product_bound()
    &&& -product_bound() <= a.x * b.z <= product_bound()
    &&& -product_bound() <= a.y * b.x <= product_bound()
    &&& -product_bound() <= a.y * b.y <= product_bound()
    &&& -product_bound() <= a.y * b.z <= product_bound()
    &&& -product_bound() <= a.z * b.x <= product_bound()
    &&& -product_bound() <= a.z * b.y <= product_bound()
    &&& -product_bound() <= a.z * b.z <= product_bound()
}

/// Every component lies strictly between `-bound` and `bound`.
pub open spec fn within(a: Vec3<i64>, bound: int) -> bool {
    &&& -bound < a.x < bound
    &&& -bound < a.y < bound
    &&& -bound < a.z < bound
}

impl Vec3<i64> {
    /// The cross product `self × other`.
    pub fn cross(&self, other: &Vec3<i64>) -> (r: Vec3<i64>)
        requires
            products_bounded(*self, *other),
        ensures
            r.x == self.y * other.z - self.z * other.y,
            r.y == self.z * other.x - self.x * other.z,
            r.z == self.x * other.y - self.y * other.x,
    {
        Vec3 {
            x: self.y * other.z - self.z * other.y,
            y: self.z * other.x - self.x * other.z,
            z: self.x * other.y - self.y * other.x,
        }
    }

    /// The dot product `self · other`.
    pub fn dot(&self, other: &Vec3<i64>) -> (r: i64)
        requires
            products_bounded(*self, *other),
        ensures
            r == self.x * other.x + self.y * other.y + self.z * other.z,
    {
        self.x * other.x + self.y * other.y + self.z * other.z
    }

    /// Componentwise sum.
    pub fn add(&self, other: &Vec3<i64>) -> (r: Vec3<i64>)
        requires
            within(*self, 0x4000_0000_0000_0000),
            within(*other, 0x4000_0000_0000_0000),
        ensures
            r.x == self.x + other.x,
            r.y == self.y + other.y,
            r.z == self.z + other.z,
    {
        Vec3 { x: self.x + other.x, y: self.y + other.y, z: self.z + other.z }
    }

    /// Componentwise difference.
    pub fn sub(&self, other: &Vec3<i64>) -> (r: Vec3<i64>)
        requires
            within(*self, 0x4000_0000_0000_0000),
            within(*other, 0x4000_0000_0000_0000),
        ensures
            r.x == self.x - other.x,
            r.y == self.y - other.y,
            r.z == self.z - other.z,
    {
        Vec3 { x: self.x - other.x, y: self.y - other.y, z: self.z - other.z }
    }
}

impl Vec3<i8> {
    /// Widens each component to `i64`.
    pub fn to(&self) -> (r: Vec3<i64>)
        ensures
            r.x == self.x as i64,
            r.y == self.y as i64,
            r.z == self.z as i64,
    {
        Vec3 { x: self.x as i64, y: self.y as i64, z: self.z as i64 }
    }
}

} // verus!
