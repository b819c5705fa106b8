use nights_into_bins::vec::{Vec2, Vec3};

#[test]
fn cross_of_unit_axes() {
    let x = Vec3 { x: 1i64, y: 0, z: 0 };
    let y = Vec3 { x: 0i64, y: 1, z: 0 };
    let z = x.cross(&y);
    assert_eq!((z.x, z.y, z.z), (0, 0, 1));
}

#[test]
fn dot_of_vectors() {
    let a = Vec3 { x: 1i64, y: 2, z: 3 };
    let b = Vec3 { x: 4i64, y: -5, z: 6 };
    assert_eq!(a.dot(&b), 12);
}

#[test]
fn widen_normal() {
    let n = Vec3 { x: -128i8, y: 127, z: 0 };
    let w = n.to();
    assert_eq!((w.x, w.y, w.z), (-128, 127, 0));
}

#[test]
fn scale_size() {
    let s = Vec2 { x: 64u32, y: 32 };
    let d = s.mul(2);
    assert_eq!((d.x, d.y), (128, 64));
}
