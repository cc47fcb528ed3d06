use atris::algebra::{UVector, Vector};

#[test]
fn origin_is_zero() {
    let o = Vector::origin();
    assert_eq!(o, Vector(0, 0));
}

#[test]
fn rotation_quarter_turns() {
    let v = Vector(5, 9);
    assert_eq!(v.rotated(1), Vector(-9, 5));
    assert_eq!(v.rotated(2), Vector(-5, -9));
    assert_eq!(v.rotated(3), Vector(9, -5));
    assert_eq!(v.rotated(4), v);
    assert_eq!(v.rotated(-1), Vector(9, -5));
}

#[test]
fn rotation_group_of_order_four() {
    // rotate(v, k) then one more turn equals rotate(v, k + 1), a full turn
    // is the identity, and -1 acts as 3.
    for k in -8..8 {
        let v = Vector(3, -7);
        assert_eq!(v.rotated(k).rotated(1), v.rotated(k + 1));
    }
    assert_eq!(Vector(2, 1).rotated(4), Vector(2, 1));
    assert_eq!(Vector(2, 1).rotated(-1), Vector(2, 1).rotated(3));
}

#[test]
fn row_major_order() {
    let v1 = Vector(5, 3);
    let v2 = Vector(5, 9);
    let v3 = Vector(-1, 1);
    assert!(v1.before(&v2));
    assert!(!v2.before(&v1));
    assert!(v3.before(&v1));
    assert!(!v1.before(&v1));
}

#[test]
fn sums_and_differences() {
    let v1 = Vector(0, 9);
    let v2 = Vector(5, -3);
    assert_eq!(v1.plus(&v2), Vector(5, 6));
    assert_eq!(v2.plus(&v1), Vector(5, 6));
    assert_eq!(v1.minus(&v2), Vector(-5, 12));
    assert_eq!(v2.minus(&v1), Vector(5, -12));
}

#[test]
fn checked_conversions_fail_out_of_range() {
    assert_eq!(Vector(3, 4).to_unsigned(), Some(UVector(3, 4)));
    assert_eq!(Vector(0, 0).to_unsigned(), Some(UVector(0, 0)));
    assert_eq!(Vector(-1, 4).to_unsigned(), None);
    assert_eq!(Vector(3, -4).to_unsigned(), None);
    assert_eq!(UVector(3, 4).to_signed(), Some(Vector(3, 4)));
    assert_eq!(UVector(0x7fff_ffff, 0).to_signed(), Some(Vector(0x7fff_ffff, 0)));
    assert_eq!(UVector(0x8000_0000, 0).to_signed(), None);
    assert_eq!(UVector(0, usize::MAX).to_signed(), None);
}

#[test]
fn unsigned_vector_components() {
    let b = UVector(10, 20);
    assert_eq!(b.0, 10);
    assert_eq!(b.1, 20);
}
