use atris::algebra::Vector;
use atris::shape::Shape;

fn shape_of(cells: &[(i32, i32)]) -> Shape {
    let mut s = Shape::new();
    for &(x, y) in cells {
        s.add_pos(Vector(x, y));
    }
    s
}

#[test]
fn unit_has_one_origin_cell() {
    let s = Shape::unit();
    assert_eq!(s.size(), 1);
    assert!(s.contains(&Vector(0, 0)));
    assert!(!s.contains(&Vector(0, 1)));
}

#[test]
fn add_pos_rejects_duplicates() {
    let mut s = Shape::new();
    assert!(s.add_pos(Vector(1, 2)));
    assert!(s.add_pos(Vector(0, 2)));
    assert!(!s.add_pos(Vector(1, 2)));
    assert_eq!(s.size(), 2);
}

#[test]
fn add_pos_keeps_row_major_order() {
    let s = shape_of(&[(2, 0), (0, 1), (1, 5), (0, 0), (1, -3)]);
    let ps = s.positions();
    for w in 0..ps.len() - 1 {
        assert!(ps[w].before(&ps[w + 1]));
    }
}

#[test]
fn bounds_and_center() {
    let s = shape_of(&[(0, 0), (1, 0), (2, 0), (3, 0)]);
    let (mn, mx) = s.bounds();
    assert_eq!(mn, Vector(0, 0));
    assert_eq!(mx, Vector(3, 0));
    assert_eq!(s.center(), Vector(1, 0));

    let t = shape_of(&[(-2, 3), (4, -1)]);
    let (tn, tx) = t.bounds();
    assert_eq!(tn, Vector(-2, -1));
    assert_eq!(tx, Vector(4, 3));
    assert_eq!(t.center(), Vector(1, 1));
}

#[test]
fn empty_bounds_are_zero() {
    let s = Shape::new();
    let (mn, mx) = s.bounds();
    assert_eq!(mn, Vector(0, 0));
    assert_eq!(mx, Vector(0, 0));
}

#[test]
fn centered_moves_center_to_origin() {
    let s = shape_of(&[(10, 10), (11, 10), (12, 10)]);
    let c = s.centered();
    assert_eq!(c.size(), 3);
    assert!(c.contains(&Vector(-1, 0)));
    assert!(c.contains(&Vector(0, 0)));
    assert!(c.contains(&Vector(1, 0)));
}

#[test]
fn rotated_shape_contains_rotated_cells() {
    let s = shape_of(&[(1, 0), (2, 0)]);
    let r = s.rotated(1);
    assert_eq!(r.size(), 2);
    assert!(r.contains(&Vector(0, 1)));
    assert!(r.contains(&Vector(0, 2)));
}

#[test]
fn equivalence_is_reflexive() {
    let s = shape_of(&[(0, 0), (1, 0), (1, 1)]);
    assert!(s.equivalent(&s));
    let e = Shape::new();
    assert!(e.equivalent(&e));
}

#[test]
fn equivalence_is_symmetric() {
    let a = shape_of(&[(0, 0), (1, 0), (1, 1)]);
    let b = shape_of(&[(5, 5), (5, 6), (4, 6)]);
    assert_eq!(a.equivalent(&b), b.equivalent(&a));
    assert!(a.equivalent(&b));
}

#[test]
fn rotations_are_equivalent_to_the_original() {
    let s = shape_of(&[(0, 0), (1, 0), (2, 0), (2, 1)]);
    for k in -5..9 {
        assert!(s.rotated(k).equivalent(&s));
    }
}

#[test]
fn translations_are_equivalent_to_the_original() {
    let a = shape_of(&[(0, 0), (1, 0), (0, 1)]);
    let b = shape_of(&[(7, -3), (8, -3), (7, -2)]);
    assert!(a.equivalent(&b));
}

#[test]
fn different_cell_counts_are_not_equivalent() {
    let a = shape_of(&[(0, 0), (1, 0)]);
    let b = shape_of(&[(0, 0)]);
    assert!(!a.equivalent(&b));
}

#[test]
fn different_shapes_are_not_equivalent() {
    let line = shape_of(&[(0, 0), (1, 0), (2, 0)]);
    let angle = shape_of(&[(0, 0), (1, 0), (1, 1)]);
    assert!(!line.equivalent(&angle));
}

#[test]
fn translated_shifts_every_cell() {
    let s = shape_of(&[(0, 0), (1, 0), (1, 1)]);
    let t = s.translated(Vector(3, -2));
    assert_eq!(t.size(), 3);
    assert!(t.contains(&Vector(3, -2)));
    assert!(t.contains(&Vector(4, -2)));
    assert!(t.contains(&Vector(4, -1)));
    assert!(t.equivalent(&s));
}

#[test]
fn negated_mirrors_every_cell() {
    let s = shape_of(&[(1, 0), (2, 3)]);
    let n = s.negated();
    assert_eq!(n.size(), 2);
    assert!(n.contains(&Vector(-1, 0)));
    assert!(n.contains(&Vector(-2, -3)));
}

#[test]
fn duplicate_copies_all_cells() {
    let s = shape_of(&[(0, 0), (2, 1), (-1, 4)]);
    let d = s.duplicate();
    assert_eq!(d.size(), s.size());
    for p in s.positions() {
        assert!(d.contains(p));
    }
}
