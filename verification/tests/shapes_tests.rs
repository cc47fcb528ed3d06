use atris::algebra::Vector;
use atris::shape::Shape;
use atris::shapes::Shapes;
use rand::rngs::StdRng;
use rand::SeedableRng;

fn shape_of(cells: &[(i32, i32)]) -> Shape {
    let mut s = Shape::new();
    for &(x, y) in cells {
        s.add_pos(Vector(x, y));
    }
    s
}

#[test]
fn new_cache_holds_the_unit_shape() {
    let s = Shapes::new();
    assert_eq!(s.max_size(), 1);
    let ones = s.shapes(1);
    assert_eq!(ones.len(), 1);
    assert!(ones[0].equivalent(&Shape::unit()));
}

#[test]
fn gen_until_raises_the_maximum() {
    let mut s = Shapes::new();
    assert_eq!(s.max_size(), 1);
    s.gen_until(3);
    assert_eq!(s.max_size(), 3);
    s.gen_until(2);
    assert_eq!(s.max_size(), 3);
}

#[test]
fn canonical_counts_up_to_four() {
    let mut s = Shapes::new();
    s.gen_until(4);
    assert_eq!(s.shapes(1).len(), 1);
    assert_eq!(s.shapes(2).len(), 1);
    assert_eq!(s.shapes(3).len(), 2);
    // All 7 free tetrominoes.
    assert_eq!(s.shapes(4).len(), 7);
}

#[test]
fn canonical_shapes_of_small_sizes() {
    let mut s = Shapes::new();
    s.gen_until(3);
    let domino = shape_of(&[(0, 0), (0, 1)]);
    assert!(s.shapes(2)[0].equivalent(&domino));
    let angle = shape_of(&[(0, 0), (0, 1), (1, 0)]);
    let straight = shape_of(&[(-1, 0), (0, 0), (1, 0)]);
    let threes = s.shapes(3);
    assert!(threes.iter().any(|t| t.equivalent(&angle)));
    assert!(threes.iter().any(|t| t.equivalent(&straight)));
}

#[test]
fn generated_lists_are_pairwise_inequivalent() {
    let mut s = Shapes::new();
    s.gen_until(4);
    for n in 1..=4 {
        let list = s.shapes(n);
        for i in 0..list.len() {
            for j in 0..list.len() {
                if i != j {
                    assert!(!list[i].equivalent(&list[j]));
                }
            }
        }
    }
}

#[test]
fn random_returns_an_equivalent_of_a_cached_shape() {
    let mut s = Shapes::new();
    s.gen_until(4);
    let mut rng = StdRng::seed_from_u64(7);
    for _ in 0..20 {
        let shape = s.random(4, &mut rng);
        assert_eq!(shape.size(), 4);
        assert!(s.shapes(4).iter().any(|t| shape.equivalent(t)));
    }
}

#[test]
fn random_among_draws_from_the_given_slice() {
    let mut s = Shapes::new();
    s.gen_until(3);
    let mut rng = StdRng::seed_from_u64(1);
    let slice = &s.shapes(3)[0..2];
    for _ in 0..10 {
        let shape = s.random_among(slice, &mut rng);
        assert_eq!(shape.size(), 3);
        assert!(slice.iter().any(|t| shape.equivalent(t)));
    }
}
