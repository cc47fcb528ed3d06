//! Polyomino shapes: ordered, deduplicated lists of cell offsets with
//! rotation/translation-invariant equivalence.

use crate::algebra::{
    angle_index, lemma_angle_index_range, lemma_inv_angle_involutive, lemma_rot_add,
    lemma_rot_closed_forms, lemma_rot_inverse,
    lemma_rot_inverse2, lemma_rot_injective, lemma_rot_negate, lemma_rot_reduce,
    lemma_rot_translate,
    lemma_vec_lt_translate, negate, rot, translate, vec_lt, Vector,
};
use vstd::prelude::*;

verus! {

/// A cell list is sorted strictly ascending in row-major order (this also
/// means no two cells are equal).
pub open spec fn sorted_strict(s: Seq<(int, int)>) -> bool {
    forall|i: int, j: int| 0 <= i < j < s.len() ==> vec_lt(s[i], s[j])
}

/// Every cell's coordinates lie within `[-b, b]`.
pub open spec fn cells_bounded(s: Seq<(int, int)>, b: int) -> bool {
    forall|p: (int, int)| #[trigger] s.contains(p) ==> -b <= p.0 <= b && -b <= p.1 <= b
}

/// The cells of `a` are exactly the cells of `b` rotated by `k` quarter
/// turns and then translated by `d`: a cell lies in `a` precisely when its
/// preimage under that motion lies in `b`.
pub open spec fn cells_match(a: Seq<(int, int)>, b: Seq<(int, int)>, k: int, d: (int, int)) -> bool {
    forall|p: (int, int)|
        a.contains(p) <==> #[trigger] b.contains(rot(translate(p, negate(d)), angle_index(4 - k)))
}

/// Two cell lists are equivalent when they have the same number of cells and
/// one is a rotation (0 to 3 quarter turns) plus translation of the other.
pub open spec fn shape_equiv(a: Seq<(int, int)>, b: Seq<(int, int)>) -> bool {
    a.len() == b.len() && (exists|k: int, d: (int, int)| 0 <= k < 4 && cells_match(a, b, k, d))
}

/// The smallest horizontal coordinate among the cells (0 for no cells).
pub open spec fn min_x(s: Seq<(int, int)>) -> int
    decreases s.len(),
{
    if s.len() == 0 {
        0
    } else if s.len() == 1 {
        s[0].0
    } else if s.last().0 < min_x(s.drop_last()) {
        s.last().0
    } else {
        min_x(s.drop_last())
    }
}

/// The largest horizontal coordinate among the cells (0 for no cells).
pub open spec fn max_x(s: Seq<(int, int)>) -> int
    decreases s.len(),
{
    if s.len() == 0 {
        0
    } else if s.len() == 1 {
        s[0].0
    } else if s.last().0 > max_x(s.drop_last()) {
        s.last().0
    } else {
        max_x(s.drop_last())
    }
}

/// The smallest vertical coordinate among the cells (0 for no cells).
pub open spec fn min_y(s: Seq<(int, int)>) -> int
    decreases s.len(),
{
    if s.len() == 0 {
        0
    } else if s.len() == 1 {
        s[0].1
    } else if s.last().1 < min_y(s.drop_last()) {
        s.last().1
    } else {
        min_y(s.drop_last())
    }
}

/// The largest vertical coordinate among the cells (0 for no cells).
pub open spec fn max_y(s: Seq<(int, int)>) -> int
    decreases s.len(),
{
    if s.len() == 0 {
        0
    } else if s.len() == 1 {
        s[0].1
    } else if s.last().1 > max_y(s.drop_last()) {
        s.last().1
    } else {
        max_y(s.drop_last())
    }
}

/// The bounding-box center: minimum plus half the extent, component-wise
/// (integer division; extents are non-negative).
pub open spec fn center_of(s: Seq<(int, int)>) -> (int, int) {
    (min_x(s) + (max_x(s) - min_x(s)) / 2, min_y(s) + (max_y(s) - min_y(s)) / 2)
}

/// The bounding box bounds every cell, and each bound is attained by some
/// cell.
pub proof fn lemma_bounds_attained(s: Seq<(int, int)>)
    requires
        s.len() > 0,
    ensures
        forall|i: int| 0 <= i < s.len() ==> min_x(s) <= #[trigger] s[i].0 <= max_x(s),
        forall|i: int| 0 <= i < s.len() ==> min_y(s) <= #[trigger] s[i].1 <= max_y(s),
        exists|i: int| 0 <= i < s.len() && #[trigger] s[i].0 == min_x(s),
        exists|i: int| 0 <= i < s.len() && #[trigger] s[i].0 == max_x(s),
        exists|i: int| 0 <= i < s.len() && #[trigger] s[i].1 == min_y(s),
        exists|i: int| 0 <= i < s.len() && #[trigger] s[i].1 == max_y(s),
    decreases s.len(),
{
    if s.len() > 1 {
        let t = s.drop_last();
        lemma_bounds_attained(t);
        assert(forall|i: int| 0 <= i < s.len() - 1 ==> s.drop_last()[i] == s[i]);
        assert(s[s.len() - 1] == s.last());
        if s.last().0 < min_x(t) {
            assert(s[s.len() - 1].0 == min_x(s));
        } else {
            let i = choose|i: int| 0 <= i < t.len() && #[trigger] t[i].0 == min_x(t);
            assert(s[i].0 == min_x(s));
        }
        if s.last().0 > max_x(t) {
            assert(s[s.len() - 1].0 == max_x(s));
        } else {
            let i = choose|i: int| 0 <= i < t.len() && #[trigger] t[i].0 == max_x(t);
            assert(s[i].0 == max_x(s));
        }
        if s.last().1 < min_y(t) {
            assert(s[s.len() - 1].1 == min_y(s));
        } else {
            let i = choose|i: int| 0 <= i < t.len() && #[trigger] t[i].1 == min_y(t);
            assert(s[i].1 == min_y(s));
        }
        if s.last().1 > max_y(t) {
            assert(s[s.len() - 1].1 == max_y(s));
        } else {
            let i = choose|i: int| 0 <= i < t.len() && #[trigger] t[i].1 == max_y(t);
            assert(s[i].1 == max_y(s));
        }
    } else {
        assert(s[0].0 == min_x(s));
        assert(s[0].0 == max_x(s));
        assert(s[0].1 == min_y(s));
        assert(s[0].1 == max_y(s));
    }
}

/// If every cell lies within `[-b, b]`, so do the bounding-box corners, and
/// the minimum corner is at most the maximum corner.
pub proof fn lemma_bounds_in_range(s: Seq<(int, int)>, b: int)
    requires
        cells_bounded(s, b),
        b >= 0,
    ensures
        -b <= min_x(s) <= max_x(s) <= b,
        -b <= min_y(s) <= max_y(s) <= b,
{
    if s.len() > 0 {
        lemma_bounds_attained(s);
        let i0 = choose|i: int| 0 <= i < s.len() && #[trigger] s[i].0 == min_x(s);
        assert(s.contains(s[i0]));
        let i1 = choose|i: int| 0 <= i < s.len() && #[trigger] s[i].0 == max_x(s);
        assert(s.contains(s[i1]));
        let i2 = choose|i: int| 0 <= i < s.len() && #[trigger] s[i].1 == min_y(s);
        assert(s.contains(s[i2]));
        let i3 = choose|i: int| 0 <= i < s.len() && #[trigger] s[i].1 == max_y(s);
        assert(s.contains(s[i3]));
    }
}

/// Two cell lists with the same members have the same bounding box.
pub proof fn lemma_minmax_same_cells(s1: Seq<(int, int)>, s2: Seq<(int, int)>)
    requires
        forall|p: (int, int)| s1.contains(p) <==> s2.contains(p),
    ensures
        min_x(s1) == min_x(s2),
        max_x(s1) == max_x(s2),
        min_y(s1) == min_y(s2),
        max_y(s1) == max_y(s2),
{
    if s1.len() == 0 {
        if s2.len() > 0 {
            assert(s2.contains(s2[0]));
            assert(s1.contains(s2[0]));
        }
    } else {
        assert(s1.contains(s1[0]));
        assert(s2.contains(s1[0]));
        assert(s2.len() > 0);
        lemma_bounds_attained(s1);
        lemma_bounds_attained(s2);
        let a0 = choose|i: int| 0 <= i < s1.len() && #[trigger] s1[i].0 == min_x(s1);
        assert(s2.contains(s1[a0]));
        let c0 = choose|j: int| 0 <= j < s2.len() && s2[j] == s1[a0];
        assert(min_x(s2) <= s2[c0].0);
        let a1 = choose|i: int| 0 <= i < s1.len() && #[trigger] s1[i].0 == max_x(s1);
        assert(s2.contains(s1[a1]));
        let c1 = choose|j: int| 0 <= j < s2.len() && s2[j] == s1[a1];
        assert(max_x(s2) >= s2[c1].0);
        let a2 = choose|i: int| 0 <= i < s1.len() && #[trigger] s1[i].1 == min_y(s1);
        assert(s2.contains(s1[a2]));
        let c2 = choose|j: int| 0 <= j < s2.len() && s2[j] == s1[a2];
        assert(min_y(s2) <= s2[c2].1);
        let a3 = choose|i: int| 0 <= i < s1.len() && #[trigger] s1[i].1 == max_y(s1);
        assert(s2.contains(s1[a3]));
        let c3 = choose|j: int| 0 <= j < s2.len() && s2[j] == s1[a3];
        assert(max_y(s2) >= s2[c3].1);
        let b0 = choose|i: int| 0 <= i < s2.len() && #[trigger] s2[i].0 == min_x(s2);
        assert(s1.contains(s2[b0]));
        let d0 = choose|j: int| 0 <= j < s1.len() && s1[j] == s2[b0];
        assert(min_x(s1) <= s1[d0].0);
        let b1 = choose|i: int| 0 <= i < s2.len() && #[trigger] s2[i].0 == max_x(s2);
        assert(s1.contains(s2[b1]));
        let d1 = choose|j: int| 0 <= j < s1.len() && s1[j] == s2[b1];
        assert(max_x(s1) >= s1[d1].0);
        let b2 = choose|i: int| 0 <= i < s2.len() && #[trigger] s2[i].1 == min_y(s2);
        assert(s1.contains(s2[b2]));
        let d2 = choose|j: int| 0 <= j < s1.len() && s1[j] == s2[b2];
        assert(min_y(s1) <= s1[d2].1);
        let b3 = choose|i: int| 0 <= i < s2.len() && #[trigger] s2[i].1 == max_y(s2);
        assert(s1.contains(s2[b3]));
        let d3 = choose|j: int| 0 <= j < s1.len() && s1[j] == s2[b3];
        assert(max_y(s1) >= s1[d3].1);
    }
}

/// Two strictly sorted cell lists with the same members are identical: the
/// sorted order is a canonical form of the cell set.
pub proof fn lemma_sorted_same_cells_equal(s1: Seq<(int, int)>, s2: Seq<(int, int)>)
    requires
        sorted_strict(s1),
        sorted_strict(s2),
        forall|p: (int, int)| s1.contains(p) <==> s2.contains(p),
    ensures
        s1 == s2,
    decreases s1.len(),
{
    if s1.len() == 0 {
        if s2.len() > 0 {
            assert(s2.contains(s2[0]));
            assert(s1.contains(s2[0]));
        }
        assert(s1 =~= s2);
    } else {
        assert(s1.contains(s1[0]));
        assert(s2.contains(s1[0]));
        assert(s2.len() > 0);
        assert(s2.contains(s2[0]));
        assert(s1.contains(s2[0]));
        let i = choose|i: int| 0 <= i < s1.len() && s1[i] == s2[0];
        let j = choose|j: int| 0 <= j < s2.len() && s2[j] == s1[0];
        assert(i > 0 ==> vec_lt(s1[0], s1[i]));
        assert(j > 0 ==> vec_lt(s2[0], s2[j]));
        assert(s1[0] == s2[0]);
        let t1 = s1.drop_first();
        let t2 = s2.drop_first();
        assert(forall|m: int| 0 <= m < t1.len() ==> t1[m] == s1[m + 1]);
        assert(forall|m: int| 0 <= m < t2.len() ==> t2[m] == s2[m + 1]);
        assert forall|a: int, b: int| 0 <= a < b < t1.len() implies vec_lt(t1[a], t1[b]) by {
            assert(vec_lt(s1[a + 1], s1[b + 1]));
        }
        assert forall|a: int, b: int| 0 <= a < b < t2.len() implies vec_lt(t2[a], t2[b]) by {
            assert(vec_lt(s2[a + 1], s2[b + 1]));
        }
        assert forall|p: (int, int)| t1.contains(p) implies t2.contains(p) by {
            let m = choose|m: int| 0 <= m < t1.len() && t1[m] == p;
            assert(s1[m + 1] == p);
            assert(s1.contains(p));
            assert(vec_lt(s1[0], p));
            assert(s2.contains(p));
            let m2 = choose|m2: int| 0 <= m2 < s2.len() && s2[m2] == p;
            assert(m2 != 0);
            assert(t2[m2 - 1] == p);
        }
        assert forall|p: (int, int)| t2.contains(p) implies t1.contains(p) by {
            let m = choose|m: int| 0 <= m < t2.len() && t2[m] == p;
            assert(s2[m + 1] == p);
            assert(s2.contains(p));
            assert(vec_lt(s2[0], p));
            assert(s1.contains(p));
            let m2 = choose|m2: int| 0 <= m2 < s1.len() && s1[m2] == p;
            assert(m2 != 0);
            assert(t1[m2 - 1] == p);
        }
        lemma_sorted_same_cells_equal(t1, t2);
        assert forall|m: int| 0 <= m < s1.len() implies s1[m] == s2[m] by {
            if m > 0 {
                assert(t1[m - 1] == t2[m - 1]);
            }
        }
        assert(s1 =~= s2);
    }
}

/// If the cells of sorted `a` are exactly the cells of sorted `b` translated
/// by `d`, then `a` is `b` translated element by element: in particular the
/// translation is determined by the first cells alone.
pub proof fn lemma_match_sorted_align(a: Seq<(int, int)>, b: Seq<(int, int)>, d: (int, int))
    requires
        sorted_strict(a),
        sorted_strict(b),
        forall|p: (int, int)| a.contains(p) <==> #[trigger] b.contains(translate(p, negate(d))),
    ensures
        a.len() == b.len(),
        forall|i: int| 0 <= i < a.len() ==> a[i] == translate(b[i], d),
{
    let c = b.map_values(|q: (int, int)| translate(q, d));
    assert(c.len() == b.len());
    assert(forall|i: int| 0 <= i < c.len() ==> c[i] == translate(b[i], d));
    assert forall|i: int, j: int| 0 <= i < j < c.len() implies vec_lt(c[i], c[j]) by {
        lemma_vec_lt_translate(b[i], b[j], d);
    }
    assert forall|p: (int, int)| c.contains(p) implies a.contains(p) by {
        let i = choose|i: int| 0 <= i < c.len() && c[i] == p;
        assert(translate(p, negate(d)) == b[i]);
        assert(b.contains(b[i]));
        assert(a.contains(p) <==> b.contains(translate(p, negate(d))));
    }
    assert forall|p: (int, int)| a.contains(p) implies c.contains(p) by {
        assert(a.contains(p) <==> b.contains(translate(p, negate(d))));
        let i = choose|i: int| 0 <= i < b.len() && b[i] == translate(p, negate(d));
        assert(c[i] == translate(b[i], d));
        assert(c[i] == p);
    }
    lemma_sorted_same_cells_equal(a, c);
}

/// Shape equivalence is reflexive.
pub proof fn lemma_shape_equiv_reflexive(a: Seq<(int, int)>)
    ensures
        shape_equiv(a, a),
{
    assert forall|p: (int, int)|
        a.contains(p) <==> #[trigger] a.contains(
            rot(translate(p, negate((0int, 0int))), angle_index(4 - 0)),
        ) by {
        assert(rot(translate(p, negate((0int, 0int))), angle_index(4 - 0)) == p);
    }
    assert(cells_match(a, a, 0, (0int, 0int)));
}

/// Shape equivalence is symmetric.
#[verifier::rlimit(60)]
pub proof fn lemma_shape_equiv_symmetric(a: Seq<(int, int)>, b: Seq<(int, int)>)
    requires
        shape_equiv(a, b),
    ensures
        shape_equiv(b, a),
{
    let (k, d) = choose|k: int, d: (int, int)| 0 <= k < 4 && cells_match(a, b, k, d);
    let k1 = angle_index(4 - k);
    let d2 = rot(negate(d), k1);
    lemma_inv_angle_involutive(k);
    lemma_rot_negate(negate(d), k1);
    lemma_rot_inverse2(d, k);
    assert(negate(d2) == rot(d, k1));
    assert(rot(negate(d2), k) == d);
    assert forall|p: (int, int)|
        b.contains(p) <==> #[trigger] a.contains(
            rot(translate(p, negate(d2)), angle_index(4 - k1)),
        ) by {
        // The inverse motion of the inverse motion is the original one:
        // rotating `p - d2` by `k` is `rot(p, k) + d`.
        let fp = rot(translate(p, negate(d2)), k);
        assert(angle_index(4 - k1) == k);
        lemma_rot_translate(p, negate(d2), k);
        assert(fp == translate(rot(p, k), d));
        // Instantiate the known match at `fp`.
        assert(a.contains(fp) <==> b.contains(rot(translate(fp, negate(d)), angle_index(4 - k))));
        assert(translate(fp, negate(d)) == rot(p, k));
        lemma_rot_inverse(p, k);
        assert(rot(translate(fp, negate(d)), angle_index(4 - k)) == p);
    }
    assert(cells_match(b, a, k1, d2));
}

/// Translating every member shifts the bounding box by the same offset
/// (`s2`'s members are `s1`'s translated by `-dd`).
pub proof fn lemma_minmax_translated(s1: Seq<(int, int)>, s2: Seq<(int, int)>, dd: (int, int))
    requires
        s1.len() > 0,
        s2.len() > 0,
        forall|q: (int, int)| s2.contains(q) <==> #[trigger] s1.contains(translate(q, dd)),
    ensures
        min_x(s2) == min_x(s1) - dd.0,
        max_x(s2) == max_x(s1) - dd.0,
        min_y(s2) == min_y(s1) - dd.1,
        max_y(s2) == max_y(s1) - dd.1,
{
    lemma_bounds_attained(s1);
    lemma_bounds_attained(s2);
    let a0 = choose|i: int| 0 <= i < s2.len() && #[trigger] s2[i].0 == min_x(s2);
    assert(s2.contains(s2[a0]));
    assert(s1.contains(translate(s2[a0], dd)));
    let b0 = choose|j: int| 0 <= j < s1.len() && s1[j] == translate(s2[a0], dd);
    assert(min_x(s1) <= s1[b0].0);
    let a1 = choose|i: int| 0 <= i < s2.len() && #[trigger] s2[i].0 == max_x(s2);
    assert(s2.contains(s2[a1]));
    assert(s1.contains(translate(s2[a1], dd)));
    let b1 = choose|j: int| 0 <= j < s1.len() && s1[j] == translate(s2[a1], dd);
    assert(max_x(s1) >= s1[b1].0);
    let a2 = choose|i: int| 0 <= i < s2.len() && #[trigger] s2[i].1 == min_y(s2);
    assert(s2.contains(s2[a2]));
    assert(s1.contains(translate(s2[a2], dd)));
    let b2 = choose|j: int| 0 <= j < s1.len() && s1[j] == translate(s2[a2], dd);
    assert(min_y(s1) <= s1[b2].1);
    let a3 = choose|i: int| 0 <= i < s2.len() && #[trigger] s2[i].1 == max_y(s2);
    assert(s2.contains(s2[a3]));
    assert(s1.contains(translate(s2[a3], dd)));
    let b3 = choose|j: int| 0 <= j < s1.len() && s1[j] == translate(s2[a3], dd);
    assert(max_y(s1) >= s1[b3].1);
    let e0 = choose|i: int| 0 <= i < s1.len() && #[trigger] s1[i].0 == min_x(s1);
    assert(s2.contains(translate(s1[e0], negate(dd))) <==> s1.contains(
        translate(translate(s1[e0], negate(dd)), dd),
    ));
    assert(translate(translate(s1[e0], negate(dd)), dd) == s1[e0]);
    assert(s1.contains(s1[e0]));
    let f0 = choose|j: int| 0 <= j < s2.len() && s2[j] == translate(s1[e0], negate(dd));
    assert(min_x(s2) <= s2[f0].0);
    let e1 = choose|i: int| 0 <= i < s1.len() && #[trigger] s1[i].0 == max_x(s1);
    assert(s2.contains(translate(s1[e1], negate(dd))) <==> s1.contains(
        translate(translate(s1[e1], negate(dd)), dd),
    ));
    assert(translate(translate(s1[e1], negate(dd)), dd) == s1[e1]);
    assert(s1.contains(s1[e1]));
    let f1 = choose|j: int| 0 <= j < s2.len() && s2[j] == translate(s1[e1], negate(dd));
    assert(max_x(s2) >= s2[f1].0);
    let e2 = choose|i: int| 0 <= i < s1.len() && #[trigger] s1[i].1 == min_y(s1);
    assert(s2.contains(translate(s1[e2], negate(dd))) <==> s1.contains(
        translate(translate(s1[e2], negate(dd)), dd),
    ));
    assert(translate(translate(s1[e2], negate(dd)), dd) == s1[e2]);
    assert(s1.contains(s1[e2]));
    let f2 = choose|j: int| 0 <= j < s2.len() && s2[j] == translate(s1[e2], negate(dd));
    assert(min_y(s2) <= s2[f2].1);
    let e3 = choose|i: int| 0 <= i < s1.len() && #[trigger] s1[i].1 == max_y(s1);
    assert(s2.contains(translate(s1[e3], negate(dd))) <==> s1.contains(
        translate(translate(s1[e3], negate(dd)), dd),
    ));
    assert(translate(translate(s1[e3], negate(dd)), dd) == s1[e3]);
    assert(s1.contains(s1[e3]));
    let f3 = choose|j: int| 0 <= j < s2.len() && s2[j] == translate(s1[e3], negate(dd));
    assert(max_y(s2) >= s2[f3].1);
}

/// Two cells share an edge.
pub open spec fn adjacent(p: (int, int), q: (int, int)) -> bool {
    ||| (p.0 == q.0 && (p.1 == q.1 + 1 || p.1 == q.1 - 1))
    ||| (p.1 == q.1 && (p.0 == q.0 + 1 || p.0 == q.0 - 1))
}

/// A walk through the members of `s`: non-empty, every step between
/// edge-adjacent cells.
pub open spec fn is_path_in(s: Seq<(int, int)>, path: Seq<(int, int)>) -> bool {
    &&& path.len() >= 1
    &&& (forall|i: int| 0 <= i < path.len() ==> s.contains(#[trigger] path[i]))
    &&& (forall|i: int| 0 <= i < path.len() - 1 ==> #[trigger] adjacent(path[i], path[i + 1]))
}

/// The cells form one edge-connected group: any two members are joined by a
/// walk inside the set.
pub open spec fn connected(s: Seq<(int, int)>) -> bool {
    forall|p: (int, int), q: (int, int)|
        #![trigger s.contains(p), s.contains(q)]
        s.contains(p) && s.contains(q) ==> exists|path: Seq<(int, int)>|
            is_path_in(s, path) && path.first() == p && path.last() == q
}

/// A single cell is connected.
pub proof fn lemma_connected_single(s: Seq<(int, int)>)
    requires
        s.len() == 1,
    ensures
        connected(s),
{
    assert forall|p: (int, int), q: (int, int)|
        #![trigger s.contains(p), s.contains(q)]
        s.contains(p) && s.contains(q) implies exists|path: Seq<(int, int)>|
        is_path_in(s, path) && path.first() == p && path.last() == q by {
        assert(p == s[0] && q == s[0]);
        let path = seq![p];
        assert(path[0] == p);
        assert(is_path_in(s, path) && path.first() == p && path.last() == q);
    }
}

/// Growing a connected set by one cell adjacent to a member keeps it
/// connected (`t`'s members are `s`'s plus `p2`).
pub proof fn lemma_connected_grow(
    s: Seq<(int, int)>,
    t: Seq<(int, int)>,
    anchor: (int, int),
    p2: (int, int),
)
    requires
        connected(s),
        s.contains(anchor),
        adjacent(anchor, p2),
        forall|x: (int, int)| #[trigger] t.contains(x) <==> (s.contains(x) || x == p2),
    ensures
        connected(t),
{
    assert forall|p: (int, int), q: (int, int)|
        #![trigger t.contains(p), t.contains(q)]
        t.contains(p) && t.contains(q) implies exists|path: Seq<(int, int)>|
        is_path_in(t, path) && path.first() == p && path.last() == q by {
        if s.contains(p) && s.contains(q) {
            let path = choose|path: Seq<(int, int)>|
                is_path_in(s, path) && path.first() == p && path.last() == q;
            assert forall|i: int| 0 <= i < path.len() implies t.contains(#[trigger] path[i]) by {
                assert(s.contains(path[i]));
            }
            assert(is_path_in(t, path) && path.first() == p && path.last() == q);
        } else if p == p2 && s.contains(q) {
            let tail = choose|path: Seq<(int, int)>|
                is_path_in(s, path) && path.first() == anchor && path.last() == q;
            let path = seq![p2] + tail;
            assert(path.len() == tail.len() + 1);
            assert(path[0] == p2);
            assert(forall|i: int| 1 <= i < path.len() ==> path[i] == tail[i - 1]);
            assert forall|i: int| 0 <= i < path.len() implies t.contains(#[trigger] path[i]) by {
                if i >= 1 {
                    assert(s.contains(tail[i - 1]));
                }
            }
            assert forall|i: int| 0 <= i < path.len() - 1 implies #[trigger] adjacent(
                path[i],
                path[i + 1],
            ) by {
                if i == 0 {
                    assert(path[1] == tail[0]);
                    assert(tail[0] == anchor);
                } else {
                    let j = i - 1;
                    assert(adjacent(tail[j], tail[j + 1]));
                    assert(tail[j + 1] == tail[i]);
                }
            }
            assert(path.last() == tail.last());
            assert(is_path_in(t, path) && path.first() == p && path.last() == q);
        } else if q == p2 && s.contains(p) {
            let head = choose|path: Seq<(int, int)>|
                is_path_in(s, path) && path.first() == p && path.last() == anchor;
            let path = head.push(p2);
            assert(path.len() == head.len() + 1);
            assert(forall|i: int| 0 <= i < head.len() ==> path[i] == head[i]);
            assert(path[head.len() as int] == p2);
            assert forall|i: int| 0 <= i < path.len() implies t.contains(#[trigger] path[i]) by {
                if i < head.len() {
                    assert(s.contains(head[i]));
                }
            }
            assert forall|i: int| 0 <= i < path.len() - 1 implies #[trigger] adjacent(
                path[i],
                path[i + 1],
            ) by {
                if i == head.len() - 1 {
                    assert(path[i] == head.last());
                    assert(head.last() == anchor);
                    assert(adjacent(anchor, p2));
                } else {
                    assert(adjacent(head[i], head[i + 1]));
                }
            }
            assert(path.first() == head.first());
            assert(is_path_in(t, path) && path.first() == p && path.last() == q);
        } else {
            assert(p == p2 && q == p2);
            let path = seq![p2];
            assert(path[0] == p2);
            assert(is_path_in(t, path) && path.first() == p && path.last() == q);
        }
    }
}

/// Translating every member keeps the set connected (`t`'s members are
/// `s`'s translated by `-dd`).
proof fn lemma_translated_path(
    s: Seq<(int, int)>,
    t: Seq<(int, int)>,
    dd: (int, int),
    p: (int, int),
    q: (int, int),
)
    requires
        connected(s),
        forall|x: (int, int)| t.contains(x) <==> #[trigger] s.contains(translate(x, dd)),
        t.contains(p),
        t.contains(q),
    ensures
        exists|path: Seq<(int, int)>|
            is_path_in(t, path) && path.first() == p && path.last() == q,
{
    assert(t.contains(p) <==> s.contains(translate(p, dd)));
    assert(t.contains(q) <==> s.contains(translate(q, dd)));
    let spath = choose|path: Seq<(int, int)>|
        is_path_in(s, path) && path.first() == translate(p, dd) && path.last() == translate(q, dd);
    let path = spath.map_values(|x: (int, int)| translate(x, negate(dd)));
    assert(path.len() == spath.len());
    assert(forall|i: int|
        0 <= i < path.len() ==> #[trigger] path[i] == translate(spath[i], negate(dd)));
    assert forall|i: int| 0 <= i < path.len() implies t.contains(#[trigger] path[i]) by {
        assert(s.contains(spath[i]));
        assert(translate(path[i], dd) == spath[i]);
        assert(t.contains(path[i]) <==> s.contains(translate(path[i], dd)));
    }
    assert forall|i: int| 0 <= i < path.len() - 1 implies #[trigger] adjacent(
        path[i],
        path[i + 1],
    ) by {
        assert(adjacent(spath[i], spath[i + 1]));
    }
    assert(path.first() == translate(spath.first(), negate(dd)));
    assert(translate(translate(p, dd), negate(dd)) == p);
    assert(path.last() == translate(spath.last(), negate(dd)));
    assert(translate(translate(q, dd), negate(dd)) == q);
    assert(is_path_in(t, path) && path.first() == p && path.last() == q);
}

/// Translating every member keeps the set connected (`t`'s members are
/// `s`'s translated by `-dd`).
pub proof fn lemma_connected_translated(s: Seq<(int, int)>, t: Seq<(int, int)>, dd: (int, int))
    requires
        connected(s),
        forall|q: (int, int)| t.contains(q) <==> #[trigger] s.contains(translate(q, dd)),
    ensures
        connected(t),
{
    assert forall|p: (int, int), q: (int, int)|
        #![trigger t.contains(p), t.contains(q)]
        t.contains(p) && t.contains(q) implies exists|path: Seq<(int, int)>|
        is_path_in(t, path) && path.first() == p && path.last() == q by {
        lemma_translated_path(s, t, dd, p, q);
    }
}

/// Shape equivalence is transitive: the two motions compose.
pub proof fn lemma_shape_equiv_transitive(a: Seq<(int, int)>, b: Seq<(int, int)>, c: Seq<(int, int)>)
    requires
        shape_equiv(a, b),
        shape_equiv(b, c),
    ensures
        shape_equiv(a, c),
{
    let (k1, d1) = choose|k: int, d: (int, int)| 0 <= k < 4 && cells_match(a, b, k, d);
    let (k2, d2) = choose|k: int, d: (int, int)| 0 <= k < 4 && cells_match(b, c, k, d);
    let k1i = angle_index(4 - k1);
    let k2i = angle_index(4 - k2);
    let k3 = angle_index(k1 + k2);
    let k3i = angle_index(4 - k3);
    let d3 = translate(rot(d2, k1), d1);
    lemma_angle_index_range(k1 + k2);
    lemma_inv_angle_involutive(k1);
    lemma_inv_angle_involutive(k2);
    lemma_inv_angle_involutive(k3);
    assert forall|p: (int, int)|
        a.contains(p) <==> #[trigger] c.contains(rot(translate(p, negate(d3)), k3i)) by {
        let u = rot(translate(p, negate(d1)), k1i);
        assert(a.contains(p) <==> b.contains(
            rot(translate(p, negate(d1)), angle_index(4 - k1)),
        ));
        assert(b.contains(u) <==> c.contains(rot(translate(u, negate(d2)), angle_index(4 - k2))));
        // The composed inverse motion equals the inverse of the composed
        // motion.
        lemma_rot_translate(u, negate(d2), k2i);
        assert(rot(translate(u, negate(d2)), k2i) == translate(
            rot(u, k2i),
            rot(negate(d2), k2i),
        ));
        lemma_rot_add(translate(p, negate(d1)), k2i, k1i);
        lemma_rot_reduce(translate(p, negate(d1)), k2i + k1i);
        assert(angle_index(k2i + k1i) == k3i);
        assert(rot(u, k2i) == rot(translate(p, negate(d1)), k3i));
        assert(translate(p, negate(d3)) == translate(
            translate(p, negate(d1)),
            negate(rot(d2, k1)),
        ));
        lemma_rot_translate(translate(p, negate(d1)), negate(rot(d2, k1)), k3i);
        assert(rot(translate(p, negate(d3)), k3i) == translate(
            rot(translate(p, negate(d1)), k3i),
            rot(negate(rot(d2, k1)), k3i),
        ));
        lemma_rot_negate(rot(d2, k1), k3i);
        lemma_rot_add(d2, k3i, k1);
        lemma_rot_reduce(d2, k3i + k1);
        assert(angle_index(k3i + k1) == k2i);
        assert(rot(rot(d2, k1), k3i) == rot(d2, k2i));
        lemma_rot_negate(d2, k2i);
        assert(rot(negate(rot(d2, k1)), k3i) == rot(negate(d2), k2i));
        assert(rot(translate(u, negate(d2)), k2i) == rot(translate(p, negate(d3)), k3i));
    }
    assert(cells_match(a, c, k3, d3));
}

/// Represents a shape of blocks: for example, a piece has one, so that its
/// blocks are relatively positioned some specific way. The cell list is kept
/// sorted in row-major order with no duplicates.
#[derive(Debug)]
pub struct Shape {
    positions: Vec<Vector>,
}

impl View for Shape {
    type V = Seq<(int, int)>;

    closed spec fn view(&self) -> Seq<(int, int)> {
        self.positions@.map_values(|v: Vector| v@)
    }
}

impl Shape {
    /// The cell list is sorted strictly ascending in row-major order.
    pub open spec fn wf(&self) -> bool {
        sorted_strict(self@)
    }

    /// Creates a new `Shape` with no cells in it.
    pub fn new() -> (r: Shape)
        ensures
            r@ == Seq::<(int, int)>::empty(),
            r.wf(),
    {
        let r = Shape { positions: Vec::new() };
        proof {
            assert(r@ =~= Seq::<(int, int)>::empty());
        }
        r
    }

    /// Creates a `Shape` with just the origin cell in it.
    pub fn unit() -> (r: Shape)
        ensures
            r@ =~= seq![(0int, 0int)],
            r.wf(),
    {
        let mut positions = Vec::new();
        positions.push(Vector(0, 0));
        let r = Shape { positions };
        proof {
            assert(r@ =~= seq![(0int, 0int)]);
        }
        r
    }

    /// Returns the number of cells in the `Shape`.
    pub fn size(&self) -> (r: usize)
        ensures
            r == self@.len(),
    {
        self.positions.len()
    }

    /// Returns a reference to the inner list of cells.
    pub fn positions(&self) -> (r: &Vec<Vector>)
        ensures
            r@.len() == self@.len(),
            forall|i: int| 0 <= i < r@.len() ==> r@[i]@ == self@[i],
    {
        &self.positions
    }

    /// Checks whether the `Shape`'s cell list includes some cell.
    pub fn contains(&self, pos: &Vector) -> (r: bool)
        ensures
            r == self@.contains(pos@),
    {
        let n = self.positions.len();
        let mut i: usize = 0;
        while i < n
            invariant
                0 <= i <= n,
                n == self@.len(),
                forall|j: int| 0 <= j < i ==> self@[j] != pos@,
            decreases n - i,
        {
            if self.positions[i].0 == pos.0 && self.positions[i].1 == pos.1 {
                proof {
                    assert(self@[i as int] == pos@);
                    assert(self@.contains(pos@));
                }
                return true;
            }
            i += 1;
        }
        proof {
            assert(forall|j: int| 0 <= j < self@.len() ==> self@[j] != pos@);
        }
        false
    }

    /// Inserts a cell, only if no identical cell is already there; returns
    /// whether the insertion happened. The cell list stays sorted
    /// (binary-search insert).
    pub fn add_pos(&mut self, pos: Vector) -> (r: bool)
        requires
            old(self).wf(),
        ensures
            final(self).wf(),
            r == !old(self)@.contains(pos@),
            !r ==> final(self)@ == old(self)@,
            r ==> final(self)@.len() == old(self)@.len() + 1,
            forall|p: (int, int)|
                final(self)@.contains(p) <==> (old(self)@.contains(p) || p == pos@),
    {
        let n = self.positions.len();
        let mut lo: usize = 0;
        let mut hi: usize = n;
        while lo < hi
            invariant
                0 <= lo <= hi <= n,
                n == self@.len(),
                self.wf(),
                *self == *old(self),
                forall|j: int| 0 <= j < lo ==> vec_lt(self@[j], pos@),
                forall|j: int| hi <= j < n ==> vec_lt(pos@, self@[j]),
            decreases hi - lo,
        {
            let mid = lo + (hi - lo) / 2;
            if self.positions[mid].before(&pos) {
                proof {
                    assert forall|j: int| 0 <= j <= mid implies vec_lt(self@[j], pos@) by {
                        if j < mid {
                            assert(vec_lt(self@[j], self@[mid as int]));
                        }
                    }
                }
                lo = mid + 1;
            } else if pos.before(&self.positions[mid]) {
                proof {
                    assert forall|j: int| mid <= j < n implies vec_lt(pos@, self@[j]) by {
                        if j > mid {
                            assert(vec_lt(self@[mid as int], self@[j]));
                        }
                    }
                }
                hi = mid;
            } else {
                proof {
                    assert(self@[mid as int] == pos@);
                    assert(self@.contains(pos@));
                }
                return false;
            }
        }
        proof {
            // `pos` is not yet present: every index is strictly before or after.
            assert forall|j: int| 0 <= j < n implies self@[j] != pos@ by {
                if j < lo {
                    assert(vec_lt(self@[j], pos@));
                } else {
                    assert(vec_lt(pos@, self@[j]));
                }
            }
            if self@.contains(pos@) {
                let j = choose|j: int| 0 <= j < self@.len() && self@[j] == pos@;
                assert(false);
            }
        }
        let ghost old_cells = self@;
        self.positions.insert(lo, pos);
        proof {
            assert(self@ =~= old_cells.insert(lo as int, pos@));
            old_cells.insert_ensures(lo as int, pos@);
            let cells = self@;
            // Sortedness is preserved by inserting at the found boundary.
            assert forall|i: int, j: int| 0 <= i < j < cells.len() implies vec_lt(
                cells[i],
                cells[j],
            ) by {
                if j < lo {
                } else if i > lo {
                    assert(cells[i] == old_cells[i - 1]);
                    assert(cells[j] == old_cells[j - 1]);
                } else if i == lo && j > lo {
                    assert(cells[j] == old_cells[j - 1]);
                    assert(vec_lt(pos@, old_cells[j - 1]));
                } else if j == lo {
                    assert(cells[i] == old_cells[i]);
                    assert(vec_lt(old_cells[i], pos@));
                } else {
                    // i < lo < j
                    assert(cells[i] == old_cells[i]);
                    assert(cells[j] == old_cells[j - 1]);
                    assert(vec_lt(old_cells[i], pos@));
                    assert(vec_lt(pos@, old_cells[j - 1]));
                }
            }
            // Membership after insertion.
            assert forall|p: (int, int)| cells.contains(p) implies (old_cells.contains(p) || p
                == pos@) by {
                let i = choose|i: int| 0 <= i < cells.len() && cells[i] == p;
                if i < lo {
                    assert(old_cells[i] == p);
                } else if i > lo {
                    assert(old_cells[i - 1] == p);
                }
            }
            assert forall|p: (int, int)| (old_cells.contains(p) || p == pos@) implies
                cells.contains(p) by {
                if old_cells.contains(p) {
                    let i = choose|i: int| 0 <= i < old_cells.len() && old_cells[i] == p;
                    if i < lo {
                        assert(cells[i] == p);
                    } else {
                        assert(cells[i + 1] == p);
                    }
                } else {
                    assert(cells[lo as int] == p);
                }
            }
        }
        true
    }

    /// Returns the bounds of the `Shape` as a pair of vectors: the minimum
    /// coordinates and the maximum coordinates (both `(0, 0)` for an empty
    /// shape).
    pub fn bounds(&self) -> (r: (Vector, Vector))
        ensures
            r.0@ == (min_x(self@), min_y(self@)),
            r.1@ == (max_x(self@), max_y(self@)),
    {
        let n = self.positions.len();
        if n == 0 {
            return (Vector(0, 0), Vector(0, 0));
        }
        let mut mnx = self.positions[0].0;
        let mut mny = self.positions[0].1;
        let mut mxx = self.positions[0].0;
        let mut mxy = self.positions[0].1;
        let mut i: usize = 1;
        proof {
            assert(self@.subrange(0, 1) =~= seq![self@[0]]);
        }
        while i < n
            invariant
                1 <= i <= n,
                n == self@.len(),
                mnx == min_x(self@.subrange(0, i as int)),
                mny == min_y(self@.subrange(0, i as int)),
                mxx == max_x(self@.subrange(0, i as int)),
                mxy == max_y(self@.subrange(0, i as int)),
            decreases n - i,
        {
            proof {
                let pre = self@.subrange(0, i as int);
                let cur = self@.subrange(0, i + 1);
                assert(cur.drop_last() =~= pre);
                assert(cur.last() == self@[i as int]);
            }
            let p = self.positions[i];
            if p.0 < mnx {
                mnx = p.0;
            }
            if p.1 < mny {
                mny = p.1;
            }
            if p.0 > mxx {
                mxx = p.0;
            }
            if p.1 > mxy {
                mxy = p.1;
            }
            i += 1;
        }
        proof {
            assert(self@.subrange(0, n as int) =~= self@);
        }
        (Vector(mnx, mny), Vector(mxx, mxy))
    }

    /// Returns the center cell of the `Shape`: the bounding-box minimum plus
    /// half the extent.
    pub fn center(&self) -> (r: Vector)
        requires
            cells_bounded(self@, 0x3fff_ffff),
        ensures
            r@ == center_of(self@),
    {
        proof {
            lemma_bounds_in_range(self@, 0x3fff_ffff);
        }
        let (mn, mx) = self.bounds();
        let dx = ((mx.0 - mn.0) as u32) / 2;
        let dy = ((mx.1 - mn.1) as u32) / 2;
        Vector(mn.0 + dx as i32, mn.1 + dy as i32)
    }

    /// Returns the shape rotated `angle * 90` degrees counter-clockwise,
    /// rebuilt as a fresh sorted shape.
    pub fn rotated(&self, angle: i32) -> (r: Shape)
        requires
            self.wf(),
            cells_bounded(self@, i32::MAX as int),
        ensures
            r.wf(),
            r@.len() == self@.len(),
            forall|q: (int, int)| #[trigger]
                r@.contains(q) <==> self@.contains(
                    rot(q, angle_index(4 - angle_index(angle as int))),
                ),
            forall|b: int| #[trigger] cells_bounded(self@, b) ==> cells_bounded(r@, b),
            shape_equiv(r@, self@),
    {
        let ghost k = angle_index(angle as int);
        proof {
            lemma_angle_index_range(angle as int);
        }
        let n = self.positions.len();
        let mut r = Shape::new();
        let mut i: usize = 0;
        while i < n
            invariant
                0 <= i <= n,
                n == self@.len(),
                self.wf(),
                cells_bounded(self@, i32::MAX as int),
                r.wf(),
                r@.len() == i,
                0 <= k < 4,
                k == angle_index(angle as int),
                forall|j: int| 0 <= j < i ==> r@.contains(#[trigger] rot(self@[j], k)),
                forall|q: (int, int)| #[trigger]
                    r@.contains(q) ==> exists|j: int| 0 <= j < i && q == rot(self@[j], k),
            decreases n - i,
        {
            let p = self.positions[i];
            proof {
                assert(self@.contains(self@[i as int]));
                assert(p@ == self@[i as int]);
            }
            let q = p.rotated(angle);
            proof {
                if r@.contains(q@) {
                    let j = choose|j: int| 0 <= j < i && q@ == rot(self@[j], k);
                    lemma_rot_injective(self@[i as int], self@[j], k);
                    assert(vec_lt(self@[j], self@[i as int]));
                    assert(false);
                }
            }
            let ghost pre = r@;
            let added = r.add_pos(q);
            proof {
                assert(added);
                assert forall|j: int| 0 <= j < i + 1 implies r@.contains(
                    #[trigger] rot(self@[j], k),
                ) by {
                    if j < i {
                        assert(pre.contains(rot(self@[j], k)));
                    } else {
                        assert(q@ == rot(self@[i as int], k));
                    }
                }
                assert forall|q2: (int, int)| #[trigger] r@.contains(q2) implies exists|j: int|
                    0 <= j < i + 1 && q2 == rot(self@[j], k) by {
                    if q2 == q@ {
                        assert(0 <= i < i + 1 && q2 == rot(self@[i as int], k));
                    } else {
                        assert(pre.contains(q2));
                        let j = choose|j: int| 0 <= j < i && q2 == rot(self@[j], k);
                        assert(0 <= j < i + 1 && q2 == rot(self@[j], k));
                    }
                }
            }
            i += 1;
        }
        proof {
            let kinv = angle_index(4 - k);
            lemma_inv_angle_involutive(k);
            assert forall|q: (int, int)| #[trigger] r@.contains(q) <==> self@.contains(
                rot(q, kinv),
            ) by {
                if r@.contains(q) {
                    let j = choose|j: int| 0 <= j < n && q == rot(self@[j], k);
                    lemma_rot_inverse(self@[j], k);
                    assert(rot(q, kinv) == self@[j]);
                    assert(self@.contains(self@[j]));
                }
                if self@.contains(rot(q, kinv)) {
                    let j = choose|j: int| 0 <= j < self@.len() && self@[j] == rot(q, kinv);
                    assert(r@.contains(rot(self@[j], k)));
                    lemma_rot_inverse2(q, k);
                    assert(rot(self@[j], k) == q);
                }
            }
            // The rotated shape is equivalent to the original: rotation `k`,
            // no translation.
            assert forall|p: (int, int)|
                r@.contains(p) <==> #[trigger] self@.contains(
                    rot(translate(p, negate((0int, 0int))), angle_index(4 - k)),
                ) by {
                assert(translate(p, negate((0int, 0int))) == p);
                assert(r@.contains(p) <==> self@.contains(rot(p, kinv)));
            }
            assert(cells_match(r@, self@, k, (0int, 0int)));
            // A quarter turn permutes and negates coordinates, so any
            // symmetric bound on the cells is kept.
            assert forall|b: int| #[trigger] cells_bounded(self@, b) implies cells_bounded(
                r@,
                b,
            ) by {
                assert forall|q: (int, int)| #[trigger] r@.contains(q) implies -b <= q.0 <= b && -b
                    <= q.1 <= b by {
                    assert(r@.contains(q) <==> self@.contains(rot(q, kinv)));
                    let pre = rot(q, kinv);
                    assert(self@.contains(pre));
                    lemma_rot_inverse2(q, k);
                    lemma_rot_closed_forms(pre);
                }
            }
        }
        r
    }

    /// Returns the shape translated so that the origin is (more or less) at
    /// the center of its bounding box.
    pub fn centered(&self) -> (r: Shape)
        requires
            self.wf(),
            cells_bounded(self@, 0x3fff_ffff),
        ensures
            r.wf(),
            r@.len() == self@.len(),
            forall|q: (int, int)| #[trigger]
                r@.contains(q) <==> self@.contains(translate(q, center_of(self@))),
            shape_equiv(r@, self@),
    {
        let ghost d = negate(center_of(self@));
        let c = self.center();
        let n = self.positions.len();
        let mut r = Shape::new();
        let mut i: usize = 0;
        while i < n
            invariant
                0 <= i <= n,
                n == self@.len(),
                self.wf(),
                cells_bounded(self@, 0x3fff_ffff),
                c@ == center_of(self@),
                d == negate(center_of(self@)),
                r.wf(),
                r@.len() == i,
                forall|j: int| 0 <= j < i ==> r@.contains(#[trigger] translate(self@[j], d)),
                forall|q: (int, int)| #[trigger]
                    r@.contains(q) ==> exists|j: int| 0 <= j < i && q == translate(self@[j], d),
            decreases n - i,
        {
            let p = self.positions[i];
            proof {
                assert(self@.contains(self@[i as int]));
                assert(p@ == self@[i as int]);
                lemma_bounds_in_range(self@, 0x3fff_ffff);
            }
            let q = p.minus(&c);
            proof {
                if r@.contains(q@) {
                    let j = choose|j: int| 0 <= j < i && q@ == translate(self@[j], d);
                    assert(self@[j] == self@[i as int]);
                    assert(vec_lt(self@[j], self@[i as int]));
                    assert(false);
                }
            }
            let ghost pre = r@;
            let added = r.add_pos(q);
            proof {
                assert(added);
                assert(q@ == translate(self@[i as int], d));
                assert forall|j: int| 0 <= j < i + 1 implies r@.contains(
                    #[trigger] translate(self@[j], d),
                ) by {
                    if j < i {
                        assert(pre.contains(translate(self@[j], d)));
                    }
                }
                assert forall|q2: (int, int)| #[trigger] r@.contains(q2) implies exists|j: int|
                    0 <= j < i + 1 && q2 == translate(self@[j], d) by {
                    if q2 == q@ {
                        assert(0 <= i < i + 1 && q2 == translate(self@[i as int], d));
                    } else {
                        assert(pre.contains(q2));
                        let j = choose|j: int| 0 <= j < i && q2 == translate(self@[j], d);
                        assert(0 <= j < i + 1 && q2 == translate(self@[j], d));
                    }
                }
            }
            i += 1;
        }
        proof {
            let c = center_of(self@);
            assert forall|q: (int, int)| #[trigger] r@.contains(q) <==> self@.contains(
                translate(q, c),
            ) by {
                if r@.contains(q) {
                    let j = choose|j: int| 0 <= j < n && q == translate(self@[j], d);
                    assert(translate(q, c) == self@[j]);
                    assert(self@.contains(self@[j]));
                }
                if self@.contains(translate(q, c)) {
                    let j = choose|j: int| 0 <= j < self@.len() && self@[j] == translate(q, c);
                    assert(r@.contains(translate(self@[j], d)));
                    assert(translate(self@[j], d) == q);
                }
            }
            // Equivalence: rotation 0, translation by the negated center.
            assert forall|p: (int, int)|
                r@.contains(p) <==> #[trigger] self@.contains(
                    rot(translate(p, negate(d)), angle_index(4 - 0)),
                ) by {
                assert(rot(translate(p, negate(d)), angle_index(4 - 0)) == translate(p, c));
            }
            assert(cells_match(r@, self@, 0, d));
        }
        r
    }

    /// Returns the shape translated by `d`, rebuilt as a fresh sorted
    /// shape.
    pub fn translated(&self, d: Vector) -> (r: Shape)
        requires
            self.wf(),
            cells_bounded(self@, 0x3fff_ffff),
            -0x3fff_ffff <= d@.0 <= 0x3fff_ffff,
            -0x3fff_ffff <= d@.1 <= 0x3fff_ffff,
        ensures
            r.wf(),
            r@.len() == self@.len(),
            forall|q: (int, int)| #[trigger]
                r@.contains(q) <==> self@.contains(translate(q, negate(d@))),
            shape_equiv(r@, self@),
    {
        let ghost dd = d@;
        let n = self.positions.len();
        let mut r = Shape::new();
        let mut i: usize = 0;
        while i < n
            invariant
                0 <= i <= n,
                n == self@.len(),
                self.wf(),
                cells_bounded(self@, 0x3fff_ffff),
                dd == d@,
                -0x3fff_ffff <= dd.0 <= 0x3fff_ffff,
                -0x3fff_ffff <= dd.1 <= 0x3fff_ffff,
                r.wf(),
                r@.len() == i,
                forall|j: int| 0 <= j < i ==> r@.contains(#[trigger] translate(self@[j], dd)),
                forall|q: (int, int)| #[trigger]
                    r@.contains(q) ==> exists|j: int| 0 <= j < i && q == translate(self@[j], dd),
            decreases n - i,
        {
            let p = self.positions[i];
            proof {
                assert(self@.contains(self@[i as int]));
                assert(p@ == self@[i as int]);
            }
            let q = p.plus(&d);
            proof {
                if r@.contains(q@) {
                    let j = choose|j: int| 0 <= j < i && q@ == translate(self@[j], dd);
                    assert(self@[j] == self@[i as int]);
                    assert(vec_lt(self@[j], self@[i as int]));
                    assert(false);
                }
            }
            let ghost pre = r@;
            let added = r.add_pos(q);
            proof {
                assert(added);
                assert(q@ == translate(self@[i as int], dd));
                assert forall|j: int| 0 <= j < i + 1 implies r@.contains(
                    #[trigger] translate(self@[j], dd),
                ) by {
                    if j < i {
                        assert(pre.contains(translate(self@[j], dd)));
                    }
                }
                assert forall|q2: (int, int)| #[trigger] r@.contains(q2) implies exists|j: int|
                    0 <= j < i + 1 && q2 == translate(self@[j], dd) by {
                    if q2 == q@ {
                        assert(0 <= i < i + 1 && q2 == translate(self@[i as int], dd));
                    } else {
                        assert(pre.contains(q2));
                        let j = choose|j: int| 0 <= j < i && q2 == translate(self@[j], dd);
                        assert(0 <= j < i + 1 && q2 == translate(self@[j], dd));
                    }
                }
            }
            i += 1;
        }
        proof {
            assert forall|q: (int, int)| #[trigger] r@.contains(q) <==> self@.contains(
                translate(q, negate(dd)),
            ) by {
                if r@.contains(q) {
                    let j = choose|j: int| 0 <= j < n && q == translate(self@[j], dd);
                    assert(translate(q, negate(dd)) == self@[j]);
                    assert(self@.contains(self@[j]));
                }
                if self@.contains(translate(q, negate(dd))) {
                    let j = choose|j: int|
                        0 <= j < self@.len() && self@[j] == translate(q, negate(dd));
                    assert(r@.contains(translate(self@[j], dd)));
                    assert(translate(self@[j], dd) == q);
                }
            }
            assert forall|p: (int, int)|
                r@.contains(p) <==> #[trigger] self@.contains(
                    rot(translate(p, negate(dd)), angle_index(4 - 0)),
                ) by {
                assert(rot(translate(p, negate(dd)), angle_index(4 - 0)) == translate(
                    p,
                    negate(dd),
                ));
            }
            assert(cells_match(r@, self@, 0, dd));
        }
        r
    }

    /// Returns the shape with every cell negated, rebuilt as a fresh sorted
    /// shape.
    pub fn negated(&self) -> (r: Shape)
        requires
            self.wf(),
            cells_bounded(self@, i32::MAX as int),
        ensures
            r.wf(),
            r@.len() == self@.len(),
            forall|q: (int, int)| #[trigger] r@.contains(q) <==> self@.contains(negate(q)),
    {
        let n = self.positions.len();
        let mut r = Shape::new();
        let mut i: usize = 0;
        while i < n
            invariant
                0 <= i <= n,
                n == self@.len(),
                self.wf(),
                cells_bounded(self@, i32::MAX as int),
                r.wf(),
                r@.len() == i,
                forall|j: int| 0 <= j < i ==> r@.contains(#[trigger] negate(self@[j])),
                forall|q: (int, int)| #[trigger]
                    r@.contains(q) ==> exists|j: int| 0 <= j < i && q == negate(self@[j]),
            decreases n - i,
        {
            let p = self.positions[i];
            proof {
                assert(self@.contains(self@[i as int]));
                assert(p@ == self@[i as int]);
            }
            let q = Vector(-p.0, -p.1);
            proof {
                assert(q@ == negate(self@[i as int]));
                if r@.contains(q@) {
                    let j = choose|j: int| 0 <= j < i && q@ == negate(self@[j]);
                    assert(self@[j] == self@[i as int]);
                    assert(vec_lt(self@[j], self@[i as int]));
                    assert(false);
                }
            }
            let ghost pre = r@;
            let added = r.add_pos(q);
            proof {
                assert(added);
                assert forall|j: int| 0 <= j < i + 1 implies r@.contains(
                    #[trigger] negate(self@[j]),
                ) by {
                    if j < i {
                        assert(pre.contains(negate(self@[j])));
                    }
                }
                assert forall|q2: (int, int)| #[trigger] r@.contains(q2) implies exists|j: int|
                    0 <= j < i + 1 && q2 == negate(self@[j]) by {
                    if q2 == q@ {
                        assert(0 <= i < i + 1 && q2 == negate(self@[i as int]));
                    } else {
                        assert(pre.contains(q2));
                        let j = choose|j: int| 0 <= j < i && q2 == negate(self@[j]);
                        assert(0 <= j < i + 1 && q2 == negate(self@[j]));
                    }
                }
            }
            i += 1;
        }
        proof {
            assert forall|q: (int, int)| #[trigger] r@.contains(q) <==> self@.contains(
                negate(q),
            ) by {
                if r@.contains(q) {
                    let j = choose|j: int| 0 <= j < n && q == negate(self@[j]);
                    assert(negate(q) == self@[j]);
                    assert(self@.contains(self@[j]));
                }
                if self@.contains(negate(q)) {
                    let j = choose|j: int| 0 <= j < self@.len() && self@[j] == negate(q);
                    assert(r@.contains(negate(self@[j])));
                    assert(negate(self@[j]) == q);
                }
            }
        }
        r
    }

    /// Returns a copy of the shape with the same cells.
    pub fn duplicate(&self) -> (r: Shape)
        ensures
            r@ == self@,
    {
        let n = self.positions.len();
        let mut positions: Vec<Vector> = Vec::new();
        let mut i: usize = 0;
        while i < n
            invariant
                0 <= i <= n,
                n == self.positions@.len(),
                positions@.len() == i,
                forall|j: int| 0 <= j < i ==> positions@[j] == self.positions@[j],
            decreases n - i,
        {
            positions.push(self.positions[i]);
            i += 1;
        }
        let r = Shape { positions };
        proof {
            assert(r@ =~= self@);
        }
        r
    }

    /// Checks whether two shapes are equivalent: whether their cells are
    /// equally positioned, rotation- and translation-independently. For each
    /// of the four rotations of `rhs`, the translation aligning the first
    /// cells (in sorted order) is tried; because both cell lists are kept
    /// sorted, comparing the remaining cells index-wise under that
    /// translation decides the match.
    pub fn equivalent(&self, rhs: &Shape) -> (r: bool)
        requires
            self.wf(),
            rhs.wf(),
            cells_bounded(rhs@, i32::MAX as int),
        ensures
            r == shape_equiv(self@, rhs@),
    {
        let n = self.positions.len();
        if n != rhs.positions.len() {
            return false;
        }
        if n == 0 {
            proof {
                lemma_shape_equiv_reflexive(self@);
                assert(self@ =~= rhs@);
            }
            return true;
        }
        let mut angle: i32 = 0;
        while angle < 4
            invariant
                0 <= angle <= 4,
                n == self@.len(),
                n == rhs@.len(),
                n > 0,
                self.wf(),
                rhs.wf(),
                cells_bounded(rhs@, i32::MAX as int),
                forall|k: int, d: (int, int)| 0 <= k < angle ==> !cells_match(self@, rhs@, k, d),
            decreases 4 - angle,
        {
            let ghost kg = angle_index(angle as int);
            let ghost k1 = angle_index(4 - kg);
            proof {
                lemma_angle_index_range(angle as int);
                lemma_inv_angle_involutive(kg);
                assert(kg == angle as int);
            }
            let brot = rhs.rotated(angle);
            let dx = self.positions[0].0 as i64 - brot.positions[0].0 as i64;
            let dy = self.positions[0].1 as i64 - brot.positions[0].1 as i64;
            let ghost dg: (int, int) = (self@[0].0 - brot@[0].0, self@[0].1 - brot@[0].1);
            let mut i: usize = 0;
            let mut all = true;
            while i < n
                invariant
                    0 <= i <= n,
                    n == self@.len(),
                    n == brot@.len(),
                    n > 0,
                    dx as int == dg.0,
                    dy as int == dg.1,
                    -0x1_0000_0000 <= dx <= 0x1_0000_0000,
                    -0x1_0000_0000 <= dy <= 0x1_0000_0000,
                    all ==> forall|j: int| 0 <= j < i ==> self@[j] == translate(brot@[j], dg),
                    !all ==> exists|j: int|
                        0 <= j < n && self@[j] != translate(#[trigger] brot@[j], dg),
                decreases n - i,
            {
                let sx = self.positions[i].0 as i64;
                let sy = self.positions[i].1 as i64;
                let bx = brot.positions[i].0 as i64;
                let by = brot.positions[i].1 as i64;
                if !(sx == bx + dx && sy == by + dy) {
                    proof {
                        assert(self@[i as int] != translate(brot@[i as int], dg));
                    }
                    all = false;
                }
                i += 1;
            }
            if all {
                proof {
                    // Every cell of `self` is the aligned image of the same-
                    // index cell of the rotated `rhs`, so the shapes match
                    // under rotation `kg` and translation `dg`.
                    assert forall|p: (int, int)|
                        self@.contains(p) <==> #[trigger] rhs@.contains(
                            rot(translate(p, negate(dg)), angle_index(4 - kg)),
                        ) by {
                        if self@.contains(p) {
                            let j = choose|j: int| 0 <= j < self@.len() && self@[j] == p;
                            assert(self@[j] == translate(brot@[j], dg));
                            assert(brot@.contains(brot@[j]));
                            assert(translate(p, negate(dg)) == brot@[j]);
                            assert(brot@.contains(brot@[j]) <==> rhs@.contains(
                                rot(brot@[j], angle_index(4 - kg)),
                            ));
                        }
                        if rhs@.contains(rot(translate(p, negate(dg)), angle_index(4 - kg))) {
                            let q = translate(p, negate(dg));
                            assert(brot@.contains(q) <==> rhs@.contains(
                                rot(q, angle_index(4 - kg)),
                            ));
                            assert(brot@.contains(q));
                            let j = choose|j: int| 0 <= j < brot@.len() && brot@[j] == q;
                            assert(self@[j] == translate(brot@[j], dg));
                            assert(self@[j] == p);
                            assert(self@.contains(self@[j]));
                        }
                    }
                    assert(cells_match(self@, rhs@, kg, dg));
                    assert(shape_equiv(self@, rhs@));
                }
                return true;
            }
            proof {
                // No translation can work for this rotation: any matching
                // translation is forced to be `dg` by the sorted order, and
                // `dg` failed on some index.
                assert forall|d0: (int, int)| !cells_match(self@, rhs@, kg as int, d0) by {
                    if cells_match(self@, rhs@, kg as int, d0) {
                        assert forall|p: (int, int)|
                            self@.contains(p) <==> #[trigger] brot@.contains(
                                translate(p, negate(d0)),
                            ) by {
                            assert(self@.contains(p) <==> rhs@.contains(
                                rot(translate(p, negate(d0)), angle_index(4 - kg)),
                            ));
                            assert(brot@.contains(translate(p, negate(d0))) <==> rhs@.contains(
                                rot(translate(p, negate(d0)), angle_index(4 - kg)),
                            ));
                        }
                        lemma_match_sorted_align(self@, brot@, d0);
                        assert(self@[0] == translate(brot@[0], d0));
                        assert(d0 == dg);
                        let j = choose|j: int|
                            0 <= j < n && self@[j] != translate(#[trigger] brot@[j], dg);
                        assert(self@[j] == translate(brot@[j], d0));
                        assert(false);
                    }
                }
                assert forall|k: int, d: (int, int)| 0 <= k < angle + 1 implies !cells_match(
                    self@,
                    rhs@,
                    k,
                    d,
                ) by {
                    if k == angle as int {
                        assert(!cells_match(self@, rhs@, kg as int, d));
                    }
                }
            }
            angle += 1;
        }
        proof {
            if shape_equiv(self@, rhs@) {
                let (k, d) = choose|k: int, d: (int, int)|
                    0 <= k < 4 && cells_match(self@, rhs@, k, d);
                assert(!cells_match(self@, rhs@, k, d));
            }
        }
        false
    }
}

} // verus!
