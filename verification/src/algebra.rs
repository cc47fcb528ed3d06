//! 2D vector algebra: the coordinate type of every shape cell and grid
//! position, with quarter-turn rotation and row-major ordering.

use vstd::prelude::*;

verus! {

/// 2D integer vector `(horizontal, vertical)`.
#[derive(Clone, Copy, PartialEq, Eq, Structural, Debug, Hash)]
pub struct Vector(pub i32, pub i32);

/// 2D unsigned vector: grid bounds and in-bounds grid positions.
#[derive(Clone, Copy, PartialEq, Eq, Structural, Debug, Hash)]
pub struct UVector(pub usize, pub usize);

impl View for Vector {
    type V = (int, int);

    open spec fn view(&self) -> (int, int) {
        (self.0 as int, self.1 as int)
    }
}

impl View for UVector {
    type V = (int, int);

    open spec fn view(&self) -> (int, int) {
        (self.0 as int, self.1 as int)
    }
}

/// One counter-clockwise quarter turn around the origin.
pub open spec fn rot1(p: (int, int)) -> (int, int) {
    (-p.1, p.0)
}

/// `k` counter-clockwise quarter turns around the origin (`k <= 0` is the
/// identity; callers reduce angles with [`angle_index`] first).
pub open spec fn rot(p: (int, int), k: int) -> (int, int)
    decreases k,
{
    if k <= 0 {
        p
    } else {
        rot1(rot(p, k - 1))
    }
}

/// Translation of a point by an offset.
pub open spec fn translate(p: (int, int), d: (int, int)) -> (int, int) {
    (p.0 + d.0, p.1 + d.1)
}

/// Negation of a point.
pub open spec fn negate(p: (int, int)) -> (int, int) {
    (-p.0, -p.1)
}

/// The non-negative representative of an angle modulo 4 (`%` on `int` is the
/// Euclidean remainder, so this is always in `[0, 4)`).
pub open spec fn angle_index(angle: int) -> int {
    angle % 4
}

/// The representative of an angle is always a valid quarter-turn count.
pub proof fn lemma_angle_index_range(angle: int)
    ensures
        0 <= angle_index(angle) < 4,
{
}

/// Closed forms of the four quarter-turn rotations.
pub proof fn lemma_rot_closed_forms(p: (int, int))
    ensures
        rot(p, 0) == p,
        rot(p, 1) == (-p.1, p.0),
        rot(p, 2) == (-p.0, -p.1),
        rot(p, 3) == (p.1, -p.0),
        rot(p, 4) == p,
{
    assert(rot(p, 1) == rot1(rot(p, 0)));
    assert(rot(p, 2) == rot1(rot(p, 1)));
    assert(rot(p, 3) == rot1(rot(p, 2)));
    assert(rot(p, 4) == rot1(rot(p, 3)));
}

/// Rotation is a group of order 4: one more quarter turn after an angle `k`
/// is the same as rotating by `k + 1`.
pub proof fn lemma_rotated_compose(p: (int, int), k: int)
    ensures
        rot(rot(p, angle_index(k)), angle_index(1)) == rot(p, angle_index(k + 1)),
{
    let m = angle_index(k);
    lemma_angle_index_range(k);
    if m < 3 {
        assert(angle_index(k + 1) == m + 1);
        assert(rot(p, m + 1) == rot1(rot(p, m)));
        assert(rot(rot(p, m), 1) == rot1(rot(rot(p, m), 0)));
    } else {
        assert(angle_index(k + 1) == 0);
        lemma_rot_closed_forms(p);
        assert(rot(rot(p, 3), 1) == rot1(rot(rot(p, 3), 0)));
        assert(rot(p, 4) == rot1(rot(p, 3)));
    }
}

/// Rotations compose additively.
pub proof fn lemma_rot_add(p: (int, int), a: int, b: int)
    requires
        a >= 0,
        b >= 0,
    ensures
        rot(p, a + b) == rot(rot(p, b), a),
    decreases a,
{
    if a > 0 {
        lemma_rot_add(p, a - 1, b);
        assert(rot(p, a + b) == rot1(rot(p, a + b - 1)));
        assert(rot(rot(p, b), a) == rot1(rot(rot(p, b), a - 1)));
    }
}

/// Dropping full turns does not change a rotation (for angles below two
/// full turns, which is all that composing two reduced angles yields).
pub proof fn lemma_rot_reduce(p: (int, int), m: int)
    requires
        0 <= m < 8,
    ensures
        rot(p, m) == rot(p, angle_index(m)),
{
    if m >= 4 {
        lemma_rot_add(p, 4, m - 4);
        lemma_rot_closed_forms(rot(p, m - 4));
        assert(rot(p, m) == rot(rot(p, m - 4), 4));
        assert(angle_index(m) == m - 4);
    } else {
        assert(angle_index(m) == m);
    }
}

/// A full turn is the identity.
pub proof fn lemma_rotated_full_turn(p: (int, int))
    ensures
        rot(p, angle_index(4)) == p,
{
}

/// Rotating by -1 is the same as rotating by 3.
pub proof fn lemma_rotated_neg(p: (int, int))
    ensures
        rot(p, angle_index(-1)) == rot(p, angle_index(3)),
{
}

/// Rotating by `k` and then by `4 - k` quarter turns is the identity.
pub proof fn lemma_rot_inverse(p: (int, int), k: int)
    requires
        0 <= k < 4,
    ensures
        rot(rot(p, k), angle_index(4 - k)) == p,
{
    lemma_rot_closed_forms(p);
    lemma_rot_closed_forms(rot(p, k));
}

/// Rotation distributes over translation.
pub proof fn lemma_rot_translate(p: (int, int), d: (int, int), k: int)
    requires
        0 <= k < 4,
    ensures
        rot(translate(p, d), k) == translate(rot(p, k), rot(d, k)),
{
    lemma_rot_closed_forms(p);
    lemma_rot_closed_forms(d);
    lemma_rot_closed_forms(translate(p, d));
}

/// Rotation commutes with negation.
pub proof fn lemma_rot_negate(p: (int, int), k: int)
    requires
        0 <= k < 4,
    ensures
        rot(negate(p), k) == negate(rot(p, k)),
{
    lemma_rot_closed_forms(p);
    lemma_rot_closed_forms(negate(p));
}

/// Rotating by `4 - k` and then by `k` quarter turns is the identity.
pub proof fn lemma_rot_inverse2(p: (int, int), k: int)
    requires
        0 <= k < 4,
    ensures
        rot(rot(p, angle_index(4 - k)), k) == p,
{
    lemma_rot_closed_forms(p);
    lemma_rot_closed_forms(rot(p, angle_index(4 - k)));
}

/// Inverting a quarter-turn count twice gives it back.
pub proof fn lemma_inv_angle_involutive(k: int)
    requires
        0 <= k < 4,
    ensures
        0 <= angle_index(4 - k) < 4,
        angle_index(4 - angle_index(4 - k)) == k,
{
}

/// Rotation is injective: composing with the inverse turn recovers the input.
pub proof fn lemma_rot_injective(p: (int, int), q: (int, int), k: int)
    requires
        0 <= k < 4,
        rot(p, k) == rot(q, k),
    ensures
        p == q,
{
    lemma_rot_inverse(p, k);
    lemma_rot_inverse(q, k);
}

impl Vector {
    /// The origin `(0, 0)`.
    pub fn origin() -> (r: Vector)
        ensures
            r@ == (0int, 0int),
    {
        Vector(0, 0)
    }

    /// Rotates the vector by `angle` counter-clockwise quarter turns
    /// (negative angles turn clockwise).
    pub fn rotated(&self, angle: i32) -> (r: Vector)
        requires
            self.0 > i32::MIN,
            self.1 > i32::MIN,
        ensures
            r@ == rot(self@, angle_index(angle as int)),
    {
        let a = match angle.checked_rem_euclid(4) {
            Some(a) => a,
            None => 0,
        };
        proof {
            lemma_rot_closed_forms(self@);
        }
        if a == 0 {
            *self
        } else if a == 1 {
            Vector(-self.1, self.0)
        } else if a == 2 {
            Vector(-self.0, -self.1)
        } else {
            Vector(self.1, -self.0)
        }
    }

    /// Component-wise sum.
    pub fn plus(&self, rhs: &Vector) -> (r: Vector)
        requires
            i32::MIN <= self@.0 + rhs@.0 <= i32::MAX,
            i32::MIN <= self@.1 + rhs@.1 <= i32::MAX,
        ensures
            r@ == translate(self@, rhs@),
    {
        Vector(self.0 + rhs.0, self.1 + rhs.1)
    }

    /// Component-wise difference.
    pub fn minus(&self, rhs: &Vector) -> (r: Vector)
        requires
            i32::MIN <= self@.0 - rhs@.0 <= i32::MAX,
            i32::MIN <= self@.1 - rhs@.1 <= i32::MAX,
        ensures
            r@ == (self@.0 - rhs@.0, self@.1 - rhs@.1),
    {
        Vector(self.0 - rhs.0, self.1 - rhs.1)
    }

    /// Whether `self` comes strictly before `rhs` in row-major order
    /// (compare horizontal coordinates, tie-break on the vertical one).
    pub fn before(&self, rhs: &Vector) -> (r: bool)
        ensures
            r == vec_lt(self@, rhs@),
    {
        self.0 < rhs.0 || (self.0 == rhs.0 && self.1 < rhs.1)
    }

    /// Converts to an unsigned vector, failing (rather than wrapping) when
    /// a component is out of the unsigned range.
    pub fn to_unsigned(&self) -> (r: Option<UVector>)
        ensures
            match r {
                Some(u) => self@.0 >= 0 && self@.1 >= 0 && u@ == self@,
                None => !(self@.0 >= 0 && self@.1 >= 0),
            },
    {
        if self.0 >= 0 && self.1 >= 0 {
            Some(UVector(self.0 as usize, self.1 as usize))
        } else {
            None
        }
    }
}

impl UVector {
    /// Converts to a signed vector, failing (rather than wrapping) when a
    /// component is out of the signed 32-bit range.
    pub fn to_signed(&self) -> (r: Option<Vector>)
        ensures
            match r {
                Some(v) => self@.0 <= i32::MAX && self@.1 <= i32::MAX && v@ == self@,
                None => !(self@.0 <= i32::MAX && self@.1 <= i32::MAX),
            },
    {
        if self.0 <= 0x7fff_ffff && self.1 <= 0x7fff_ffff {
            Some(Vector(self.0 as i32, self.1 as i32))
        } else {
            None
        }
    }
}

/// Strict row-major (lexicographic) order on points.
pub open spec fn vec_lt(a: (int, int), b: (int, int)) -> bool {
    a.0 < b.0 || (a.0 == b.0 && a.1 < b.1)
}

/// Translating two points by the same offset preserves their order.
pub proof fn lemma_vec_lt_translate(a: (int, int), b: (int, int), d: (int, int))
    ensures
        vec_lt(translate(a, d), translate(b, d)) == vec_lt(a, b),
{
}

} // verus!
