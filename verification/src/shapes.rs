//! The canonical-shape cache: per size `n`, the list of all canonical shapes
//! of exactly `n` cells, built incrementally by cell addition, with random
//! sampling.

use vstd::arithmetic::power2::{
    lemma2_to64, lemma_pow2_strictly_increases, lemma_pow2_unfold, pow2,
};
use vstd::prelude::*;

use crate::algebra::{angle_index, negate, rot, translate, vec_lt, Vector};
use crate::rng::sample_below;
use crate::shape::{
    adjacent, cells_bounded, cells_match, center_of, connected, lemma_bounds_in_range,
    lemma_connected_grow, lemma_connected_single, lemma_connected_translated,
    lemma_minmax_translated, lemma_shape_equiv_symmetric, lemma_shape_equiv_transitive,
    shape_equiv, Shape,
};

verus! {

/// The coordinate bound kept for the cells of stored canonical shapes of `n`
/// cells: growing a shape by one neighbor cell and re-centering it at most
/// doubles the bound plus two, which this closed form absorbs.
pub open spec fn coord_bound(n: nat) -> int {
    4 * pow2(n) - 2
}

/// The four axis-aligned unit directions, in the order the generator
/// proposes them.
pub open spec fn unit_dir(d: int) -> (int, int) {
    if d == 0 {
        (1int, 0int)
    } else if d == 1 {
        (0int, 1int)
    } else if d == 2 {
        (-1int, 0int)
    } else {
        (0int, -1int)
    }
}

/// The cells of a shape grown by the neighbor of its cell `pi` in unit
/// direction `d`.
pub open spec fn grown(s: Seq<(int, int)>, pi: int, d: int) -> Seq<(int, int)> {
    s.push(translate(s[pi], unit_dir(d)))
}

/// Generation by cell addition is complete: every way of growing a member
/// of `from` by one free neighbor cell is represented, up to rotation and
/// translation, among the members of `to`.
pub open spec fn gen_complete(from: Seq<Shape>, to: Seq<Shape>) -> bool {
    forall|si: int, pi: int, d: int|
        #![trigger translate(from[si]@[pi], unit_dir(d))]
        0 <= si < from.len() && 0 <= pi < from[si]@.len() && 0 <= d < 4 && !from[si]@.contains(
            translate(from[si]@[pi], unit_dir(d)),
        ) ==> exists|j: int| 0 <= j < to.len() && shape_equiv(grown(from[si]@, pi, d), to[j]@)
}

/// The part of `from`'s one-cell growths that a generation step has covered
/// so far in `l`: every shape before `si`, every cell of shape `si` before
/// `pi`, and every direction before `d` for cell `pi`.
spec fn covered(from: Seq<Shape>, l: Seq<Shape>, si: int, pi: int, d: int) -> bool {
    forall|s2: int, p2: int, d2: int|
        #![trigger translate(from[s2]@[p2], unit_dir(d2))]
        0 <= s2 < from.len() && 0 <= p2 < from[s2]@.len() && 0 <= d2 < 4 && (s2 < si || (s2 == si
            && (p2 < pi || (p2 == pi && d2 < d)))) && !from[s2]@.contains(
            translate(from[s2]@[p2], unit_dir(d2)),
        ) ==> exists|j: int| 0 <= j < l.len() && shape_equiv(grown(from[s2]@, p2, d2), l[j]@)
}

/// All members of one cached list are well-formed shapes of exactly `n`
/// cells, with bounded coordinates, edge-connected, centered, and pairwise
/// inequivalent.
pub open spec fn list_wf(l: Seq<Shape>, n: int) -> bool {
    &&& (forall|i: int| 0 <= i < l.len() ==> (#[trigger] l[i]).wf())
    &&& (forall|i: int| 0 <= i < l.len() ==> (#[trigger] l[i])@.len() == n)
    &&& (forall|i: int|
        0 <= i < l.len() ==> cells_bounded((#[trigger] l[i])@, coord_bound(n as nat)))
    &&& (forall|i: int| 0 <= i < l.len() ==> connected((#[trigger] l[i])@))
    &&& (forall|i: int| 0 <= i < l.len() ==> center_of((#[trigger] l[i])@) == (0int, 0int))
    &&& (forall|i: int, j: int|
        #![trigger l[i], l[j]]
        0 <= i < j < l.len() ==> !shape_equiv(l[i]@, l[j]@))
}

/// The coordinate bound of any reachable size stays well inside `i32`.
proof fn lemma_coord_bound_range(n: nat)
    requires
        1 <= n <= 28,
    ensures
        2 <= coord_bound(n) <= 0x3fff_fffe,
{
    lemma2_to64();
    if n < 28 {
        lemma_pow2_strictly_increases(n, 28);
    }
    if n > 1 {
        lemma_pow2_strictly_increases(1, n);
    }
}

/// Growing the bound by one and doubling lands exactly on the next size's
/// bound.
proof fn lemma_coord_bound_next(n: nat)
    requires
        n >= 1,
    ensures
        2 * (coord_bound(n) + 1) == coord_bound(n + 1),
{
    lemma_pow2_unfold(n + 1);
}

/// An instance of `Shapes` can be used to generate all canonical shapes made
/// of `n` contiguous blocks, for every `n` up to a generated maximum. This is
/// useful to build pieces with random shapes knowing their cell count.
/// Sizes above 28 are not generated: their cell coordinates could leave the
/// 32-bit coordinate range.
#[derive(Debug)]
pub struct Shapes {
    size: usize,
    shapess: Vec<Vec<Shape>>,
}

impl Shapes {
    /// The maximum size generated so far.
    pub closed spec fn spec_max_size(&self) -> int {
        self.size as int
    }

    /// The cached list of canonical shapes of `n` cells.
    pub closed spec fn list_at(&self, n: int) -> Seq<Shape>
        recommends
            1 <= n <= self.spec_max_size(),
    {
        self.shapess@[n - 1]@
    }

    /// The cache holds one well-formed, non-empty list per size from 1 to
    /// the maximum, and size 1 holds exactly the unit shape.
    pub closed spec fn wf(&self) -> bool {
        &&& 1 <= self.size <= 28
        &&& self.shapess@.len() == self.size
        &&& (forall|k: int| 1 <= k <= self.size ==> list_wf(#[trigger] self.list_at(k), k))
        &&& (forall|k: int| 1 <= k <= self.size ==> (#[trigger] self.list_at(k)).len() >= 1)
        &&& (forall|k: int|
            1 <= k < self.size ==> gen_complete(#[trigger] self.list_at(k), self.list_at(k + 1)))
        &&& self.list_at(1).len() == 1
        &&& self.list_at(1)[0]@ == seq![(0int, 0int)]
    }

    /// Creates a cache holding the single list of all shapes of size 1: just
    /// the unit shape.
    pub fn new() -> (r: Shapes)
        ensures
            r.wf(),
            r.spec_max_size() == 1,
    {
        let mut inner: Vec<Shape> = Vec::new();
        inner.push(Shape::unit());
        let mut shapess: Vec<Vec<Shape>> = Vec::new();
        shapess.push(inner);
        let r = Shapes { size: 1, shapess };
        proof {
            let l = r.list_at(1);
            assert(l.len() == 1);
            assert(l[0]@ =~= seq![(0int, 0int)]);
            lemma_coord_bound_range(1);
            assert forall|p: (int, int)| #[trigger] l[0]@.contains(p) implies -coord_bound(1)
                <= p.0 <= coord_bound(1) && -coord_bound(1) <= p.1 <= coord_bound(1) by {
                assert(p == l[0]@[0]);
            }
            lemma_connected_single(l[0]@);
            assert(center_of(l[0]@) == (0int, 0int));
            assert(list_wf(l, 1));
        }
        r
    }

    /// Returns the maximum size generated so far.
    pub fn max_size(&self) -> (r: usize)
        ensures
            r == self.spec_max_size(),
    {
        self.size
    }

    /// Returns the list of all canonical shapes of `size` cells. The list
    /// must have been generated (`gen_until(n)` with `n >= size`) first.
    pub fn shapes(&self, size: usize) -> (r: &Vec<Shape>)
        requires
            self.wf(),
            1 <= size <= self.spec_max_size(),
        ensures
            r@ == self.list_at(size as int),
            list_wf(r@, size as int),
            r@.len() >= 1,
            size == 1 ==> r@.len() == 1 && r@[0]@ == seq![(0int, 0int)],
    {
        proof {
            assert(list_wf(self.list_at(size as int), size as int));
            assert(self.list_at(size as int).len() >= 1);
        }
        &self.shapess[size - 1]
    }

    /// Returns the last generated list of canonical shapes.
    fn last_shapes(&self) -> (r: &Vec<Shape>)
        requires
            self.wf(),
        ensures
            r@ == self.list_at(self.spec_max_size()),
            list_wf(r@, self.spec_max_size()),
            r@.len() >= 1,
    {
        proof {
            assert(list_wf(self.list_at(self.spec_max_size()), self.spec_max_size()));
            assert(self.list_at(self.spec_max_size()).len() >= 1);
        }
        &self.shapess[self.size - 1]
    }

    /// Generates the missing shape lists up to `size` (no change if that
    /// size was already generated).
    pub fn gen_until(&mut self, size: usize)
        requires
            old(self).wf(),
            size <= 28,
        ensures
            final(self).wf(),
            final(self).spec_max_size() == if old(self).spec_max_size() >= size {
                old(self).spec_max_size()
            } else {
                size as int
            },
            forall|k: int|
                1 <= k <= old(self).spec_max_size() ==> final(self).list_at(k) == old(
                    self,
                ).list_at(k),
    {
        while self.size < size
            invariant
                self.wf(),
                size <= 28,
                old(self).spec_max_size() <= self.spec_max_size(),
                self.spec_max_size() <= size || self.spec_max_size() == old(
                    self,
                ).spec_max_size(),
                forall|k: int|
                    1 <= k <= old(self).spec_max_size() ==> self.list_at(k) == old(self).list_at(
                        k,
                    ),
            decreases size - self.size,
        {
            self.gen_next();
        }
    }

    /// Picks a uniformly random shape from `shapes` and applies a uniformly
    /// random quarter-turn rotation to it.
    pub fn random_among(&self, shapes: &[Shape], rng: &mut rand::rngs::StdRng) -> (r: Shape)
        requires
            shapes@.len() > 0,
            forall|i: int| 0 <= i < shapes@.len() ==> (#[trigger] shapes@[i]).wf(),
            forall|i: int|
                0 <= i < shapes@.len() ==> cells_bounded((#[trigger] shapes@[i])@, i32::MAX as int),
        ensures
            r.wf(),
            cells_bounded(r@, i32::MAX as int),
            exists|i: int| 0 <= i < shapes@.len() && shape_equiv(r@, (#[trigger] shapes@[i])@),
    {
        let i = sample_below(rng, shapes.len());
        let angle = sample_below(rng, 4);
        let shape = &shapes[i];
        let r = shape.rotated(angle as i32);
        proof {
            assert(shape_equiv(r@, shapes@[i as int]@));
            assert(cells_bounded(shapes@[i as int]@, i32::MAX as int));
        }
        r
    }

    /// Picks a uniformly random canonical shape of `size` cells, randomly
    /// rotated.
    pub fn random(&self, size: usize, rng: &mut rand::rngs::StdRng) -> (r: Shape)
        requires
            self.wf(),
            1 <= size <= self.spec_max_size(),
        ensures
            r.wf(),
            cells_bounded(r@, i32::MAX as int),
            exists|i: int|
                0 <= i < self.list_at(size as int).len() && shape_equiv(
                    r@,
                    (#[trigger] self.list_at(size as int)[i])@,
                ),
    {
        let list = self.shapes(size);
        proof {
            lemma_coord_bound_range(size as nat);
            assert forall|i: int| 0 <= i < list@.len() implies cells_bounded(
                (#[trigger] list@[i])@,
                i32::MAX as int,
            ) by {
                assert(cells_bounded(list@[i]@, coord_bound(size as nat)));
                assert forall|p: (int, int)| #[trigger] list@[i]@.contains(p) implies -(
                i32::MAX as int) <= p.0 <= i32::MAX as int && -(i32::MAX as int) <= p.1
                    <= i32::MAX as int by {}
            }
        }
        self.random_among(list.as_slice(), rng)
    }

    /// Generates all the canonical shapes of `n + 1` contiguous cells from
    /// the canonical shapes of `n` cells, and raises the maximum size by 1:
    /// every neighbor cell of every cell of every size-`n` shape is proposed,
    /// the grown shape is re-centered, and it is kept only if it is not
    /// equivalent to a shape already produced in this step.
    fn gen_next(&mut self)
        requires
            old(self).wf(),
            old(self).spec_max_size() < 28,
        ensures
            final(self).wf(),
            final(self).spec_max_size() == old(self).spec_max_size() + 1,
            forall|k: int|
                1 <= k <= old(self).spec_max_size() ==> final(self).list_at(k) == old(
                    self,
                ).list_at(k),
    {
        let ghost sz = self.size as int;
        let ghost bnd = coord_bound(sz as nat);
        let ghost oldlist = self.list_at(sz);
        proof {
            lemma_coord_bound_range(sz as nat);
            lemma_coord_bound_range((sz + 1) as nat);
            lemma_coord_bound_next(sz as nat);
        }
        let mut shapes: Vec<Shape> = Vec::new();
        let last_n = self.last_shapes().len();
        let mut si: usize = 0;
        while si < last_n
            invariant
                0 <= si <= last_n,
                *self == *old(self),
                self.wf(),
                sz == self.spec_max_size(),
                sz < 28,
                bnd == coord_bound(sz as nat),
                2 <= bnd <= 0x3fff_fffe,
                2 * (bnd + 1) == coord_bound((sz + 1) as nat),
                2 <= coord_bound((sz + 1) as nat) <= 0x3fff_fffe,
                last_n == self.list_at(sz).len(),
                last_n >= 1,
                oldlist == self.list_at(sz),
                list_wf(shapes@, sz + 1),
                si >= 1 ==> shapes@.len() >= 1,
                covered(oldlist, shapes@, si as int, 0, 0),
            decreases last_n - si,
        {
            let base = &self.shapess[self.size - 1][si];
            proof {
                assert(list_wf(self.list_at(sz), sz));
                assert(base@ == self.list_at(sz)[si as int]@);
                assert(self.list_at(sz)[si as int].wf());
                assert(connected(self.list_at(sz)[si as int]@));
            }
            let m = base.size();
            let mut pi: usize = 0;
            while pi < m
                invariant
                    0 <= pi <= m,
                    base.wf(),
                    base@.len() == m,
                    m == sz,
                    cells_bounded(base@, bnd),
                    sz < 28,
                    sz >= 1,
                    bnd == coord_bound(sz as nat),
                    2 <= bnd <= 0x3fff_fffe,
                    2 * (bnd + 1) == coord_bound((sz + 1) as nat),
                    2 <= coord_bound((sz + 1) as nat) <= 0x3fff_fffe,
                    connected(base@),
                    0 <= si < oldlist.len(),
                    base@ == oldlist[si as int]@,
                    list_wf(shapes@, sz + 1),
                    si == 0 && pi > m - 1 ==> shapes@.len() >= 1,
                    si >= 1 ==> shapes@.len() >= 1,
                    covered(oldlist, shapes@, si as int, pi as int, 0),
                decreases m - pi,
            {
                let p = base.positions()[pi];
                proof {
                    assert(base@.contains(base@[pi as int]));
                    assert(p@ == base@[pi as int]);
                }
                let mut d: usize = 0;
                while d < 4
                    invariant
                        0 <= d <= 4,
                        base.wf(),
                        cells_bounded(base@, bnd),
                        base@.len() == sz,
                        base@.contains(p@),
                        0 <= pi < m,
                        m == sz,
                        sz >= 1,
                        p@ == base@[pi as int],
                        sz < 28,
                        bnd == coord_bound(sz as nat),
                        2 <= bnd <= 0x3fff_fffe,
                        2 * (bnd + 1) == coord_bound((sz + 1) as nat),
                        2 <= coord_bound((sz + 1) as nat) <= 0x3fff_fffe,
                        connected(base@),
                        0 <= si < oldlist.len(),
                        base@ == oldlist[si as int]@,
                        list_wf(shapes@, sz + 1),
                        si == 0 && pi == m - 1 && d >= 1 ==> shapes@.len() >= 1,
                        si >= 1 ==> shapes@.len() >= 1,
                        covered(oldlist, shapes@, si as int, pi as int, d as int),
                    decreases 4 - d,
                {
                    let dir = if d == 0 {
                        Vector(1, 0)
                    } else if d == 1 {
                        Vector(0, 1)
                    } else if d == 2 {
                        Vector(-1, 0)
                    } else {
                        Vector(0, -1)
                    };
                    let p2 = p.plus(&dir);
                    let in_base = base.contains(&p2);
                    let ghost shapes0 = shapes@;
                    let ghost g = grown(oldlist[si as int]@, pi as int, d as int);
                    proof {
                        assert(dir@ == unit_dir(d as int));
                        assert(p2@ == translate(base@[pi as int], unit_dir(d as int)));
                        assert(g == base@.push(p2@));
                        // The row-major maximum cell's successor column is
                        // never part of the shape, so the step for the last
                        // cell and the first direction always yields a
                        // candidate.
                        if pi == m - 1 && d == 0 && in_base {
                            let j = choose|j: int| 0 <= j < base@.len() && base@[j] == p2@;
                            assert(p2@ == (p@.0 + 1, p@.1));
                            assert(vec_lt(p@, p2@));
                            if j < m - 1 {
                                assert(vec_lt(base@[j], base@[m - 1]));
                            }
                            assert(false);
                        }
                    }
                    if !in_base {
                        let mut cand = base.duplicate();
                        let added = cand.add_pos(p2);
                        proof {
                            assert(added);
                            assert(cand@.len() == sz + 1);
                            assert forall|q: (int, int)| #[trigger] cand@.contains(q) implies -(bnd
                                + 1) <= q.0 <= bnd + 1 && -(bnd + 1) <= q.1 <= bnd + 1 by {
                                if base@.contains(q) {
                                } else {
                                    assert(q == p2@);
                                }
                            }
                        }
                        let cent = cand.centered();
                        proof {
                            lemma_bounds_in_range(cand@, bnd + 1);
                            let c = center_of(cand@);
                            assert(-(bnd + 1) <= c.0 <= bnd + 1);
                            assert(-(bnd + 1) <= c.1 <= bnd + 1);
                            assert forall|q: (int, int)| #[trigger] cent@.contains(q) implies
                                -coord_bound((sz + 1) as nat) <= q.0 <= coord_bound(
                                (sz + 1) as nat,
                            ) && -coord_bound((sz + 1) as nat) <= q.1 <= coord_bound(
                                (sz + 1) as nat,
                            ) by {
                                assert(cent@.contains(q) <==> cand@.contains(translate(q, c)));
                                assert(cand@.contains(translate(q, c)));
                            }
                            assert(cells_bounded(cent@, coord_bound((sz + 1) as nat)));
                            // The grown cell list and the candidate hold the
                            // same cells.
                            assert forall|x: (int, int)|
                                g.contains(x) <==> #[trigger] cand@.contains(x) by {
                                if g.contains(x) {
                                    let ix = choose|ix: int| 0 <= ix < g.len() && g[ix] == x;
                                    if ix < g.len() - 1 {
                                        assert(base@[ix] == x);
                                        assert(base@.contains(x));
                                    } else {
                                        assert(x == p2@);
                                    }
                                }
                                if cand@.contains(x) {
                                    if base@.contains(x) {
                                        let ix = choose|ix: int|
                                            0 <= ix < base@.len() && base@[ix] == x;
                                        assert(g[ix] == x);
                                    } else {
                                        assert(x == p2@);
                                        assert(g[g.len() - 1] == x);
                                    }
                                    assert(g.contains(x));
                                }
                            }
                            // The re-centered candidate is equivalent to the
                            // grown cell list (translation by the negated
                            // center).
                            assert forall|x: (int, int)|
                                cent@.contains(x) <==> #[trigger] g.contains(
                                    rot(translate(x, negate(negate(c))), angle_index(4 - 0)),
                                ) by {
                                assert(negate(negate(c)) == c);
                                assert(rot(translate(x, c), angle_index(4 - 0)) == translate(x, c));
                                assert(cent@.contains(x) <==> cand@.contains(translate(x, c)));
                                assert(g.contains(translate(x, c)) <==> cand@.contains(
                                    translate(x, c),
                                ));
                            }
                            assert(cells_match(cent@, g, 0, negate(c)));
                            assert(g.len() == sz + 1);
                            assert(shape_equiv(cent@, g));
                            lemma_shape_equiv_symmetric(cent@, g);
                            assert(shape_equiv(g, cent@));
                            // The candidate stays edge-connected and ends up
                            // centered.
                            assert(adjacent(base@[pi as int], p2@));
                            assert forall|x: (int, int)| #[trigger]
                                cand@.contains(x) <==> (base@.contains(x) || x == p2@) by {}
                            lemma_connected_grow(base@, cand@, base@[pi as int], p2@);
                            assert forall|q: (int, int)|
                                cent@.contains(q) <==> #[trigger] cand@.contains(
                                    translate(q, c),
                                ) by {
                                assert(cent@.contains(q) <==> cand@.contains(translate(q, c)));
                            }
                            lemma_connected_translated(cand@, cent@, c);
                            assert(connected(cent@));
                            lemma_minmax_translated(cand@, cent@, c);
                            assert(center_of(cent@) == (0int, 0int));
                        }
                        let dup = contains_equivalent(&shapes, &cent);
                        if !dup {
                            let ghost pre = shapes@;
                            shapes.push(cent);
                            proof {
                                assert(shapes@ =~= pre.push(cent));
                                assert forall|i: int, j: int|
                                    #![trigger shapes@[i], shapes@[j]]
                                    0 <= i < j < shapes@.len() implies !shape_equiv(
                                    shapes@[i]@,
                                    shapes@[j]@,
                                ) by {
                                    if j < pre.len() {
                                        assert(shapes@[i] == pre[i]);
                                        assert(shapes@[j] == pre[j]);
                                    } else {
                                        assert(shapes@[i] == pre[i]);
                                        assert(shapes@[j] == cent);
                                        assert(!shape_equiv(pre[i]@, cent@));
                                    }
                                }
                                assert(list_wf(shapes@, sz + 1));
                            }
                        }
                        proof {
                            // The growth just handled is now represented:
                            // by the freshly pushed shape, or by the member
                            // that made it a duplicate.
                            if dup {
                                let j0 = choose|j: int|
                                    0 <= j < shapes0.len() && shape_equiv(
                                        (#[trigger] shapes0[j])@,
                                        cent@,
                                    );
                                lemma_shape_equiv_symmetric(shapes0[j0]@, cent@);
                                lemma_shape_equiv_transitive(g, cent@, shapes0[j0]@);
                                assert(shapes@[j0] == shapes0[j0]);
                                assert(0 <= j0 < shapes@.len() && shape_equiv(g, shapes@[j0]@));
                            } else {
                                assert(shapes@[shapes0.len() as int] == cent);
                                assert(shape_equiv(g, cent@));
                            }
                            assert forall|s2: int, p2i: int, d2: int|
                                #![trigger translate(oldlist[s2]@[p2i], unit_dir(d2))]
                                0 <= s2 < oldlist.len() && 0 <= p2i < oldlist[s2]@.len() && 0 <= d2
                                < 4 && (s2 < si as int || (s2 == si as int && (p2i < pi as int || (
                                p2i == pi as int && d2 < d as int + 1)))) && !oldlist[s2]@.contains(
                                translate(oldlist[s2]@[p2i], unit_dir(d2)),
                            ) implies exists|j: int|
                                0 <= j < shapes@.len() && shape_equiv(
                                    grown(oldlist[s2]@, p2i, d2),
                                    shapes@[j]@,
                                ) by {
                                if s2 == si as int && p2i == pi as int && d2 == d as int {
                                } else {
                                    let j1 = choose|j: int|
                                        0 <= j < shapes0.len() && shape_equiv(
                                            grown(oldlist[s2]@, p2i, d2),
                                            shapes0[j]@,
                                        );
                                    assert(shapes@[j1] == shapes0[j1]);
                                }
                            }
                            assert(covered(oldlist, shapes@, si as int, pi as int, d as int + 1));
                        }
                    } else {
                        proof {
                            // This neighbor is already part of the shape, so
                            // there is nothing to grow here.
                            assert(oldlist[si as int]@.contains(
                                translate(oldlist[si as int]@[pi as int], unit_dir(d as int)),
                            ));
                            assert forall|s2: int, p2i: int, d2: int|
                                #![trigger translate(oldlist[s2]@[p2i], unit_dir(d2))]
                                0 <= s2 < oldlist.len() && 0 <= p2i < oldlist[s2]@.len() && 0 <= d2
                                < 4 && (s2 < si as int || (s2 == si as int && (p2i < pi as int || (
                                p2i == pi as int && d2 < d as int + 1)))) && !oldlist[s2]@.contains(
                                translate(oldlist[s2]@[p2i], unit_dir(d2)),
                            ) implies exists|j: int|
                                0 <= j < shapes@.len() && shape_equiv(
                                    grown(oldlist[s2]@, p2i, d2),
                                    shapes@[j]@,
                                ) by {
                                if s2 == si as int && p2i == pi as int && d2 == d as int {
                                    assert(false);
                                } else {
                                    let j1 = choose|j: int|
                                        0 <= j < shapes@.len() && shape_equiv(
                                            grown(oldlist[s2]@, p2i, d2),
                                            shapes@[j]@,
                                        );
                                    assert(0 <= j1 < shapes@.len() && shape_equiv(
                                        grown(oldlist[s2]@, p2i, d2),
                                        shapes@[j1]@,
                                    ));
                                }
                            }
                            assert(covered(oldlist, shapes@, si as int, pi as int, d as int + 1));
                        }
                    }
                    d += 1;
                }
                proof {
                    assert forall|s2: int, p2i: int, d2: int|
                        #![trigger translate(oldlist[s2]@[p2i], unit_dir(d2))]
                        0 <= s2 < oldlist.len() && 0 <= p2i < oldlist[s2]@.len() && 0 <= d2 < 4 && (
                        s2 < si as int || (s2 == si as int && (p2i < pi as int + 1 || (p2i
                            == pi as int + 1 && d2 < 0)))) && !oldlist[s2]@.contains(
                            translate(oldlist[s2]@[p2i], unit_dir(d2)),
                        ) implies exists|j: int|
                        0 <= j < shapes@.len() && shape_equiv(
                            grown(oldlist[s2]@, p2i, d2),
                            shapes@[j]@,
                        ) by {
                        let j1 = choose|j: int|
                            0 <= j < shapes@.len() && shape_equiv(
                                grown(oldlist[s2]@, p2i, d2),
                                shapes@[j]@,
                            );
                        assert(0 <= j1 < shapes@.len() && shape_equiv(
                            grown(oldlist[s2]@, p2i, d2),
                            shapes@[j1]@,
                        ));
                    }
                    assert(covered(oldlist, shapes@, si as int, pi as int + 1, 0));
                }
                pi += 1;
            }
            proof {
                assert forall|s2: int, p2i: int, d2: int|
                    #![trigger translate(oldlist[s2]@[p2i], unit_dir(d2))]
                    0 <= s2 < oldlist.len() && 0 <= p2i < oldlist[s2]@.len() && 0 <= d2 < 4 && (s2
                    < si as int + 1 || (s2 == si as int + 1 && (p2i < 0 || (p2i == 0 && d2 < 0))))
                    && !oldlist[s2]@.contains(translate(oldlist[s2]@[p2i], unit_dir(d2)))
                    implies exists|j: int|
                    0 <= j < shapes@.len() && shape_equiv(
                        grown(oldlist[s2]@, p2i, d2),
                        shapes@[j]@,
                    ) by {
                    let j1 = choose|j: int|
                        0 <= j < shapes@.len() && shape_equiv(
                            grown(oldlist[s2]@, p2i, d2),
                            shapes@[j]@,
                        );
                    assert(0 <= j1 < shapes@.len() && shape_equiv(
                        grown(oldlist[s2]@, p2i, d2),
                        shapes@[j1]@,
                    ));
                }
                assert(covered(oldlist, shapes@, si as int + 1, 0, 0));
            }
            si += 1;
        }
        proof {
            assert forall|s2: int, p2i: int, d2: int|
                #![trigger translate(oldlist[s2]@[p2i], unit_dir(d2))]
                0 <= s2 < oldlist.len() && 0 <= p2i < oldlist[s2]@.len() && 0 <= d2 < 4
                && !oldlist[s2]@.contains(translate(oldlist[s2]@[p2i], unit_dir(d2)))
                implies exists|j: int|
                0 <= j < shapes@.len() && shape_equiv(
                    grown(oldlist[s2]@, p2i, d2),
                    shapes@[j]@,
                ) by {
                let j1 = choose|j: int|
                    0 <= j < shapes@.len() && shape_equiv(
                        grown(oldlist[s2]@, p2i, d2),
                        shapes@[j]@,
                    );
                assert(0 <= j1 < shapes@.len() && shape_equiv(
                    grown(oldlist[s2]@, p2i, d2),
                    shapes@[j1]@,
                ));
            }
            assert(gen_complete(oldlist, shapes@));
        }
        let ghost old_lists = self.shapess@;
        self.size = self.size + 1;
        self.shapess.push(shapes);
        proof {
            assert(self.shapess@ =~= old_lists.push(shapes));
            assert forall|k: int| 1 <= k <= sz + 1 implies list_wf(#[trigger] self.list_at(k), k) by {
                if k <= sz {
                    assert(self.list_at(k) == old(self).list_at(k));
                    assert(list_wf(old(self).list_at(k), k));
                } else {
                    assert(self.list_at(k) == shapes@);
                }
            }
            assert(self.list_at(1) == old(self).list_at(1));
            assert forall|k: int| 1 <= k <= sz implies self.list_at(k) == old(self).list_at(
                k,
            ) by {}
            assert forall|k: int| 1 <= k < sz + 1 implies gen_complete(
                #[trigger] self.list_at(k),
                self.list_at(k + 1),
            ) by {
                if k < sz {
                    assert(self.list_at(k) == old(self).list_at(k));
                    assert(self.list_at(k + 1) == old(self).list_at(k + 1));
                    assert(gen_complete(old(self).list_at(k), old(self).list_at(k + 1)));
                } else {
                    assert(self.list_at(sz) == oldlist);
                    assert(self.list_at(sz + 1) == shapes@);
                }
            }
        }
    }
}

/// Whether some member of `list` is equivalent to `s`.
fn contains_equivalent(list: &Vec<Shape>, s: &Shape) -> (r: bool)
    requires
        forall|i: int| 0 <= i < list@.len() ==> (#[trigger] list@[i]).wf(),
        s.wf(),
        cells_bounded(s@, i32::MAX as int),
    ensures
        r == exists|i: int| 0 <= i < list@.len() && shape_equiv((#[trigger] list@[i])@, s@),
{
    let n = list.len();
    let mut i: usize = 0;
    while i < n
        invariant
            0 <= i <= n,
            n == list@.len(),
            forall|i2: int| 0 <= i2 < list@.len() ==> (#[trigger] list@[i2]).wf(),
            s.wf(),
            cells_bounded(s@, i32::MAX as int),
            forall|j: int| 0 <= j < i ==> !shape_equiv((#[trigger] list@[j])@, s@),
        decreases n - i,
    {
        if list[i].equivalent(s) {
            return true;
        }
        i += 1;
    }
    false
}

} // verus!
