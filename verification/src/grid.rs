//! The bounded playing field: cell storage, placement, collision, wall-kick
//! correction and line detection/compaction.

use crate::algebra::{
    angle_index, lemma_angle_index_range, lemma_inv_angle_involutive, lemma_rot_inverse,
    lemma_rot_inverse2, rot, translate, UVector, Vector,
};
use crate::block::Block;
use crate::figure::Figure;
use crate::shape::{cells_bounded, lemma_minmax_same_cells, max_x, min_x};
use vstd::math::abs;
use vstd::prelude::*;

verus! {

/// Whether every cell of one stored row is empty.
pub open spec fn row_is_empty(row: Seq<Option<Block>>) -> bool {
    forall|x: int| 0 <= x < row.len() ==> (#[trigger] row[x]) is None
}

/// The non-empty rows of a stored row sequence, in order.
pub open spec fn compact_rows(rs: Seq<Seq<Option<Block>>>) -> Seq<Seq<Option<Block>>>
    decreases rs.len(),
{
    if rs.len() == 0 {
        Seq::empty()
    } else if row_is_empty(rs.last()) {
        compact_rows(rs.drop_last())
    } else {
        compact_rows(rs.drop_last()).push(rs.last())
    }
}

/// The rotated images of a shape's cells, in the shape's own cell order.
pub open spec fn rot_cells(cells: Seq<(int, int)>, k: int) -> Seq<(int, int)> {
    cells.map_values(|q: (int, int)| rot(q, k))
}

/// The placed position of a rotated cell `rq`: the figure position plus the
/// cell plus the horizontal offset.
pub open spec fn placed_at(rq: (int, int), px: int, py: int, off: int) -> (int, int) {
    (px + rq.0 + off, py + rq.1)
}

/// Twice the horizontal coordinate of the piece's centroid: twice the
/// figure position plus the two horizontal bounding-box corners (doubling
/// avoids the half-cell fraction of the bounding-box center).
pub open spec fn c2x_of(rcells: Seq<(int, int)>, px: int) -> int {
    2 * px + min_x(rcells) + max_x(rcells)
}

/// Returns a copy of a stored row.
fn dup_row(row: &Vec<Option<Block>>) -> (r: Vec<Option<Block>>)
    ensures
        r@ == row@,
{
    let n = row.len();
    let mut out: Vec<Option<Block>> = Vec::new();
    let mut i: usize = 0;
    while i < n
        invariant
            0 <= i <= n,
            n == row@.len(),
            out@.len() == i,
            forall|j: int| 0 <= j < i ==> out@[j] == row@[j],
        decreases n - i,
    {
        out.push(row[i]);
        i += 1;
    }
    proof {
        assert(out@ =~= row@);
    }
    out
}

/// Returns a fresh all-empty row of the given width.
fn empty_row_vec(w: usize) -> (r: Vec<Option<Block>>)
    ensures
        r@.len() == w,
        row_is_empty(r@),
{
    let mut out: Vec<Option<Block>> = Vec::new();
    let mut i: usize = 0;
    while i < w
        invariant
            0 <= i <= w,
            out@.len() == i,
            forall|j: int| 0 <= j < i ==> (#[trigger] out@[j]) is None,
        decreases w - i,
    {
        out.push(None);
        i += 1;
    }
    out
}

/// A fixed `width x height` field of optional cells, created with its bounds
/// for its lifetime and never resized.
#[derive(Debug)]
pub struct Grid {
    bounds: UVector,
    rows: Vec<Vec<Option<Block>>>,
}

impl Grid {
    /// The number of columns.
    pub closed spec fn spec_cols(&self) -> int {
        self.bounds.0 as int
    }

    /// The number of rows.
    pub closed spec fn spec_rows(&self) -> int {
        self.bounds.1 as int
    }

    /// The stored rows, outermost first, as mathematical sequences.
    pub closed spec fn rows_view(&self) -> Seq<Seq<Option<Block>>> {
        self.rows@.map_values(|r: Vec<Option<Block>>| r@)
    }

    /// The cell in column `x` of row `y`.
    pub open spec fn cell(&self, x: int, y: int) -> Option<Block>
        recommends
            self.in_bounds((x, y)),
    {
        self.rows_view()[y][x]
    }

    /// The storage matches the fixed bounds, and both bounds fit in 32 bits.
    pub open spec fn wf(&self) -> bool {
        &&& self.spec_cols() <= 0x7fff_ffff
        &&& self.spec_rows() <= 0x7fff_ffff
        &&& self.rows_view().len() == self.spec_rows()
        &&& (forall|y: int|
            0 <= y < self.rows_view().len() ==> (#[trigger] self.rows_view()[y]).len()
                == self.spec_cols())
    }

    /// A position lies inside the field.
    pub open spec fn in_bounds(&self, p: (int, int)) -> bool {
        0 <= p.0 < self.spec_cols() && 0 <= p.1 < self.spec_rows()
    }

    /// An in-bounds position holds a block.
    pub open spec fn occupied(&self, p: (int, int)) -> bool {
        self.cell(p.0, p.1) is Some
    }

    /// A position is inside the field and holds no block.
    pub open spec fn available(&self, p: (int, int)) -> bool {
        self.in_bounds(p) && !self.occupied(p)
    }

    /// Every cell of row `y` is occupied.
    pub open spec fn row_full(&self, y: int) -> bool {
        forall|x: int| 0 <= x < self.spec_cols() ==> #[trigger] self.occupied((x, y))
    }

    /// No cell of row `y` is occupied.
    pub open spec fn row_empty(&self, y: int) -> bool {
        forall|x: int| 0 <= x < self.spec_cols() ==> !(#[trigger] self.occupied((x, y)))
    }

    /// Creates an empty grid with the given bounds (columns, rows).
    pub fn new(bounds: UVector) -> (r: Grid)
        requires
            bounds.0 <= 0x7fff_ffff,
            bounds.1 <= 0x7fff_ffff,
        ensures
            r.wf(),
            r.spec_cols() == bounds.0,
            r.spec_rows() == bounds.1,
            forall|x: int, y: int|
                0 <= x < bounds.0 && 0 <= y < bounds.1 ==> !(#[trigger] r.occupied((x, y))),
    {
        let w = bounds.0;
        let h = bounds.1;
        let mut rows: Vec<Vec<Option<Block>>> = Vec::new();
        let mut y: usize = 0;
        while y < h
            invariant
                0 <= y <= h,
                rows@.len() == y,
                forall|j: int| 0 <= j < y ==> (#[trigger] rows@[j])@.len() == w,
                forall|j: int, x: int|
                    0 <= j < y && 0 <= x < w ==> (#[trigger] rows@[j]@[x]) is None,
            decreases h - y,
        {
            let mut row: Vec<Option<Block>> = Vec::new();
            let mut x: usize = 0;
            while x < w
                invariant
                    0 <= x <= w,
                    row@.len() == x,
                    forall|i: int| 0 <= i < x ==> (#[trigger] row@[i]) is None,
                decreases w - x,
            {
                row.push(None);
                x += 1;
            }
            rows.push(row);
            y += 1;
        }
        let r = Grid { bounds, rows };
        proof {
            assert forall|j: int| 0 <= j < r.rows_view().len() implies (#[trigger] r.rows_view()[
            j]).len() == w by {
                assert(r.rows_view()[j] == r.rows@[j]@);
            }
            assert forall|x: int, y2: int| 0 <= x < bounds.0 && 0 <= y2 < bounds.1 implies !(
            #[trigger] r.occupied((x, y2))) by {
                assert(r.rows_view()[y2] == r.rows@[y2]@);
            }
        }
        r
    }

    /// Returns the grid's bounds (columns, rows).
    pub fn bounds(&self) -> (r: UVector)
        ensures
            r.0 == self.spec_cols(),
            r.1 == self.spec_rows(),
    {
        self.bounds
    }

    /// Returns the number of columns.
    pub fn n_cols(&self) -> (r: usize)
        ensures
            r == self.spec_cols(),
    {
        self.bounds.0
    }

    /// Returns the number of rows.
    pub fn n_rows(&self) -> (r: usize)
        ensures
            r == self.spec_rows(),
    {
        self.bounds.1
    }

    /// Puts a block at an in-bounds position and returns the previous
    /// occupant, if any.
    pub fn put(&mut self, pos: UVector, b: Block) -> (r: Option<Block>)
        requires
            old(self).wf(),
            pos.0 < old(self).spec_cols(),
            pos.1 < old(self).spec_rows(),
        ensures
            final(self).wf(),
            final(self).spec_cols() == old(self).spec_cols(),
            final(self).spec_rows() == old(self).spec_rows(),
            r == old(self).cell(pos.0 as int, pos.1 as int),
            final(self).cell(pos.0 as int, pos.1 as int) == Some(b),
            forall|x: int, y: int|
                old(self).in_bounds((x, y)) && !(x == pos.0 && y == pos.1)
                    ==> final(self).cell(x, y) == old(self).cell(x, y),
    {
        let old_cell = self.rows[pos.1][pos.0];
        let row = &mut self.rows[pos.1];
        row.set(pos.0, Some(b));
        proof {
            let ov = old(self).rows_view();
            let nv = self.rows_view();
            assert(nv =~= ov.update(pos.1 as int, ov[pos.1 as int].update(pos.0 as int, Some(b))));
            assert forall|y: int| 0 <= y < nv.len() implies (#[trigger] nv[y]).len()
                == self.spec_cols() by {
                if y != pos.1 as int {
                    assert(nv[y] == ov[y]);
                }
            }
        }
        old_cell
    }

    /// Takes the block out of an in-bounds position, leaving it empty, and
    /// returns it, if there was one.
    pub fn take(&mut self, pos: UVector) -> (r: Option<Block>)
        requires
            old(self).wf(),
            pos.0 < old(self).spec_cols(),
            pos.1 < old(self).spec_rows(),
        ensures
            final(self).wf(),
            final(self).spec_cols() == old(self).spec_cols(),
            final(self).spec_rows() == old(self).spec_rows(),
            r == old(self).cell(pos.0 as int, pos.1 as int),
            final(self).cell(pos.0 as int, pos.1 as int) is None,
            forall|x: int, y: int|
                old(self).in_bounds((x, y)) && !(x == pos.0 && y == pos.1)
                    ==> final(self).cell(x, y) == old(self).cell(x, y),
    {
        let old_cell = self.rows[pos.1][pos.0];
        let row = &mut self.rows[pos.1];
        row.set(pos.0, None);
        proof {
            let ov = old(self).rows_view();
            let nv = self.rows_view();
            assert(nv =~= ov.update(pos.1 as int, ov[pos.1 as int].update(pos.0 as int, None)));
            assert forall|y: int| 0 <= y < nv.len() implies (#[trigger] nv[y]).len()
                == self.spec_cols() by {
                if y != pos.1 as int {
                    assert(nv[y] == ov[y]);
                }
            }
        }
        old_cell
    }

    /// Whether a position lies inside the field.
    pub fn pos_in_bounds(&self, pos: Vector) -> (r: bool)
        requires
            self.wf(),
        ensures
            r == self.in_bounds(pos@),
    {
        0 <= pos.0 && (pos.0 as i64) < (self.bounds.0 as i64) && 0 <= pos.1 && (pos.1 as i64) < (
        self.bounds.1 as i64)
    }

    /// Whether an in-bounds position holds a block.
    pub fn pos_overlaps(&self, pos: Vector) -> (r: bool)
        requires
            self.wf(),
            self.in_bounds(pos@),
        ensures
            r == self.occupied(pos@),
    {
        let x = pos.0 as usize;
        let y = pos.1 as usize;
        proof {
            assert(self.rows_view()[y as int] == self.rows@[y as int]@);
        }
        self.rows[y][x].is_some()
    }

    /// Whether a position lies inside the field and holds no block.
    pub fn pos_available(&self, pos: Vector) -> (r: bool)
        requires
            self.wf(),
        ensures
            r == self.available(pos@),
    {
        self.pos_in_bounds(pos) && !self.pos_overlaps(pos)
    }

    /// Availability of a position given as wide coordinates (used where
    /// intermediate sums may leave the 32-bit range).
    fn avail_wide(&self, x: i64, y: i64) -> (r: bool)
        requires
            self.wf(),
        ensures
            r == self.available((x as int, y as int)),
    {
        if 0 <= x && x < self.bounds.0 as i64 && 0 <= y && y < self.bounds.1 as i64 {
            let xu = x as usize;
            let yu = y as usize;
            proof {
                assert(self.rows_view()[y as int] == self.rows@[y as int]@);
            }
            self.rows[yu][xu].is_none()
        } else {
            false
        }
    }

    /// Whether every one of the `width` cells of row `i` is occupied.
    pub fn full_row(&self, i: usize) -> (r: bool)
        requires
            self.wf(),
            i < self.spec_rows(),
        ensures
            r == self.row_full(i as int),
    {
        let w = self.bounds.0;
        let mut x: usize = 0;
        while x < w
            invariant
                0 <= x <= w,
                self.wf(),
                i < self.spec_rows(),
                w == self.spec_cols(),
                forall|x2: int| 0 <= x2 < x ==> #[trigger] self.occupied((x2, i as int)),
            decreases w - x,
        {
            proof {
                assert(self.rows_view()[i as int] == self.rows@[i as int]@);
            }
            if self.rows[i][x].is_none() {
                proof {
                    assert(!self.occupied((x as int, i as int)));
                }
                return false;
            }
            x += 1;
        }
        true
    }

    /// The raw horizontal correction pushing column `x` back inside the
    /// field (0 when `x` is already inside).
    pub open spec fn raw_correction(&self, x: int) -> int {
        if x < 0 {
            -x
        } else if x >= self.spec_cols() {
            self.spec_cols() - 1 - x
        } else {
            0
        }
    }

    /// The first non-overlapping column reached from `x` walking in
    /// direction `s` (1 or -1), or `None` if the walk leaves the field
    /// first.
    pub open spec fn nudge(&self, x: int, y: int, s: int) -> Option<int>
        recommends
            self.in_bounds((x, y)),
            s == 1 || s == -1,
        decreases (if s >= 0 {
            self.spec_cols() - x
        } else {
            x + 1
        }) when self.in_bounds((x, y)) && (s == 1 || s == -1)
    {
        if !self.occupied((x, y)) {
            Some(x)
        } else if self.in_bounds((x + s, y)) {
            self.nudge(x + s, y, s)
        } else {
            None
        }
    }

    /// The per-cell wall-kick correction for the placed position `pos`,
    /// biased by the doubled piece centroid `c2x`: the raw bounds
    /// correction; then, while the corrected position overlaps, a walk by
    /// single columns toward the centroid's side, failing if it leaves the
    /// field. When the centroid is exactly at the cell's column, the raw
    /// correction is returned without the overlap walk.
    pub open spec fn cell_correction(&self, pos: (int, int), c2x: int) -> Option<(int, int)> {
        if c2x == 2 * pos.0 {
            Some((self.raw_correction(pos.0), 0))
        } else {
            match self.nudge(
                pos.0 + self.raw_correction(pos.0),
                pos.1,
                if c2x > 2 * pos.0 {
                    1
                } else {
                    -1
                },
            ) {
                Some(x1) => Some((x1 - pos.0, 0)),
                None => None,
            }
        }
    }

    /// Computes the wall-kick correction for one placed cell at `pos`,
    /// against the doubled piece centroid `center2x`.
    pub fn pos_correction(&self, pos: Vector, center2x: i64) -> (r: Option<Vector>)
        requires
            self.wf(),
            self.spec_cols() >= 1,
            0 <= pos@.1 < self.spec_rows(),
            self.spec_cols() - 1 - i32::MAX <= pos@.0 <= i32::MAX,
        ensures
            match r {
                Some(c) => self.cell_correction(pos@, center2x as int) == Some(c@),
                None => self.cell_correction(pos@, center2x as int) is None,
            },
    {
        let w = self.bounds.0 as i64;
        let px = pos.0 as i64;
        let py = pos.1 as i64;
        let mut corr: i64 = 0;
        if px < 0 {
            corr = -px;
        } else if px >= w {
            corr = w - 1 - px;
        }
        proof {
            assert(corr == self.raw_correction(pos@.0));
        }
        if center2x == 2 * px {
            return Some(Vector(corr as i32, 0));
        }
        let s: i64 = if center2x > 2 * px {
            1
        } else {
            -1
        };
        let mut x = px + corr;
        let ghost x0 = x as int;
        while !self.avail_wide(x, py)
            invariant
                self.wf(),
                self.spec_cols() >= 1,
                w == self.spec_cols(),
                px == pos@.0,
                py == pos@.1,
                0 <= py < self.spec_rows(),
                self.spec_cols() - 1 - i32::MAX <= px <= i32::MAX,
                s == 1 || s == -1,
                center2x != 2 * px,
                (center2x as int > 2 * pos@.0) == (s == 1),
                0 <= x < w,
                self.nudge(x as int, py as int, s as int) == self.nudge(x0, py as int, s as int),
                x0 == pos@.0 + self.raw_correction(pos@.0),
            decreases (if s >= 0 {
                w - x
            } else {
                x + 1
            }),
        {
            proof {
                assert(self.occupied((x as int, py as int)));
            }
            let xn = x + s;
            if xn < 0 || xn >= w {
                proof {
                    assert(!self.in_bounds((x as int + s as int, py as int)));
                    assert(self.nudge(x as int, py as int, s as int) is None);
                    assert(self.cell_correction(pos@, center2x as int) is None);
                }
                return None;
            }
            proof {
                assert(self.in_bounds((x as int + s as int, py as int)));
                assert(self.nudge(x as int, py as int, s as int) == self.nudge(
                    x as int + s as int,
                    py as int,
                    s as int,
                ));
            }
            x = xn;
        }
        proof {
            assert(!self.occupied((x as int, py as int)));
            assert(self.nudge(x as int, py as int, s as int) == Some(x as int));
            assert(self.cell_correction(pos@, center2x as int) == Some((x as int - pos@.0, 0int)));
        }
        Some(Vector((x - px) as i32, 0))
    }

    /// Every placed cell has a per-cell correction.
    pub open spec fn cells_resolve(&self, rcells: Seq<(int, int)>, px: int, py: int, off: int) -> bool {
        forall|rq: (int, int)| #[trigger]
            rcells.contains(rq) ==> self.cell_correction(
                placed_at(rq, px, py, off),
                c2x_of(rcells, px),
            ) is Some
    }

    /// The horizontal part of one placed cell's correction (0 where there
    /// is none).
    pub open spec fn corr_x_at(
        &self,
        rq: (int, int),
        rcells: Seq<(int, int)>,
        px: int,
        py: int,
        off: int,
    ) -> int {
        match self.cell_correction(placed_at(rq, px, py, off), c2x_of(rcells, px)) {
            Some(c) => c.0,
            None => 0,
        }
    }

    /// No two placed cells demand corrections of opposite sign.
    pub open spec fn corrections_agree(&self, rcells: Seq<(int, int)>, px: int, py: int, off: int) -> bool {
        forall|q1: (int, int), q2: (int, int)|
            #![trigger rcells.contains(q1), rcells.contains(q2)]
            rcells.contains(q1) && rcells.contains(q2) ==> !(self.corr_x_at(q1, rcells, px, py, off)
                > 0 && self.corr_x_at(q2, rcells, px, py, off) < 0)
    }

    /// `c` is the largest-magnitude per-cell correction (0 with no cells).
    pub open spec fn correction_extremal(
        &self,
        rcells: Seq<(int, int)>,
        px: int,
        py: int,
        off: int,
        c: int,
    ) -> bool {
        &&& (forall|rq: (int, int)| #[trigger]
            rcells.contains(rq) ==> abs(self.corr_x_at(rq, rcells, px, py, off)) <= abs(c))
        &&& (c == 0 || exists|rq: (int, int)| #[trigger]
            rcells.contains(rq) && self.corr_x_at(rq, rcells, px, py, off) == c)
    }

    /// The whole-piece shift `c` is the one the wall-kick accepts: every
    /// placed cell resolves, no two cells pull opposite ways, `c` is the
    /// largest-magnitude per-cell correction, and every placed cell is
    /// available after shifting by `c`.
    pub open spec fn correction_ok(
        &self,
        rcells: Seq<(int, int)>,
        px: int,
        py: int,
        off: int,
        c: int,
    ) -> bool {
        &&& self.cells_resolve(rcells, px, py, off)
        &&& self.corrections_agree(rcells, px, py, off)
        &&& self.correction_extremal(rcells, px, py, off, c)
        &&& (forall|rq: (int, int)| #[trigger]
            rcells.contains(rq) ==> self.available(translate(placed_at(rq, px, py, off), (c, 0))))
    }

    /// Every cell of `cells` rotated by `k` quarter turns, placed at `pos`
    /// and shifted by `off`, lands on an available grid position.
    pub open spec fn fits(&self, cells: Seq<(int, int)>, pos: (int, int), off: (int, int), k: int) -> bool {
        forall|q: (int, int)| #[trigger]
            cells.contains(q) ==> self.available(translate(translate(rot(q, k), pos), off))
    }

    /// Whether the figure's piece, rotated by `angle` quarter turns and
    /// shifted by `offset`, lands entirely on available positions: false
    /// exactly when some rotated cell falls outside the field or over an
    /// occupied cell.
    pub fn fits_in(&self, fig: &Figure, offset: Vector, angle: i32) -> (r: bool)
        requires
            self.wf(),
            fig.spec_piece().spec_shape().wf(),
            cells_bounded(fig.spec_piece().spec_shape()@, i32::MAX as int),
        ensures
            r == self.fits(
                fig.spec_piece().spec_shape()@,
                fig.position@,
                offset@,
                angle_index(angle as int),
            ),
    {
        let ghost cells = fig.spec_piece().spec_shape()@;
        let ghost k = angle_index(angle as int);
        let ghost kinv = angle_index(4 - k);
        proof {
            lemma_angle_index_range(angle as int);
            lemma_inv_angle_involutive(k);
        }
        let rot_shape = fig.piece().shape().rotated(angle);
        let n = rot_shape.size();
        let px = fig.position.0;
        let py = fig.position.1;
        let mut i: usize = 0;
        while i < n
            invariant
                0 <= i <= n,
                self.wf(),
                n == rot_shape@.len(),
                0 <= k < 4,
                k == angle_index(angle as int),
                kinv == angle_index(4 - k),
                cells == fig.spec_piece().spec_shape()@,
                px == fig.position.0,
                py == fig.position.1,
                forall|q: (int, int)| #[trigger]
                    rot_shape@.contains(q) <==> cells.contains(rot(q, kinv)),
                forall|j: int|
                    0 <= j < i ==> self.available(
                        translate(translate(#[trigger] rot_shape@[j], (px as int, py as int)), offset@),
                    ),
            decreases n - i,
        {
            let p = rot_shape.positions()[i];
            let x = px as i64 + p.0 as i64 + offset.0 as i64;
            let y = py as i64 + p.1 as i64 + offset.1 as i64;
            if !self.avail_wide(x, y) {
                proof {
                    assert(rot_shape@.contains(rot_shape@[i as int]));
                    let q0 = rot(rot_shape@[i as int], kinv);
                    assert(cells.contains(q0));
                    lemma_rot_inverse2(rot_shape@[i as int], k);
                    assert(rot(q0, k) == rot_shape@[i as int]);
                    assert(translate(translate(rot(q0, k), fig.position@), offset@) == (
                    x as int,
                    y as int,
                    ));
                    assert(!self.available(translate(translate(rot(q0, k), fig.position@), offset@)));
                    assert(!self.fits(cells, fig.position@, offset@, k));
                }
                return false;
            }
            i += 1;
        }
        proof {
            assert forall|q: (int, int)| #[trigger] cells.contains(q) implies self.available(
                translate(translate(rot(q, k), (px as int, py as int)), offset@),
            ) by {
                lemma_rot_inverse(q, k);
                assert(rot_shape@.contains(rot(q, k)) <==> cells.contains(rot(rot(q, k), kinv)));
                assert(rot_shape@.contains(rot(q, k)));
                let j = choose|j: int| 0 <= j < rot_shape@.len() && rot_shape@[j] == rot(q, k);
                assert(self.available(
                    translate(translate(rot_shape@[j], (px as int, py as int)), offset@),
                ));
            }
        }
        true
    }

    /// Computes the minimal horizontal shift that makes an otherwise
    /// out-of-bounds or overlapping placement of the figure (rotated by
    /// `angle`, moved by `x_offset`) legal, biased toward the piece's
    /// centroid: the largest-magnitude per-cell correction, provided no two
    /// cells pull in opposite directions and every cell is available after
    /// the shift; `None` otherwise.
    pub fn figure_pos_correction(&self, fig: &Figure, x_offset: i32, angle: i32) -> (r: Option<
        Vector,
    >)
        requires
            self.wf(),
            self.spec_cols() >= 1,
            fig.spec_piece().spec_shape().wf(),
            cells_bounded(fig.spec_piece().spec_shape()@, i32::MAX as int),
            forall|rq: (int, int)| #[trigger]
                rot_cells(fig.spec_piece().spec_shape()@, angle_index(angle as int)).contains(rq)
                    ==> 0 <= fig.position@.1 + rq.1 < self.spec_rows(),
            forall|rq: (int, int)| #[trigger]
                rot_cells(fig.spec_piece().spec_shape()@, angle_index(angle as int)).contains(rq)
                    ==> self.spec_cols() - 1 - i32::MAX <= fig.position@.0 + rq.0 + x_offset
                    <= i32::MAX,
        ensures
            match r {
                Some(c) => c@.1 == 0 && self.correction_ok(
                    rot_cells(fig.spec_piece().spec_shape()@, angle_index(angle as int)),
                    fig.position@.0,
                    fig.position@.1,
                    x_offset as int,
                    c@.0,
                ),
                None => forall|c: int|
                    !self.correction_ok(
                        rot_cells(fig.spec_piece().spec_shape()@, angle_index(angle as int)),
                        fig.position@.0,
                        fig.position@.1,
                        x_offset as int,
                        c,
                    ),
            },
    {
        let ghost cells = fig.spec_piece().spec_shape()@;
        let ghost k = angle_index(angle as int);
        let ghost kinv = angle_index(4 - k);
        let ghost rc = rot_cells(cells, k);
        let ghost gpx = fig.position@.0;
        let ghost gpy = fig.position@.1;
        let ghost goff = x_offset as int;
        proof {
            lemma_angle_index_range(angle as int);
            lemma_inv_angle_involutive(k);
        }
        let rot_shape = fig.piece().shape().rotated(angle);
        proof {
            assert forall|q: (int, int)| rot_shape@.contains(q) <==> #[trigger] rc.contains(
                q,
            ) by {
                if rot_shape@.contains(q) {
                    assert(cells.contains(rot(q, kinv)));
                    let i = choose|i: int| 0 <= i < cells.len() && cells[i] == rot(q, kinv);
                    lemma_rot_inverse2(q, k);
                    assert(rc[i] == rot(cells[i], k));
                    assert(rc[i] == q);
                }
                if rc.contains(q) {
                    let i = choose|i: int| 0 <= i < rc.len() && rc[i] == q;
                    assert(rc[i] == rot(cells[i], k));
                    assert(cells.contains(cells[i]));
                    lemma_rot_inverse(cells[i], k);
                    assert(rot(q, kinv) == cells[i]);
                    assert(cells.contains(rot(q, kinv)));
                    assert(rot_shape@.contains(q));
                }
            }
            lemma_minmax_same_cells(rot_shape@, rc);
        }
        let n = rot_shape.size();
        let bb = rot_shape.bounds();
        let c2x: i64 = 2 * (fig.position.0 as i64) + bb.0.0 as i64 + bb.1.0 as i64;
        proof {
            assert(c2x as int == c2x_of(rc, gpx));
        }
        let mut corr: i64 = 0;
        let mut i: usize = 0;
        while i < n
            invariant
                0 <= i <= n,
                self.wf(),
                self.spec_cols() >= 1,
                n == rot_shape@.len(),
                cells == fig.spec_piece().spec_shape()@,
                k == angle_index(angle as int),
                0 <= k < 4,
                kinv == angle_index(4 - k),
                rc == rot_cells(cells, k),
                gpx == fig.position@.0,
                gpy == fig.position@.1,
                goff == x_offset as int,
                forall|q: (int, int)| rot_shape@.contains(q) <==> #[trigger] rc.contains(q),
                forall|rq: (int, int)| #[trigger]
                    rc.contains(rq) ==> 0 <= gpy + rq.1 < self.spec_rows(),
                forall|rq: (int, int)| #[trigger]
                    rc.contains(rq) ==> self.spec_cols() - 1 - i32::MAX <= gpx + rq.0 + goff
                        <= i32::MAX,
                c2x as int == c2x_of(rc, gpx),
                -0x8000_0000 <= corr <= 0x7fff_ffff,
                forall|j: int|
                    0 <= j < i ==> self.cell_correction(
                        placed_at(#[trigger] rot_shape@[j], gpx, gpy, goff),
                        c2x_of(rc, gpx),
                    ) is Some,
                forall|j: int|
                    0 <= j < i ==> abs(
                        self.corr_x_at(#[trigger] rot_shape@[j], rc, gpx, gpy, goff),
                    ) <= abs(corr as int),
                corr == 0 || exists|j: int|
                    0 <= j < i && self.corr_x_at(#[trigger] rot_shape@[j], rc, gpx, gpy, goff)
                        == corr as int,
                forall|j1: int, j2: int|
                    #![trigger rot_shape@[j1], rot_shape@[j2]]
                    0 <= j1 < i && 0 <= j2 < i ==> !(self.corr_x_at(
                        rot_shape@[j1],
                        rc,
                        gpx,
                        gpy,
                        goff,
                    ) > 0 && self.corr_x_at(rot_shape@[j2], rc, gpx, gpy, goff) < 0),
            decreases n - i,
        {
            let p = rot_shape.positions()[i];
            proof {
                assert(rot_shape@.contains(rot_shape@[i as int]));
                assert(rc.contains(rot_shape@[i as int]));
            }
            let sx = fig.position.0 as i64 + p.0 as i64 + x_offset as i64;
            let sy = fig.position.1 as i64 + p.1 as i64;
            let pr = self.pos_correction(Vector(sx as i32, sy as i32), c2x);
            let ghost pp = placed_at(rot_shape@[i as int], gpx, gpy, goff);
            proof {
                assert(pp == (sx as int, sy as int));
            }
            match pr {
                None => {
                    proof {
                        assert(self.cell_correction(pp, c2x_of(rc, gpx)) is None);
                        assert forall|c: int| !self.correction_ok(rc, gpx, gpy, goff, c) by {
                            if self.correction_ok(rc, gpx, gpy, goff, c) {
                                assert(self.cell_correction(
                                    placed_at(rot_shape@[i as int], gpx, gpy, goff),
                                    c2x_of(rc, gpx),
                                ) is Some);
                            }
                        }
                    }
                    return None;
                },
                Some(cv) => {
                    let cx = cv.0;
                    proof {
                        assert(self.cell_correction(pp, c2x as int) == Some(cv@));
                        assert(self.corr_x_at(rot_shape@[i as int], rc, gpx, gpy, goff)
                            == cx as int);
                    }
                    if cx != 0 && ((corr > 0 && (cx as i64) < 0) || (corr < 0 && (cx as i64)
                        > 0)) {
                        proof {
                            let j0 = choose|j: int|
                                0 <= j < i && self.corr_x_at(
                                    #[trigger] rot_shape@[j],
                                    rc,
                                    gpx,
                                    gpy,
                                    goff,
                                ) == corr as int;
                            assert(rot_shape@.contains(rot_shape@[j0]));
                            assert(rc.contains(rot_shape@[j0]));
                            assert forall|c: int| !self.correction_ok(rc, gpx, gpy, goff, c) by {
                                if self.correction_ok(rc, gpx, gpy, goff, c) {
                                    if corr > 0 {
                                        assert(!(self.corr_x_at(rot_shape@[j0], rc, gpx, gpy, goff)
                                            > 0 && self.corr_x_at(
                                            rot_shape@[i as int],
                                            rc,
                                            gpx,
                                            gpy,
                                            goff,
                                        ) < 0));
                                    } else {
                                        assert(!(self.corr_x_at(
                                            rot_shape@[i as int],
                                            rc,
                                            gpx,
                                            gpy,
                                            goff,
                                        ) > 0 && self.corr_x_at(rot_shape@[j0], rc, gpx, gpy, goff)
                                            < 0));
                                    }
                                }
                            }
                        }
                        return None;
                    }
                    let ghost pre_corr = corr as int;
                    let a = if cx >= 0 {
                        cx as i64
                    } else {
                        -(cx as i64)
                    };
                    let ca = if corr >= 0 {
                        corr
                    } else {
                        -corr
                    };
                    if a > ca {
                        corr = cx as i64;
                    }
                    proof {
                        let cxi = cx as int;
                        assert(abs(cxi) == a as int);
                        assert(abs(pre_corr) == ca as int);
                        assert forall|j: int| 0 <= j < i + 1 implies abs(
                            self.corr_x_at(#[trigger] rot_shape@[j], rc, gpx, gpy, goff),
                        ) <= abs(corr as int) by {
                            if j < i {
                                assert(abs(self.corr_x_at(rot_shape@[j], rc, gpx, gpy, goff))
                                    <= abs(pre_corr));
                            }
                        }
                        if corr != 0 {
                            if a > ca {
                                assert(self.corr_x_at(rot_shape@[i as int], rc, gpx, gpy, goff)
                                    == corr as int);
                            } else {
                                let j0 = choose|j: int|
                                    0 <= j < i && self.corr_x_at(
                                        #[trigger] rot_shape@[j],
                                        rc,
                                        gpx,
                                        gpy,
                                        goff,
                                    ) == corr as int;
                                assert(0 <= j0 < i + 1 && self.corr_x_at(
                                    rot_shape@[j0],
                                    rc,
                                    gpx,
                                    gpy,
                                    goff,
                                ) == corr as int);
                            }
                        }
                        assert forall|j1: int, j2: int|
                            #![trigger rot_shape@[j1], rot_shape@[j2]]
                            0 <= j1 < i + 1 && 0 <= j2 < i + 1 implies !(self.corr_x_at(
                            rot_shape@[j1],
                            rc,
                            gpx,
                            gpy,
                            goff,
                        ) > 0 && self.corr_x_at(rot_shape@[j2], rc, gpx, gpy, goff) < 0) by {
                            let v1 = self.corr_x_at(rot_shape@[j1], rc, gpx, gpy, goff);
                            let v2 = self.corr_x_at(rot_shape@[j2], rc, gpx, gpy, goff);
                            if v1 > 0 && v2 < 0 {
                                if j1 < i && j2 < i {
                                } else if j1 == i && j2 < i {
                                    // cx > 0 and an earlier cell pulls left:
                                    // the running correction would have been
                                    // negative, which the conflict test
                                    // excluded.
                                    assert(abs(v2) <= abs(pre_corr));
                                    assert(pre_corr != 0);
                                    let j0 = choose|j: int|
                                        0 <= j < i && self.corr_x_at(
                                            #[trigger] rot_shape@[j],
                                            rc,
                                            gpx,
                                            gpy,
                                            goff,
                                        ) == pre_corr;
                                    assert(!(self.corr_x_at(rot_shape@[j0], rc, gpx, gpy, goff)
                                        > 0 && self.corr_x_at(rot_shape@[j2], rc, gpx, gpy, goff)
                                        < 0));
                                    assert(pre_corr < 0);
                                    assert(false);
                                } else if j2 == i && j1 < i {
                                    assert(abs(v1) <= abs(pre_corr));
                                    assert(pre_corr != 0);
                                    let j0 = choose|j: int|
                                        0 <= j < i && self.corr_x_at(
                                            #[trigger] rot_shape@[j],
                                            rc,
                                            gpx,
                                            gpy,
                                            goff,
                                        ) == pre_corr;
                                    assert(!(self.corr_x_at(rot_shape@[j1], rc, gpx, gpy, goff)
                                        > 0 && self.corr_x_at(rot_shape@[j0], rc, gpx, gpy, goff)
                                        < 0));
                                    assert(pre_corr > 0);
                                    assert(false);
                                } else {
                                    assert(false);
                                }
                            }
                        }
                    }
                },
            }
            i += 1;
        }
        proof {
            assert forall|rq: (int, int)| #[trigger] rc.contains(rq) implies self.cell_correction(
                placed_at(rq, gpx, gpy, goff),
                c2x_of(rc, gpx),
            ) is Some && abs(self.corr_x_at(rq, rc, gpx, gpy, goff)) <= abs(corr as int) by {
                assert(rot_shape@.contains(rq));
                let j = choose|j: int| 0 <= j < rot_shape@.len() && rot_shape@[j] == rq;
                assert(self.cell_correction(
                    placed_at(rot_shape@[j], gpx, gpy, goff),
                    c2x_of(rc, gpx),
                ) is Some);
                assert(abs(self.corr_x_at(rot_shape@[j], rc, gpx, gpy, goff)) <= abs(corr as int));
            }
            assert forall|q1: (int, int), q2: (int, int)|
                #![trigger rc.contains(q1), rc.contains(q2)]
                rc.contains(q1) && rc.contains(q2) implies !(self.corr_x_at(q1, rc, gpx, gpy, goff)
                > 0 && self.corr_x_at(q2, rc, gpx, gpy, goff) < 0) by {
                assert(rot_shape@.contains(q1));
                assert(rot_shape@.contains(q2));
                let j1 = choose|j: int| 0 <= j < rot_shape@.len() && rot_shape@[j] == q1;
                let j2 = choose|j: int| 0 <= j < rot_shape@.len() && rot_shape@[j] == q2;
                assert(!(self.corr_x_at(rot_shape@[j1], rc, gpx, gpy, goff) > 0 && self.corr_x_at(
                    rot_shape@[j2],
                    rc,
                    gpx,
                    gpy,
                    goff,
                ) < 0));
            }
            if corr != 0 {
                let j0 = choose|j: int|
                    0 <= j < n && self.corr_x_at(#[trigger] rot_shape@[j], rc, gpx, gpy, goff)
                        == corr as int;
                assert(rot_shape@.contains(rot_shape@[j0]));
                assert(rc.contains(rot_shape@[j0]) && self.corr_x_at(
                    rot_shape@[j0],
                    rc,
                    gpx,
                    gpy,
                    goff,
                ) == corr as int);
            }
            assert(self.cells_resolve(rc, gpx, gpy, goff));
            assert(self.corrections_agree(rc, gpx, gpy, goff));
            assert(self.correction_extremal(rc, gpx, gpy, goff, corr as int));
        }
        let mut j: usize = 0;
        while j < n
            invariant
                0 <= j <= n,
                self.wf(),
                self.spec_cols() >= 1,
                n == rot_shape@.len(),
                cells == fig.spec_piece().spec_shape()@,
                k == angle_index(angle as int),
                0 <= k < 4,
                kinv == angle_index(4 - k),
                rc == rot_cells(cells, k),
                gpx == fig.position@.0,
                gpy == fig.position@.1,
                goff == x_offset as int,
                forall|q: (int, int)| rot_shape@.contains(q) <==> #[trigger] rc.contains(q),
                -0x8000_0000 <= corr <= 0x7fff_ffff,
                self.cells_resolve(rc, gpx, gpy, goff),
                self.corrections_agree(rc, gpx, gpy, goff),
                self.correction_extremal(rc, gpx, gpy, goff, corr as int),
                forall|j2: int|
                    0 <= j2 < j ==> self.available(
                        translate(
                            placed_at(#[trigger] rot_shape@[j2], gpx, gpy, goff),
                            (corr as int, 0),
                        ),
                    ),
            decreases n - j,
        {
            let p = rot_shape.positions()[j];
            let vx = fig.position.0 as i64 + p.0 as i64 + x_offset as i64 + corr;
            let vy = fig.position.1 as i64 + p.1 as i64;
            if !self.avail_wide(vx, vy) {
                proof {
                    assert(rot_shape@.contains(rot_shape@[j as int]));
                    assert(rc.contains(rot_shape@[j as int]));
                    let bad = rot_shape@[j as int];
                    assert(translate(placed_at(bad, gpx, gpy, goff), (corr as int, 0)) == (
                    vx as int,
                    vy as int,
                    ));
                    assert(!self.available(translate(placed_at(bad, gpx, gpy, goff), (
                    corr as int,
                    0,
                    ))));
                    assert forall|c: int| !self.correction_ok(rc, gpx, gpy, goff, c) by {
                        if self.correction_ok(rc, gpx, gpy, goff, c) {
                            // Any accepted shift must be the one the scan
                            // found: equal in magnitude by the two extremal
                            // facts, equal in sign by agreement.
                            if corr == 0 {
                                if c != 0 {
                                    let rq1 = choose|rq: (int, int)| #[trigger]
                                        rc.contains(rq) && self.corr_x_at(rq, rc, gpx, gpy, goff)
                                            == c;
                                    assert(abs(self.corr_x_at(rq1, rc, gpx, gpy, goff)) <= abs(
                                        0int,
                                    ));
                                    assert(false);
                                }
                            } else {
                                let rq0 = choose|rq: (int, int)| #[trigger]
                                    rc.contains(rq) && self.corr_x_at(rq, rc, gpx, gpy, goff)
                                        == corr as int;
                                assert(abs(self.corr_x_at(rq0, rc, gpx, gpy, goff)) <= abs(c));
                                if c == 0 {
                                    assert(false);
                                }
                                let rq1 = choose|rq: (int, int)| #[trigger]
                                    rc.contains(rq) && self.corr_x_at(rq, rc, gpx, gpy, goff)
                                        == c;
                                assert(abs(self.corr_x_at(rq1, rc, gpx, gpy, goff)) <= abs(
                                    corr as int,
                                ));
                                if c != corr as int {
                                    if corr > 0 {
                                        assert(!(self.corr_x_at(rq0, rc, gpx, gpy, goff) > 0
                                            && self.corr_x_at(rq1, rc, gpx, gpy, goff) < 0));
                                        assert(false);
                                    } else {
                                        assert(!(self.corr_x_at(rq1, rc, gpx, gpy, goff) > 0
                                            && self.corr_x_at(rq0, rc, gpx, gpy, goff) < 0));
                                        assert(false);
                                    }
                                }
                            }
                            assert(c == corr as int);
                            assert(self.available(
                                translate(placed_at(bad, gpx, gpy, goff), (corr as int, 0)),
                            ));
                            assert(false);
                        }
                    }
                }
                return None;
            }
            j += 1;
        }
        proof {
            assert forall|rq: (int, int)| #[trigger] rc.contains(rq) implies self.available(
                translate(placed_at(rq, gpx, gpy, goff), (corr as int, 0)),
            ) by {
                assert(rot_shape@.contains(rq));
                let j2 = choose|j2: int| 0 <= j2 < rot_shape@.len() && rot_shape@[j2] == rq;
                assert(self.available(
                    translate(placed_at(rot_shape@[j2], gpx, gpy, goff), (corr as int, 0)),
                ));
            }
            assert(self.correction_ok(rc, gpx, gpy, goff, corr as int));
        }
        Some(Vector(corr as i32, 0))
    }

    /// Returns the indices of all full rows, in ascending order.
    pub fn full_rows(&self) -> (r: Vec<usize>)
        requires
            self.wf(),
        ensures
            forall|j: int|
                0 <= j < r@.len() ==> (#[trigger] r@[j]) < self.spec_rows() && self.row_full(
                    r@[j] as int,
                ),
            forall|y: int| 0 <= y < self.spec_rows() && self.row_full(y) ==> r@.contains(y as usize),
            forall|j1: int, j2: int| 0 <= j1 < j2 < r@.len() ==> r@[j1] < r@[j2],
    {
        let h = self.bounds.1;
        let mut out: Vec<usize> = Vec::new();
        let mut y: usize = 0;
        while y < h
            invariant
                0 <= y <= h,
                self.wf(),
                h == self.spec_rows(),
                forall|j: int|
                    0 <= j < out@.len() ==> (#[trigger] out@[j]) < y && self.row_full(
                        out@[j] as int,
                    ),
                forall|y2: int| 0 <= y2 < y && self.row_full(y2) ==> out@.contains(y2 as usize),
                forall|j1: int, j2: int| 0 <= j1 < j2 < out@.len() ==> out@[j1] < out@[j2],
            decreases h - y,
        {
            if self.full_row(y) {
                let ghost pre = out@;
                out.push(y);
                proof {
                    assert forall|y2: int| 0 <= y2 < y + 1 && self.row_full(y2) implies
                        out@.contains(y2 as usize) by {
                        if y2 < y {
                            assert(pre.contains(y2 as usize));
                            let j = choose|j: int| 0 <= j < pre.len() && pre[j] == y2 as usize;
                            assert(out@[j] == y2 as usize);
                        } else {
                            assert(out@[pre.len() as int] == y as usize);
                        }
                    }
                }
            } else {
                proof {
                    assert forall|y2: int| 0 <= y2 < y + 1 && self.row_full(y2) implies
                        out@.contains(y2 as usize) by {
                        assert(y2 < y);
                    }
                }
            }
            y += 1;
        }
        out
    }

    /// Returns the indices of all empty rows, in ascending order.
    pub fn empty_rows(&self) -> (r: Vec<usize>)
        requires
            self.wf(),
        ensures
            forall|j: int|
                0 <= j < r@.len() ==> (#[trigger] r@[j]) < self.spec_rows() && self.row_empty(
                    r@[j] as int,
                ),
            forall|y: int|
                0 <= y < self.spec_rows() && self.row_empty(y) ==> r@.contains(y as usize),
            forall|j1: int, j2: int| 0 <= j1 < j2 < r@.len() ==> r@[j1] < r@[j2],
    {
        let h = self.bounds.1;
        let mut out: Vec<usize> = Vec::new();
        let mut y: usize = 0;
        while y < h
            invariant
                0 <= y <= h,
                self.wf(),
                h == self.spec_rows(),
                forall|j: int|
                    0 <= j < out@.len() ==> (#[trigger] out@[j]) < y && self.row_empty(
                        out@[j] as int,
                    ),
                forall|y2: int| 0 <= y2 < y && self.row_empty(y2) ==> out@.contains(y2 as usize),
                forall|j1: int, j2: int| 0 <= j1 < j2 < out@.len() ==> out@[j1] < out@[j2],
            decreases h - y,
        {
            if self.empty_row(y) {
                let ghost pre = out@;
                out.push(y);
                proof {
                    assert forall|y2: int| 0 <= y2 < y + 1 && self.row_empty(y2) implies
                        out@.contains(y2 as usize) by {
                        if y2 < y {
                            assert(pre.contains(y2 as usize));
                            let j = choose|j: int| 0 <= j < pre.len() && pre[j] == y2 as usize;
                            assert(out@[j] == y2 as usize);
                        } else {
                            assert(out@[pre.len() as int] == y as usize);
                        }
                    }
                }
            } else {
                proof {
                    assert forall|y2: int| 0 <= y2 < y + 1 && self.row_empty(y2) implies
                        out@.contains(y2 as usize) by {
                        assert(y2 < y);
                    }
                }
            }
            y += 1;
        }
        out
    }

    /// Returns the index of the last (highest-index) non-empty row, or
    /// `None` if the whole grid is empty.
    pub fn last_non_empty_row(&self) -> (r: Option<usize>)
        requires
            self.wf(),
        ensures
            match r {
                Some(y) => y < self.spec_rows() && !self.row_empty(y as int) && (forall|y2: int|
                    y < y2 < self.spec_rows() ==> self.row_empty(y2)),
                None => forall|y2: int| 0 <= y2 < self.spec_rows() ==> self.row_empty(y2),
            },
    {
        let mut y = self.bounds.1;
        while y > 0
            invariant
                self.wf(),
                y <= self.spec_rows(),
                forall|y2: int| y <= y2 < self.spec_rows() ==> self.row_empty(y2),
            decreases y,
        {
            y -= 1;
            if !self.empty_row(y) {
                return Some(y);
            }
        }
        None
    }

    /// Removes all currently-empty rows, keeping the relative order of the
    /// remaining rows, and pads the grid back to its height with fresh empty
    /// rows appended at the end. Returns the removed row indices, in
    /// ascending order.
    pub fn delete_empty_rows(&mut self) -> (r: Vec<usize>)
        requires
            old(self).wf(),
        ensures
            final(self).wf(),
            final(self).spec_cols() == old(self).spec_cols(),
            final(self).spec_rows() == old(self).spec_rows(),
            forall|j: int|
                0 <= j < r@.len() ==> (#[trigger] r@[j]) < old(self).spec_rows() && old(
                    self,
                ).row_empty(r@[j] as int),
            forall|y: int|
                0 <= y < old(self).spec_rows() && old(self).row_empty(y) ==> r@.contains(
                    y as usize,
                ),
            forall|j1: int, j2: int| 0 <= j1 < j2 < r@.len() ==> r@[j1] < r@[j2],
            compact_rows(old(self).rows_view()).len() <= final(self).spec_rows(),
            forall|j: int|
                0 <= j < compact_rows(old(self).rows_view()).len() ==> final(self).rows_view()[j]
                    == compact_rows(old(self).rows_view())[j],
            forall|j: int|
                compact_rows(old(self).rows_view()).len() <= j < final(self).spec_rows()
                    ==> row_is_empty(#[trigger] final(self).rows_view()[j]),
    {
        let h = self.bounds.1;
        let w = self.bounds.0;
        let mut removed: Vec<usize> = Vec::new();
        let mut kept: Vec<Vec<Option<Block>>> = Vec::new();
        let mut y: usize = 0;
        while y < h
            invariant
                0 <= y <= h,
                *self == *old(self),
                self.wf(),
                h == self.spec_rows(),
                w == self.spec_cols(),
                kept@.len() <= y,
                kept@.map_values(|rw: Vec<Option<Block>>| rw@) == compact_rows(
                    self.rows_view().subrange(0, y as int),
                ),
                forall|j: int| 0 <= j < kept@.len() ==> (#[trigger] kept@[j])@.len() == w,
                forall|j: int|
                    0 <= j < removed@.len() ==> (#[trigger] removed@[j]) < y && self.row_empty(
                        removed@[j] as int,
                    ),
                forall|y2: int|
                    0 <= y2 < y && self.row_empty(y2) ==> removed@.contains(y2 as usize),
                forall|j1: int, j2: int| 0 <= j1 < j2 < removed@.len() ==> removed@[j1] < removed@[j2],
            decreases h - y,
        {
            proof {
                let sub1 = self.rows_view().subrange(0, y + 1);
                assert(sub1.drop_last() =~= self.rows_view().subrange(0, y as int));
                assert(sub1.last() == self.rows_view()[y as int]);
            }
            let is_empty = self.empty_row(y);
            proof {
                let rowv = self.rows_view()[y as int];
                if is_empty {
                    assert forall|x: int| 0 <= x < rowv.len() implies (#[trigger] rowv[x])
                        is None by {
                        assert(!self.occupied((x, y as int)));
                    }
                    assert(row_is_empty(rowv));
                } else {
                    if row_is_empty(rowv) {
                        assert forall|x: int| 0 <= x < self.spec_cols() implies !(
                        #[trigger] self.occupied((x, y as int))) by {
                            assert(rowv[x] is None);
                        }
                    }
                    assert(!row_is_empty(rowv));
                }
            }
            if is_empty {
                let ghost pre = removed@;
                removed.push(y);
                proof {
                    assert forall|y2: int| 0 <= y2 < y + 1 && self.row_empty(y2) implies
                        removed@.contains(y2 as usize) by {
                        if y2 < y {
                            assert(pre.contains(y2 as usize));
                            let j = choose|j: int| 0 <= j < pre.len() && pre[j] == y2 as usize;
                            assert(removed@[j] == y2 as usize);
                        } else {
                            assert(removed@[pre.len() as int] == y as usize);
                        }
                    }
                    assert(kept@.map_values(|rw: Vec<Option<Block>>| rw@) == compact_rows(
                        self.rows_view().subrange(0, y + 1),
                    ));
                }
            } else {
                proof {
                    assert(self.rows_view()[y as int] == self.rows@[y as int]@);
                }
                let row_copy = dup_row(&self.rows[y]);
                let ghost kv = kept@.map_values(|rw: Vec<Option<Block>>| rw@);
                kept.push(row_copy);
                proof {
                    assert(kept@.map_values(|rw: Vec<Option<Block>>| rw@) =~= kv.push(
                        self.rows_view()[y as int],
                    ));
                    assert forall|y2: int| 0 <= y2 < y + 1 && self.row_empty(y2) implies
                        removed@.contains(y2 as usize) by {
                        assert(y2 < y);
                    }
                }
            }
            y += 1;
        }
        proof {
            assert(self.rows_view().subrange(0, h as int) =~= self.rows_view());
        }
        let ghost clen = compact_rows(old(self).rows_view()).len();
        proof {
            assert forall|j: int| 0 <= j < clen implies (#[trigger] kept@[j])@ == compact_rows(
                old(self).rows_view(),
            )[j] by {
                assert(kept@.map_values(|rw: Vec<Option<Block>>| rw@)[j] == kept@[j]@);
            }
        }
        while kept.len() < h
            invariant
                *self == *old(self),
                self.wf(),
                h == self.spec_rows(),
                w == self.spec_cols(),
                clen == compact_rows(old(self).rows_view()).len(),
                clen <= kept@.len() <= h,
                forall|j: int| 0 <= j < kept@.len() ==> (#[trigger] kept@[j])@.len() == w,
                forall|j: int|
                    0 <= j < clen ==> (#[trigger] kept@[j])@ == compact_rows(
                        old(self).rows_view(),
                    )[j],
                forall|j: int| clen <= j < kept@.len() ==> row_is_empty((#[trigger] kept@[j])@),
            decreases h - kept.len(),
        {
            let fresh = empty_row_vec(w);
            kept.push(fresh);
        }
        self.rows = kept;
        proof {
            assert forall|j: int| 0 <= j < self.rows_view().len() implies (
            #[trigger] self.rows_view()[j]).len() == w by {
                assert(self.rows_view()[j] == self.rows@[j]@);
            }
            assert forall|j: int| 0 <= j < clen implies self.rows_view()[j] == compact_rows(
                old(self).rows_view(),
            )[j] by {
                assert(self.rows_view()[j] == self.rows@[j]@);
            }
            assert forall|j: int| clen <= j < self.spec_rows() implies row_is_empty(
                #[trigger] self.rows_view()[j],
            ) by {
                assert(self.rows_view()[j] == self.rows@[j]@);
            }
        }
        removed
    }

    /// Whether none of the `width` cells of row `i` is occupied.
    pub fn empty_row(&self, i: usize) -> (r: bool)
        requires
            self.wf(),
            i < self.spec_rows(),
        ensures
            r == self.row_empty(i as int),
    {
        let w = self.bounds.0;
        let mut x: usize = 0;
        while x < w
            invariant
                0 <= x <= w,
                self.wf(),
                i < self.spec_rows(),
                w == self.spec_cols(),
                forall|x2: int| 0 <= x2 < x ==> !(#[trigger] self.occupied((x2, i as int))),
            decreases w - x,
        {
            proof {
                assert(self.rows_view()[i as int] == self.rows@[i as int]@);
            }
            if self.rows[i][x].is_some() {
                proof {
                    assert(self.occupied((x as int, i as int)));
                }
                return false;
            }
            x += 1;
        }
        true
    }
}

} // verus!
