use vstd::prelude::*;
use crate::force::{CellPair, Moment, NUM_SHELLS, RADIUS, holds_shells_of, zero_shells, divide_and_conquer, all_near};

verus! {

/// The cell coordinates of a particle: `floor((position + offset) / cell_size)`
/// along each axis. They may lie outside the grid.
#[derive(Clone, Copy, Debug, PartialEq, Eq, Structural)]
pub struct CellPos {
    pub x: i64,
    pub y: i64,
}

/// The total of a sequence of cell masses.
pub open spec fn total(s: Seq<u32>) -> int
    decreases s.len(),
{
    if s.len() == 0 {
        0
    } else {
        total(s.drop_last()) + s.last()
    }
}

/// How many entries of `s` name cell `i`.
pub open spec fn count_at(s: Seq<Option<usize>>, i: int) -> nat
    decreases s.len(),
{
    if s.len() == 0 {
        0
    } else {
        count_at(s.drop_last(), i) + match s.last() {
            Some(k) if k == i => 1nat,
            _ => 0nat,
        }
    }
}

/// How many entries of `s` name a cell at all.
pub open spec fn placed(s: Seq<Option<usize>>) -> nat
    decreases s.len(),
{
    if s.len() == 0 {
        0
    } else {
        placed(s.drop_last()) + if s.last().is_some() {
            1nat
        } else {
            0nat
        }
    }
}

/// Lowest coordinate of the search window around coordinate `c`.
pub open spec fn window_lo(c: int) -> int {
    if c < RADIUS {
        0
    } else {
        c - RADIUS
    }
}

/// Highest coordinate of the search window around coordinate `c`, on an axis
/// of `n` cells.
pub open spec fn window_hi(c: int, n: int) -> int {
    if c + RADIUS > n - 1 {
        n - 1
    } else {
        c + RADIUS
    }
}

/// A grid of cells over which mass is binned and forces are computed.
/// Cells are stored row-major: cell `(x, y)` is at index `y * width + x`.
pub struct GravityGrid {
    pub width: u32,
    pub height: u32,
    /// Edge length of one cell, in world units.
    pub cell_size: u32,
    /// The mass binned into each cell.
    pub cell_mass: Vec<u32>,
    /// The pull on each cell, as one moment per squared-distance shell.
    pub cell_shells: Vec<Vec<Moment>>,
}

pub proof fn lemma_index_bound(w: int, h: int, x: int, y: int)
    requires
        0 <= x < w,
        0 <= y < h,
    ensures
        0 <= y * w + x < w * h,
{
    assert(0 <= y * w + x < w * h) by (nonlinear_arith)
        requires
            0 <= x < w,
            0 <= y < h,
    ;
}

proof fn lemma_index_injective(w: int, x1: int, y1: int, x2: int, y2: int)
    requires
        0 <= x1 < w,
        0 <= x2 < w,
        0 <= y1,
        0 <= y2,
        x1 != x2 || y1 != y2,
    ensures
        y1 * w + x1 != y2 * w + x2,
{
    if y1 < y2 {
        assert(y1 * w + x1 < y2 * w + x2) by (nonlinear_arith)
            requires
                0 <= x1 < w,
                0 <= x2,
                y1 < y2,
        ;
    } else if y2 < y1 {
        assert(y2 * w + x2 < y1 * w + x1) by (nonlinear_arith)
            requires
                0 <= x2 < w,
                0 <= x1,
                y2 < y1,
        ;
    }
}

proof fn lemma_total_update(s: Seq<u32>, i: int, v: u32)
    requires
        0 <= i < s.len(),
    ensures
        total(s.update(i, v)) == total(s) - s[i] + v,
    decreases s.len(),
{
    if i < s.len() - 1 {
        lemma_total_update(s.drop_last(), i, v);
        assert(s.update(i, v).drop_last() =~= s.drop_last().update(i, v));
    } else {
        assert(s.update(i, v).drop_last() =~= s.drop_last());
    }
}

/// A sequence of zeros has total zero.
pub proof fn lemma_total_zero(s: Seq<u32>)
    requires
        forall|i: int| 0 <= i < s.len() ==> #[trigger] s[i] == 0,
    ensures
        total(s) == 0,
    decreases s.len(),
{
    if s.len() > 0 {
        lemma_total_zero(s.drop_last());
    }
}

proof fn lemma_count_at_bound(s: Seq<Option<usize>>, i: int)
    ensures
        count_at(s, i) <= s.len(),
    decreases s.len(),
{
    if s.len() > 0 {
        lemma_count_at_bound(s.drop_last(), i);
    }
}

/// Every entry is some cell exactly when every entry is counted.
pub proof fn lemma_placed_all(s: Seq<Option<usize>>)
    requires
        forall|j: int| 0 <= j < s.len() ==> (#[trigger] s[j]).is_some(),
    ensures
        placed(s) == s.len(),
    decreases s.len(),
{
    if s.len() > 0 {
        lemma_placed_all(s.drop_last());
    }
}

impl GravityGrid {
    /// The grid's arrays have one entry per cell, and each cell's pull has
    /// one entry per shell.
    pub open spec fn wf(self) -> bool {
        &&& self.cell_mass@.len() == self.width * self.height
        &&& self.cell_shells@.len() == self.width * self.height
        &&& forall|i: int|
            0 <= i < self.cell_shells@.len() ==> (#[trigger] self.cell_shells@[i])@.len()
                == NUM_SHELLS
    }

    pub open spec fn index(self, x: int, y: int) -> int {
        y * self.width + x
    }

    pub open spec fn in_grid(self, x: int, y: int) -> bool {
        0 <= x < self.width && 0 <= y < self.height
    }

    /// The mass binned into cell `(x, y)`.
    pub open spec fn mass_at(self, x: int, y: int) -> int {
        self.cell_mass@[self.index(x, y)] as int
    }

    /// The pull on cell `(x, y)` as last computed, shell by shell.
    pub open spec fn shells_at(self, x: int, y: int) -> Seq<Moment> {
        self.cell_shells@[self.index(x, y)]@
    }

    /// The cell index that a particle at cell coordinates `pos` occupies:
    /// none when it has no coordinates or lies outside the grid.
    pub open spec fn index_of(self, pos: Option<CellPos>) -> Option<usize> {
        match pos {
            Some(c) => if self.in_grid(c.x as int, c.y as int) {
                Some(self.index(c.x as int, c.y as int) as usize)
            } else {
                None
            },
            None => None,
        }
    }

    /// Cell `(x2, y2)` pulls on cell `(x1, y1)`: they differ and both hold mass.
    pub open spec fn interacts(self, x1: int, y1: int, x2: int, y2: int) -> bool {
        &&& x1 != x2 || y1 != y2
        &&& self.mass_at(x1, y1) != 0
        &&& self.mass_at(x2, y2) != 0
    }

    pub open spec fn pair_at(self, x1: int, y1: int, x2: int, y2: int) -> CellPair {
        CellPair {
            x1: x1 as u32,
            y1: y1 as u32,
            mass1: self.mass_at(x1, y1) as u32,
            x2: x2 as u32,
            y2: y2 as u32,
            mass2: self.mass_at(x2, y2) as u32,
        }
    }

    /// The pairs of cell `(x1, y1)` with the cells `(x2, y2)` of row `y2`
    /// for `window_lo(x1) <= x2 < x_end`, left to right.
    pub open spec fn row_pairs(self, x1: int, y1: int, y2: int, x_end: int) -> Seq<CellPair>
        decreases x_end - window_lo(x1),
    {
        if x_end <= window_lo(x1) {
            seq![]
        } else {
            let x2 = x_end - 1;
            let rest = self.row_pairs(x1, y1, y2, x2);
            if self.interacts(x1, y1, x2, y2) {
                rest.push(self.pair_at(x1, y1, x2, y2))
            } else {
                rest
            }
        }
    }

    /// The pairs of cell `(x1, y1)` with the window's cells of rows
    /// `window_lo(y1) <= y2 < y_end`, row by row.
    pub open spec fn window_pairs(self, x1: int, y1: int, y_end: int) -> Seq<CellPair>
        decreases y_end - window_lo(y1),
    {
        if y_end <= window_lo(y1) {
            seq![]
        } else {
            self.window_pairs(x1, y1, y_end - 1) + self.row_pairs(
                x1,
                y1,
                y_end - 1,
                window_hi(x1, self.width as int) + 1,
            )
        }
    }

    /// The interaction pairs of cell `(x1, y1)`: one for each cell of the
    /// clamped search window that pulls on it, in row-major order.
    pub open spec fn pairs_of(self, x1: int, y1: int) -> Seq<CellPair> {
        self.window_pairs(x1, y1, window_hi(y1, self.height as int) + 1)
    }

    /// A grid of `width` by `height` cells, with no mass and no pull.
    pub fn with_cells(width: u32, height: u32, cell_size: u32) -> (r: GravityGrid)
        requires
            width * height <= usize::MAX,
        ensures
            r.wf(),
            r.width == width,
            r.height == height,
            r.cell_size == cell_size,
            forall|i: int| 0 <= i < r.cell_mass@.len() ==> #[trigger] r.cell_mass@[i] == 0,
            forall|i: int|
                0 <= i < r.cell_shells@.len() ==> holds_shells_of(
                    #[trigger] r.cell_shells@[i]@,
                    seq![],
                ),
    {
        let n: usize = width as usize * height as usize;
        let mut cell_mass: Vec<u32> = Vec::new();
        let mut cell_shells: Vec<Vec<Moment>> = Vec::new();
        let mut i: usize = 0;
        while i < n
            invariant
                n == width * height,
                i <= n,
                cell_mass@.len() == i,
                cell_shells@.len() == i,
                forall|j: int| 0 <= j < i ==> #[trigger] cell_mass@[j] == 0,
                forall|j: int| 0 <= j < i ==> holds_shells_of(#[trigger] cell_shells@[j]@, seq![]),
            decreases n - i,
        {
            cell_mass.push(0);
            cell_shells.push(zero_shells());
            i = i + 1;
        }
        GravityGrid { width, height, cell_size, cell_mass, cell_shells }
    }

    /// A grid that covers a world of `world_width` by `world_height` units
    /// with cells of edge `cell_size`, with a margin of two cells on each side.
    pub fn new(world_width: u32, world_height: u32, cell_size: u32) -> (r: GravityGrid)
        requires
            cell_size > 0,
            4 + world_width / cell_size <= u32::MAX,
            4 + world_height / cell_size <= u32::MAX,
            (4 + world_width / cell_size) * (4 + world_height / cell_size) <= usize::MAX,
        ensures
            r.wf(),
            r.width == 4 + world_width / cell_size,
            r.height == 4 + world_height / cell_size,
            r.cell_size == cell_size,
            forall|i: int| 0 <= i < r.cell_mass@.len() ==> #[trigger] r.cell_mass@[i] == 0,
    {
        let width = 4 + world_width / cell_size;
        let height = 4 + world_height / cell_size;
        GravityGrid::with_cells(width, height, cell_size)
    }
}

impl GravityGrid {
    /// The index of the cell that a particle at cell coordinates `pos`
    /// occupies, or `None` when it has no coordinates or lies off the grid.
    pub fn get_index(&self, pos: Option<CellPos>) -> (r: Option<usize>)
        requires
            self.wf(),
        ensures
            r == self.index_of(pos),
            r matches Some(i) ==> i < self.cell_mass@.len(),
    {
        match pos {
            Some(c) => {
                if 0 <= c.x && c.x < self.width as i64 && 0 <= c.y && c.y < self.height as i64 {
                    let n = self.cell_mass.len();
                    proof {
                        lemma_index_bound(self.width as int, self.height as int, c.x as int, c.y as int);
                        assert(c.y * self.width <= c.y * self.width + c.x < n);
                    }
                    Some(c.y as usize * self.width as usize + c.x as usize)
                } else {
                    None
                }
            },
            None => None,
        }
    }

    /// Clears the mass of every cell.
    pub fn zero_mass(&mut self)
        requires
            old(self).wf(),
        ensures
            final(self).wf(),
            final(self).width == old(self).width,
            final(self).height == old(self).height,
            final(self).cell_size == old(self).cell_size,
            final(self).cell_shells == old(self).cell_shells,
            final(self).cell_mass@ == Seq::new(old(self).cell_mass@.len(), |i: int| 0u32),
    {
        let n = self.cell_mass.len();
        let mut i: usize = 0;
        while i < n
            invariant
                self.wf(),
                n == self.cell_mass@.len(),
                i <= n,
                self.width == old(self).width,
                self.height == old(self).height,
                self.cell_size == old(self).cell_size,
                self.cell_shells == old(self).cell_shells,
                forall|j: int| 0 <= j < i ==> #[trigger] self.cell_mass@[j] == 0,
            decreases n - i,
        {
            self.cell_mass.set(i, 0);
            i = i + 1;
        }
        assert(self.cell_mass@ =~= Seq::new(n as nat, |i: int| 0u32));
    }

    /// Bins a unit of mass for each particle, given by its cell coordinates,
    /// into the cell it occupies, and returns each particle's cell index:
    /// `None` for a particle off the grid, which adds no mass.
    pub fn compute_mass(&mut self, cells: &Vec<Option<CellPos>>) -> (r: Vec<Option<usize>>)
        requires
            old(self).wf(),
            forall|i: int|
                0 <= i < old(self).cell_mass@.len() ==> #[trigger] old(self).cell_mass@[i]
                    + cells@.len() <= u32::MAX,
        ensures
            final(self).wf(),
            final(self).width == old(self).width,
            final(self).height == old(self).height,
            final(self).cell_size == old(self).cell_size,
            final(self).cell_shells == old(self).cell_shells,
            r@.len() == cells@.len(),
            forall|j: int| 0 <= j < cells@.len() ==> #[trigger] r@[j] == old(self).index_of(cells@[j]),
            final(self).cell_mass@.len() == old(self).cell_mass@.len(),
            forall|i: int|
                0 <= i < final(self).cell_mass@.len() ==> #[trigger] final(self).cell_mass@[i]
                    == old(self).cell_mass@[i] + count_at(r@, i),
            total(final(self).cell_mass@) == total(old(self).cell_mass@) + placed(r@),
    {
        let mut r: Vec<Option<usize>> = Vec::new();
        let mut j: usize = 0;
        while j < cells.len()
            invariant
                self.wf(),
                j <= cells@.len(),
                self.width == old(self).width,
                self.height == old(self).height,
                self.cell_size == old(self).cell_size,
                self.cell_shells == old(self).cell_shells,
                self.cell_mass@.len() == old(self).cell_mass@.len(),
                forall|i: int|
                    0 <= i < old(self).cell_mass@.len() ==> #[trigger] old(self).cell_mass@[i]
                        + cells@.len() <= u32::MAX,
                r@.len() == j,
                forall|k: int| 0 <= k < j ==> #[trigger] r@[k] == old(self).index_of(cells@[k]),
                forall|i: int|
                    0 <= i < self.cell_mass@.len() ==> #[trigger] self.cell_mass@[i]
                        == old(self).cell_mass@[i] + count_at(r@, i),
                total(self.cell_mass@) == total(old(self).cell_mass@) + placed(r@),
            decreases cells@.len() - j,
        {
            let idx = self.get_index(cells[j]);
            let ghost before = self.cell_mass@;
            let ghost r_before = r@;
            match idx {
                Some(i) => {
                    proof {
                        lemma_count_at_bound(r@, i as int);
                        assert(old(self).cell_mass@[i as int] + cells@.len() <= u32::MAX);
                    }
                    let m = self.cell_mass[i];
                    self.cell_mass.set(i, m + 1);
                    proof {
                        lemma_total_update(before, i as int, (m + 1) as u32);
                        assert(self.cell_mass@ == before.update(i as int, (m + 1) as u32));
                    }
                },
                None => {
                    assert(self.cell_mass@ == before);
                },
            }
            r.push(idx);
            proof {
                assert(r@.drop_last() =~= r_before);
                assert forall|i: int|
                    0 <= i < self.cell_mass@.len() implies #[trigger] self.cell_mass@[i]
                        == old(self).cell_mass@[i] + count_at(r@, i) by {
                    assert(r@.last() == idx);
                    assert(before[i] == old(self).cell_mass@[i] + count_at(r_before, i));
                    if let Some(i0) = idx {
                        if i == i0 as int {
                            assert(self.cell_mass@[i] == before[i] + 1);
                        } else {
                            assert(self.cell_mass@[i] == before[i]);
                        }
                    }
                }
            }
            j = j + 1;
        }
        r
    }
}

impl GravityGrid {
    /// `p` pairs cell `(x1, y1)` with a cell of its clamped search window that
    /// pulls on it, and carries the masses of both cells.
    pub open spec fn in_window_of(self, x1: int, y1: int, p: CellPair) -> bool {
        &&& p == self.pair_at(x1, y1, p.x2 as int, p.y2 as int)
        &&& window_lo(x1) <= p.x2 <= window_hi(x1, self.width as int)
        &&& window_lo(y1) <= p.y2 <= window_hi(y1, self.height as int)
        &&& self.interacts(x1, y1, p.x2 as int, p.y2 as int)
    }

    proof fn lemma_row_pairs_members(self, x1: int, y1: int, y2: int, x_end: int)
        requires
            self.in_grid(x1, y1),
            window_lo(y1) <= y2 <= window_hi(y1, self.height as int),
            x_end <= window_hi(x1, self.width as int) + 1,
        ensures
            forall|i: int|
                0 <= i < self.row_pairs(x1, y1, y2, x_end).len() ==> self.in_window_of(
                    x1,
                    y1,
                    #[trigger] self.row_pairs(x1, y1, y2, x_end)[i],
                ) && self.row_pairs(x1, y1, y2, x_end)[i].x2 < x_end
                    && self.row_pairs(x1, y1, y2, x_end)[i].y2 == y2,
        decreases x_end - window_lo(x1),
    {
        if x_end > window_lo(x1) {
            let x2 = x_end - 1;
            let rest = self.row_pairs(x1, y1, y2, x2);
            self.lemma_row_pairs_members(x1, y1, y2, x2);
            if self.interacts(x1, y1, x2, y2) {
                let p = self.pair_at(x1, y1, x2, y2);
                assert(p.x2 as int == x2 && p.y2 as int == y2);
                assert(self.in_window_of(x1, y1, p));
                assert forall|i: int| 0 <= i < rest.push(p).len() implies self.in_window_of(
                    x1,
                    y1,
                    #[trigger] rest.push(p)[i],
                ) && rest.push(p)[i].x2 < x_end && rest.push(p)[i].y2 == y2 by {
                    if i < rest.len() {
                        assert(rest.push(p)[i] == rest[i]);
                    }
                }
            }
        }
    }

    proof fn lemma_window_pairs_members(self, x1: int, y1: int, y_end: int)
        requires
            self.in_grid(x1, y1),
            y_end <= window_hi(y1, self.height as int) + 1,
        ensures
            forall|i: int|
                0 <= i < self.window_pairs(x1, y1, y_end).len() ==> self.in_window_of(
                    x1,
                    y1,
                    #[trigger] self.window_pairs(x1, y1, y_end)[i],
                ),
        decreases y_end - window_lo(y1),
    {
        if y_end > window_lo(y1) {
            let a = self.window_pairs(x1, y1, y_end - 1);
            let b = self.row_pairs(x1, y1, y_end - 1, window_hi(x1, self.width as int) + 1);
            self.lemma_window_pairs_members(x1, y1, y_end - 1);
            self.lemma_row_pairs_members(x1, y1, y_end - 1, window_hi(x1, self.width as int) + 1);
            assert forall|i: int| 0 <= i < (a + b).len() implies self.in_window_of(
                x1,
                y1,
                #[trigger] (a + b)[i],
            ) by {
                if i < a.len() {
                    assert((a + b)[i] == a[i]);
                } else {
                    assert((a + b)[i] == b[i - a.len()]);
                }
            }
        }
    }

    proof fn lemma_row_pairs_contains(self, x1: int, y1: int, y2: int, x_end: int, x2: int)
        requires
            window_lo(x1) <= x2 < x_end,
            self.interacts(x1, y1, x2, y2),
        ensures
            self.row_pairs(x1, y1, y2, x_end).contains(self.pair_at(x1, y1, x2, y2)),
        decreases x_end - window_lo(x1),
    {
        let rest = self.row_pairs(x1, y1, y2, x_end - 1);
        if x2 == x_end - 1 {
            assert(rest.push(self.pair_at(x1, y1, x2, y2)).last() == self.pair_at(x1, y1, x2, y2));
        } else {
            self.lemma_row_pairs_contains(x1, y1, y2, x_end - 1, x2);
            let k = choose|k: int| 0 <= k < rest.len() && rest[k] == self.pair_at(x1, y1, x2, y2);
            if self.interacts(x1, y1, x_end - 1, y2) {
                assert(rest.push(self.pair_at(x1, y1, x_end - 1, y2))[k] == rest[k]);
            }
        }
    }

    proof fn lemma_window_pairs_contains(self, x1: int, y1: int, y_end: int, x2: int, y2: int)
        requires
            window_lo(y1) <= y2 < y_end,
            window_lo(x1) <= x2 <= window_hi(x1, self.width as int),
            self.interacts(x1, y1, x2, y2),
        ensures
            self.window_pairs(x1, y1, y_end).contains(self.pair_at(x1, y1, x2, y2)),
        decreases y_end - window_lo(y1),
    {
        let a = self.window_pairs(x1, y1, y_end - 1);
        let b = self.row_pairs(x1, y1, y_end - 1, window_hi(x1, self.width as int) + 1);
        let p = self.pair_at(x1, y1, x2, y2);
        if y2 == y_end - 1 {
            self.lemma_row_pairs_contains(x1, y1, y2, window_hi(x1, self.width as int) + 1, x2);
            let k = choose|k: int| 0 <= k < b.len() && b[k] == p;
            assert((a + b)[a.len() + k] == p);
        } else {
            self.lemma_window_pairs_contains(x1, y1, y_end - 1, x2, y2);
            let k = choose|k: int| 0 <= k < a.len() && a[k] == p;
            assert((a + b)[k] == p);
        }
    }

    /// The interaction pairs of cell `(x1, y1)`: its pairs with every cell of
    /// the search window, clamped to the grid, that pulls on it.
    pub fn interaction_pairs(&self, x1: u32, y1: u32) -> (r: Vec<CellPair>)
        requires
            self.wf(),
            x1 < self.width,
            y1 < self.height,
        ensures
            r@ == self.pairs_of(x1 as int, y1 as int),
    {
        let w = self.width;
        let x_lo: u32 = if x1 < RADIUS { 0 } else { x1 - RADIUS };
        let x_hi: u32 = if w - 1 - x1 < RADIUS { w - 1 } else { x1 + RADIUS };
        let y_lo: u32 = if y1 < RADIUS { 0 } else { y1 - RADIUS };
        let y_hi: u32 = if self.height - 1 - y1 < RADIUS { self.height - 1 } else { y1 + RADIUS };
        let n = self.cell_mass.len();
        proof {
            lemma_index_bound(w as int, self.height as int, x1 as int, y1 as int);
            assert(y1 * w <= y1 * w + x1 < n);
        }
        let index1: usize = y1 as usize * w as usize + x1 as usize;
        let mass1 = self.cell_mass[index1];
        let mut pairs: Vec<CellPair> = Vec::new();
        let mut y2: u32 = y_lo;
        while y2 <= y_hi
            invariant
                self.wf(),
                n == self.cell_mass@.len(),
                w == self.width,
                x1 < self.width,
                y1 < self.height,
                x_lo == window_lo(x1 as int),
                x_hi == window_hi(x1 as int, w as int),
                y_lo == window_lo(y1 as int),
                y_hi == window_hi(y1 as int, self.height as int),
                y_lo <= y2 <= y_hi + 1,
                index1 == self.index(x1 as int, y1 as int),
                mass1 == self.mass_at(x1 as int, y1 as int),
                pairs@ == self.window_pairs(x1 as int, y1 as int, y2 as int),
            decreases y_hi + 1 - y2,
        {
            let mut x2: u32 = x_lo;
            while x2 <= x_hi
                invariant
                    self.wf(),
                    n == self.cell_mass@.len(),
                    w == self.width,
                    x1 < self.width,
                    y1 < self.height,
                    x_lo == window_lo(x1 as int),
                    x_hi == window_hi(x1 as int, w as int),
                    y_lo == window_lo(y1 as int),
                    y_hi == window_hi(y1 as int, self.height as int),
                    y_lo <= y2 <= y_hi,
                    x_lo <= x2 <= x_hi + 1,
                    index1 == self.index(x1 as int, y1 as int),
                    mass1 == self.mass_at(x1 as int, y1 as int),
                    pairs@ == self.window_pairs(x1 as int, y1 as int, y2 as int) + self.row_pairs(
                        x1 as int,
                        y1 as int,
                        y2 as int,
                        x2 as int,
                    ),
                decreases x_hi + 1 - x2,
            {
                proof {
                    lemma_index_bound(w as int, self.height as int, x2 as int, y2 as int);
                    assert(y2 * w <= y2 * w + x2 < n);
                    if x1 != x2 || y1 != y2 {
                        lemma_index_injective(w as int, x1 as int, y1 as int, x2 as int, y2 as int);
                    }
                }
                let index2: usize = y2 as usize * w as usize + x2 as usize;
                let mass2 = self.cell_mass[index2];
                let ghost before = pairs@;
                if mass1 != 0 && mass2 != 0 && index1 != index2 {
                    pairs.push(CellPair { x1, y1, mass1, x2, y2, mass2 });
                }
                proof {
                    let wp = self.window_pairs(x1 as int, y1 as int, y2 as int);
                    let rp = self.row_pairs(x1 as int, y1 as int, y2 as int, x2 as int);
                    assert(before == wp + rp);
                    if self.interacts(x1 as int, y1 as int, x2 as int, y2 as int) {
                        assert(pairs@ =~= wp + rp.push(self.pair_at(x1 as int, y1 as int, x2 as int, y2 as int)));
                    }
                }
                x2 = x2 + 1;
            }
            proof {
                assert(self.window_pairs(x1 as int, y1 as int, y2 + 1) == self.window_pairs(x1 as int, y1 as int, y2 as int) + self.row_pairs(
                    x1 as int,
                    y1 as int,
                    y2 as int,
                    x_hi + 1,
                ));
            }
            y2 = y2 + 1;
        }
        pairs
    }
}

impl GravityGrid {
    proof fn lemma_row_pairs_frame(self, other: GravityGrid, x1: int, y1: int, y2: int, x_end: int)
        requires
            self.width == other.width,
            self.height == other.height,
            self.cell_mass@ == other.cell_mass@,
        ensures
            self.row_pairs(x1, y1, y2, x_end) == other.row_pairs(x1, y1, y2, x_end),
            self.row_pairs(x1, y1, y2, x_end).len() <= if x_end <= window_lo(x1) {
                0
            } else {
                x_end - window_lo(x1)
            },
        decreases x_end - window_lo(x1),
    {
        if x_end > window_lo(x1) {
            self.lemma_row_pairs_frame(other, x1, y1, y2, x_end - 1);
        }
    }

    proof fn lemma_window_pairs_frame(self, other: GravityGrid, x1: int, y1: int, y_end: int)
        requires
            self.width == other.width,
            self.height == other.height,
            self.cell_mass@ == other.cell_mass@,
            self.in_grid(x1, y1),
        ensures
            self.window_pairs(x1, y1, y_end) == other.window_pairs(x1, y1, y_end),
            self.window_pairs(x1, y1, y_end).len() <= if y_end <= window_lo(y1) {
                0
            } else {
                11 * (y_end - window_lo(y1))
            },
        decreases y_end - window_lo(y1),
    {
        if y_end > window_lo(y1) {
            self.lemma_window_pairs_frame(other, x1, y1, y_end - 1);
            self.lemma_row_pairs_frame(other, x1, y1, y_end - 1, window_hi(x1, self.width as int) + 1);
        }
    }

    /// The neighbour search never leaves the grid: each interaction pair of a
    /// cell names a cell of the grid, within `RADIUS` of it along each axis,
    /// whose index lies inside the cell arrays.
    pub proof fn lemma_neighbor_clamping(self, x1: int, y1: int)
        requires
            self.wf(),
            self.in_grid(x1, y1),
        ensures
            forall|i: int|
                0 <= i < self.pairs_of(x1, y1).len() ==> {
                    let p = #[trigger] self.pairs_of(x1, y1)[i];
                    &&& self.in_window_of(x1, y1, p)
                    &&& self.in_grid(p.x2 as int, p.y2 as int)
                    &&& 0 <= self.index(p.x2 as int, p.y2 as int) < self.cell_mass@.len()
                    &&& p.is_near()
                },
            all_near(self.pairs_of(x1, y1)),
            self.pairs_of(x1, y1).len() <= 121,
    {
        let ps = self.pairs_of(x1, y1);
        self.lemma_window_pairs_members(x1, y1, window_hi(y1, self.height as int) + 1);
        self.lemma_window_pairs_frame(self, x1, y1, window_hi(y1, self.height as int) + 1);
        assert forall|i: int| 0 <= i < ps.len() implies {
            let p = #[trigger] ps[i];
            &&& self.in_window_of(x1, y1, p)
            &&& self.in_grid(p.x2 as int, p.y2 as int)
            &&& 0 <= self.index(p.x2 as int, p.y2 as int) < self.cell_mass@.len()
            &&& p.is_near()
        } by {
            let p = ps[i];
            assert(self.in_window_of(x1, y1, p));
            lemma_index_bound(self.width as int, self.height as int, p.x2 as int, p.y2 as int);
        }
        assert forall|i: int| 0 <= i < ps.len() implies #[trigger] ps[i].is_near() by {}
    }

    /// Computes the pull on every cell from the cells of its search window,
    /// as the shell-by-shell sum of the moments of its interaction pairs.
    /// A cell with no interaction pair gets no pull.
    pub fn compute_force(&mut self)
        requires
            old(self).wf(),
        ensures
            final(self).wf(),
            final(self).width == old(self).width,
            final(self).height == old(self).height,
            final(self).cell_size == old(self).cell_size,
            final(self).cell_mass == old(self).cell_mass,
            forall|x: int, y: int|
                final(self).in_grid(x, y) ==> holds_shells_of(
                    #[trigger] final(self).shells_at(x, y),
                    final(self).pairs_of(x, y),
                ),
    {
        let w = self.width;
        let h = self.height;
        let mut y1: u32 = 0;
        while y1 < h
            invariant
                self.wf(),
                w == self.width,
                h == self.height,
                self.width == old(self).width,
                self.height == old(self).height,
                self.cell_size == old(self).cell_size,
                self.cell_mass == old(self).cell_mass,
                y1 <= h,
                forall|x: int, y: int|
                    0 <= x < w && 0 <= y < y1 ==> holds_shells_of(
                        #[trigger] self.shells_at(x, y),
                        old(self).pairs_of(x, y),
                    ),
            decreases h - y1,
        {
            let mut x1: u32 = 0;
            while x1 < w
                invariant
                    self.wf(),
                    w == self.width,
                    h == self.height,
                    self.width == old(self).width,
                    self.height == old(self).height,
                    self.cell_size == old(self).cell_size,
                    self.cell_mass == old(self).cell_mass,
                    y1 < h,
                    x1 <= w,
                    forall|x: int, y: int|
                        (0 <= x < w && 0 <= y < y1) || (0 <= x < x1 && y == y1) ==> holds_shells_of(
                            #[trigger] self.shells_at(x, y),
                            old(self).pairs_of(x, y),
                        ),
                decreases w - x1,
            {
                let pairs = self.interaction_pairs(x1, y1);
                proof {
                    self.lemma_neighbor_clamping(x1 as int, y1 as int);
                    self.lemma_window_pairs_frame(*old(self), x1 as int, y1 as int, window_hi(y1 as int, h as int) + 1);
                }
                let shells = if pairs.len() == 0 {
                    zero_shells()
                } else {
                    divide_and_conquer(pairs.as_slice())
                };
                let n = self.cell_mass.len();
                proof {
                    lemma_index_bound(w as int, h as int, x1 as int, y1 as int);
                    assert(y1 * w <= y1 * w + x1 < n);
                }
                let index1: usize = y1 as usize * w as usize + x1 as usize;
                let ghost before = self.cell_shells@;
                let ghost prev = *self;
                self.cell_shells.set(index1, shells);
                proof {
                    assert forall|x: int, y: int|
                        (0 <= x < w && 0 <= y < y1) || (0 <= x < x1 + 1 && y == y1) implies holds_shells_of(
                            #[trigger] self.shells_at(x, y),
                            old(self).pairs_of(x, y),
                        ) by {
                        lemma_index_bound(w as int, h as int, x, y);
                        if x != x1 || y != y1 {
                            lemma_index_injective(w as int, x, y, x1 as int, y1 as int);
                            assert(self.cell_shells@[self.index(x, y)] == before[self.index(x, y)]);
                            assert(holds_shells_of(prev.shells_at(x, y), old(self).pairs_of(x, y)));
                        } else {
                            assert(self.shells_at(x, y) == shells@);
                        }
                    }
                }
                x1 = x1 + 1;
            }
            y1 = y1 + 1;
        }
        proof {
            assert forall|x: int, y: int| self.in_grid(x, y) implies holds_shells_of(
                #[trigger] self.shells_at(x, y),
                self.pairs_of(x, y),
            ) by {
                self.lemma_window_pairs_frame(*old(self), x, y, window_hi(y, h as int) + 1);
            }
        }
    }

    /// The pull on cell `(x, y)` as last computed, one moment per shell.
    pub fn force_shells(&self, x: u32, y: u32) -> (r: &Vec<Moment>)
        requires
            self.wf(),
            x < self.width,
            y < self.height,
        ensures
            r@ == self.shells_at(x as int, y as int),
    {
        let n = self.cell_mass.len();
        proof {
            lemma_index_bound(self.width as int, self.height as int, x as int, y as int);
            assert(y * self.width <= y * self.width + x < n);
        }
        &self.cell_shells[y as usize * self.width as usize + x as usize]
    }
}

/// Clearing twice leaves the masses as clearing once: all zero.
pub proof fn lemma_zero_idempotent(start: Seq<u32>, once: Seq<u32>, twice: Seq<u32>)
    requires
        once == Seq::new(start.len(), |i: int| 0u32),
        twice == Seq::new(once.len(), |i: int| 0u32),
    ensures
        twice == once,
        forall|i: int| 0 <= i < twice.len() ==> #[trigger] twice[i] == 0,
{
    assert(twice =~= once);
}

impl GravityGrid {
    /// Mass is conserved: binning particles that all lie on the grid into a
    /// cleared grid leaves a total mass equal to the number of particles.
    pub proof fn lemma_mass_conservation(
        self,
        cells: Seq<Option<CellPos>>,
        r: Seq<Option<usize>>,
        after: Seq<u32>,
    )
        requires
            self.wf(),
            forall|i: int| 0 <= i < self.cell_mass@.len() ==> #[trigger] self.cell_mass@[i] == 0,
            forall|j: int| 0 <= j < cells.len() ==> (#[trigger] self.index_of(cells[j])).is_some(),
            r.len() == cells.len(),
            forall|j: int| 0 <= j < cells.len() ==> #[trigger] r[j] == self.index_of(cells[j]),
            total(after) == total(self.cell_mass@) + placed(r),
        ensures
            total(after) == cells.len(),
    {
        lemma_total_zero(self.cell_mass@);
        assert forall|j: int| 0 <= j < r.len() implies (#[trigger] r[j]).is_some() by {
            assert(self.index_of(cells[j]).is_some());
        }
        lemma_placed_all(r);
    }

    /// A particle whose cell coordinates lie off the grid (negative, or at
    /// least the grid's width or height) has no cell index, and binning it
    /// adds no mass to any cell and counts it nowhere.
    pub proof fn lemma_bounds_exclusion(self, pos: CellPos, r: Seq<Option<usize>>, i: int)
        requires
            pos.x < 0 || pos.y < 0 || pos.x >= self.width || pos.y >= self.height,
        ensures
            self.index_of(Some(pos)) == None::<usize>,
            count_at(r.push(self.index_of(Some(pos))), i) == count_at(r, i),
            placed(r.push(self.index_of(Some(pos)))) == placed(r),
    {
        assert(r.push(self.index_of(Some(pos))).drop_last() == r);
    }

    /// Newtonian symmetry: when two distinct cells holding mass lie within
    /// `RADIUS` of each other, each cell's own interaction pairs include its
    /// pair with the other, and the two pairs lie in the same shell with
    /// opposite moments, so their pulls are equal and opposite.
    pub proof fn lemma_newtonian_symmetry(self, ax: int, ay: int, bx: int, by: int)
        requires
            self.wf(),
            self.in_grid(ax, ay),
            self.in_grid(bx, by),
            ax != bx || ay != by,
            self.mass_at(ax, ay) != 0,
            self.mass_at(bx, by) != 0,
            -(RADIUS as int) <= bx - ax <= RADIUS,
            -(RADIUS as int) <= by - ay <= RADIUS,
        ensures
            self.pairs_of(ax, ay).contains(self.pair_at(ax, ay, bx, by)),
            self.pairs_of(bx, by).contains(self.pair_at(bx, by, ax, ay)),
            self.pair_at(ax, ay, bx, by).shell() == self.pair_at(bx, by, ax, ay).shell(),
            self.pair_at(ax, ay, bx, by).moment().0 == -self.pair_at(bx, by, ax, ay).moment().0,
            self.pair_at(ax, ay, bx, by).moment().1 == -self.pair_at(bx, by, ax, ay).moment().1,
    {
        self.lemma_window_pairs_contains(ax, ay, window_hi(ay, self.height as int) + 1, bx, by);
        self.lemma_window_pairs_contains(bx, by, window_hi(by, self.height as int) + 1, ax, ay);
        let p = self.pair_at(ax, ay, bx, by);
        let q = self.pair_at(bx, by, ax, ay);
        let ma = self.mass_at(ax, ay);
        let mb = self.mass_at(bx, by);
        assert(p.dx() == -q.dx() && p.dy() == -q.dy());
        assert(p.shell() == q.shell()) by (nonlinear_arith)
            requires
                p.dx() == -q.dx(),
                p.dy() == -q.dy(),
                p.shell() == p.dx() * p.dx() + p.dy() * p.dy(),
                q.shell() == q.dx() * q.dx() + q.dy() * q.dy(),
        ;
        assert(p.mass1 * p.mass2 == q.mass1 * q.mass2) by (nonlinear_arith)
            requires
                p.mass1 == q.mass2,
                p.mass2 == q.mass1,
        ;
        assert(p.moment().0 == -q.moment().0) by (nonlinear_arith)
            requires
                p.mass1 * p.mass2 == q.mass1 * q.mass2,
                p.dx() == -q.dx(),
                p.moment().0 == p.mass1 * p.mass2 * p.dx(),
                q.moment().0 == q.mass1 * q.mass2 * q.dx(),
        ;
        assert(p.moment().1 == -q.moment().1) by (nonlinear_arith)
            requires
                p.mass1 * p.mass2 == q.mass1 * q.mass2,
                p.dy() == -q.dy(),
                p.moment().1 == p.mass1 * p.mass2 * p.dy(),
                q.moment().1 == q.mass1 * q.mass2 * q.dy(),
        ;
    }
}

} // verus!
