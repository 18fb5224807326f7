//! Effects for a cube whose planes are wired in a serpentine.
//!
//! Addresses are linear. The main grid takes the cells `0 .. edge²`: grid
//! cell `a` sits in row `a / edge` and column `a % edge`. The marker span
//! takes the `edge` cells after the grid. A chain hosts a cube when it
//! holds both.
//!
//! An effect mutates the driver's buffer, flushes it and waits, over and
//! over. It touches no hardware: the flushes and waits are handed back as a
//! timeline for the caller to play.

use crate::pcg::{draw_word, pcg64_word};
use crate::shiftreg::{Driver, Pins, MAX_BITS};
use crate::timeline::lemma_settle_concat;
use crate::timeline::{chain, hold, pause, repeat, settle, shown, transmit, Step};
use vstd::arithmetic::div_mod::{
    lemma_fundamental_div_mod, lemma_fundamental_div_mod_converse_div,
    lemma_fundamental_div_mod_converse_mod, lemma_mod_bound,
};
use vstd::prelude::*;

verus! {

/// `cells` with the cells `from .. to` set to `value`.
pub open spec fn paint(cells: Seq<bool>, from: int, to: int, value: bool) -> Seq<bool> {
    Seq::new(cells.len(), |i: int| if from <= i < to { value } else { cells[i] })
}

/// Where a walk stands at step `k` when it climbs from 0 to `edge - 1` and
/// comes back down.
pub open spec fn bounce(edge: int, k: int) -> int {
    if k < edge {
        k
    } else {
        2 * edge - 2 - k
    }
}

/// A walk of `2 * edge - 2` steps starts at 0, moves by one cell per step,
/// up while the step number is below `edge` and down after that, never
/// leaves `0 .. edge`, and ends where it began.
pub proof fn lemma_bounce_walk(edge: int, k: int)
    requires
        edge >= 1,
        0 <= k < 2 * edge - 2,
    ensures
        bounce(edge, 0) == 0,
        0 <= bounce(edge, k) < edge,
        bounce(edge, k + 1) == if k + 1 < edge {
            bounce(edge, k) + 1
        } else {
            bounce(edge, k) - 1
        },
        bounce(edge, 2 * edge - 2) == 0,
{
}

/// Whether bit `index` of `word` is set.
pub open spec fn word_bit(word: u32, index: u32) -> bool {
    (1u32 << index) & word != 0
}

/// Seed of the generator behind [`Cube::effect_random_rain`].
pub const RAIN_SEED: [u8; 32] = [
    42, 42, 42, 42, 42, 42, 42, 42, 42, 42, 42, 42, 42, 42, 42, 42,
    42, 42, 42, 42, 42, 42, 42, 42, 42, 42, 42, 42, 42, 42, 42, 42,
];

/// Geometry and pace of a cube. It owns no buffer: every effect works on
/// the driver it is handed.
#[derive(Clone, Copy, Debug)]
pub struct Cube {
    /// Side of the cube, in LEDs.
    pub edge_length: usize,
    /// Frame period in milliseconds.
    pub tick_ms: u32,
}

impl Cube {
    /// Number of cells in the main grid, and address of the first marker
    /// cell.
    pub open spec fn grid(&self) -> int {
        self.edge_length * self.edge_length
    }

    /// Number of cells in the main grid and the marker span together.
    pub open spec fn span(&self) -> int {
        self.grid() + self.edge_length
    }

    /// Whether a chain with these cells hosts the grid and the marker span.
    pub open spec fn fits(&self, cells: Seq<bool>) -> bool {
        self.span() <= cells.len()
    }

    /// `cells` with grid and marker span on.
    pub open spec fn lit(&self, cells: Seq<bool>) -> Seq<bool> {
        paint(cells, 0, self.span(), true)
    }

    /// `cells` with the grid off and the marker span on.
    pub open spec fn dark(&self, cells: Seq<bool>) -> Seq<bool> {
        paint(self.lit(cells), 0, self.grid(), false)
    }

    /// `cells` with the grid on and the marker span off.
    pub open spec fn unmarked(&self, cells: Seq<bool>) -> Seq<bool> {
        paint(self.lit(cells), self.grid(), self.span(), false)
    }

    /// `cells` with the grid cells in the columns `from .. to` set to
    /// `value`.
    pub open spec fn paint_columns(&self, cells: Seq<bool>, from: int, to: int, value: bool) -> Seq<
        bool,
    > {
        Seq::new(
            cells.len(),
            |a: int|
                if 0 <= a < self.grid() && from <= a % (self.edge_length as int) < to {
                    value
                } else {
                    cells[a]
                },
        )
    }

    /// The cell in row `row` of column `column` has the address `column +
    /// row * edge`, which lies in the grid.
    pub proof fn lemma_column_cell(&self, column: int, row: int)
        requires
            0 <= column < self.edge_length,
            0 <= row < self.edge_length,
        ensures
            0 <= column + row * self.edge_length < self.grid(),
            (column + row * self.edge_length) % (self.edge_length as int) == column,
            (column + row * self.edge_length) / (self.edge_length as int) == row,
    {
        let edge = self.edge_length as int;
        let address = column + row * edge;
        assert(0 <= row * edge && address < edge * edge) by (nonlinear_arith)
            requires
                0 <= column < edge,
                0 <= row < edge,
                address == column + row * edge,
        ;
        lemma_fundamental_div_mod_converse_mod(address, edge, row, column);
        lemma_fundamental_div_mod_converse_div(address, edge, row, column);
    }

    /// Every grid cell is the cell of one row and one column.
    pub proof fn lemma_cell_column(&self, address: int)
        requires
            0 <= address < self.grid(),
        ensures
            0 <= address % (self.edge_length as int) < self.edge_length,
            0 <= address / (self.edge_length as int) < self.edge_length,
            address == address % (self.edge_length as int) + (address / (self.edge_length as int))
                * self.edge_length,
    {
        let edge = self.edge_length as int;
        assert(edge > 0) by (nonlinear_arith)
            requires
                0 <= address < edge * edge,
                edge >= 0,
        ;
        lemma_mod_bound(address, edge);
        lemma_fundamental_div_mod(address, edge);
        assert(0 <= address / edge < edge && (address / edge) * edge == edge * (address / edge))
            by (nonlinear_arith)
            requires
                0 <= address < edge * edge,
                address == edge * (address / edge) + address % edge,
                0 <= address % edge < edge,
        ;
    }

    /// No pattern of this module reaches beyond the marker span.
    pub proof fn lemma_rest_untouched(&self, cells: Seq<bool>, words: Seq<u32>, address: int)
        requires
            self.span() <= address < cells.len(),
        ensures
            self.lit(cells)[address] == cells[address],
            self.dark(cells)[address] == cells[address],
            self.unmarked(cells)[address] == cells[address],
            self.rained(cells, words)[address] == cells[address],
            forall|from: int, to: int, value: bool|
                (#[trigger] self.paint_columns(cells, from, to, value))[address] == cells[address],
    {
        assert(self.grid() <= self.span());
    }

    /// Whether the driver's chain is long enough for this cube.
    pub fn fits_driver(&self, driver: &Driver) -> (ok: bool)
        ensures
            ok == self.fits(driver@),
    {
        let bits = driver.active_length();
        let edge = self.edge_length;
        if edge > bits {
            assert(self.grid() >= 0) by (nonlinear_arith)
                requires
                    self.grid() == self.edge_length * self.edge_length,
            ;
            return false;
        }
        assert(edge * edge <= 2048 * 2048) by (nonlinear_arith)
            requires
                edge < 2048,
        ;
        edge * edge + edge <= bits
    }

    /// Number of cells in the main grid.
    fn grid_cells(&self, driver: &Driver) -> (grid: usize)
        requires
            self.fits(driver@),
        ensures
            grid == self.grid(),
            grid + self.edge_length <= driver@.len() < MAX_BITS,
    {
        let bits = driver.active_length();
        self.edge_length * self.edge_length
    }

    /// Sets the cells `from .. to` to `value`.
    fn fill(driver: &mut Driver, from: usize, to: usize, value: bool)
        requires
            to <= old(driver)@.len(),
        ensures
            final(driver)@ == paint(old(driver)@, from as int, to as int, value),
            final(driver).lines() == old(driver).lines(),
    {
        let mut i = from;
        while i < to
            invariant
                to <= driver@.len(),
                from <= i,
                i <= to || i == from,
                driver@ == paint(old(driver)@, from as int, i as int, value),
                driver.lines() == old(driver).lines(),
            decreases to - i,
        {
            driver.set(i, value).unwrap();
            assert(driver@ =~= paint(old(driver)@, from as int, i + 1, value));
            i += 1;
        }
        assert(driver@ =~= paint(old(driver)@, from as int, to as int, value));
    }

    /// Sets the grid cells of one column, row by row.
    fn set_column(&self, driver: &mut Driver, column: usize, value: bool)
        requires
            self.fits(old(driver)@),
            column < self.edge_length,
        ensures
            final(driver)@ == self.paint_columns(old(driver)@, column as int, column + 1, value),
            final(driver).lines() == old(driver).lines(),
    {
        let edge = self.edge_length;
        let grid = self.grid_cells(driver);
        for n in 0..edge
            invariant
                edge == self.edge_length,
                column < edge,
                grid == self.grid(),
                grid <= driver@.len() < MAX_BITS,
                driver@.len() == old(driver)@.len(),
                forall|a: int|
                    0 <= a < driver@.len() ==> driver@[a] == if a < grid && a / (edge as int) < n
                        && a % (edge as int) == column {
                        value
                    } else {
                        old(driver)@[a]
                    },
                driver.lines() == old(driver).lines(),
        {
            proof {
                self.lemma_column_cell(column as int, n as int);
            }
            let address = column + n * edge;
            driver.set(address, value).unwrap();
            assert forall|a: int| 0 <= a < driver@.len() implies driver@[a] == if a < grid && a / (
            edge as int) < n + 1 && a % (edge as int) == column {
                value
            } else {
                old(driver)@[a]
            } by {
                if a < grid && a / (edge as int) == n && a % (edge as int) == column {
                    self.lemma_cell_column(a);
                    assert(a == address);
                }
            }
        }
        let ghost painted = self.paint_columns(old(driver)@, column as int, column + 1, value);
        assert forall|a: int| 0 <= a < driver@.len() implies driver@[a] == painted[a] by {
            if a < grid {
                self.lemma_cell_column(a);
            }
        }
        assert(driver@ =~= painted);
    }

    /// Flood on: lights the grid and the marker span and shows the frame.
    pub fn effect_light_all(&self, driver: &mut Driver) -> (steps: Vec<Step>)
        requires
            self.fits(old(driver)@),
        ensures
            final(driver)@ == self.lit(old(driver)@),
            steps@ == shown(self.lit(old(driver)@)),
            final(driver).lines() == settle(old(driver).lines(), steps@),
    {
        let mut steps: Vec<Step> = Vec::new();
        let grid = self.grid_cells(driver);
        Self::fill(driver, 0, grid + self.edge_length, true);
        transmit(driver, &mut steps, Ghost(old(driver).lines()));
        steps
    }

    /// Flood off: after a flood on, darkens the grid and shows the frame. The
    /// marker span stays lit.
    pub fn effect_light_none(&self, driver: &mut Driver) -> (steps: Vec<Step>)
        requires
            self.fits(old(driver)@),
        ensures
            final(driver)@ == self.dark(old(driver)@),
            steps@ == shown(self.lit(old(driver)@)) + shown(self.dark(old(driver)@)),
            final(driver).lines() == settle(old(driver).lines(), steps@),
    {
        let mut steps = self.effect_light_all(driver);
        let grid = self.grid_cells(driver);
        Self::fill(driver, 0, grid, false);
        transmit(driver, &mut steps, Ghost(old(driver).lines()));
        steps
    }

    /// Number of frames in one walk up and back down.
    pub open spec fn walk_len(&self) -> nat {
        if self.edge_length == 0 {
            0
        } else {
            (2 * self.edge_length - 2) as nat
        }
    }

    /// Step `k` of a marker walk over `base`: the frame with the walking
    /// marker cell set to `on`, a wait, and `base` again.
    pub open spec fn marker_blink(&self, base: Seq<bool>, on: bool) -> spec_fn(int) -> Seq<Step> {
        |k: int|
            shown(base.update(self.grid() + bounce(self.edge_length as int, k), on)) + pause(
                self.tick_ms,
            ) + shown(base)
    }

    /// One walk of a single marker cell along the marker span and back.
    pub open spec fn marker_walk(&self, base: Seq<bool>, on: bool) -> Seq<Step> {
        chain(self.walk_len(), self.marker_blink(base, on))
    }

    /// Walks one marker cell along the span and back, blinking it to `on`.
    fn walk_marker(
        &self,
        driver: &mut Driver,
        steps: &mut Vec<Step>,
        on: bool,
        Ghost(start): Ghost<Pins>,
    )
        requires
            self.edge_length >= 1,
            self.fits(old(driver)@),
            forall|i: int| self.grid() <= i < self.span() ==> old(driver)@[i] == !on,
            old(driver).lines() == settle(start, old(steps)@),
        ensures
            final(driver)@ == old(driver)@,
            final(steps)@ == old(steps)@ + self.marker_walk(old(driver)@, on),
            final(driver).lines() == settle(start, final(steps)@),
    {
        let ghost base = driver@;
        let ghost blink = self.marker_blink(base, on);
        let edge = self.edge_length;
        let mut position = self.grid_cells(driver);
        for i in 1..edge * 2 - 1
            invariant
                edge == self.edge_length,
                edge >= 1,
                self.fits(base),
                base.len() < MAX_BITS,
                blink == self.marker_blink(base, on),
                forall|j: int| self.grid() <= j < self.span() ==> base[j] == !on,
                position == self.grid() + bounce(edge as int, i - 1),
                driver@ == base,
                steps@ == old(steps)@ + chain((i - 1) as nat, blink),
                driver.lines() == settle(start, steps@),
        {
            driver.set(position, on).unwrap();
            transmit(driver, steps, Ghost(start));
            hold(steps, self.tick_ms, Ghost(start));
            driver.set(position, !on).unwrap();
            assert(driver@ =~= base);
            transmit(driver, steps, Ghost(start));
            assert(steps@ =~= old(steps)@ + chain(i as nat, blink));
            if i < edge {
                position += 1
            } else {
                position -= 1
            }
        }
    }

    /// Plane shift over a lit cube with a dark marker span: a single lit
    /// marker cell walks up the span and back, `n_loops` times.
    pub fn effect_shift_planes2(&self, driver: &mut Driver, n_loops: usize) -> (steps: Vec<Step>)
        requires
            self.edge_length >= 1,
            self.fits(old(driver)@),
        ensures
            final(driver)@ == if n_loops == 0 {
                self.lit(old(driver)@)
            } else {
                self.unmarked(old(driver)@)
            },
            steps@ == shown(self.lit(old(driver)@)) + repeat(
                n_loops as nat,
                self.marker_walk(self.unmarked(old(driver)@), true),
            ),
            final(driver).lines() == settle(old(driver).lines(), steps@),
    {
        let ghost start = driver.lines();
        let ghost base = self.unmarked(driver@);
        let mut steps = self.effect_light_all(driver);
        let ghost flood = steps@;
        for l in 0..n_loops
            invariant
                self.edge_length >= 1,
                self.fits(driver@),
                driver@ == if l == 0 {
                    self.lit(old(driver)@)
                } else {
                    base
                },
                base == self.unmarked(old(driver)@),
                steps@ == flood + repeat(l as nat, self.marker_walk(base, true)),
                driver.lines() == settle(start, steps@),
        {
            let position = self.grid_cells(driver);
            Self::fill(driver, position, position + self.edge_length, false);
            assert(driver@ =~= base);
            self.walk_marker(driver, &mut steps, true, Ghost(start));
            assert(steps@ =~= flood + repeat((l + 1) as nat, self.marker_walk(base, true)));
        }
        steps
    }

    /// `base` with `count` cells of the marker span set to `value`, counted
    /// from the last cell down if `down`, else from the first cell up.
    pub open spec fn swept(&self, base: Seq<bool>, count: int, value: bool, down: bool) -> Seq<
        bool,
    > {
        if down {
            paint(base, self.span() - count, self.span(), value)
        } else {
            paint(base, self.grid(), self.grid() + count, value)
        }
    }

    /// Frame `k` of a sweep over `base`: one more marker cell set to
    /// `value`, then a wait.
    pub open spec fn sweep_frame(&self, base: Seq<bool>, value: bool, down: bool) -> spec_fn(
        int,
    ) -> Seq<Step> {
        |k: int| shown(self.swept(base, k + 1, value, down)) + pause(self.tick_ms)
    }

    /// One cycle of a plane fill over `cells`: the marker span goes dark, is
    /// lit cell by cell, and is darkened again in the same order.
    pub open spec fn marker_fill(&self, cells: Seq<bool>, down: bool) -> Seq<Step> {
        shown(self.unmarked(cells)) + chain(
            self.edge_length as nat,
            self.sweep_frame(self.unmarked(cells), true, down),
        ) + chain(self.edge_length as nat, self.sweep_frame(self.lit(cells), false, down))
    }

    /// Sets the marker cells to `value` one by one, a frame and a wait each.
    fn sweep_marker(
        &self,
        driver: &mut Driver,
        steps: &mut Vec<Step>,
        value: bool,
        down: bool,
        Ghost(start): Ghost<Pins>,
    )
        requires
            self.fits(old(driver)@),
            old(driver).lines() == settle(start, old(steps)@),
        ensures
            final(driver)@ == self.swept(old(driver)@, self.edge_length as int, value, down),
            final(steps)@ == old(steps)@ + chain(
                self.edge_length as nat,
                self.sweep_frame(old(driver)@, value, down),
            ),
            final(driver).lines() == settle(start, final(steps)@),
    {
        let ghost base = driver@;
        let ghost frames = self.sweep_frame(base, value, down);
        let edge = self.edge_length;
        let position = self.grid_cells(driver);
        for i in 0..edge
            invariant
                edge == self.edge_length,
                position == self.grid(),
                self.fits(base),
                base.len() < MAX_BITS,
                frames == self.sweep_frame(base, value, down),
                driver@ == self.swept(base, i as int, value, down),
                steps@ == old(steps)@ + chain(i as nat, frames),
                driver.lines() == settle(start, steps@),
        {
            let address = if down {
                position + edge - (i + 1)
            } else {
                position + i
            };
            driver.set(address, value).unwrap();
            assert(driver@ =~= self.swept(base, i + 1, value, down));
            transmit(driver, steps, Ghost(start));
            hold(steps, self.tick_ms, Ghost(start));
            assert(steps@ =~= old(steps)@ + chain((i + 1) as nat, frames));
        }
    }

    /// Runs `n_loops` plane-fill cycles after a flood on.
    fn fill_planes(&self, driver: &mut Driver, n_loops: usize, down: bool) -> (steps: Vec<Step>)
        requires
            self.fits(old(driver)@),
        ensures
            final(driver)@ == if n_loops == 0 {
                self.lit(old(driver)@)
            } else {
                self.unmarked(old(driver)@)
            },
            steps@ == shown(self.lit(old(driver)@)) + repeat(
                n_loops as nat,
                self.marker_fill(old(driver)@, down),
            ),
            final(driver).lines() == settle(old(driver).lines(), steps@),
    {
        let ghost start = driver.lines();
        let ghost lit = self.lit(driver@);
        let ghost unmarked = self.unmarked(driver@);
        let ghost cycle = self.marker_fill(driver@, down);
        let mut steps = self.effect_light_all(driver);
        let ghost flood = steps@;
        for l in 0..n_loops
            invariant
                self.fits(driver@),
                lit == self.lit(old(driver)@),
                unmarked == self.unmarked(old(driver)@),
                cycle == self.marker_fill(old(driver)@, down),
                driver@ == if l == 0 {
                    lit
                } else {
                    unmarked
                },
                steps@ == flood + repeat(l as nat, cycle),
                driver.lines() == settle(start, steps@),
        {
            let ghost played = steps@;
            let position = self.grid_cells(driver);
            Self::fill(driver, position, position + self.edge_length, false);
            assert(driver@ =~= unmarked);
            transmit(driver, &mut steps, Ghost(start));
            self.sweep_marker(driver, &mut steps, true, down, Ghost(start));
            assert(driver@ =~= lit);
            self.sweep_marker(driver, &mut steps, false, down, Ghost(start));
            assert(driver@ =~= unmarked);
            assert(steps@ =~= played + cycle);
            assert(steps@ =~= flood + repeat((l + 1) as nat, cycle));
        }
        steps
    }

    /// Plane fill up: after a flood on, `n_loops` times the marker span goes
    /// dark, fills up from its first cell and empties in the same order.
    pub fn effect_shift_planes_fill_up(&self, driver: &mut Driver, n_loops: usize) -> (steps: Vec<
        Step,
    >)
        requires
            self.fits(old(driver)@),
        ensures
            final(driver)@ == if n_loops == 0 {
                self.lit(old(driver)@)
            } else {
                self.unmarked(old(driver)@)
            },
            steps@ == shown(self.lit(old(driver)@)) + repeat(
                n_loops as nat,
                self.marker_fill(old(driver)@, false),
            ),
            final(driver).lines() == settle(old(driver).lines(), steps@),
    {
        self.fill_planes(driver, n_loops, false)
    }

    /// Plane fill down: after a flood on, `n_loops` times the marker span
    /// goes dark, fills from its last cell down and empties in the same order.
    pub fn effect_shift_planes_fill_down(&self, driver: &mut Driver, n_loops: usize) -> (steps:
        Vec<Step>)
        requires
            self.fits(old(driver)@),
        ensures
            final(driver)@ == if n_loops == 0 {
                self.lit(old(driver)@)
            } else {
                self.unmarked(old(driver)@)
            },
            steps@ == shown(self.lit(old(driver)@)) + repeat(
                n_loops as nat,
                self.marker_fill(old(driver)@, true),
            ),
            final(driver).lines() == settle(old(driver).lines(), steps@),
    {
        self.fill_planes(driver, n_loops, true)
    }

    /// Plane shift over a fully lit cube: a single dark marker cell walks up
    /// the span and back, `n_loops` times.
    pub fn effect_shift_planes(&self, driver: &mut Driver, n_loops: usize) -> (steps: Vec<Step>)
        requires
            self.edge_length >= 1,
            self.fits(old(driver)@),
        ensures
            final(driver)@ == self.lit(old(driver)@),
            steps@ == shown(self.lit(old(driver)@)) + repeat(
                n_loops as nat,
                self.marker_walk(self.lit(old(driver)@), false),
            ),
            final(driver).lines() == settle(old(driver).lines(), steps@),
    {
        let ghost start = driver.lines();
        let ghost base = self.lit(driver@);
        let mut steps = self.effect_light_all(driver);
        let ghost flood = steps@;
        for l in 0..n_loops
            invariant
                self.edge_length >= 1,
                self.fits(driver@),
                driver@ == base,
                base == self.lit(old(driver)@),
                steps@ == flood + repeat(l as nat, self.marker_walk(base, false)),
                driver.lines() == settle(start, steps@),
        {
            self.walk_marker(driver, &mut steps, false, Ghost(start));
            assert(steps@ =~= flood + repeat((l + 1) as nat, self.marker_walk(base, false)));
        }
        steps
    }

    /// Step `k` of a wall walk over `base`: the frame with the walking row
    /// set to `on`, a wait, and `base` again.
    pub open spec fn wall_blink(&self, base: Seq<bool>, on: bool) -> spec_fn(int) -> Seq<Step> {
        |k: int|
            {
                let at = self.edge_length * bounce(self.edge_length as int, k);
                shown(paint(base, at, at + self.edge_length, on)) + pause(self.tick_ms) + shown(
                    base,
                )
            }
    }

    /// One walk of a whole row across the main grid and back.
    pub open spec fn wall_walk(&self, base: Seq<bool>, on: bool) -> Seq<Step> {
        chain(self.walk_len(), self.wall_blink(base, on))
    }

    /// Walks one row across the grid and back, blinking it to `on`.
    fn walk_wall(
        &self,
        driver: &mut Driver,
        steps: &mut Vec<Step>,
        on: bool,
        Ghost(start): Ghost<Pins>,
    )
        requires
            self.edge_length >= 1,
            self.fits(old(driver)@),
            forall|i: int| 0 <= i < self.grid() ==> old(driver)@[i] == !on,
            old(driver).lines() == settle(start, old(steps)@),
        ensures
            final(driver)@ == old(driver)@,
            final(steps)@ == old(steps)@ + self.wall_walk(old(driver)@, on),
            final(driver).lines() == settle(start, final(steps)@),
    {
        let ghost base = driver@;
        let ghost blink = self.wall_blink(base, on);
        let edge = self.edge_length;
        let grid = self.grid_cells(driver);
        let mut position: usize = 0;
        assert(edge * bounce(edge as int, 0) == 0) by (nonlinear_arith)
            requires
                bounce(edge as int, 0) == 0,
        ;
        for n in 1..edge * 2 - 1
            invariant
                edge == self.edge_length,
                edge >= 1,
                grid == self.grid(),
                self.fits(base),
                base.len() < MAX_BITS,
                blink == self.wall_blink(base, on),
                forall|j: int| 0 <= j < self.grid() ==> base[j] == !on,
                position == edge * bounce(edge as int, n - 1),
                driver@ == base,
                steps@ == old(steps)@ + chain((n - 1) as nat, blink),
                driver.lines() == settle(start, steps@),
        {
            let ghost row = bounce(edge as int, n - 1);
            assert(edge * row + edge <= edge * edge && edge * (row + 1) == edge * row + edge
                && edge * (row - 1) == edge * row - edge && edge * row >= 0) by (nonlinear_arith)
                requires
                    0 <= row < edge,
            ;
            Self::fill(driver, position, position + edge, on);
            transmit(driver, steps, Ghost(start));
            hold(steps, self.tick_ms, Ghost(start));
            Self::fill(driver, position, position + edge, !on);
            assert(driver@ =~= base);
            transmit(driver, steps, Ghost(start));
            assert(steps@ =~= old(steps)@ + chain(n as nat, blink));
            if n < edge {
                position += edge
            } else {
                position -= edge
            }
        }
    }

    /// Wall shift over a dark grid: a lit row walks across the grid and
    /// back, `n_loops` times.
    pub fn effect_shift_walls2(&self, driver: &mut Driver, n_loops: usize) -> (steps: Vec<Step>)
        requires
            self.edge_length >= 1,
            self.fits(old(driver)@),
        ensures
            final(driver)@ == self.dark(old(driver)@),
            steps@ == shown(self.lit(old(driver)@)) + shown(self.dark(old(driver)@)) + repeat(
                n_loops as nat,
                self.wall_walk(self.dark(old(driver)@), true),
            ),
            final(driver).lines() == settle(old(driver).lines(), steps@),
    {
        let ghost start = driver.lines();
        let ghost base = self.dark(driver@);
        let mut steps = self.effect_light_none(driver);
        let ghost flood = steps@;
        for l in 0..n_loops
            invariant
                self.edge_length >= 1,
                self.fits(driver@),
                driver@ == base,
                base == self.dark(old(driver)@),
                steps@ == flood + repeat(l as nat, self.wall_walk(base, true)),
                driver.lines() == settle(start, steps@),
        {
            self.walk_wall(driver, &mut steps, true, Ghost(start));
            assert(steps@ =~= flood + repeat((l + 1) as nat, self.wall_walk(base, true)));
        }
        steps
    }

    /// Wall shift over a fully lit cube: a dark row walks across the grid
    /// and back, `n_loops` times.
    pub fn effect_shift_walls(&self, driver: &mut Driver, n_loops: usize) -> (steps: Vec<Step>)
        requires
            self.edge_length >= 1,
            self.fits(old(driver)@),
        ensures
            final(driver)@ == self.lit(old(driver)@),
            steps@ == shown(self.lit(old(driver)@)) + repeat(
                n_loops as nat,
                self.wall_walk(self.lit(old(driver)@), false),
            ),
            final(driver).lines() == settle(old(driver).lines(), steps@),
    {
        let ghost start = driver.lines();
        let ghost base = self.lit(driver@);
        let mut steps = self.effect_light_all(driver);
        let ghost flood = steps@;
        for l in 0..n_loops
            invariant
                self.edge_length >= 1,
                self.fits(driver@),
                driver@ == base,
                base == self.lit(old(driver)@),
                steps@ == flood + repeat(l as nat, self.wall_walk(base, false)),
                driver.lines() == settle(start, steps@),
        {
            self.walk_wall(driver, &mut steps, false, Ghost(start));
            assert(steps@ =~= flood + repeat((l + 1) as nat, self.wall_walk(base, false)));
        }
        steps
    }

    /// Number of words one rain frame consumes: one per 32 grid cells begun.
    pub open spec fn rain_chunks(&self) -> int {
        (self.grid() + 31) / 32
    }

    /// `cells` after `word` has rained on chunk `chunk` of the grid: grid
    /// cell `32 * chunk + j` lands on cell `j` with bit `j` of the word.
    pub open spec fn sprinkled(&self, cells: Seq<bool>, chunk: int, word: u32) -> Seq<bool> {
        Seq::new(
            cells.len(),
            |j: int|
                if 0 <= j < 32 && 32 * chunk + j < self.grid() {
                    word_bit(word, j as u32)
                } else {
                    cells[j]
                },
        )
    }

    /// `cells` after a whole rain frame with the words `words`: cell `j`
    /// shows bit `j` of the last word that reached it.
    pub open spec fn rained(&self, cells: Seq<bool>, words: Seq<u32>) -> Seq<bool> {
        Seq::new(
            cells.len(),
            |j: int|
                if 0 <= j < 32 && j < self.grid() {
                    word_bit(words[(self.grid() - 1 - j) / 32], j as u32)
                } else {
                    cells[j]
                },
        )
    }

    /// What a rain frame shows on grid and marker span depends on the
    /// frame's words alone: two runs with the same words show the same
    /// pattern, whatever the chains held before.
    pub proof fn lemma_rain_pattern(
        &self,
        first: Seq<bool>,
        second: Seq<bool>,
        words: Seq<u32>,
        address: int,
    )
        requires
            self.fits(first),
            self.fits(second),
            0 <= address < self.span(),
        ensures
            self.rained(self.dark(first), words)[address] == self.rained(
                self.dark(second),
                words,
            )[address],
    {
    }

    /// Lets one word rain on chunk `chunk` of the grid. A chunk beyond the
    /// grid changes nothing.
    pub fn rain_word(&self, driver: &mut Driver, chunk: usize, word: u32)
        requires
            self.fits(old(driver)@),
        ensures
            final(driver)@ == self.sprinkled(old(driver)@, chunk as int, word),
            final(driver).lines() == old(driver).lines(),
    {
        let grid = self.grid_cells(driver);
        if chunk > grid / 32 {
            assert(driver@ =~= self.sprinkled(old(driver)@, chunk as int, word));
            return ;
        }
        let first = chunk * 32;
        let mut index: usize = 0;
        while index < 32 && first + index < grid
            invariant
                index <= 32,
                first == 32 * chunk,
                first + index <= grid,
                grid == self.grid(),
                grid <= driver@.len() < MAX_BITS,
                driver@.len() == old(driver)@.len(),
                forall|j: int|
                    0 <= j < driver@.len() ==> driver@[j] == if j < index {
                        word_bit(word, j as u32)
                    } else {
                        old(driver)@[j]
                    },
                driver.lines() == old(driver).lines(),
            decreases 32 - index,
        {
            if (1u32 << (index as u32)) & word == 0 {
                driver.set(index, false).unwrap()
            } else {
                driver.set(index, true).unwrap()
            }
            index += 1;
        }
        assert(driver@ =~= self.sprinkled(old(driver)@, chunk as int, word));
    }

    /// The words of rain frame `l` from a generator seeded with `seed`. The
    /// generator's first word is drawn and dropped before the first frame.
    pub open spec fn rain_words(&self, seed: Seq<u8>, l: int) -> Seq<u32> {
        Seq::new(
            self.rain_chunks() as nat,
            |c: int| pcg64_word(seed, (1 + l * self.rain_chunks() + c) as nat),
        )
    }

    /// Frame `l` of the rain over `base`: the rained cells, then a wait.
    pub open spec fn rain_frame(&self, base: Seq<bool>, seed: Seq<u8>) -> spec_fn(int) -> Seq<
        Step,
    > {
        |l: int| shown(self.rained(base, self.rain_words(seed, l))) + pause(self.tick_ms)
    }

    /// Random rain from a generator seeded with `seed`: after a flood off,
    /// `n_loops` frames in which the first 32 grid cells show bits of
    /// successive generator words.
    pub fn effect_random_rain_seeded(
        &self,
        driver: &mut Driver,
        seed: &[u8; 32],
        n_loops: usize,
    ) -> (steps: Vec<Step>)
        requires
            self.fits(old(driver)@),
        ensures
            final(driver)@ == if n_loops == 0 {
                self.dark(old(driver)@)
            } else {
                self.rained(self.dark(old(driver)@), self.rain_words(seed@, n_loops - 1))
            },
            steps@ == shown(self.lit(old(driver)@)) + shown(self.dark(old(driver)@)) + chain(
                n_loops as nat,
                self.rain_frame(self.dark(old(driver)@), seed@),
            ),
            final(driver).lines() == settle(old(driver).lines(), steps@),
    {
        let ghost start = driver.lines();
        let ghost base = self.dark(driver@);
        let ghost frames = self.rain_frame(base, seed@);
        let mut steps = self.effect_light_none(driver);
        let ghost flood = steps@;
        let grid = self.grid_cells(driver);
        let chunks = (grid + 31) / 32;
        for l in 0..n_loops
            invariant
                grid == self.grid(),
                chunks == self.rain_chunks(),
                chunks <= 64,
                self.fits(driver@),
                base == self.dark(old(driver)@),
                frames == self.rain_frame(base, seed@),
                driver@ == if l == 0 {
                    base
                } else {
                    self.rained(base, self.rain_words(seed@, l - 1))
                },
                steps@ == flood + chain(l as nat, frames),
                driver.lines() == settle(start, steps@),
        {
            let ghost before = driver@;
            let ghost words = self.rain_words(seed@, l as int);
            for chunk in 0..chunks
                invariant
                    grid == self.grid(),
                    chunks == self.rain_chunks(),
                    chunks <= 64,
                    self.fits(driver@),
                    words == self.rain_words(seed@, l as int),
                    driver@.len() == before.len(),
                    forall|j: int|
                        0 <= j < before.len() ==> driver@[j] == if j < 32 && j < grid && chunk
                            > 0 {
                            word_bit(
                                words[if chunk - 1 < (grid - 1 - j) / 32 {
                                    chunk - 1
                                } else {
                                    (grid - 1 - j) / 32
                                }],
                                j as u32,
                            )
                        } else {
                            before[j]
                        },
                    driver.lines() == settle(start, steps@),
            {
                assert(l * chunks <= usize::MAX * 64) by (nonlinear_arith)
                    requires
                        0 <= l <= usize::MAX,
                        0 <= chunks <= 64,
                ;
                let skipped: u128 = 1 + (l as u128) * (chunks as u128) + (chunk as u128);
                let word = draw_word(seed, skipped);
                assert(word == words[chunk as int]);
                self.rain_word(driver, chunk, word);
            }
            assert(driver@ =~= self.rained(base, words));
            transmit(driver, &mut steps, Ghost(start));
            hold(&mut steps, self.tick_ms, Ghost(start));
            assert(steps@ =~= flood + chain((l + 1) as nat, frames));
        }
        steps
    }

    /// Random rain from the generator seeded with [`RAIN_SEED`].
    pub fn effect_random_rain(&self, driver: &mut Driver, n_loops: usize) -> (steps: Vec<Step>)
        requires
            self.fits(old(driver)@),
        ensures
            final(driver)@ == if n_loops == 0 {
                self.dark(old(driver)@)
            } else {
                self.rained(self.dark(old(driver)@), self.rain_words(RAIN_SEED@, n_loops - 1))
            },
            steps@ == shown(self.lit(old(driver)@)) + shown(self.dark(old(driver)@)) + chain(
                n_loops as nat,
                self.rain_frame(self.dark(old(driver)@), RAIN_SEED@),
            ),
            final(driver).lines() == settle(old(driver).lines(), steps@),
    {
        self.effect_random_rain_seeded(driver, &RAIN_SEED, n_loops)
    }

    /// Frame `i` of a snake walk over `base`: grid cell `i` lit, a wait,
    /// and `base` again.
    pub open spec fn cell_blink(&self, base: Seq<bool>) -> spec_fn(int) -> Seq<Step> {
        |i: int| shown(base.update(i, true)) + pause(self.tick_ms) + shown(base)
    }

    /// One walk of a lit cell over the whole grid, in address order.
    pub open spec fn snake_path(&self, base: Seq<bool>) -> Seq<Step> {
        chain(self.grid() as nat, self.cell_blink(base))
    }

    /// Snake walk: after a flood off, `n_loops` times every grid cell is
    /// lit alone, one after the other in address order.
    pub fn effect_snake_walk(&self, driver: &mut Driver, n_loops: usize) -> (steps: Vec<Step>)
        requires
            self.fits(old(driver)@),
        ensures
            final(driver)@ == self.dark(old(driver)@),
            steps@ == shown(self.lit(old(driver)@)) + shown(self.dark(old(driver)@)) + repeat(
                n_loops as nat,
                self.snake_path(self.dark(old(driver)@)),
            ),
            final(driver).lines() == settle(old(driver).lines(), steps@),
    {
        let ghost start = driver.lines();
        let ghost base = self.dark(driver@);
        let ghost blink = self.cell_blink(base);
        let mut steps = self.effect_light_none(driver);
        let ghost flood = steps@;
        let grid = self.grid_cells(driver);
        for l in 0..n_loops
            invariant
                grid == self.grid(),
                grid <= base.len(),
                base == self.dark(old(driver)@),
                blink == self.cell_blink(base),
                driver@ == base,
                steps@ == flood + repeat(l as nat, self.snake_path(base)),
                driver.lines() == settle(start, steps@),
        {
            let ghost played = steps@;
            for i in 0..grid
                invariant
                    grid == self.grid(),
                    grid <= base.len(),
                    base == self.dark(old(driver)@),
                    blink == self.cell_blink(base),
                    driver@ == base,
                    steps@ == played + chain(i as nat, blink),
                    driver.lines() == settle(start, steps@),
            {
                driver.set(i, true).unwrap();
                transmit(driver, &mut steps, Ghost(start));
                hold(&mut steps, self.tick_ms, Ghost(start));
                driver.set(i, false).unwrap();
                assert(driver@ =~= base);
                transmit(driver, &mut steps, Ghost(start));
                assert(steps@ =~= played + chain((i + 1) as nat, blink));
            }
            assert(steps@ =~= flood + repeat((l + 1) as nat, self.snake_path(base)));
        }
        steps
    }

    /// Frame `i` of a scissors pass over `base`: column `i` alone lit, then
    /// a wait.
    pub open spec fn scissors_frame(&self, base: Seq<bool>) -> spec_fn(int) -> Seq<Step> {
        |i: int| shown(self.paint_columns(base, i, i + 1, true)) + pause(self.tick_ms)
    }

    /// One scissors cycle over `cells`: flood on, flood off, then a lit
    /// column moves across the grid.
    pub open spec fn scissors_cycle(&self, cells: Seq<bool>) -> Seq<Step> {
        shown(self.lit(cells)) + shown(self.dark(cells)) + chain(
            self.edge_length as nat,
            self.scissors_frame(self.dark(cells)),
        )
    }

    /// Scissors: `n_loops` times, after a flood off, a single lit column
    /// moves from column 0 to the last column. The last column stays lit.
    pub fn effect_scissors(&self, driver: &mut Driver, n_loops: usize) -> (steps: Vec<Step>)
        requires
            self.fits(old(driver)@),
        ensures
            final(driver)@ == if n_loops == 0 {
                old(driver)@
            } else {
                self.paint_columns(
                    self.dark(old(driver)@),
                    self.edge_length - 1,
                    self.edge_length as int,
                    true,
                )
            },
            steps@ == repeat(n_loops as nat, self.scissors_cycle(old(driver)@)),
            final(driver).lines() == settle(old(driver).lines(), steps@),
    {
        let ghost start = driver.lines();
        let ghost lit = self.lit(driver@);
        let ghost base = self.dark(driver@);
        let ghost frames = self.scissors_frame(base);
        let ghost cycle = self.scissors_cycle(driver@);
        let edge = self.edge_length;
        let mut steps: Vec<Step> = Vec::new();
        for l in 0..n_loops
            invariant
                edge == self.edge_length,
                self.fits(old(driver)@),
                lit == self.lit(old(driver)@),
                base == self.dark(old(driver)@),
                frames == self.scissors_frame(base),
                cycle == self.scissors_cycle(old(driver)@),
                driver@ == if l == 0 {
                    old(driver)@
                } else {
                    self.paint_columns(base, edge - 1, edge as int, true)
                },
                steps@ == repeat(l as nat, cycle),
                driver.lines() == settle(start, steps@),
        {
            let ghost played = steps@;
            assert(self.lit(driver@) =~= lit);
            assert(self.dark(driver@) =~= base);
            let mut flood = self.effect_light_none(driver);
            proof {
                lemma_settle_concat(start, played, flood@);
            }
            steps.append(&mut flood);
            let ghost flooded = steps@;
            for i in 0..edge
                invariant
                    edge == self.edge_length,
                    self.fits(base),
                    base == self.dark(old(driver)@),
                    frames == self.scissors_frame(base),
                    driver@ == if i == 0 {
                        base
                    } else {
                        self.paint_columns(base, i - 1, i as int, true)
                    },
                    steps@ == flooded + chain(i as nat, frames),
                    driver.lines() == settle(start, steps@),
            {
                self.set_column(driver, i, true);
                if i > 0 {
                    self.set_column(driver, i - 1, false);
                }
                assert(driver@ =~= self.paint_columns(base, i as int, i + 1, true));
                transmit(driver, &mut steps, Ghost(start));
                hold(&mut steps, self.tick_ms, Ghost(start));
                assert(steps@ =~= flooded + chain((i + 1) as nat, frames));
            }
            assert(driver@ =~= self.paint_columns(base, edge - 1, edge as int, true));
            assert(steps@ =~= played + cycle);
        }
        steps
    }

    /// Frame `i` of a curtain over `base`: the columns `0 ..= i` set to
    /// `value`, then a wait.
    pub open spec fn curtain_frame(&self, base: Seq<bool>, value: bool) -> spec_fn(int) -> Seq<
        Step,
    > {
        |i: int| shown(self.paint_columns(base, 0, i + 1, value)) + pause(self.tick_ms)
    }

    /// One scissors-fill cycle over `cells`: flood on, flood off, then the
    /// grid fills column by column and empties in the same order.
    pub open spec fn scissors_fill_cycle(&self, cells: Seq<bool>) -> Seq<Step> {
        shown(self.lit(cells)) + shown(self.dark(cells)) + chain(
            self.edge_length as nat,
            self.curtain_frame(self.dark(cells), true),
        ) + chain(self.edge_length as nat, self.curtain_frame(self.lit(cells), false))
    }

    /// Sets the grid's columns to `value` one by one, a frame and a wait
    /// each.
    fn draw_curtain(
        &self,
        driver: &mut Driver,
        steps: &mut Vec<Step>,
        value: bool,
        Ghost(start): Ghost<Pins>,
    )
        requires
            self.fits(old(driver)@),
            old(driver).lines() == settle(start, old(steps)@),
        ensures
            final(driver)@ == self.paint_columns(
                old(driver)@,
                0,
                self.edge_length as int,
                value,
            ),
            final(steps)@ == old(steps)@ + chain(
                self.edge_length as nat,
                self.curtain_frame(old(driver)@, value),
            ),
            final(driver).lines() == settle(start, final(steps)@),
    {
        let ghost base = driver@;
        let ghost frames = self.curtain_frame(base, value);
        let edge = self.edge_length;
        for i in 0..edge
            invariant
                edge == self.edge_length,
                self.fits(base),
                frames == self.curtain_frame(base, value),
                driver@ == self.paint_columns(base, 0, i as int, value),
                steps@ == old(steps)@ + chain(i as nat, frames),
                driver.lines() == settle(start, steps@),
        {
            self.set_column(driver, i, value);
            assert(driver@ =~= self.paint_columns(base, 0, i + 1, value));
            transmit(driver, steps, Ghost(start));
            hold(steps, self.tick_ms, Ghost(start));
            assert(steps@ =~= old(steps)@ + chain((i + 1) as nat, frames));
        }
    }

    /// Scissors fill: `n_loops` times, after a flood off, the grid fills
    /// column by column and then empties column by column.
    pub fn effect_scissors_fill(&self, driver: &mut Driver, n_loops: usize) -> (steps: Vec<Step>)
        requires
            self.fits(old(driver)@),
        ensures
            final(driver)@ == if n_loops == 0 {
                old(driver)@
            } else {
                self.dark(old(driver)@)
            },
            steps@ == repeat(n_loops as nat, self.scissors_fill_cycle(old(driver)@)),
            final(driver).lines() == settle(old(driver).lines(), steps@),
    {
        let ghost start = driver.lines();
        let ghost lit = self.lit(driver@);
        let ghost base = self.dark(driver@);
        let ghost cycle = self.scissors_fill_cycle(driver@);
        let mut steps: Vec<Step> = Vec::new();
        for l in 0..n_loops
            invariant
                self.fits(old(driver)@),
                lit == self.lit(old(driver)@),
                base == self.dark(old(driver)@),
                cycle == self.scissors_fill_cycle(old(driver)@),
                driver@ == if l == 0 {
                    old(driver)@
                } else {
                    base
                },
                steps@ == repeat(l as nat, cycle),
                driver.lines() == settle(start, steps@),
        {
            let ghost played = steps@;
            assert(self.lit(driver@) =~= lit);
            assert(self.dark(driver@) =~= base);
            let mut flood = self.effect_light_none(driver);
            proof {
                lemma_settle_concat(start, played, flood@);
            }
            steps.append(&mut flood);
            self.draw_curtain(driver, &mut steps, true, Ghost(start));
            assert(driver@ =~= lit) by {
                self.lemma_columns_cover_grid(base, true);
            }
            self.draw_curtain(driver, &mut steps, false, Ghost(start));
            assert(driver@ =~= base) by {
                self.lemma_columns_cover_grid(lit, false);
            }
            assert(steps@ =~= played + cycle);
        }
        steps
    }

    /// Painting every column paints the whole grid.
    proof fn lemma_columns_cover_grid(&self, cells: Seq<bool>, value: bool)
        ensures
            self.paint_columns(cells, 0, self.edge_length as int, value) == paint(
                cells,
                0,
                self.grid(),
                value,
            ),
    {
        let edge = self.edge_length as int;
        let columns = self.paint_columns(cells, 0, edge, value);
        let whole = paint(cells, 0, self.grid(), value);
        assert forall|a: int| 0 <= a < cells.len() implies columns[a] == whole[a] by {
            if a < self.grid() {
                assert(edge > 0) by (nonlinear_arith)
                    requires
                        0 <= a < edge * edge,
                        edge >= 0,
                ;
                lemma_mod_bound(a, edge);
            }
        }
        assert(self.paint_columns(cells, 0, edge, value) =~= paint(cells, 0, self.grid(), value));
    }
}

} // verus!
