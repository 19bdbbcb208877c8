//! The field itself: construction, configuration and direct cell access.

use vstd::prelude::*;
use rand::rngs::StdRng;
use crate::random::{entropy_rng, seeded_generator, seeded_rng};
use crate::symbols::TileSymbols;
use crate::tile::TILE_UP;
use crate::view::{default_bomb_count, lemma_index_in_range, FieldView};

verus! {

/// Why a field could not be built.
#[derive(Debug, Clone, Copy, PartialEq, Eq, Structural)]
pub enum FieldError {
    /// The width or the height is zero.
    ZeroDimension,
    /// The number of cells does not fit in a `usize`.
    AreaOverflow,
}

/// A rectangular mine field.
pub struct MineField {
    pub(crate) grid: Vec<u8>,
    pub(crate) width: usize,
    pub(crate) height: usize,
    pub(crate) bomb_count: i32,
    pub(crate) bombs_left: i32,
    pub(crate) rng: StdRng,
    pub(crate) first_sweep: bool,
    pub(crate) tile_symbols: TileSymbols,
}

impl MineField {
    /// The field as mathematics. The random source is no part of it.
    pub open(crate) spec fn view(&self) -> FieldView {
        FieldView {
            width: self.width as nat,
            height: self.height as nat,
            cells: self.grid@,
            bomb_count: self.bomb_count as int,
            bombs_left: self.bombs_left as int,
            first_sweep: self.first_sweep,
            symbols: self.tile_symbols,
        }
    }

    /// The invariant every operation keeps: positive dimensions and one byte
    /// per cell.
    pub open spec fn wf(&self) -> bool {
        self@.wf()
    }

    /// Builds a field of `width` by `height` covered, empty tiles. No mine is
    /// placed yet: the first sweep does that.
    pub fn new(width: usize, height: usize) -> (r: Result<MineField, FieldError>)
        ensures
            match r {
                Ok(field) => {
                    &&& width > 0
                    &&& height > 0
                    &&& width * height <= usize::MAX
                    &&& field.wf()
                    &&& field@ == FieldView::fresh(width as nat, height as nat)
                },
                Err(FieldError::ZeroDimension) => width == 0 || height == 0,
                Err(FieldError::AreaOverflow) => width > 0 && height > 0 && width * height
                    > usize::MAX,
            },
    {
        if width == 0 || height == 0 {
            return Err(FieldError::ZeroDimension);
        }
        let area: usize = match width.checked_mul(height) {
            Some(area) => area,
            None => {
                return Err(FieldError::AreaOverflow);
            },
        };
        let mut field = MineField {
            grid: vec![0u8; area],
            width,
            height,
            bomb_count: 0,
            bombs_left: 0,
            rng: entropy_rng(),
            first_sweep: true,
            tile_symbols: TileSymbols::new(TileSymbols::DEFAULT),
        };
        field.bomb_count = Self::default_count(area);
        field.reset();
        assert(field@.cells =~= FieldView::fresh(width as nat, height as nat).cells);
        Ok(field)
    }

    /// A third of `area`, as whole mines.
    fn default_count(area: usize) -> (count: i32)
        ensures
            count == default_bomb_count(area as nat),
    {
        let rounded: u128 = (area as u128 * 33 + 50) / 100;
        if rounded > i32::MAX as u128 {
            i32::MAX
        } else {
            rounded as i32
        }
    }

    pub fn width(&self) -> (w: usize)
        ensures
            w == self@.width,
    {
        self.width
    }

    pub fn height(&self) -> (h: usize)
        ensures
            h == self@.height,
    {
        self.height
    }

    pub fn area(&self) -> (a: usize)
        requires
            self.wf(),
        ensures
            a == self@.area(),
    {
        self.grid.len()
    }

    /// The configured number of mines.
    pub fn bomb_count(&self) -> (n: i32)
        ensures
            n == self@.bomb_count,
    {
        self.bomb_count
    }

    /// The mines-remaining counter.
    pub fn bombs_left(&self) -> (n: i32)
        ensures
            n == self@.bombs_left,
    {
        self.bombs_left
    }

    /// Position of the in-grid cell `(x, y)` in the buffer.
    pub(crate) fn index(&self, x: usize, y: usize) -> (k: usize)
        requires
            self.wf(),
            self@.in_bounds(x as int, y as int),
        ensures
            k == self@.index_of(x as int, y as int),
            k < self.grid.len(),
    {
        proof {
            lemma_index_in_range(self@, x as int, y as int);
            assert(0 <= (y as int) * (self.width as int)) by (nonlinear_arith);
            assert(self@.index_of(x as int, y as int) == x + y * self.width);
            assert(x + y * self.width < self.grid.len());
        }
        x + y * self.width
    }

    /// The byte of cell `(x, y)`, which must lie inside the grid.
    pub fn get_value(&self, x: usize, y: usize) -> (v: u8)
        requires
            self.wf(),
            self@.in_bounds(x as int, y as int),
        ensures
            v == self@.cell(x as int, y as int),
    {
        let k: usize = self.index(x, y);
        self.grid[k]
    }

    /// The byte of cell `(x, y)`, or `None` when the cell lies outside the grid.
    pub fn get_value_checked(&self, x: usize, y: usize) -> (r: Option<u8>)
        requires
            self.wf(),
        ensures
            r == if self@.in_bounds(x as int, y as int) {
                Some(self@.cell(x as int, y as int))
            } else {
                None
            },
    {
        if x >= self.width || y >= self.height {
            return None;
        }
        Some(self.get_value(x, y))
    }

    /// Overwrites the byte of cell `(x, y)`, which must lie inside the grid.
    pub fn set_value(&mut self, x: usize, y: usize, value: u8)
        requires
            old(self).wf(),
            old(self)@.in_bounds(x as int, y as int),
        ensures
            final(self).wf(),
            final(self)@ == old(self)@.with_cell(x as int, y as int, value),
    {
        let k: usize = self.index(x, y);
        self.grid[k] = value;
    }

    /// Adds `value` to the byte of cell `(x, y)`. The cell must lie inside the
    /// grid and the sum must fit in a byte.
    pub fn inc_value(&mut self, x: usize, y: usize, value: u8)
        requires
            old(self).wf(),
            old(self)@.in_bounds(x as int, y as int),
            old(self)@.cell(x as int, y as int) + value <= u8::MAX,
        ensures
            final(self).wf(),
            final(self)@ == old(self)@.with_cell(
                x as int,
                y as int,
                (old(self)@.cell(x as int, y as int) + value) as u8,
            ),
    {
        let k: usize = self.index(x, y);
        self.grid[k] = self.grid[k] + value;
    }

    /// Overwrites the byte of cell `(x, y)` and returns `true`, or returns
    /// `false` and changes nothing when the cell lies outside the grid.
    pub fn set_value_ckecked(&mut self, x: usize, y: usize, value: u8) -> (done: bool)
        requires
            old(self).wf(),
        ensures
            final(self).wf(),
            done == old(self)@.in_bounds(x as int, y as int),
            final(self)@ == if done {
                old(self)@.with_cell(x as int, y as int, value)
            } else {
                old(self)@
            },
    {
        if x >= self.width || y >= self.height {
            return false;
        }
        self.set_value(x, y, value);
        true
    }

    /// Replaces the random source by one seeded from the operating system.
    /// Mines that are already placed stay where they are.
    pub fn set_random_seed(&mut self)
        ensures
            final(self)@ == old(self)@,
    {
        self.rng = entropy_rng();
    }

    /// Replaces the random source by one seeded with `seed`. Mines that are
    /// already placed stay where they are.
    pub fn set_seed(&mut self, seed: u64)
        ensures
            final(self)@ == old(self)@,
            final(self).source() == seeded_generator(seed),
    {
        self.rng = seeded_rng(seed);
    }

    /// The random source that the next population draws from.
    pub closed spec fn source(&self) -> StdRng {
        self.rng
    }

    /// Sets the number of mines the next population aims for. Any number is
    /// taken as it is.
    pub fn set_bomb_count(&mut self, count: i32)
        ensures
            final(self)@ == (FieldView { bomb_count: count as int, ..old(self)@ }),
    {
        self.bomb_count = count;
    }

    /// Zeroes every cell.
    pub fn clear(&mut self)
        requires
            old(self).wf(),
        ensures
            final(self).wf(),
            final(self)@ == old(self)@.filled(0),
    {
        self.fill(0);
    }

    /// Sets every cell to covered and empty, restores the mines-remaining
    /// counter to the configured count and re-arms the first sweep. Mine
    /// positions and numbers are gone afterwards.
    pub fn reset(&mut self)
        requires
            old(self).wf(),
        ensures
            final(self).wf(),
            final(self)@ == (FieldView {
                bombs_left: old(self)@.bomb_count,
                first_sweep: true,
                ..old(self)@.filled(TILE_UP)
            }),
    {
        self.fill(TILE_UP);
        self.bombs_left = self.bomb_count;
        self.first_sweep = true;
    }

    /// Sets every cell to `v`.
    fn fill(&mut self, v: u8)
        requires
            old(self).wf(),
        ensures
            final(self).wf(),
            final(self)@ == old(self)@.filled(v),
    {
        let ghost n = self@.cells.len();
        let mut it = self.iter_mut();
        let ghost whole = final(it.grid)@;
        loop
            invariant
                it.wf(),
                it.cells().len() == n,
                forall|j: int| 0 <= j < it.position() ==> it.cells()[j] == v,
                final(it.grid)@ == whole,
            ensures
                it.position() == n,
            decreases n - it.position(),
        {
            match it.next() {
                Some(tile) => {
                    *tile.val = v;
                },
                None => {
                    break;
                },
            }
        }
        assert(whole =~= old(self)@.filled(v).cells);
    }
}

} // verus!
