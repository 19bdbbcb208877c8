//! Walking a field cell by cell, row after row: once to read, once to write.

use vstd::prelude::*;
use crate::field::MineField;
use crate::tile::{MutTile, Tile};
use crate::view::{lemma_index_in_range, lemma_position_in_grid, FieldView};

verus! {

/// A walk over the tiles of a field that hands out snapshots.
pub struct MineFieldItr<'field> {
    field: &'field MineField,
    curr_x: usize,
    curr_y: usize,
}

/// A walk over the cells of a field that hands out one exclusive handle
/// after the other.
pub struct MutMineFieldItr<'field> {
    pub grid: &'field mut Vec<u8>,
    pub curr_x: usize,
    pub curr_y: usize,
    pub width: usize,
    pub position: usize,
}

impl<'field> MineFieldItr<'field> {
    /// The field that is walked.
    pub closed spec fn field(&self) -> FieldView {
        self.field@
    }

    /// The position of the tile that comes next; the area when none is left.
    pub closed spec fn position(&self) -> int {
        self.curr_x + self.curr_y * self.field.width
    }

    /// The walk stands on a cell of the field, or at its end.
    pub closed spec fn wf(&self) -> bool {
        &&& self.field.wf()
        &&& self.curr_y <= self.field.height
        &&& if self.curr_y == self.field.height {
            self.curr_x == 0
        } else {
            self.curr_x < self.field.width
        }
    }

    /// The snapshot of the next tile, as the field is at this moment, or
    /// `None` after the last one.
    pub fn next(&mut self) -> (r: Option<Tile>)
        requires
            old(self).wf(),
        ensures
            final(self).wf(),
            final(self).field() == old(self).field(),
            0 <= old(self).position() <= old(self).field().area(),
            match r {
                Some(tile) => {
                    &&& old(self).position() < old(self).field().area()
                    &&& tile == old(self).field().tile_at(old(self).position())
                    &&& old(self).field().in_bounds(tile.x as int, tile.y as int)
                    &&& tile.val == old(self).field().cell(tile.x as int, tile.y as int)
                    &&& final(self).position() == old(self).position() + 1
                },
                None => {
                    &&& old(self).position() == old(self).field().area()
                    &&& final(self).position() == old(self).position()
                },
            },
    {
        let ghost v = self.field@;
        let ghost w = self.field.width as int;
        let ghost h = self.field.height as int;
        let ghost cx = self.curr_x as int;
        let ghost cy = self.curr_y as int;
        if self.curr_y == self.field.height {
            assert(cy * w == w * h) by (nonlinear_arith)
                requires
                    cy == h,
            ;
            return None;
        }
        proof {
            lemma_index_in_range(v, cx, cy);
            assert((cy + 1) * w == cy * w + w) by (nonlinear_arith);
            assert(cy + 1 == h ==> (cy + 1) * w == w * h) by (nonlinear_arith);
        }
        let op = Some(
            Tile {
                x: self.curr_x,
                y: self.curr_y,
                val: self.field.get_value(self.curr_x, self.curr_y),
            },
        );
        self.curr_x = self.curr_x + 1;
        if self.curr_x == self.field.width {
            self.curr_x = 0;
            self.curr_y = self.curr_y + 1;
        }
        op
    }
}

impl<'field> MutMineFieldItr<'field> {
    /// The bytes of the field as they are at this moment.
    pub open spec fn cells(&self) -> Seq<u8> {
        self.grid@
    }

    /// The position of the cell that comes next; the area when none is left.
    pub open spec fn position(&self) -> int {
        self.position as int
    }

    /// The width of the field that is walked.
    pub open spec fn width(&self) -> int {
        self.width as int
    }

    /// The walk stands on a cell of the field, or at its end.
    pub open spec fn wf(&self) -> bool {
        &&& self.width > 0
        &&& self.curr_x < self.width
        &&& self.position <= self.grid@.len()
        &&& self.position == self.curr_x + self.curr_y * self.width
    }

    /// The handle on the next cell, or `None` after the last one. The handle
    /// carries the coordinates of its cell. Once it is let go, the cell holds
    /// what was last written through it and every other cell is as before.
    pub fn next(&mut self) -> (r: Option<MutTile<'_>>)
        requires
            old(self).wf(),
        ensures
            final(self).wf(),
            final(self).width() == old(self).width(),
            final(final(self).grid)@ == final(old(self).grid)@,
            match r {
                Some(tile) => {
                    &&& old(self).position() < old(self).cells().len()
                    &&& tile.x == old(self).position() % old(self).width()
                    &&& tile.y == old(self).position() / old(self).width()
                    &&& *tile.val == old(self).cells()[old(self).position()]
                    &&& final(self).cells() == old(self).cells().update(
                        old(self).position(),
                        *final(tile.val),
                    )
                    &&& final(self).position() == old(self).position() + 1
                },
                None => {
                    &&& old(self).position() == old(self).cells().len()
                    &&& final(self).cells() == old(self).cells()
                    &&& final(self).position() == old(self).position()
                },
            },
    {
        if self.position >= self.grid.len() {
            return None;
        }
        let x: usize = self.curr_x;
        let y: usize = self.curr_y;
        let k: usize = self.position;
        proof {
            let w = self.width as int;
            assert((y + 1) * w == y * w + w) by (nonlinear_arith);
            assert(0 <= y * w) by (nonlinear_arith)
                requires
                    0 <= y,
                    0 < w,
            ;
            vstd::arithmetic::div_mod::lemma_fundamental_div_mod_converse(k as int, w, y as int, x as int);
        }
        self.position = self.position + 1;
        self.curr_x = self.curr_x + 1;
        if self.curr_x >= self.width {
            self.curr_x = 0;
            self.curr_y = self.curr_y + 1;
        }
        Some(MutTile { x, y, val: &mut self.grid[k] })
    }
}

impl MineField {
    /// A walk over the tiles of the field, from the first row on.
    pub fn iter(&self) -> (it: MineFieldItr<'_>)
        requires
            self.wf(),
        ensures
            it.wf(),
            it.field() == self@,
            it.position() == 0,
    {
        MineFieldItr { field: self, curr_x: 0, curr_y: 0 }
    }

    /// A walk over the cells of the field that hands out exclusive handles,
    /// from the first row on. When the walk is let go the field holds what
    /// was written through the handles, and is otherwise as before.
    pub fn iter_mut(&mut self) -> (it: MutMineFieldItr<'_>)
        requires
            old(self).wf(),
        ensures
            it.wf(),
            it.cells() == old(self)@.cells,
            it.position() == 0,
            it.width() == old(self)@.width,
            final(self)@ == old(self)@.with_cells(final(it.grid)@),
    {
        let width: usize = self.width;
        MutMineFieldItr { grid: &mut self.grid, curr_x: 0, curr_y: 0, width, position: 0 }
    }
}

/// The snapshot that a walk hands out at a position shows the byte that
/// direct access finds at the snapshot's coordinates.
pub proof fn lemma_snapshot_agrees_with_access(v: FieldView, k: int)
    requires
        v.wf(),
        0 <= k < v.cells.len(),
    ensures
        v.in_bounds(v.tile_at(k).x as int, v.tile_at(k).y as int),
        v.tile_at(k).val == v.cell(v.tile_at(k).x as int, v.tile_at(k).y as int),
        v.tile_at(k) == v.tile(v.x_of(k), v.y_of(k)),
{
    lemma_position_in_grid(v, k);
}

/// A byte written through the handle of a position is the byte that direct
/// access finds at the handle's coordinates, and every other cell is as it
/// was.
pub proof fn lemma_handle_writes_its_cell(v: FieldView, k: int, byte: u8)
    requires
        v.wf(),
        0 <= k < v.cells.len(),
    ensures
        v.in_bounds(v.x_of(k), v.y_of(k)),
        v.with_cells(v.cells.update(k, byte)).cell(v.x_of(k), v.y_of(k)) == byte,
        forall|x: int, y: int|
            v.in_bounds(x, y) && !(x == v.x_of(k) && y == v.y_of(k)) ==> #[trigger] v.with_cells(
                v.cells.update(k, byte),
            ).cell(x, y) == v.cell(x, y),
{
    lemma_position_in_grid(v, k);
    crate::view::lemma_with_cell(v, v.x_of(k), v.y_of(k), byte);
}

/// A field whose every position holds what `f` makes of the coordinates that
/// the walk hands out there reads `f(x, y)` at every cell `(x, y)`.
pub proof fn lemma_walk_round_trip(v: FieldView, f: spec_fn(int, int) -> u8)
    requires
        v.wf(),
        forall|k: int| 0 <= k < v.cells.len() ==> #[trigger] v.cells[k] == f(v.x_of(k), v.y_of(k)),
    ensures
        forall|x: int, y: int| v.in_bounds(x, y) ==> #[trigger] v.cell(x, y) == f(x, y),
{
    assert forall|x: int, y: int| v.in_bounds(x, y) implies #[trigger] v.cell(x, y) == f(x, y) by {
        lemma_index_in_range(v, x, y);
        assert(v.cells[v.index_of(x, y)] == f(v.x_of(v.index_of(x, y)), v.y_of(v.index_of(x, y))));
    }
}

} // verus!
