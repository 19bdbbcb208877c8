//! The mathematical model of a field: its dimensions, its cells in row-major
//! order, and its counters.

use vstd::prelude::*;
use vstd::arithmetic::div_mod::{
    lemma_fundamental_div_mod,
    lemma_fundamental_div_mod_converse,
    lemma_mod_division_less_than_divisor,
};
use crate::symbols::TileSymbols;
use crate::tile::{base_value, Tile};

verus! {

/// What a field is, as plain mathematics. Cell `(x, y)` is entry
/// `x + y * width` of `cells`.
pub struct FieldView {
    pub width: nat,
    pub height: nat,
    pub cells: Seq<u8>,
    pub bomb_count: int,
    pub bombs_left: int,
    pub first_sweep: bool,
    pub symbols: TileSymbols,
}

/// The mine count a new field is configured with: a third of the area,
/// as 33 percent rounded to the nearest whole number, capped at `i32::MAX`.
pub open spec fn default_bomb_count(area: nat) -> int {
    let rounded: int = (33 * (area as int) + 50) / 100;
    if rounded > i32::MAX {
        i32::MAX as int
    } else {
        rounded
    }
}

impl FieldView {
    /// Both dimensions are positive machine sizes and there is one byte per
    /// cell.
    pub open spec fn wf(self) -> bool {
        &&& 0 < self.width <= usize::MAX
        &&& 0 < self.height <= usize::MAX
        &&& self.cells.len() == self.width * self.height
        &&& self.cells.len() <= usize::MAX
    }

    pub open spec fn area(self) -> nat {
        self.width * self.height
    }

    pub open spec fn in_bounds(self, x: int, y: int) -> bool {
        0 <= x < self.width && 0 <= y < self.height
    }

    /// Position of cell `(x, y)` in `cells`.
    pub open spec fn index_of(self, x: int, y: int) -> int {
        x + y * self.width
    }

    /// Column of the cell at position `k`.
    pub open spec fn x_of(self, k: int) -> int {
        k % (self.width as int)
    }

    /// Row of the cell at position `k`.
    pub open spec fn y_of(self, k: int) -> int {
        k / (self.width as int)
    }

    /// The byte of cell `(x, y)`.
    pub open spec fn cell(self, x: int, y: int) -> u8 {
        self.cells[self.index_of(x, y)]
    }

    /// The snapshot of cell `(x, y)`.
    pub open spec fn tile(self, x: int, y: int) -> Tile {
        Tile { x: x as usize, y: y as usize, val: self.cell(x, y) }
    }

    /// The snapshot of the cell at position `k`.
    pub open spec fn tile_at(self, k: int) -> Tile {
        Tile { x: self.x_of(k) as usize, y: self.y_of(k) as usize, val: self.cells[k] }
    }

    /// The same field with other cell bytes.
    pub open spec fn with_cells(self, cells: Seq<u8>) -> FieldView {
        FieldView { cells, ..self }
    }

    /// The same field with one cell byte replaced.
    pub open spec fn with_cell(self, x: int, y: int, v: u8) -> FieldView {
        self.with_cells(self.cells.update(self.index_of(x, y), v))
    }

    /// The same field with every cell byte set to `v`.
    pub open spec fn filled(self, v: u8) -> FieldView {
        self.with_cells(Seq::new(self.cells.len(), |k: int| v))
    }

    /// Whether `(x, y)` is a cell of the field that holds a mine, covered or not.
    pub open spec fn is_mine(self, x: int, y: int) -> bool {
        self.in_bounds(x, y) && base_value(self.cell(x, y)) == 9
    }

    /// `1` where `(x, y)` is a mine of the field, `0` elsewhere (off the grid too).
    pub open spec fn mine_at(self, x: int, y: int) -> int {
        if self.is_mine(x, y) {
            1
        } else {
            0
        }
    }

    /// How many of the up to eight cells around `(x, y)` hold a mine.
    pub open spec fn adjacent_mines(self, x: int, y: int) -> int {
        self.mine_at(x - 1, y - 1) + self.mine_at(x, y - 1) + self.mine_at(x + 1, y - 1)
            + self.mine_at(x - 1, y) + self.mine_at(x + 1, y) + self.mine_at(x - 1, y + 1)
            + self.mine_at(x, y + 1) + self.mine_at(x + 1, y + 1)
    }

    /// The field that construction yields: every cell covered and empty, the
    /// default mine count, the first sweep still to come.
    pub open spec fn fresh(width: nat, height: nat) -> FieldView {
        FieldView {
            width,
            height,
            cells: Seq::new(width * height, |k: int| 10u8),
            bomb_count: default_bomb_count(width * height),
            bombs_left: default_bomb_count(width * height),
            first_sweep: true,
            symbols: TileSymbols::for_style(0),
        }
    }
}

/// A cell inside the grid has a position inside the buffer.
pub proof fn lemma_index_in_range(v: FieldView, x: int, y: int)
    requires
        v.wf(),
        v.in_bounds(x, y),
    ensures
        0 <= v.index_of(x, y) < v.cells.len(),
        v.x_of(v.index_of(x, y)) == x,
        v.y_of(v.index_of(x, y)) == y,
{
    let w = v.width as int;
    let h = v.height as int;
    assert(0 <= y * w) by (nonlinear_arith)
        requires
            0 <= y,
            0 < w,
    ;
    assert(x + y * w < w * h) by (nonlinear_arith)
        requires
            0 <= x < w,
            0 <= y < h,
    ;
    lemma_fundamental_div_mod_converse(x + y * w, w, y, x);
}

/// A position inside the buffer belongs to exactly one cell inside the grid.
pub proof fn lemma_position_in_grid(v: FieldView, k: int)
    requires
        v.wf(),
        0 <= k < v.cells.len(),
    ensures
        v.in_bounds(v.x_of(k), v.y_of(k)),
        v.index_of(v.x_of(k), v.y_of(k)) == k,
{
    let w = v.width as int;
    let h = v.height as int;
    lemma_fundamental_div_mod(k, w);
    lemma_mod_division_less_than_divisor(k, w);
    let q = k / w;
    let r = k % w;
    assert(w * q == q * w) by (nonlinear_arith);
    assert(0 <= q < h) by (nonlinear_arith)
        requires
            0 <= r < w,
            k == q * w + r,
            0 <= k < w * h,
            0 < w,
    ;
}

/// Two cells inside the grid share a position only if they are the same cell.
pub proof fn lemma_index_injective(v: FieldView, x1: int, y1: int, x2: int, y2: int)
    requires
        v.wf(),
        v.in_bounds(x1, y1),
        v.in_bounds(x2, y2),
        v.index_of(x1, y1) == v.index_of(x2, y2),
    ensures
        x1 == x2,
        y1 == y2,
{
    lemma_index_in_range(v, x1, y1);
    lemma_index_in_range(v, x2, y2);
}

/// Replacing the byte of one cell changes that cell and no other.
pub proof fn lemma_with_cell(v: FieldView, x: int, y: int, val: u8)
    requires
        v.wf(),
        v.in_bounds(x, y),
    ensures
        v.with_cell(x, y, val).wf(),
        v.with_cell(x, y, val).cell(x, y) == val,
        forall|cx: int, cy: int|
            v.in_bounds(cx, cy) && !(cx == x && cy == y) ==> #[trigger] v.with_cell(x, y, val).cell(
                cx,
                cy,
            ) == v.cell(cx, cy),
{
    lemma_index_in_range(v, x, y);
    assert forall|cx: int, cy: int| v.in_bounds(cx, cy) && !(cx == x && cy == y) implies #[trigger] v.with_cell(
        x,
        y,
        val,
    ).cell(cx, cy) == v.cell(cx, cy) by {
        lemma_index_in_range(v, cx, cy);
        if v.index_of(cx, cy) == v.index_of(x, y) {
            lemma_index_injective(v, cx, cy, x, y);
        }
    }
}

} // verus!
