//! The up to eight cells around a cell.

use vstd::prelude::*;
use crate::field::MineField;
use crate::tile::{Tile, BOMB};
use crate::view::FieldView;

verus! {

/// Whether two cells touch: they differ by at most one column and one row,
/// and are not the same cell.
pub open spec fn adjacent(x1: int, y1: int, x2: int, y2: int) -> bool {
    &&& x1 - 1 <= x2 <= x1 + 1
    &&& y1 - 1 <= y2 <= y1 + 1
    &&& !(x1 == x2 && y1 == y2)
}

/// How many of the snapshots show an uncovered mine.
pub open spec fn count_bombs(tiles: Seq<Tile>) -> int
    decreases tiles.len(),
{
    if tiles.len() == 0 {
        0
    } else {
        count_bombs(tiles.drop_last()) + if tiles.last().val == BOMB {
            1int
        } else {
            0int
        }
    }
}

impl FieldView {
    /// `tiles` with the snapshot of `(x, y)` appended where that is a cell of
    /// the field, and `tiles` as it is elsewhere.
    pub open spec fn with_tile(self, tiles: Seq<Tile>, x: int, y: int) -> Seq<Tile> {
        if self.in_bounds(x, y) {
            tiles.push(self.tile(x, y))
        } else {
            tiles
        }
    }

    /// The snapshots of the cells around `(x, y)` that lie inside the grid:
    /// the row above from left to right, then the row of the cell, then the
    /// row below.
    pub open spec fn neighbors(self, x: int, y: int) -> Seq<Tile> {
        let above = self.with_tile(
            self.with_tile(self.with_tile(Seq::empty(), x - 1, y - 1), x, y - 1),
            x + 1,
            y - 1,
        );
        let beside = self.with_tile(self.with_tile(above, x - 1, y), x + 1, y);
        self.with_tile(self.with_tile(self.with_tile(beside, x - 1, y + 1), x, y + 1), x + 1, y + 1)
    }

    /// Whether `t` is the snapshot of a cell inside the grid that touches `(x, y)`.
    pub open spec fn is_neighbor_tile(self, x: int, y: int, t: Tile) -> bool {
        &&& self.in_bounds(t.x as int, t.y as int)
        &&& adjacent(x, y, t.x as int, t.y as int)
        &&& t == self.tile(t.x as int, t.y as int)
    }
}

/// Appending the snapshot of a touching cell keeps a list of neighbor
/// snapshots one, keeps what it held, and holds the new snapshot.
proof fn lemma_with_tile(v: FieldView, x: int, y: int, tiles: Seq<Tile>, nx: int, ny: int)
    requires
        v.wf(),
        adjacent(x, y, nx, ny),
        forall|k: int| 0 <= k < tiles.len() ==> v.is_neighbor_tile(x, y, #[trigger] tiles[k]),
    ensures
        forall|k: int|
            0 <= k < v.with_tile(tiles, nx, ny).len() ==> v.is_neighbor_tile(
                x,
                y,
                #[trigger] v.with_tile(tiles, nx, ny)[k],
            ),
        forall|t: Tile| tiles.contains(t) ==> #[trigger] v.with_tile(tiles, nx, ny).contains(t),
        v.in_bounds(nx, ny) ==> v.with_tile(tiles, nx, ny).contains(v.tile(nx, ny)),
        v.with_tile(tiles, nx, ny).len() <= tiles.len() + 1,
{
    let with = v.with_tile(tiles, nx, ny);
    if v.in_bounds(nx, ny) {
        assert(with[tiles.len() as int] == v.tile(nx, ny));
        assert forall|t: Tile| tiles.contains(t) implies with.contains(t) by {
            let k = choose|k: int| 0 <= k < tiles.len() && tiles[k] == t;
            assert(with[k] == t);
        }
    }
}

/// The neighbors of a cell are exactly the snapshots of the cells inside the
/// grid that touch it, and there are at most eight.
pub proof fn lemma_neighbors_are_adjacent(v: FieldView, x: int, y: int)
    requires
        v.wf(),
    ensures
        v.neighbors(x, y).len() <= 8,
        forall|t: Tile| v.neighbors(x, y).contains(t) <==> v.is_neighbor_tile(x, y, t),
{
    let s0 = Seq::<Tile>::empty();
    let s1 = v.with_tile(s0, x - 1, y - 1);
    let s2 = v.with_tile(s1, x, y - 1);
    let s3 = v.with_tile(s2, x + 1, y - 1);
    let s4 = v.with_tile(s3, x - 1, y);
    let s5 = v.with_tile(s4, x + 1, y);
    let s6 = v.with_tile(s5, x - 1, y + 1);
    let s7 = v.with_tile(s6, x, y + 1);
    let s8 = v.with_tile(s7, x + 1, y + 1);
    lemma_with_tile(v, x, y, s0, x - 1, y - 1);
    lemma_with_tile(v, x, y, s1, x, y - 1);
    lemma_with_tile(v, x, y, s2, x + 1, y - 1);
    lemma_with_tile(v, x, y, s3, x - 1, y);
    lemma_with_tile(v, x, y, s4, x + 1, y);
    lemma_with_tile(v, x, y, s5, x - 1, y + 1);
    lemma_with_tile(v, x, y, s6, x, y + 1);
    lemma_with_tile(v, x, y, s7, x + 1, y + 1);
    assert(s8 == v.neighbors(x, y));
    assert forall|t: Tile| v.is_neighbor_tile(x, y, t) implies s8.contains(t) by {
        let nx = t.x as int;
        let ny = t.y as int;
        if ny == y - 1 {
            if nx == x - 1 {
                assert(s1.contains(t));
            } else if nx == x {
                assert(s2.contains(t));
            } else {
                assert(s3.contains(t));
            }
        } else if ny == y {
            if nx == x - 1 {
                assert(s4.contains(t));
            } else {
                assert(s5.contains(t));
            }
        } else {
            if nx == x - 1 {
                assert(s6.contains(t));
            } else if nx == x {
                assert(s7.contains(t));
            } else {
                assert(s8.contains(t));
            }
        }
    }
    assert forall|t: Tile| s8.contains(t) implies v.is_neighbor_tile(x, y, t) by {
        let k = choose|k: int| 0 <= k < s8.len() && s8[k] == t;
        assert(v.is_neighbor_tile(x, y, s8[k]));
    }
}

/// While no cell is covered, appending the snapshot of a cell adds one bomb
/// exactly where the cell is a mine.
proof fn lemma_with_tile_bombs(v: FieldView, tiles: Seq<Tile>, x: int, y: int)
    requires
        forall|k: int| 0 <= k < v.cells.len() ==> #[trigger] v.cells[k] < 10,
        v.wf(),
    ensures
        count_bombs(v.with_tile(tiles, x, y)) == count_bombs(tiles) + v.mine_at(x, y),
{
    if v.in_bounds(x, y) {
        crate::view::lemma_index_in_range(v, x, y);
        let with = v.with_tile(tiles, x, y);
        assert(with.drop_last() =~= tiles);
        assert(with.last().val == v.cell(x, y));
    }
}

/// While no cell is covered, the bombs among the neighbors of a cell are the
/// mines around it.
pub proof fn lemma_neighbor_bombs(v: FieldView, x: int, y: int)
    requires
        forall|k: int| 0 <= k < v.cells.len() ==> #[trigger] v.cells[k] < 10,
        v.wf(),
    ensures
        count_bombs(v.neighbors(x, y)) == v.adjacent_mines(x, y),
        0 <= v.adjacent_mines(x, y) <= 8,
{
    let s0 = Seq::<Tile>::empty();
    let s1 = v.with_tile(s0, x - 1, y - 1);
    let s2 = v.with_tile(s1, x, y - 1);
    let s3 = v.with_tile(s2, x + 1, y - 1);
    let s4 = v.with_tile(s3, x - 1, y);
    let s5 = v.with_tile(s4, x + 1, y);
    let s6 = v.with_tile(s5, x - 1, y + 1);
    let s7 = v.with_tile(s6, x, y + 1);
    lemma_with_tile_bombs(v, s0, x - 1, y - 1);
    lemma_with_tile_bombs(v, s1, x, y - 1);
    lemma_with_tile_bombs(v, s2, x + 1, y - 1);
    lemma_with_tile_bombs(v, s3, x - 1, y);
    lemma_with_tile_bombs(v, s4, x + 1, y);
    lemma_with_tile_bombs(v, s5, x - 1, y + 1);
    lemma_with_tile_bombs(v, s6, x, y + 1);
    lemma_with_tile_bombs(v, s7, x + 1, y + 1);
}

/// `c + d - 1` where that is a `usize`.
fn shifted(c: usize, d: u8) -> (r: Option<usize>)
    requires
        d <= 2,
    ensures
        match r {
            Some(s) => s == c + d - 1,
            None => c + d - 1 < 0 || c + d - 1 > usize::MAX,
        },
{
    if d == 0 {
        c.checked_sub(1)
    } else if d == 1 {
        Some(c)
    } else {
        c.checked_add(1)
    }
}

/// How many of the snapshots show an uncovered mine.
pub(crate) fn bomb_count(tiles: &Vec<Tile>) -> (count: u8)
    requires
        tiles.len() <= u8::MAX,
    ensures
        count == count_bombs(tiles@),
{
    let mut count: u8 = 0;
    let mut k: usize = 0;
    while k < tiles.len()
        invariant
            k <= tiles.len() <= u8::MAX,
            count == count_bombs(tiles@.take(k as int)),
            count <= k,
        decreases tiles.len() - k,
    {
        assert(tiles@.take(k + 1).drop_last() =~= tiles@.take(k as int));
        if tiles[k].is_bomb() {
            count = count + 1;
        }
        k = k + 1;
    }
    assert(tiles@.take(k as int) =~= tiles@);
    count
}

impl MineField {
    /// Appends the snapshot of the cell `dx - 1` columns and `dy - 1` rows
    /// away from `(x, y)`, if the grid has such a cell.
    fn push_neighbor(&self, out: &mut Vec<Tile>, x: usize, dx: u8, y: usize, dy: u8)
        requires
            self.wf(),
            dx <= 2,
            dy <= 2,
        ensures
            final(out)@ == self@.with_tile(old(out)@, x + dx - 1, y + dy - 1),
    {
        match (shifted(x, dx), shifted(y, dy)) {
            (Some(x2), Some(y2)) => {
                if let Some(val) = self.get_value_checked(x2, y2) {
                    out.push(Tile::new(x2, y2, val));
                }
            },
            _ => {},
        }
    }

    /// The snapshots of the cells around `(x, y)` that lie inside the grid,
    /// row by row. `(x, y)` itself may lie anywhere.
    pub fn neighbors(&self, x: usize, y: usize) -> (tiles: Vec<Tile>)
        requires
            self.wf(),
        ensures
            tiles@ == self@.neighbors(x as int, y as int),
    {
        let mut vec: Vec<Tile> = Vec::with_capacity(8);
        self.push_neighbor(&mut vec, x, 0, y, 0);
        self.push_neighbor(&mut vec, x, 1, y, 0);
        self.push_neighbor(&mut vec, x, 2, y, 0);
        self.push_neighbor(&mut vec, x, 0, y, 1);
        self.push_neighbor(&mut vec, x, 2, y, 1);
        self.push_neighbor(&mut vec, x, 0, y, 2);
        self.push_neighbor(&mut vec, x, 1, y, 2);
        self.push_neighbor(&mut vec, x, 2, y, 2);
        vec
    }
}

} // verus!
