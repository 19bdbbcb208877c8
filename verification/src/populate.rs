//! Placing the mines: once, around a protected square, followed by the
//! numbers and the cover.

use vstd::prelude::*;
use crate::field::MineField;
use crate::neighbors::{bomb_count, lemma_neighbor_bombs, lemma_neighbors_are_adjacent};
use crate::random::choose_position;
use crate::tile::{base_value, is_sweepable, BOMB, TILE_UP};
use crate::view::{lemma_index_in_range, lemma_position_in_grid, FieldView};

verus! {

/// Whether `(x, y)` lies in the square of radius `r` around `(sx, sy)`,
/// borders included.
pub open spec fn protected(x: int, y: int, sx: int, sy: int, r: int) -> bool {
    sx - r <= x <= sx + r && sy - r <= y <= sy + r
}

/// Whether the byte is a mine, covered or not.
pub open spec fn is_mine_byte(v: u8) -> bool {
    base_value(v) == 9
}

/// How many of the first `n` bytes are mines.
pub open spec fn mines_among(cells: Seq<u8>, n: int) -> int
    decreases n,
{
    if n <= 0 {
        0
    } else {
        mines_among(cells, n - 1) + if is_mine_byte(cells[n - 1]) {
            1int
        } else {
            0int
        }
    }
}

/// The smaller of two integers.
pub open spec fn smaller(a: int, b: int) -> int {
    if a <= b {
        a
    } else {
        b
    }
}

impl FieldView {
    /// Whether the cell at position `k` lies in the protected square.
    pub open spec fn protected_at(self, k: int, sx: int, sy: int, r: int) -> bool {
        protected(self.x_of(k), self.y_of(k), sx, sy, r)
    }

    /// How many of the first `n` positions lie in the protected square.
    pub open spec fn protected_below(self, n: int, sx: int, sy: int, r: int) -> int
        decreases n,
    {
        if n <= 0 {
            0
        } else {
            self.protected_below(n - 1, sx, sy, r) + if self.protected_at(n - 1, sx, sy, r) {
                1int
            } else {
                0int
            }
        }
    }

    /// How many cells of the field lie in the protected square.
    pub open spec fn protected_cells(self, sx: int, sy: int, r: int) -> int {
        self.protected_below(self.cells.len() as int, sx, sy, r)
    }

    /// The positions among the first `n` that lie outside the protected
    /// square, in rising order.
    pub open spec fn candidates_below(self, n: int, sx: int, sy: int, r: int) -> Seq<usize>
        decreases n,
    {
        if n <= 0 {
            Seq::empty()
        } else if self.protected_at(n - 1, sx, sy, r) {
            self.candidates_below(n - 1, sx, sy, r)
        } else {
            self.candidates_below(n - 1, sx, sy, r).push((n - 1) as usize)
        }
    }

    /// The positions a mine may go to.
    pub open spec fn candidates(self, sx: int, sy: int, r: int) -> Seq<usize> {
        self.candidates_below(self.cells.len() as int, sx, sy, r)
    }

    /// How many mines the field holds.
    pub open spec fn mine_total(self) -> int {
        mines_among(self.cells, self.cells.len() as int)
    }

    /// How many mines a population around `(sx, sy)` places: the configured
    /// count, but no more than there are cells outside the protected square,
    /// and none for a negative count.
    pub open spec fn mines_to_place(self, sx: int, sy: int, r: int) -> int {
        let most = smaller(self.bomb_count, self.area() - self.protected_cells(sx, sy, r));
        if most < 0 {
            0
        } else {
            most
        }
    }

    /// What holds of a field `self` that was populated from `before` around
    /// `(sx, sy)` with radius `r`, wherever the mines fell.
    pub open spec fn populated_from(self, before: FieldView, sx: int, sy: int, r: int) -> bool {
        &&& self.wf()
        &&& self == FieldView {
            cells: self.cells,
            bombs_left: smaller(
                before.bomb_count,
                before.area() - before.protected_cells(sx, sy, r),
            ),
            ..before
        }
        &&& forall|k: int| 0 <= k < self.cells.len() ==> is_sweepable(#[trigger] self.cells[k])
        &&& forall|x: int, y: int|
            self.in_bounds(x, y) && protected(x, y, sx, sy, r) ==> !#[trigger] self.is_mine(x, y)
        &&& self.mine_total() == before.mines_to_place(sx, sy, r)
        &&& forall|x: int, y: int|
            self.in_bounds(x, y) && !self.is_mine(x, y) ==> base_value(self.cell(x, y))
                == #[trigger] self.adjacent_mines(x, y)
    }
}

/// The candidates are the unprotected positions, each once and in rising
/// order; with the protected positions they make up all positions.
pub proof fn lemma_candidates(v: FieldView, n: int, sx: int, sy: int, r: int)
    requires
        0 <= n <= usize::MAX,
    ensures
        v.candidates_below(n, sx, sy, r).len() + v.protected_below(n, sx, sy, r) == n,
        0 <= v.protected_below(n, sx, sy, r) <= n,
        forall|a: int|
            0 <= a < v.candidates_below(n, sx, sy, r).len() ==> {
                let c = #[trigger] v.candidates_below(n, sx, sy, r)[a];
                c < n && !v.protected_at(c as int, sx, sy, r)
            },
        forall|a: int, b: int|
            0 <= a < b < v.candidates_below(n, sx, sy, r).len() ==> v.candidates_below(
                n,
                sx,
                sy,
                r,
            )[a] < v.candidates_below(n, sx, sy, r)[b],
        forall|k: int|
            0 <= k < n && !v.protected_at(k, sx, sy, r) ==> v.candidates_below(
                n,
                sx,
                sy,
                r,
            ).contains(k as usize),
    decreases n,
{
    if n > 0 {
        lemma_candidates(v, n - 1, sx, sy, r);
        let less = v.candidates_below(n - 1, sx, sy, r);
        let all = v.candidates_below(n, sx, sy, r);
        assert forall|k: int| 0 <= k < n && !v.protected_at(k, sx, sy, r) implies all.contains(
            k as usize,
        ) by {
            if k < n - 1 {
                let a = choose|a: int| 0 <= a < less.len() && less[a] == k as usize;
                assert(all[a] == k as usize);
            } else {
                assert(all[less.len() as int] == k as usize);
            }
        }
    }
}

/// Fields that agree on which bytes are mines hold as many mines.
proof fn lemma_same_mine_count(a: Seq<u8>, b: Seq<u8>, n: int)
    requires
        0 <= n <= a.len(),
        a.len() == b.len(),
        forall|k: int| 0 <= k < a.len() ==> is_mine_byte(#[trigger] a[k]) == is_mine_byte(b[k]),
    ensures
        mines_among(a, n) == mines_among(b, n),
    decreases n,
{
    if n > 0 {
        lemma_same_mine_count(a, b, n - 1);
        assert(is_mine_byte(a[n - 1]) == is_mine_byte(b[n - 1]));
    }
}

/// Turning one byte that is no mine into a mine adds one mine.
proof fn lemma_one_more_mine(cells: Seq<u8>, at: int, mine: u8, n: int)
    requires
        0 <= at < cells.len(),
        0 <= n <= cells.len(),
        !is_mine_byte(cells[at]),
        is_mine_byte(mine),
    ensures
        mines_among(cells.update(at, mine), n) == mines_among(cells, n) + if at < n {
            1int
        } else {
            0int
        },
    decreases n,
{
    if n > 0 {
        lemma_one_more_mine(cells, at, mine, n - 1);
    }
}

/// A field without a mine byte holds no mine.
proof fn lemma_no_mines(cells: Seq<u8>, n: int)
    requires
        0 <= n <= cells.len(),
        forall|k: int| 0 <= k < cells.len() ==> !is_mine_byte(#[trigger] cells[k]),
    ensures
        mines_among(cells, n) == 0,
    decreases n,
{
    if n > 0 {
        lemma_no_mines(cells, n - 1);
    }
}

/// Fields of one shape that agree on which bytes are mines agree on whether
/// `(x, y)` is a mine.
proof fn lemma_same_mine_at(a: FieldView, b: FieldView, x: int, y: int)
    requires
        a.wf(),
        b.wf(),
        a.width == b.width,
        a.height == b.height,
        forall|k: int|
            0 <= k < a.cells.len() ==> is_mine_byte(#[trigger] a.cells[k]) == is_mine_byte(
                b.cells[k],
            ),
    ensures
        a.mine_at(x, y) == b.mine_at(x, y),
{
    if a.in_bounds(x, y) {
        lemma_index_in_range(a, x, y);
        assert(is_mine_byte(a.cells[a.index_of(x, y)]) == is_mine_byte(b.cells[a.index_of(x, y)]));
    }
}

/// Fields of one shape that agree on which bytes are mines agree on the
/// number of mines around every cell.
proof fn lemma_same_adjacent_mines(a: FieldView, b: FieldView, x: int, y: int)
    requires
        a.wf(),
        b.wf(),
        a.width == b.width,
        a.height == b.height,
        forall|k: int|
            0 <= k < a.cells.len() ==> is_mine_byte(#[trigger] a.cells[k]) == is_mine_byte(
                b.cells[k],
            ),
    ensures
        a.adjacent_mines(x, y) == b.adjacent_mines(x, y),
        a.mine_at(x, y) == b.mine_at(x, y),
{
    lemma_same_mine_at(a, b, x - 1, y - 1);
    lemma_same_mine_at(a, b, x, y - 1);
    lemma_same_mine_at(a, b, x + 1, y - 1);
    lemma_same_mine_at(a, b, x - 1, y);
    lemma_same_mine_at(a, b, x, y);
    lemma_same_mine_at(a, b, x + 1, y);
    lemma_same_mine_at(a, b, x - 1, y + 1);
    lemma_same_mine_at(a, b, x, y + 1);
    lemma_same_mine_at(a, b, x + 1, y + 1);
}

/// The state while mines are scattered: every byte is empty or a mine, no
/// mine lies in the protected square, `placed` mines are down, and the
/// candidates left are distinct empty cells outside the square.
spec fn scattering(
    v: FieldView,
    left: Seq<usize>,
    placed: int,
    sx: int,
    sy: int,
    r: int,
) -> bool {
    &&& v.wf()
    &&& forall|k: int| 0 <= k < v.cells.len() ==> #[trigger] v.cells[k] == 0 || v.cells[k] == 9
    &&& forall|k: int|
        0 <= k < v.cells.len() && #[trigger] v.cells[k] == 9 ==> !v.protected_at(k, sx, sy, r)
    &&& mines_among(v.cells, v.cells.len() as int) == placed
    &&& forall|a: int|
        0 <= a < left.len() ==> {
            let c = #[trigger] left[a];
            c < v.cells.len() && v.cells[c as int] == 0 && !v.protected_at(c as int, sx, sy, r)
        }
    &&& forall|a: int, b: int| 0 <= a < b < left.len() ==> left[a] != left[b]
}

/// Taking candidate `pick` out of `left` and making its cell a mine keeps
/// the scattering state, with one mine more.
proof fn lemma_scatter_step(
    v: FieldView,
    left: Seq<usize>,
    placed: int,
    sx: int,
    sy: int,
    r: int,
    pick: int,
)
    requires
        scattering(v, left, placed, sx, sy, r),
        0 <= pick < left.len(),
    ensures
        scattering(
            v.with_cells(v.cells.update(left[pick] as int, 9)),
            left.update(pick, left.last()).drop_last(),
            placed + 1,
            sx,
            sy,
            r,
        ),
{
    let at = left[pick] as int;
    let cells = v.cells.update(at, 9);
    let after = v.with_cells(cells);
    let rest = left.update(pick, left.last()).drop_last();
    lemma_one_more_mine(v.cells, at, 9, v.cells.len() as int);
    assert forall|a: int| 0 <= a < rest.len() implies {
        let c = #[trigger] rest[a];
        c < after.cells.len() && after.cells[c as int] == 0 && !after.protected_at(
            c as int,
            sx,
            sy,
            r,
        )
    } by {
        if a == pick {
            assert(rest[a] == left[left.len() - 1]);
        } else {
            assert(rest[a] == left[a]);
        }
    }
    assert forall|a: int, b: int| 0 <= a < b < rest.len() implies rest[a] != rest[b] by {
        if a == pick {
            assert(rest[a] == left[left.len() - 1]);
            assert(rest[b] == left[b]);
        } else if b == pick {
            assert(rest[b] == left[left.len() - 1]);
            assert(rest[a] == left[a]);
        } else {
            assert(rest[a] == left[a]);
            assert(rest[b] == left[b]);
        }
    }
}

/// Whether `(x, y)` lies in the square of radius `r` around `(sx, sy)`.
fn in_square(x: usize, y: usize, sx: i128, sy: i128, r: i128) -> (b: bool)
    requires
        -0x1_0000_0000_0000_0000 <= sx <= 0x1_0000_0000_0000_0000,
        -0x1_0000_0000_0000_0000 <= sy <= 0x1_0000_0000_0000_0000,
        -0x1_0000_0000_0000_0000 <= r <= 0x1_0000_0000_0000_0000,
    ensures
        b == protected(x as int, y as int, sx as int, sy as int, r as int),
{
    let x: i128 = x as i128;
    let y: i128 = y as i128;
    x >= sx - r && x <= sx + r && y >= sy - r && y <= sy + r
}

impl MineField {
    /// The positions outside the protected square, in rising order.
    fn candidate_positions(&self, sx: i128, sy: i128, r: i128) -> (locations: Vec<usize>)
        requires
            self.wf(),
            -0x1_0000_0000_0000_0000 <= sx <= 0x1_0000_0000_0000_0000,
            -0x1_0000_0000_0000_0000 <= sy <= 0x1_0000_0000_0000_0000,
            -0x1_0000_0000_0000_0000 <= r <= 0x1_0000_0000_0000_0000,
        ensures
            locations@ == self@.candidates(sx as int, sy as int, r as int),
    {
        let n: usize = self.grid.len();
        let mut locations: Vec<usize> = Vec::new();
        let mut location: usize = 0;
        while location < n
            invariant
                self.wf(),
                n == self.grid.len(),
                location <= n,
                -0x1_0000_0000_0000_0000 <= sx <= 0x1_0000_0000_0000_0000,
                -0x1_0000_0000_0000_0000 <= sy <= 0x1_0000_0000_0000_0000,
                -0x1_0000_0000_0000_0000 <= r <= 0x1_0000_0000_0000_0000,
                locations@ == self@.candidates_below(
                    location as int,
                    sx as int,
                    sy as int,
                    r as int,
                ),
            decreases n - location,
        {
            let x: usize = location % self.width;
            let y: usize = location / self.width;
            if !in_square(x, y, sx, sy, r) {
                locations.push(location);
            }
            location = location + 1;
        }
        locations
    }

    /// Takes candidate `idx` out of `locations`, moving the last candidate
    /// into its place, and adds a mine to the cell it names. That cell must
    /// lie inside the grid and have room for the mine.
    pub fn place_bomb(&mut self, locations: &mut Vec<usize>, idx: usize)
        requires
            old(self).wf(),
            idx < old(locations).len(),
            old(locations)@[idx as int] < old(self)@.cells.len(),
            old(self)@.cells[old(locations)@[idx as int] as int] + 9 <= u8::MAX,
        ensures
            final(self).wf(),
            final(locations)@ == old(locations)@.update(
                idx as int,
                old(locations)@.last(),
            ).drop_last(),
            final(self)@ == old(self)@.with_cells(
                old(self)@.cells.update(
                    old(locations)@[idx as int] as int,
                    (old(self)@.cells[old(locations)@[idx as int] as int] + 9) as u8,
                ),
            ),
    {
        let location: usize = locations.swap_remove(idx);
        let x: usize = location % self.width;
        let y: usize = location / self.width;
        proof {
            lemma_position_in_grid(self@, location as int);
        }
        self.inc_value(x, y, BOMB);
    }

    /// Draws `self.bombs_left` candidates at random, without replacement,
    /// and makes each a mine.
    fn scatter_bombs(
        &mut self,
        locations: &mut Vec<usize>,
        Ghost(sx): Ghost<int>,
        Ghost(sy): Ghost<int>,
        Ghost(r): Ghost<int>,
    )
        requires
            scattering(old(self)@, old(locations)@, 0, sx, sy, r),
            old(self)@.bombs_left <= old(locations).len(),
        ensures
            final(self)@ == old(self)@.with_cells(final(self)@.cells),
            scattering(
                final(self)@,
                final(locations)@,
                if old(self)@.bombs_left < 0 {
                    0
                } else {
                    old(self)@.bombs_left
                },
                sx,
                sy,
                r,
            ),
    {
        let mut placed: i32 = 0;
        while placed < self.bombs_left
            invariant
                0 <= placed,
                self.bombs_left < 0 ==> placed == 0,
                self.bombs_left >= 0 ==> placed <= self.bombs_left,
                self@ == old(self)@.with_cells(self@.cells),
                scattering(self@, locations@, placed as int, sx, sy, r),
                locations.len() == old(locations).len() - placed,
                self@.bombs_left <= old(locations).len(),
            decreases self.bombs_left - placed,
        {
            let pick = choose_position(&mut self.rng, locations);
            let idx: usize = pick.unwrap();
            proof {
                lemma_scatter_step(self@, locations@, placed as int, sx, sy, r, idx as int);
            }
            self.place_bomb(locations, idx);
            placed = placed + 1;
        }
    }

    /// Writes into every cell that is no mine the number of mines around it.
    /// Every byte must be empty or an uncovered mine.
    fn number_tiles(&mut self)
        requires
            old(self).wf(),
            forall|k: int|
                0 <= k < old(self)@.cells.len() ==> #[trigger] old(self)@.cells[k] == 0 || old(
                    self,
                )@.cells[k] == 9,
        ensures
            final(self).wf(),
            final(self)@ == old(self)@.with_cells(final(self)@.cells),
            forall|k: int|
                0 <= k < old(self)@.cells.len() ==> #[trigger] final(self)@.cells[k] == if old(
                    self,
                )@.cells[k] == 9 {
                    9
                } else {
                    old(self)@.adjacent_mines(old(self)@.x_of(k), old(self)@.y_of(k))
                },
    {
        let n: usize = self.grid.len();
        let mut location: usize = 0;
        while location < n
            invariant
                self.wf(),
                old(self).wf(),
                n == self.grid.len(),
                n == old(self)@.cells.len(),
                location <= n,
                self@ == old(self)@.with_cells(self@.cells),
                forall|k: int|
                    0 <= k < n ==> #[trigger] old(self)@.cells[k] == 0 || old(self)@.cells[k] == 9,
                forall|k: int|
                    0 <= k < location ==> #[trigger] self@.cells[k] == if old(self)@.cells[k]
                        == 9 {
                        9
                    } else {
                        old(self)@.adjacent_mines(old(self)@.x_of(k), old(self)@.y_of(k))
                    },
                forall|k: int| location <= k < n ==> #[trigger] self@.cells[k] == old(self)@.cells[k],
                forall|k: int| 0 <= k < n ==> #[trigger] self@.cells[k] < 10,
                forall|k: int|
                    0 <= k < n ==> is_mine_byte(#[trigger] self@.cells[k]) == is_mine_byte(
                        old(self)@.cells[k],
                    ),
            decreases n - location,
        {
            let x: usize = location % self.width;
            let y: usize = location / self.width;
            proof {
                lemma_position_in_grid(self@, location as int);
                lemma_neighbor_bombs(self@, x as int, y as int);
                lemma_neighbors_are_adjacent(self@, x as int, y as int);
                lemma_same_adjacent_mines(self@, old(self)@, x as int, y as int);
            }
            if self.get_value(x, y) != BOMB {
                let around = self.neighbors(x, y);
                let count: u8 = bomb_count(&around);
                let ghost before = self@.cells;
                self.inc_value(x, y, count);
                assert forall|k: int| 0 <= k < n implies is_mine_byte(#[trigger] self@.cells[k])
                    == is_mine_byte(old(self)@.cells[k]) by {
                    assert(is_mine_byte(before[k]) == is_mine_byte(old(self)@.cells[k]));
                }
            }
            location = location + 1;
        }
    }

    /// Covers every cell. Every byte must have room for the cover.
    fn cover_all(&mut self)
        requires
            old(self).wf(),
            forall|k: int| 0 <= k < old(self)@.cells.len() ==> #[trigger] old(self)@.cells[k] < 10,
        ensures
            final(self).wf(),
            final(self)@ == old(self)@.with_cells(final(self)@.cells),
            forall|k: int|
                0 <= k < old(self)@.cells.len() ==> #[trigger] final(self)@.cells[k] == old(
                    self,
                )@.cells[k] + 10,
    {
        let ghost n = self@.cells.len();
        let ghost start = self@.cells;
        let mut it = self.iter_mut();
        let ghost whole = final(it.grid)@;
        loop
            invariant
                it.wf(),
                it.cells().len() == n,
                start.len() == n,
                forall|j: int| 0 <= j < n ==> #[trigger] start[j] < 10,
                forall|j: int| 0 <= j < it.position() ==> it.cells()[j] == start[j] + 10,
                forall|j: int| it.position() <= j < n ==> it.cells()[j] == start[j],
                final(it.grid)@ == whole,
            ensures
                it.position() == n,
            decreases n - it.position(),
        {
            let ghost at = it.position();
            match it.next() {
                Some(tile) => {
                    assert(start[at] < 10);
                    *tile.val = *tile.val + TILE_UP;
                },
                None => {
                    break;
                },
            }
        }
        assert(whole.len() == n);
    }

    /// Populates the field around the square of radius `r` at `(sx, sy)`.
    pub(crate) fn populate_square(&mut self, sx: i128, sy: i128, r: i128)
        requires
            old(self).wf(),
            -0x1_0000_0000_0000_0000 <= sx <= 0x1_0000_0000_0000_0000,
            -0x1_0000_0000_0000_0000 <= sy <= 0x1_0000_0000_0000_0000,
            -0x1_0000_0000_0000_0000 <= r <= 0x1_0000_0000_0000_0000,
        ensures
            final(self)@.populated_from(old(self)@, sx as int, sy as int, r as int),
    {
        self.clear();
        let area: usize = self.grid.len();
        let mut locations = self.candidate_positions(sx, sy, r);
        proof {
            assert(self@.cells.len() == area);
            lemma_candidates(self@, area as int, sx as int, sy as int, r as int);
            lemma_no_mines(self@.cells, area as int);
            lemma_same_protected(old(self)@, self@, area as int, sx as int, sy as int, r as int);
        }
        self.bombs_left = if (self.bomb_count as i128) <= (locations.len() as i128) {
            self.bomb_count
        } else {
            locations.len() as i32
        };
        self.scatter_bombs(&mut locations, Ghost(sx as int), Ghost(sy as int), Ghost(r as int));
        let ghost scattered = self@;
        self.number_tiles();
        proof {
            assert forall|k: int| 0 <= k < self@.cells.len() implies #[trigger] self@.cells[k]
                < 10 by {
                lemma_adjacent_mines_bound(scattered, scattered.x_of(k), scattered.y_of(k));
            }
        }
        self.cover_all();
        proof {
            lemma_populated(old(self)@, scattered, self@, locations@, sx as int, sy as int, r as int);
        }
    }

    /// Places the mines, protecting the square of radius `radius` around
    /// `(sweep_x, sweep_y)`, then numbers every other cell and covers the
    /// whole field. Whatever the field held before is gone.
    pub fn populate(&mut self, sweep_x: i32, sweep_y: i32, radius: i32)
        requires
            old(self).wf(),
        ensures
            final(self)@.populated_from(
                old(self)@,
                sweep_x as int,
                sweep_y as int,
                radius as int,
            ),
    {
        self.populate_square(sweep_x as i128, sweep_y as i128, radius as i128);
    }
}

/// The bytes of a field that was numbered and covered after its mines were
/// scattered: a covered mine where a mine fell, and elsewhere the covered
/// number of mines around the cell.
spec fn finished(scattered: FieldView, done: FieldView) -> bool {
    &&& scattered.wf()
    &&& done == scattered.with_cells(done.cells)
    &&& done.cells.len() == scattered.cells.len()
    &&& forall|k: int|
        0 <= k < done.cells.len() ==> #[trigger] done.cells[k] == if scattered.cells[k] == 9 {
            19
        } else {
            10 + scattered.adjacent_mines(scattered.x_of(k), scattered.y_of(k))
        }
}

/// Numbering and covering neither adds nor removes a mine, and leaves every
/// byte covered and unflagged.
proof fn lemma_finished_bytes(scattered: FieldView, done: FieldView)
    requires
        finished(scattered, done),
        forall|k: int|
            0 <= k < scattered.cells.len() ==> #[trigger] scattered.cells[k] == 0
                || scattered.cells[k] == 9,
    ensures
        forall|k: int|
            0 <= k < done.cells.len() ==> is_mine_byte(#[trigger] done.cells[k]) == is_mine_byte(
                scattered.cells[k],
            ),
        forall|k: int| 0 <= k < done.cells.len() ==> is_sweepable(#[trigger] done.cells[k]),
        done.mine_total() == scattered.mine_total(),
{
    assert forall|k: int| 0 <= k < done.cells.len() implies is_mine_byte(#[trigger] done.cells[k])
        == is_mine_byte(scattered.cells[k]) && is_sweepable(done.cells[k]) by {
        lemma_adjacent_mines_bound(scattered, scattered.x_of(k), scattered.y_of(k));
        assert(scattered.cells[k] == 0 || scattered.cells[k] == 9);
    }
    lemma_same_mine_count(done.cells, scattered.cells, done.cells.len() as int);
}

/// In a finished field every cell that is no mine shows the number of mines
/// around it.
proof fn lemma_finished_number(scattered: FieldView, done: FieldView, x: int, y: int)
    requires
        finished(scattered, done),
        forall|k: int|
            0 <= k < done.cells.len() ==> is_mine_byte(#[trigger] done.cells[k]) == is_mine_byte(
                scattered.cells[k],
            ),
        forall|k: int|
            0 <= k < scattered.cells.len() ==> #[trigger] scattered.cells[k] == 0
                || scattered.cells[k] == 9,
        done.in_bounds(x, y),
        !done.is_mine(x, y),
    ensures
        base_value(done.cell(x, y)) == done.adjacent_mines(x, y),
{
    lemma_index_in_range(scattered, x, y);
    let k = done.index_of(x, y);
    assert(is_mine_byte(done.cells[k]) == is_mine_byte(scattered.cells[k]));
    assert(scattered.cells[k] == 0 || scattered.cells[k] == 9);
    lemma_adjacent_mines_bound(scattered, x, y);
    lemma_same_adjacent_mines(done, scattered, x, y);
}

/// In a finished field no cell of the protected square is a mine.
proof fn lemma_finished_protected(
    scattered: FieldView,
    done: FieldView,
    sx: int,
    sy: int,
    r: int,
    x: int,
    y: int,
)
    requires
        finished(scattered, done),
        forall|k: int|
            0 <= k < done.cells.len() ==> is_mine_byte(#[trigger] done.cells[k]) == is_mine_byte(
                scattered.cells[k],
            ),
        forall|k: int|
            0 <= k < scattered.cells.len() ==> #[trigger] scattered.cells[k] == 0
                || scattered.cells[k] == 9,
        forall|k: int|
            0 <= k < scattered.cells.len() && #[trigger] scattered.cells[k] == 9
                ==> !scattered.protected_at(k, sx, sy, r),
        done.in_bounds(x, y),
        protected(x, y, sx, sy, r),
    ensures
        !done.is_mine(x, y),
{
    lemma_index_in_range(scattered, x, y);
    let k = done.index_of(x, y);
    assert(is_mine_byte(done.cells[k]) == is_mine_byte(scattered.cells[k]));
    assert(scattered.cells[k] == 0 || scattered.cells[k] == 9);
}

/// A field whose mines were scattered over the candidates, and which was
/// numbered and covered after that, is a populated field.
proof fn lemma_populated(
    before: FieldView,
    scattered: FieldView,
    done: FieldView,
    left: Seq<usize>,
    sx: int,
    sy: int,
    r: int,
)
    requires
        before.wf(),
        scattered == (FieldView {
            cells: scattered.cells,
            bombs_left: smaller(before.bomb_count, before.area() - before.protected_cells(sx, sy, r)),
            ..before
        }),
        scattering(
            scattered,
            left,
            if scattered.bombs_left < 0 {
                0
            } else {
                scattered.bombs_left
            },
            sx,
            sy,
            r,
        ),
        finished(scattered, done),
    ensures
        done.populated_from(before, sx, sy, r),
{
    lemma_finished_bytes(scattered, done);
    assert forall|x: int, y: int| done.in_bounds(x, y) && protected(x, y, sx, sy, r) implies !#[trigger] done.is_mine(
        x,
        y,
    ) by {
        lemma_finished_protected(scattered, done, sx, sy, r, x, y);
    }
    assert forall|x: int, y: int| done.in_bounds(x, y) && !done.is_mine(x, y) implies base_value(
        done.cell(x, y),
    ) == #[trigger] done.adjacent_mines(x, y) by {
        lemma_finished_number(scattered, done, x, y);
    }
}

/// How many of the numbers `0, 1, .. n - 1` lie between `lo` and `hi`,
/// both included.
pub open spec fn clipped_span(lo: int, hi: int, n: int) -> int {
    let first = if lo > 0 {
        lo
    } else {
        0
    };
    let last = if hi < n - 1 {
        hi
    } else {
        n - 1
    };
    if last >= first {
        last - first + 1
    } else {
        0
    }
}

/// Within row `y`, the protected positions among the first `n` are those
/// whose column lies in the square, if the row does.
proof fn lemma_protected_in_row(v: FieldView, y: int, n: int, sx: int, sy: int, r: int)
    requires
        v.wf(),
        0 <= y < v.height,
        0 <= n <= v.width,
    ensures
        v.protected_below(y * v.width + n, sx, sy, r) == v.protected_below(y * v.width, sx, sy, r)
            + if sy - r <= y <= sy + r {
            clipped_span(sx - r, sx + r, n)
        } else {
            0
        },
    decreases n,
{
    if n > 0 {
        lemma_protected_in_row(v, y, n - 1, sx, sy, r);
        lemma_index_in_range(v, n - 1, y);
        assert(v.index_of(n - 1, y) == y * v.width + n - 1);
    }
}

/// The protected positions in the first `y` rows are the protected columns
/// times the protected rows among them.
proof fn lemma_protected_in_rows(v: FieldView, y: int, sx: int, sy: int, r: int)
    requires
        v.wf(),
        0 <= y <= v.height,
    ensures
        v.protected_below(y * v.width, sx, sy, r) == clipped_span(sx - r, sx + r, v.width as int)
            * clipped_span(sy - r, sy + r, y),
    decreases y,
{
    let w = v.width as int;
    let cols = clipped_span(sx - r, sx + r, w);
    if y > 0 {
        lemma_protected_in_rows(v, y - 1, sx, sy, r);
        lemma_protected_in_row(v, y - 1, w, sx, sy, r);
        assert((y - 1) * w + w == y * w) by (nonlinear_arith);
        let rows = clipped_span(sy - r, sy + r, y - 1);
        if sy - r <= y - 1 <= sy + r {
            assert(clipped_span(sy - r, sy + r, y) == rows + 1);
            assert(cols * (rows + 1) == cols * rows + cols) by (nonlinear_arith);
        } else {
            assert(clipped_span(sy - r, sy + r, y) == rows);
        }
    } else {
        assert(0 * w == 0);
        assert(cols * 0 == 0);
    }
}

/// The protected cells of a field are those of the square that lie inside
/// the grid: its columns inside the grid times its rows inside the grid.
pub proof fn lemma_protected_cells(v: FieldView, sx: int, sy: int, r: int)
    requires
        v.wf(),
    ensures
        v.protected_cells(sx, sy, r) == clipped_span(sx - r, sx + r, v.width as int)
            * clipped_span(sy - r, sy + r, v.height as int),
        0 <= v.protected_cells(sx, sy, r) <= v.area(),
{
    lemma_protected_in_rows(v, v.height as int, sx, sy, r);
    assert(v.height * v.width == v.width * v.height) by (nonlinear_arith);
    lemma_candidates(v, v.cells.len() as int, sx, sy, r);
}

/// A population with a count that is not negative places as many mines as
/// are configured, or as many as there are cells outside the protected
/// square if these are fewer.
pub proof fn lemma_mines_placed(before: FieldView, after: FieldView, sx: int, sy: int, r: int)
    requires
        before.wf(),
        after.populated_from(before, sx, sy, r),
        before.bomb_count >= 0,
    ensures
        after.mine_total() == smaller(
            before.bomb_count,
            before.area() - before.protected_cells(sx, sy, r),
        ),
        after.mine_total() == after.bombs_left,
{
    lemma_protected_cells(before, sx, sy, r);
}

/// At most eight mines lie around a cell.
proof fn lemma_adjacent_mines_bound(v: FieldView, x: int, y: int)
    ensures
        0 <= v.adjacent_mines(x, y) <= 8,
{
}

/// Which positions are protected depends on the width alone.
proof fn lemma_same_protected(a: FieldView, b: FieldView, n: int, sx: int, sy: int, r: int)
    requires
        a.width == b.width,
    ensures
        a.protected_below(n, sx, sy, r) == b.protected_below(n, sx, sy, r),
    decreases n,
{
    if n > 0 {
        lemma_same_protected(a, b, n - 1, sx, sy, r);
    }
}

} // verus!
