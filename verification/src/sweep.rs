//! The reveal: uncovering a tile and, through empty tiles, everything that
//! hangs together with it.

use vstd::prelude::*;
use crate::field::MineField;
use crate::neighbors::{adjacent, lemma_neighbors_are_adjacent};
use crate::tile::{is_sweepable, Tile, EMPTY, FLAGGED, TILE_UP};
use crate::populate::protected;
use crate::view::{lemma_index_in_range, lemma_position_in_grid, lemma_with_cell, FieldView};

verus! {

/// How many of the first `n` bytes are covered and unflagged.
spec fn hidden_among(cells: Seq<u8>, n: int) -> int
    decreases n,
{
    if n <= 0 {
        0
    } else {
        hidden_among(cells, n - 1) + if is_sweepable(cells[n - 1]) {
            1int
        } else {
            0int
        }
    }
}

/// Whether the stack holds a snapshot of cell `(x, y)`.
spec fn on_stack(stack: Seq<Tile>, x: int, y: int) -> bool {
    exists|i: int| 0 <= i < stack.len() && (#[trigger] stack[i]).x == x && stack[i].y == y
}

impl FieldView {
    /// Whether a reveal that arrives at `(ax, ay)` goes on to `(bx, by)`:
    /// the first is a covered empty tile, the second touches it and is
    /// covered and unflagged.
    pub open spec fn spreads(self, ax: int, ay: int, bx: int, by: int) -> bool {
        &&& self.in_bounds(ax, ay)
        &&& self.cell(ax, ay) == TILE_UP
        &&& self.in_bounds(bx, by)
        &&& adjacent(ax, ay, bx, by)
        &&& is_sweepable(self.cell(bx, by))
    }

    /// Whether `path` is a way a reveal takes from `(sx, sy)`: it starts
    /// there, every cell on it is covered and unflagged, and every cell but
    /// the last is empty and touches the next.
    pub open spec fn is_reveal_path(self, sx: int, sy: int, path: Seq<(int, int)>) -> bool {
        &&& path.len() > 0
        &&& path[0] == (sx, sy)
        &&& forall|i: int|
            0 <= i < path.len() ==> self.in_bounds((#[trigger] path[i]).0, path[i].1)
                && is_sweepable(self.cell(path[i].0, path[i].1))
        &&& forall|i: int|
            0 <= i < path.len() - 1 ==> self.cell((#[trigger] path[i]).0, path[i].1) == TILE_UP
                && adjacent(path[i].0, path[i].1, path[i + 1].0, path[i + 1].1)
    }

    /// Whether a sweep of `(sx, sy)` uncovers `(x, y)`.
    pub open spec fn reached(self, sx: int, sy: int, x: int, y: int) -> bool {
        exists|path: Seq<(int, int)>| #[trigger]
            self.is_reveal_path(sx, sy, path) && path.last() == (x, y)
    }

    /// Whether `post` and `tiles` are what a sweep of `(x, y)` makes of the
    /// field: exactly the cells the sweep reaches are uncovered, `tiles`
    /// holds the snapshot of each of them once, as it is afterwards, and the
    /// swept cell comes first.
    pub open spec fn swept_to(self, post: FieldView, x: int, y: int, tiles: Seq<Tile>) -> bool {
        &&& post == self.with_cells(post.cells)
        &&& post.cells.len() == self.cells.len()
        &&& forall|k: int|
            0 <= k < self.cells.len() ==> #[trigger] post.cells[k] == if self.reached(
                x,
                y,
                self.x_of(k),
                self.y_of(k),
            ) {
                self.cells[k] - 10
            } else {
                self.cells[k] as int
            }
        &&& forall|i: int|
            0 <= i < tiles.len() ==> {
                let t = #[trigger] tiles[i];
                self.reached(x, y, t.x as int, t.y as int) && t == post.tile(t.x as int, t.y as int)
            }
        &&& forall|i: int, j: int| 0 <= i < j < tiles.len() ==> tiles[i] != tiles[j]
        &&& forall|cx: int, cy: int| #[trigger]
            self.reached(x, y, cx, cy) ==> tiles.contains(post.tile(cx, cy))
        &&& tiles.len() > 0 ==> tiles[0] == post.tile(x, y)
        &&& !is_sweepable(self.cell(x, y)) ==> tiles.len() == 0 && post == self
    }
}

/// Whether cell `(x, y)` was uncovered since `pre`.
spec fn shown(pre: FieldView, cur: FieldView, x: int, y: int) -> bool {
    cur.cell(x, y) != pre.cell(x, y)
}

/// The state of a sweep of `(sx, sy)` under way: `pre` is the field it
/// started on, `cur` the field now, `stack` the work list and `swept` the
/// tiles uncovered so far.
spec fn sweeping(
    pre: FieldView,
    cur: FieldView,
    sx: int,
    sy: int,
    stack: Seq<Tile>,
    swept: Seq<Tile>,
) -> bool {
    &&& pre.wf()
    &&& pre.in_bounds(sx, sy)
    &&& is_sweepable(pre.cell(sx, sy))
    &&& cur == pre.with_cells(cur.cells)
    &&& cur.cells.len() == pre.cells.len()
    &&& forall|cx: int, cy: int|
        pre.in_bounds(cx, cy) && #[trigger] shown(pre, cur, cx, cy) ==> {
            &&& pre.reached(sx, sy, cx, cy)
            &&& is_sweepable(pre.cell(cx, cy))
            &&& cur.cell(cx, cy) == pre.cell(cx, cy) - 10
            &&& swept.contains(cur.tile(cx, cy))
        }
    &&& forall|i: int|
        0 <= i < swept.len() ==> {
            let t = #[trigger] swept[i];
            &&& pre.in_bounds(t.x as int, t.y as int)
            &&& shown(pre, cur, t.x as int, t.y as int)
            &&& t == cur.tile(t.x as int, t.y as int)
        }
    &&& forall|i: int, j: int| 0 <= i < j < swept.len() ==> swept[i] != swept[j]
    &&& forall|i: int|
        0 <= i < stack.len() ==> {
            let t = #[trigger] stack[i];
            &&& pre.in_bounds(t.x as int, t.y as int)
            &&& is_sweepable(pre.cell(t.x as int, t.y as int))
            &&& pre.reached(sx, sy, t.x as int, t.y as int)
        }
    &&& forall|ax: int, ay: int, bx: int, by: int|
        #![trigger pre.spreads(ax, ay, bx, by)]
        pre.spreads(ax, ay, bx, by) && shown(pre, cur, ax, ay) ==> shown(pre, cur, bx, by)
            || on_stack(stack, bx, by)
    &&& swept.len() == 0 ==> stack.len() == 1 && stack[0].x == sx && stack[0].y == sy
    &&& swept.len() > 0 ==> swept[0].x == sx && swept[0].y == sy
}

/// A cell that is covered and unflagged is reached by the sweep of itself.
pub proof fn lemma_reached_start(pre: FieldView, sx: int, sy: int)
    requires
        pre.in_bounds(sx, sy),
        is_sweepable(pre.cell(sx, sy)),
    ensures
        pre.reached(sx, sy, sx, sy),
{
    let path = seq![(sx, sy)];
    assert(pre.is_reveal_path(sx, sy, path));
    assert(path.last() == (sx, sy));
}

/// A sweep that reaches an empty tile reaches what the tile spreads to.
pub proof fn lemma_reached_step(pre: FieldView, sx: int, sy: int, ax: int, ay: int, bx: int, by: int)
    requires
        pre.reached(sx, sy, ax, ay),
        pre.spreads(ax, ay, bx, by),
    ensures
        pre.reached(sx, sy, bx, by),
{
    let p = choose|p: Seq<(int, int)>| #[trigger]
        pre.is_reveal_path(sx, sy, p) && p.last() == (ax, ay);
    let q = p.push((bx, by));
    assert forall|i: int| 0 <= i < q.len() implies pre.in_bounds((#[trigger] q[i]).0, q[i].1)
        && is_sweepable(pre.cell(q[i].0, q[i].1)) by {
        if i < p.len() {
            assert(q[i] == p[i]);
        }
    }
    assert forall|i: int| 0 <= i < q.len() - 1 implies pre.cell((#[trigger] q[i]).0, q[i].1)
        == TILE_UP && adjacent(q[i].0, q[i].1, q[i + 1].0, q[i + 1].1) by {
        assert(q[i] == p[i]);
        if i < p.len() - 1 {
            assert(q[i + 1] == p[i + 1]);
        }
    }
    assert(pre.is_reveal_path(sx, sy, q));
    assert(q.last() == (bx, by));
}

/// A sweep reaches only cells of the grid that are covered and unflagged,
/// and none at all when the swept cell is not such a cell.
pub proof fn lemma_reached_is_sweepable(pre: FieldView, sx: int, sy: int, x: int, y: int)
    requires
        pre.reached(sx, sy, x, y),
    ensures
        pre.in_bounds(x, y),
        is_sweepable(pre.cell(x, y)),
        pre.in_bounds(sx, sy),
        is_sweepable(pre.cell(sx, sy)),
{
    let p = choose|p: Seq<(int, int)>| #[trigger]
        pre.is_reveal_path(sx, sy, p) && p.last() == (x, y);
    assert(p[p.len() - 1] == (x, y));
    assert(p[0] == (sx, sy));
}

/// Uncovering one covered, unflagged byte leaves one such byte fewer.
proof fn lemma_one_less_hidden(cells: Seq<u8>, at: int, v: u8, n: int)
    requires
        0 <= at < cells.len(),
        0 <= n <= cells.len(),
        is_sweepable(cells[at]),
        !is_sweepable(v),
    ensures
        hidden_among(cells.update(at, v), n) == hidden_among(cells, n) - if at < n {
            1int
        } else {
            0int
        },
        hidden_among(cells, n) >= if at < n {
            1int
        } else {
            0int
        },
    decreases n,
{
    if n > 0 {
        lemma_one_less_hidden(cells, at, v, n - 1);
    }
}

/// The sweep of a covered, unflagged cell starts with that cell alone on
/// the stack.
proof fn lemma_sweep_start(pre: FieldView, sx: int, sy: int)
    requires
        pre.wf(),
        pre.in_bounds(sx, sy),
        is_sweepable(pre.cell(sx, sy)),
    ensures
        sweeping(pre, pre, sx, sy, seq![pre.tile(sx, sy)], Seq::empty()),
{
    lemma_reached_start(pre, sx, sy);
    let stack = seq![pre.tile(sx, sy)];
    assert(stack[0].x == sx && stack[0].y == sy);
}

/// Dropping a tile from the stack that was uncovered in the meantime keeps
/// the sweep state.
proof fn lemma_sweep_skip(
    pre: FieldView,
    cur: FieldView,
    sx: int,
    sy: int,
    stack: Seq<Tile>,
    swept: Seq<Tile>,
)
    requires
        sweeping(pre, cur, sx, sy, stack, swept),
        stack.len() > 0,
        shown(pre, cur, stack.last().x as int, stack.last().y as int),
    ensures
        sweeping(pre, cur, sx, sy, stack.drop_last(), swept),
{
    let rest = stack.drop_last();
    let t = stack.last();
    assert(swept.contains(cur.tile(t.x as int, t.y as int)));
    assert forall|ax: int, ay: int, bx: int, by: int|
        #![trigger pre.spreads(ax, ay, bx, by)]
        pre.spreads(ax, ay, bx, by) && shown(pre, cur, ax, ay) implies shown(pre, cur, bx, by)
        || on_stack(rest, bx, by) by {
        if !shown(pre, cur, bx, by) {
            let i = choose|i: int|
                0 <= i < stack.len() && (#[trigger] stack[i]).x == bx && stack[i].y == by;
            assert(i < rest.len());
            assert(rest[i].x == bx && rest[i].y == by);
        }
    }
    assert forall|i: int| 0 <= i < rest.len() implies {
        let t = #[trigger] rest[i];
        &&& pre.in_bounds(t.x as int, t.y as int)
        &&& is_sweepable(pre.cell(t.x as int, t.y as int))
        &&& pre.reached(sx, sy, t.x as int, t.y as int)
    } by {
        assert(rest[i] == stack[i]);
    }
}

/// Uncovering the tile on top of the stack, and stacking its covered,
/// unflagged neighbors when it turns out empty, keeps the sweep state and
/// leaves one hidden tile fewer.
proof fn lemma_sweep_uncover(
    pre: FieldView,
    cur: FieldView,
    sx: int,
    sy: int,
    stack: Seq<Tile>,
    swept: Seq<Tile>,
    after: Seq<Tile>,
)
    requires
        sweeping(pre, cur, sx, sy, stack, swept),
        stack.len() > 0,
        !shown(pre, cur, stack.last().x as int, stack.last().y as int),
        after.len() >= stack.len() - 1,
        forall|i: int| 0 <= i < stack.len() - 1 ==> #[trigger] after[i] == stack[i],
        forall|i: int|
            stack.len() - 1 <= i < after.len() ==> {
                let t = #[trigger] after[i];
                &&& pre.cell(stack.last().x as int, stack.last().y as int) == TILE_UP
                &&& pre.in_bounds(t.x as int, t.y as int)
                &&& adjacent(
                    stack.last().x as int,
                    stack.last().y as int,
                    t.x as int,
                    t.y as int,
                )
                &&& is_sweepable(cur.cell(t.x as int, t.y as int))
            },
        pre.cell(stack.last().x as int, stack.last().y as int) == TILE_UP ==> forall|
            bx: int,
            by: int,
        |
            #![trigger cur.cell(bx, by)]
            pre.in_bounds(bx, by) && adjacent(
                stack.last().x as int,
                stack.last().y as int,
                bx,
                by,
            ) && is_sweepable(cur.cell(bx, by)) ==> on_stack(after, bx, by),
    ensures
        sweeping(
            pre,
            cur.with_cell(
                stack.last().x as int,
                stack.last().y as int,
                (pre.cell(stack.last().x as int, stack.last().y as int) - 10) as u8,
            ),
            sx,
            sy,
            after,
            swept.push(
                Tile {
                    x: stack.last().x,
                    y: stack.last().y,
                    val: (pre.cell(stack.last().x as int, stack.last().y as int) - 10) as u8,
                },
            ),
        ),
        hidden_among(
            cur.with_cell(
                stack.last().x as int,
                stack.last().y as int,
                (pre.cell(stack.last().x as int, stack.last().y as int) - 10) as u8,
            ).cells,
            cur.cells.len() as int,
        ) == hidden_among(cur.cells, cur.cells.len() as int) - 1,
        hidden_among(cur.cells, cur.cells.len() as int) >= 1,
{
    let top = stack.last();
    let tx = top.x as int;
    let ty = top.y as int;
    let v = (pre.cell(tx, ty) - 10) as u8;
    let next = cur.with_cell(tx, ty, v);
    let tile = Tile { x: top.x, y: top.y, val: v };
    let more = swept.push(tile);
    assert(cur.wf());
    lemma_with_cell(cur, tx, ty, v);
    lemma_index_in_range(cur, tx, ty);
    lemma_one_less_hidden(cur.cells, cur.index_of(tx, ty), v, cur.cells.len() as int);
    assert(next.cell(tx, ty) == v);
    assert(shown(pre, next, tx, ty));
    assert(more[swept.len() as int] == tile);
    assert forall|cx: int, cy: int| pre.in_bounds(cx, cy) && #[trigger] shown(pre, next, cx, cy) implies {
        &&& pre.reached(sx, sy, cx, cy)
        &&& is_sweepable(pre.cell(cx, cy))
        &&& next.cell(cx, cy) == pre.cell(cx, cy) - 10
        &&& more.contains(next.tile(cx, cy))
    } by {
        if cx == tx && cy == ty {
            assert(more[swept.len() as int] == next.tile(cx, cy));
        } else {
            assert(next.cell(cx, cy) == cur.cell(cx, cy));
            assert(shown(pre, cur, cx, cy));
            let i = choose|i: int| 0 <= i < swept.len() && swept[i] == cur.tile(cx, cy);
            assert(more[i] == next.tile(cx, cy));
        }
    }
    assert forall|i: int| 0 <= i < more.len() implies {
        let t = #[trigger] more[i];
        &&& pre.in_bounds(t.x as int, t.y as int)
        &&& shown(pre, next, t.x as int, t.y as int)
        &&& t == next.tile(t.x as int, t.y as int)
    } by {
        if i < swept.len() {
            let t = swept[i];
            assert(more[i] == t);
            assert(shown(pre, cur, t.x as int, t.y as int));
            assert(next.cell(t.x as int, t.y as int) == cur.cell(t.x as int, t.y as int));
        }
    }
    assert forall|i: int, j: int| 0 <= i < j < more.len() implies more[i] != more[j] by {
        assert(more[i] == swept[i]);
        assert(shown(pre, cur, swept[i].x as int, swept[i].y as int));
        if j < swept.len() {
            assert(more[j] == swept[j]);
        }
    }
    assert forall|i: int| 0 <= i < after.len() implies {
        let t = #[trigger] after[i];
        &&& pre.in_bounds(t.x as int, t.y as int)
        &&& is_sweepable(pre.cell(t.x as int, t.y as int))
        &&& pre.reached(sx, sy, t.x as int, t.y as int)
    } by {
        let t = after[i];
        if i < stack.len() - 1 {
            assert(after[i] == stack[i]);
        } else {
            if shown(pre, cur, t.x as int, t.y as int) {
                assert(false);
            }
            assert(pre.spreads(tx, ty, t.x as int, t.y as int));
            lemma_reached_step(pre, sx, sy, tx, ty, t.x as int, t.y as int);
        }
    }
    assert forall|ax: int, ay: int, bx: int, by: int|
        #![trigger pre.spreads(ax, ay, bx, by)]
        pre.spreads(ax, ay, bx, by) && shown(pre, next, ax, ay) implies shown(pre, next, bx, by)
        || on_stack(after, bx, by) by {
        if !shown(pre, next, bx, by) {
            assert(!(bx == tx && by == ty));
            assert(next.cell(bx, by) == cur.cell(bx, by));
            assert(!shown(pre, cur, bx, by));
            if ax == tx && ay == ty {
                assert(is_sweepable(cur.cell(bx, by)));
            } else {
                assert(next.cell(ax, ay) == cur.cell(ax, ay));
                assert(shown(pre, cur, ax, ay));
                let i = choose|i: int|
                    0 <= i < stack.len() && (#[trigger] stack[i]).x == bx && stack[i].y == by;
                assert(i < stack.len() - 1);
                assert(after[i].x == bx && after[i].y == by);
            }
        }
    }
    if swept.len() == 0 {
        assert(stack.len() == 1);
        assert(more[0] == tile);
    } else {
        assert(more[0] == swept[0]);
    }
}

/// Once a field is swept out, every cell on a reveal path is uncovered.
proof fn lemma_path_shown(
    pre: FieldView,
    cur: FieldView,
    sx: int,
    sy: int,
    swept: Seq<Tile>,
    path: Seq<(int, int)>,
    i: int,
)
    requires
        sweeping(pre, cur, sx, sy, Seq::empty(), swept),
        pre.is_reveal_path(sx, sy, path),
        0 <= i < path.len(),
    ensures
        shown(pre, cur, path[i].0, path[i].1),
    decreases i,
{
    if i == 0 {
        assert(swept.len() > 0);
        assert(shown(pre, cur, swept[0].x as int, swept[0].y as int));
    } else {
        lemma_path_shown(pre, cur, sx, sy, swept, path, i - 1);
        assert(pre.in_bounds(path[i].0, path[i].1));
        assert(pre.spreads(path[i - 1].0, path[i - 1].1, path[i].0, path[i].1));
        assert(!on_stack(Seq::<Tile>::empty(), path[i].0, path[i].1));
    }
}

/// A sweep whose stack ran empty has swept the field.
proof fn lemma_sweep_done(pre: FieldView, cur: FieldView, sx: int, sy: int, swept: Seq<Tile>)
    requires
        sweeping(pre, cur, sx, sy, Seq::empty(), swept),
    ensures
        pre.swept_to(cur, sx, sy, swept),
{
    assert forall|cx: int, cy: int| #[trigger] pre.reached(sx, sy, cx, cy) implies pre.in_bounds(
        cx,
        cy,
    ) && shown(pre, cur, cx, cy) && swept.contains(cur.tile(cx, cy)) by {
        lemma_reached_is_sweepable(pre, sx, sy, cx, cy);
        let p = choose|p: Seq<(int, int)>| #[trigger]
            pre.is_reveal_path(sx, sy, p) && p.last() == (cx, cy);
        lemma_path_shown(pre, cur, sx, sy, swept, p, p.len() - 1);
    }
    assert forall|k: int| 0 <= k < pre.cells.len() implies #[trigger] cur.cells[k] == if pre.reached(
        sx,
        sy,
        pre.x_of(k),
        pre.y_of(k),
    ) {
        pre.cells[k] - 10
    } else {
        pre.cells[k] as int
    } by {
        lemma_position_in_grid(pre, k);
        let cx = pre.x_of(k);
        let cy = pre.y_of(k);
        assert(cur.cell(cx, cy) == cur.cells[k]);
        assert(pre.cell(cx, cy) == pre.cells[k]);
        if pre.reached(sx, sy, cx, cy) {
            assert(shown(pre, cur, cx, cy));
        } else {
            if shown(pre, cur, cx, cy) {
                assert(false);
            }
        }
    }
    assert forall|i: int| 0 <= i < swept.len() implies {
        let t = #[trigger] swept[i];
        pre.reached(sx, sy, t.x as int, t.y as int) && t == cur.tile(t.x as int, t.y as int)
    } by {
        let t = swept[i];
        assert(shown(pre, cur, t.x as int, t.y as int));
    }
    if swept.len() > 0 {
        assert(swept[0] == cur.tile(swept[0].x as int, swept[0].y as int));
    }
}

/// Pushes every snapshot of `around` that is covered and unflagged.
fn push_sweepable(stack: &mut Vec<Tile>, around: &Vec<Tile>)
    ensures
        final(stack)@.len() >= old(stack)@.len(),
        forall|i: int| 0 <= i < old(stack)@.len() ==> #[trigger] final(stack)@[i] == old(stack)@[i],
        forall|i: int|
            old(stack)@.len() <= i < final(stack)@.len() ==> around@.contains(
                #[trigger] final(stack)@[i],
            ) && is_sweepable(final(stack)@[i].val),
        forall|j: int|
            0 <= j < around@.len() && is_sweepable((#[trigger] around@[j]).val)
                ==> final(stack)@.contains(around@[j]),
{
    let mut j: usize = 0;
    while j < around.len()
        invariant
            j <= around.len(),
            stack@.len() >= old(stack)@.len(),
            forall|i: int| 0 <= i < old(stack)@.len() ==> #[trigger] stack@[i] == old(stack)@[i],
            forall|i: int|
                old(stack)@.len() <= i < stack@.len() ==> around@.contains(#[trigger] stack@[i])
                    && is_sweepable(stack@[i].val),
            forall|m: int|
                0 <= m < j && is_sweepable((#[trigger] around@[m]).val) ==> stack@.contains(
                    around@[m],
                ),
        decreases around.len() - j,
    {
        let tile = around[j];
        if tile.is_up() && !tile.is_flagged() {
            let ghost earlier = stack@;
            stack.push(tile);
            assert(stack@[earlier.len() as int] == tile);
            assert forall|m: int|
                0 <= m < j && is_sweepable((#[trigger] around@[m]).val) implies stack@.contains(
                around@[m],
            ) by {
                let i = choose|i: int| 0 <= i < earlier.len() && earlier[i] == around@[m];
                assert(stack@[i] == around@[m]);
            }
        }
        j = j + 1;
    }
}

impl MineField {
    /// Uncovers cell `(x, y)`, which must lie inside the grid, and whatever
    /// hangs together with it through empty tiles. Returns the tiles it
    /// uncovered, the swept one first. A cell that is uncovered or flagged is
    /// left alone, and so is the rest of the field.
    pub fn flood_fill(&mut self, x: usize, y: usize) -> (sweeped: Vec<Tile>)
        requires
            old(self).wf(),
            old(self)@.in_bounds(x as int, y as int),
        ensures
            final(self).wf(),
            old(self)@.swept_to(final(self)@, x as int, y as int, sweeped@),
    {
        let mut stack = Vec::<Tile>::new();
        let mut sweeped = Vec::<Tile>::new();
        let val: u8 = self.get_value(x, y);
        if val < TILE_UP || val >= FLAGGED {
            proof {
                let pre = self@;
                assert forall|cx: int, cy: int| !pre.reached(x as int, y as int, cx, cy) by {
                    if pre.reached(x as int, y as int, cx, cy) {
                        lemma_reached_is_sweepable(pre, x as int, y as int, cx, cy);
                    }
                }
            }
            return sweeped;
        }
        stack.push(Tile::new(x, y, val));
        proof {
            lemma_sweep_start(self@, x as int, y as int);
            assert(stack@ =~= seq![self@.tile(x as int, y as int)]);
            assert(sweeped@ =~= Seq::<Tile>::empty());
        }
        while stack.len() != 0
            invariant
                self.wf(),
                sweeping(old(self)@, self@, x as int, y as int, stack@, sweeped@),
            decreases hidden_among(self@.cells, self@.cells.len() as int), stack.len(),
        {
            let ghost before = self@;
            let ghost full = stack@;
            let ghost found = sweeped@;
            let mut tile = stack.pop().unwrap();
            let now: u8 = self.get_value(tile.x, tile.y);
            if now >= TILE_UP && now < FLAGGED {
                assert(!shown(old(self)@, before, tile.x as int, tile.y as int));
                tile.val = now - TILE_UP;
                self.set_value(tile.x, tile.y, tile.val);
                sweeped.push(tile);
                if tile.val == EMPTY {
                    let around = self.neighbors(tile.x, tile.y);
                    push_sweepable(&mut stack, &around);
                    proof {
                        lemma_neighbors_are_adjacent(self@, tile.x as int, tile.y as int);
                        lemma_with_cell(before, tile.x as int, tile.y as int, tile.val);
                        assert(old(self)@.cell(tile.x as int, tile.y as int) == TILE_UP);
                        assert forall|i: int| full.len() - 1 <= i < stack@.len() implies {
                            let t = #[trigger] stack@[i];
                            &&& old(self)@.in_bounds(t.x as int, t.y as int)
                            &&& adjacent(tile.x as int, tile.y as int, t.x as int, t.y as int)
                            &&& is_sweepable(before.cell(t.x as int, t.y as int))
                        } by {
                            let t = stack@[i];
                            assert(around@.contains(t));
                            assert(self@.is_neighbor_tile(tile.x as int, tile.y as int, t));
                        }
                        assert forall|bx: int, by: int|
                            #![trigger before.cell(bx, by)]
                            old(self)@.in_bounds(bx, by) && adjacent(
                                tile.x as int,
                                tile.y as int,
                                bx,
                                by,
                            ) && is_sweepable(before.cell(bx, by)) implies on_stack(
                            stack@,
                            bx,
                            by,
                        ) by {
                            let t = self@.tile(bx, by);
                            assert(self@.cell(bx, by) == before.cell(bx, by));
                            assert(self@.is_neighbor_tile(tile.x as int, tile.y as int, t));
                            assert(around@.contains(t));
                            let j = choose|j: int| 0 <= j < around@.len() && around@[j] == t;
                            assert(is_sweepable(around@[j].val));
                            assert(stack@.contains(t));
                            let i = choose|i: int| 0 <= i < stack@.len() && stack@[i] == t;
                            assert(stack@[i].x == bx && stack@[i].y == by);
                        }
                    }
                }
                proof {
                    lemma_sweep_uncover(
                        old(self)@,
                        before,
                        x as int,
                        y as int,
                        full,
                        found,
                        stack@,
                    );
                }
            } else {
                proof {
                    lemma_sweep_skip(old(self)@, before, x as int, y as int, full, sweeped@);
                    assert(stack@ =~= full.drop_last());
                }
            }
        }
        proof {
            assert(stack@ =~= Seq::<Tile>::empty());
            lemma_sweep_done(old(self)@, self@, x as int, y as int, sweeped@);
        }
        sweeped
    }

    /// Sweeps cell `(x, y)`, which must lie inside the grid. The first sweep
    /// of a field populates it beforehand, with no mine on the swept cell nor
    /// on any cell that touches it; after that the sweep is a flood fill.
    pub fn sweep(&mut self, x: usize, y: usize) -> (sweeped: Vec<Tile>)
        requires
            old(self).wf(),
            old(self)@.in_bounds(x as int, y as int),
        ensures
            final(self).wf(),
            !old(self)@.first_sweep ==> old(self)@.swept_to(
                final(self)@,
                x as int,
                y as int,
                sweeped@,
            ),
            old(self)@.first_sweep ==> exists|board: FieldView|
                {
                    &&& board.populated_from(
                        FieldView { first_sweep: false, ..old(self)@ },
                        x as int,
                        y as int,
                        1,
                    )
                    &&& #[trigger] board.swept_to(final(self)@, x as int, y as int, sweeped@)
                },
            old(self)@.first_sweep ==> sweeped@.len() > 0 && sweeped@[0] == (Tile { x, y, val: 0 }),
    {
        if self.first_sweep {
            self.first_sweep = false;
            self.populate_square(x as i128, y as i128, 1);
            let ghost board = self@;
            let sweeped = self.flood_fill(x, y);
            proof {
                lemma_first_sweep_is_safe(
                    board,
                    FieldView { first_sweep: false, ..old(self)@ },
                    x as int,
                    y as int,
                );
                lemma_reached_start(board, x as int, y as int);
                lemma_index_in_range(board, x as int, y as int);
                assert(sweeped@.contains(self@.tile(x as int, y as int)));
                assert(board.swept_to(self@, x as int, y as int, sweeped@));
            }
            sweeped
        } else {
            self.flood_fill(x, y)
        }
    }
}

/// On a field that was populated around `(x, y)` with radius one, the cell
/// `(x, y)` is a covered empty tile, and neither it nor any cell that touches
/// it is a mine.
pub proof fn lemma_first_sweep_is_safe(board: FieldView, before: FieldView, x: int, y: int)
    requires
        board.populated_from(before, x, y, 1),
        board.in_bounds(x, y),
    ensures
        board.cell(x, y) == TILE_UP,
        !board.is_mine(x, y),
        forall|nx: int, ny: int| adjacent(x, y, nx, ny) ==> !#[trigger] board.is_mine(nx, ny),
{
    assert forall|nx: int, ny: int|
        x - 1 <= nx <= x + 1 && y - 1 <= ny <= y + 1 implies !#[trigger] board.is_mine(nx, ny) by {
        if board.in_bounds(nx, ny) {
            assert(protected(nx, ny, x, y, 1));
        }
    }
    assert(!board.is_mine(x - 1, y - 1) && !board.is_mine(x, y - 1) && !board.is_mine(x + 1, y - 1));
    assert(!board.is_mine(x - 1, y) && !board.is_mine(x, y) && !board.is_mine(x + 1, y));
    assert(!board.is_mine(x - 1, y + 1) && !board.is_mine(x, y + 1) && !board.is_mine(x + 1, y + 1));
    assert(board.adjacent_mines(x, y) == 0);
    lemma_index_in_range(board, x, y);
    assert(is_sweepable(board.cells[board.index_of(x, y)]));
}

/// On a field of covered empty tiles the sweep of any cell reaches every cell.
pub proof fn lemma_empty_field_is_reached(v: FieldView, sx: int, sy: int, x: int, y: int)
    requires
        v.wf(),
        forall|k: int| 0 <= k < v.cells.len() ==> #[trigger] v.cells[k] == TILE_UP,
        v.in_bounds(sx, sy),
        v.in_bounds(x, y),
    ensures
        v.reached(sx, sy, x, y),
    decreases
            (if x >= sx {
                x - sx
            } else {
                sx - x
            }) + (if y >= sy {
                y - sy
            } else {
                sy - y
            }),
{
    lemma_index_in_range(v, sx, sy);
    lemma_index_in_range(v, x, y);
    if x == sx && y == sy {
        lemma_reached_start(v, sx, sy);
    } else {
        let px = if x > sx {
            x - 1
        } else if x < sx {
            x + 1
        } else {
            x
        };
        let py = if y > sy {
            y - 1
        } else if y < sy {
            y + 1
        } else {
            y
        };
        lemma_empty_field_is_reached(v, sx, sy, px, py);
        lemma_index_in_range(v, px, py);
        assert(v.spreads(px, py, x, y));
        lemma_reached_step(v, sx, sy, px, py, x, y);
    }
}

/// A sweep hands out as many tiles as it reaches cells: the positions of its
/// tiles are the positions it reaches, each once.
pub proof fn lemma_swept_positions(
    pre: FieldView,
    post: FieldView,
    sx: int,
    sy: int,
    tiles: Seq<Tile>,
)
    requires
        pre.wf(),
        pre.swept_to(post, sx, sy, tiles),
    ensures
        tiles.len() == Set::new(
            |k: int| 0 <= k < pre.cells.len() && pre.reached(sx, sy, pre.x_of(k), pre.y_of(k)),
        ).len(),
        tiles.len() <= pre.area(),
{
    let positions = Seq::new(tiles.len(), |i: int| pre.index_of(tiles[i].x as int, tiles[i].y as int));
    let reached = Set::new(
        |k: int| 0 <= k < pre.cells.len() && pre.reached(sx, sy, pre.x_of(k), pre.y_of(k)),
    );
    assert forall|i: int| 0 <= i < tiles.len() implies pre.in_bounds(
        tiles[i].x as int,
        tiles[i].y as int,
    ) && 0 <= #[trigger] positions[i] < pre.cells.len() && reached.contains(positions[i]) by {
        let t = tiles[i];
        lemma_reached_is_sweepable(pre, sx, sy, t.x as int, t.y as int);
        lemma_index_in_range(pre, t.x as int, t.y as int);
    }
    assert forall|i: int, j: int| 0 <= i < j < positions.len() implies positions[i]
        != positions[j] by {
        assert(0 <= positions[i] < pre.cells.len());
        assert(0 <= positions[j] < pre.cells.len());
        if positions[i] == positions[j] {
            crate::view::lemma_index_injective(
                pre,
                tiles[i].x as int,
                tiles[i].y as int,
                tiles[j].x as int,
                tiles[j].y as int,
            );
            assert(tiles[i] == post.tile(tiles[i].x as int, tiles[i].y as int));
            assert(tiles[j] == post.tile(tiles[j].x as int, tiles[j].y as int));
            assert(tiles[i] == tiles[j]);
        }
    }
    assert(positions.no_duplicates());
    assert forall|k: int| reached.contains(k) implies positions.to_set().contains(k) by {
        lemma_position_in_grid(pre, k);
        let cx = pre.x_of(k);
        let cy = pre.y_of(k);
        assert(tiles.contains(post.tile(cx, cy)));
        let i = choose|i: int| 0 <= i < tiles.len() && tiles[i] == post.tile(cx, cy);
        assert(positions[i] == k);
    }
    assert forall|k: int| positions.to_set().contains(k) implies reached.contains(k) by {
        let i = choose|i: int| 0 <= i < positions.len() && positions[i] == k;
        assert(0 <= positions[i] < pre.cells.len());
    }
    assert(positions.to_set() =~= reached);
    positions.unique_seq_to_set();
    let all = vstd::set_lib::set_int_range(0, pre.cells.len() as int);
    vstd::set_lib::lemma_int_range(0, pre.cells.len() as int);
    assert(reached.subset_of(all));
    vstd::set_lib::lemma_len_subset(reached, all);
}

/// The sweep of a field of covered empty tiles uncovers the whole field and
/// hands out one tile per cell.
pub proof fn lemma_empty_field_is_swept_whole(
    pre: FieldView,
    post: FieldView,
    sx: int,
    sy: int,
    tiles: Seq<Tile>,
)
    requires
        pre.wf(),
        pre.in_bounds(sx, sy),
        forall|k: int| 0 <= k < pre.cells.len() ==> #[trigger] pre.cells[k] == TILE_UP,
        pre.swept_to(post, sx, sy, tiles),
    ensures
        tiles.len() == pre.area(),
        forall|k: int| 0 <= k < post.cells.len() ==> #[trigger] post.cells[k] == 0,
{
    let reached = Set::new(
        |k: int| 0 <= k < pre.cells.len() && pre.reached(sx, sy, pre.x_of(k), pre.y_of(k)),
    );
    let all = vstd::set_lib::set_int_range(0, pre.cells.len() as int);
    assert forall|k: int| 0 <= k < pre.cells.len() implies pre.reached(
        sx,
        sy,
        pre.x_of(k),
        pre.y_of(k),
    ) by {
        lemma_position_in_grid(pre, k);
        lemma_empty_field_is_reached(pre, sx, sy, pre.x_of(k), pre.y_of(k));
    }
    assert(reached =~= all);
    vstd::set_lib::lemma_int_range(0, pre.cells.len() as int);
    lemma_swept_positions(pre, post, sx, sy, tiles);
    assert forall|k: int| 0 <= k < post.cells.len() implies #[trigger] post.cells[k] == 0 by {
        assert(pre.reached(sx, sy, pre.x_of(k), pre.y_of(k)));
        assert(pre.cells[k] == TILE_UP);
    }
}

} // verus!
