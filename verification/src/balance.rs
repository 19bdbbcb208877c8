//! What the moves of the game keep: every byte stays a tile, and the
//! mines-remaining counter moves with the flags.

use vstd::prelude::*;
use crate::tile::{is_covered, is_flagged, is_tile_value, Tile, TILE_UP};
use crate::view::{lemma_index_in_range, lemma_position_in_grid, FieldView};

verus! {

/// How many of the first `n` bytes are flagged.
pub open spec fn flags_among(cells: Seq<u8>, n: int) -> int
    decreases n,
{
    if n <= 0 {
        0
    } else {
        flags_among(cells, n - 1) + if is_flagged(cells[n - 1]) {
            1int
        } else {
            0int
        }
    }
}

impl FieldView {
    /// Every byte of the field is a tile: a face with its cover and flag.
    pub open spec fn holds_tiles(self) -> bool {
        forall|k: int| 0 <= k < self.cells.len() ==> is_tile_value(#[trigger] self.cells[k])
    }

    /// How many cells of the field are flagged.
    pub open spec fn flag_total(self) -> int {
        flags_among(self.cells, self.cells.len() as int)
    }
}

/// Replacing one byte changes the number of flags by what the byte changes.
proof fn lemma_flags_after_update(cells: Seq<u8>, at: int, v: u8, n: int)
    requires
        0 <= at < cells.len(),
        0 <= n <= cells.len(),
    ensures
        flags_among(cells.update(at, v), n) == flags_among(cells, n) + if at < n {
            (if is_flagged(v) {
                1int
            } else {
                0int
            }) - (if is_flagged(cells[at]) {
                1int
            } else {
                0int
            })
        } else {
            0int
        },
    decreases n,
{
    if n > 0 {
        lemma_flags_after_update(cells, at, v, n - 1);
    }
}

/// Fields that agree on which bytes are flagged hold as many flags.
proof fn lemma_same_flags(a: Seq<u8>, b: Seq<u8>, n: int)
    requires
        0 <= n <= a.len(),
        a.len() == b.len(),
        forall|k: int| 0 <= k < a.len() ==> is_flagged(#[trigger] a[k]) == is_flagged(b[k]),
    ensures
        flags_among(a, n) == flags_among(b, n),
    decreases n,
{
    if n > 0 {
        lemma_same_flags(a, b, n - 1);
        assert(is_flagged(a[n - 1]) == is_flagged(b[n - 1]));
    }
}

/// A field without a flagged byte holds no flag.
proof fn lemma_no_flags(cells: Seq<u8>, n: int)
    requires
        0 <= n <= cells.len(),
        forall|k: int| 0 <= k < cells.len() ==> !is_flagged(#[trigger] cells[k]),
    ensures
        flags_among(cells, n) == 0,
    decreases n,
{
    if n > 0 {
        lemma_no_flags(cells, n - 1);
    }
}

/// A new field holds tiles only, and no flag.
pub proof fn lemma_fresh_field(width: nat, height: nat)
    ensures
        FieldView::fresh(width, height).holds_tiles(),
        FieldView::fresh(width, height).flag_total() == 0,
{
    let v = FieldView::fresh(width, height);
    lemma_no_flags(v.cells, v.cells.len() as int);
}

/// A populated field holds tiles only, and no flag.
pub proof fn lemma_populated_field(before: FieldView, after: FieldView, sx: int, sy: int, r: int)
    requires
        after.populated_from(before, sx, sy, r),
    ensures
        after.holds_tiles(),
        after.flag_total() == 0,
{
    lemma_no_flags(after.cells, after.cells.len() as int);
}

/// Toggling a flag keeps every byte a tile, and the mines-remaining counter
/// moves against the number of flags: their sum stays what it was.
pub proof fn lemma_flag_keeps_balance(v: FieldView, x: int, y: int)
    requires
        v.wf(),
        v.in_bounds(x, y),
        v.holds_tiles(),
    ensures
        v.flag_toggled(x, y).holds_tiles(),
        v.flag_toggled(x, y).wf(),
        v.flag_toggled(x, y).bombs_left + v.flag_toggled(x, y).flag_total() == v.bombs_left
            + v.flag_total(),
{
    lemma_index_in_range(v, x, y);
    let k = v.index_of(x, y);
    let after = v.flag_toggled(x, y);
    assert(is_tile_value(v.cells[k]));
    if is_covered(v.cell(x, y)) {
        lemma_flags_after_update(v.cells, k, after.cells[k], v.cells.len() as int);
    }
}

/// A sweep keeps every byte a tile and touches neither a flag nor the
/// mines-remaining counter.
pub proof fn lemma_sweep_keeps_balance(
    pre: FieldView,
    post: FieldView,
    x: int,
    y: int,
    tiles: Seq<Tile>,
)
    requires
        pre.wf(),
        pre.holds_tiles(),
        pre.swept_to(post, x, y, tiles),
    ensures
        post.holds_tiles(),
        post.flag_total() == pre.flag_total(),
        post.bombs_left == pre.bombs_left,
{
    assert forall|k: int| 0 <= k < pre.cells.len() implies is_flagged(#[trigger] post.cells[k])
        == is_flagged(pre.cells[k]) && is_tile_value(post.cells[k]) by {
        assert(is_tile_value(pre.cells[k]));
        if pre.reached(x, y, pre.x_of(k), pre.y_of(k)) {
            lemma_position_in_grid(pre, k);
            crate::sweep::lemma_reached_is_sweepable(pre, x, y, pre.x_of(k), pre.y_of(k));
        }
    }
    lemma_same_flags(post.cells, pre.cells, pre.cells.len() as int);
}

/// Uncovering the whole field keeps every byte a tile and touches neither a
/// flag nor the mines-remaining counter.
pub proof fn lemma_uncover_keeps_balance(v: FieldView)
    requires
        v.holds_tiles(),
    ensures
        v.all_uncovered().holds_tiles(),
        v.all_uncovered().flag_total() == v.flag_total(),
        v.all_uncovered().bombs_left == v.bombs_left,
{
    let after = v.all_uncovered();
    assert forall|k: int| 0 <= k < v.cells.len() implies is_flagged(#[trigger] after.cells[k])
        == is_flagged(v.cells[k]) && is_tile_value(after.cells[k]) by {
        assert(is_tile_value(v.cells[k]));
    }
    lemma_same_flags(after.cells, v.cells, v.cells.len() as int);
}

/// A reset leaves tiles only, and no flag.
pub proof fn lemma_reset_field(v: FieldView)
    ensures
        v.filled(TILE_UP).holds_tiles(),
        v.filled(TILE_UP).flag_total() == 0,
{
    lemma_no_flags(v.filled(TILE_UP).cells, v.cells.len() as int);
}

} // verus!
