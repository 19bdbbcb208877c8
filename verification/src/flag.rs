//! Flagging, and uncovering the whole field.

use vstd::prelude::*;
use crate::field::MineField;
use crate::tile::{
    is_covered,
    is_flagged,
    is_sweepable,
    is_tile_value,
    uncovered_value,
    FLAGGED,
    TILE_UP,
};
use crate::view::{lemma_index_in_range, FieldView};

verus! {

impl FieldView {
    /// The field after the flag of cell `(x, y)` is toggled. An uncovered
    /// cell leaves the field as it is; flagging takes one off the
    /// mines-remaining counter and unflagging gives it back.
    pub open spec fn flag_toggled(self, x: int, y: int) -> FieldView {
        let v = self.cell(x, y);
        if !is_covered(v) {
            self
        } else if !is_flagged(v) {
            FieldView { bombs_left: self.bombs_left - 1, ..self.with_cell(x, y, (v + 10) as u8) }
        } else {
            FieldView { bombs_left: self.bombs_left + 1, ..self.with_cell(x, y, (v - 10) as u8) }
        }
    }

    /// The field with every unflagged covered cell uncovered.
    pub open spec fn all_uncovered(self) -> FieldView {
        self.with_cells(Seq::new(self.cells.len(), |k: int| uncovered_value(self.cells[k]) as u8))
    }
}

impl MineField {
    /// Toggles the flag of cell `(x, y)`, which must lie inside the grid, and
    /// tells whether the cell is flagged now. An uncovered cell is left alone.
    /// The mines-remaining counter must have room for the step.
    pub fn flag(&mut self, x: usize, y: usize) -> (flagged: bool)
        requires
            old(self).wf(),
            old(self)@.in_bounds(x as int, y as int),
            i32::MIN <= old(self)@.flag_toggled(x as int, y as int).bombs_left <= i32::MAX,
        ensures
            final(self).wf(),
            final(self)@ == old(self)@.flag_toggled(x as int, y as int),
            flagged == is_sweepable(old(self)@.cell(x as int, y as int)),
    {
        let val: u8 = self.get_value(x, y);
        if val < TILE_UP {
            return false;
        }
        if val < FLAGGED {
            self.set_value(x, y, val + TILE_UP);
            self.bombs_left = self.bombs_left - 1;
        } else {
            self.set_value(x, y, val - TILE_UP);
            self.bombs_left = self.bombs_left + 1;
        }
        val < FLAGGED
    }

    /// Uncovers every cell that is covered and not flagged.
    pub fn reveal_all(&mut self)
        requires
            old(self).wf(),
        ensures
            final(self).wf(),
            final(self)@ == old(self)@.all_uncovered(),
    {
        let ghost n = self@.cells.len();
        let ghost start = self@.cells;
        let mut it = self.iter_mut();
        let ghost whole = final(it.grid)@;
        loop
            invariant
                it.wf(),
                it.cells().len() == n,
                start.len() == n,
                forall|j: int| 0 <= j < it.position() ==> it.cells()[j] == uncovered_value(start[j]),
                forall|j: int| it.position() <= j < n ==> it.cells()[j] == start[j],
                final(it.grid)@ == whole,
            ensures
                it.position() == n,
            decreases n - it.position(),
        {
            match it.next() {
                Some(mut tile) => {
                    tile.down();
                },
                None => {
                    break;
                },
            }
        }
        assert(whole =~= old(self)@.all_uncovered().cells);
    }
}

/// Flagging a covered tile twice brings the field back to where it was, the
/// mines-remaining counter included.
pub proof fn lemma_flag_twice_restores(v: FieldView, x: int, y: int)
    requires
        v.wf(),
        v.in_bounds(x, y),
        is_covered(v.cell(x, y)),
        is_tile_value(v.cell(x, y)),
    ensures
        v.flag_toggled(x, y).flag_toggled(x, y).bombs_left == v.bombs_left,
        v.flag_toggled(x, y).flag_toggled(x, y) == v,
{
    lemma_index_in_range(v, x, y);
    let once = v.flag_toggled(x, y);
    let twice = once.flag_toggled(x, y);
    assert(twice.cells =~= v.cells);
}

} // verus!
