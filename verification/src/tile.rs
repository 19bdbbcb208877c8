//! The packed one-byte tile encoding, and the two tile handles built on it.

use vstd::prelude::*;

verus! {

/// An uncovered tile with no adjacent mine.
pub const EMPTY: u8 = 0;

/// An uncovered mine.
pub const BOMB: u8 = 9;

/// Threshold of the covered range, and the offset that covers a tile.
pub const TILE_UP: u8 = 10;

/// Threshold of the flagged range.
pub const FLAGGED: u8 = 20;

/// The face of a tile: `0` for empty, `1..=8` for a number, `9` for a mine.
pub open spec fn base_value(v: u8) -> int {
    v as int % 10
}

/// Whether the byte lies in the covered range (flagged tiles included).
pub open spec fn is_covered(v: u8) -> bool {
    v >= TILE_UP
}

/// Whether the byte lies in the flagged range.
pub open spec fn is_flagged(v: u8) -> bool {
    v >= FLAGGED
}

/// A tile that a sweep may reveal: covered and not flagged.
pub open spec fn is_sweepable(v: u8) -> bool {
    TILE_UP <= v < FLAGGED
}

/// Bytes that stand for a tile: a face, optionally covered, optionally flagged.
pub open spec fn is_tile_value(v: u8) -> bool {
    v < 30
}

/// The byte that packs a face with its two state bits.
pub open spec fn encode(base: int, covered: bool, flagged: bool) -> int {
    base + if flagged {
        20int
    } else if covered {
        10int
    } else {
        0int
    }
}

/// The byte after covering: unchanged when already covered.
pub open spec fn covered_value(v: u8) -> int {
    if is_covered(v) {
        v as int
    } else {
        v + 10
    }
}

/// The byte after uncovering: unchanged when uncovered or flagged.
pub open spec fn uncovered_value(v: u8) -> int {
    if is_sweepable(v) {
        v - 10
    } else {
        v as int
    }
}

/// The byte after toggling the flag.
pub open spec fn toggled_value(v: u8) -> int {
    if is_flagged(v) {
        v - 10
    } else {
        v + 10
    }
}

/// Every tile byte splits into exactly one face and state, and a flagged tile
/// is always covered.
pub proof fn lemma_tile_decomposition(v: u8)
    requires
        is_tile_value(v),
    ensures
        0 <= base_value(v) <= 9,
        is_flagged(v) ==> is_covered(v),
        encode(base_value(v), is_covered(v), is_flagged(v)) == v,
        forall|b: int, c: bool, f: bool|
            0 <= b <= 9 && (f ==> c) && encode(b, c, f) == v ==> b == base_value(v) && c
                == is_covered(v) && f == is_flagged(v),
{
}

/// An immutable snapshot of one tile: its coordinates and the byte it held
/// when the snapshot was taken.
#[derive(Debug, Clone, Copy, PartialEq, Eq, Hash, Structural)]
pub struct Tile {
    pub x: usize,
    pub y: usize,
    pub val: u8,
}

impl Tile {
    pub fn new(x: usize, y: usize, val: u8) -> (t: Tile)
        ensures
            t == (Tile { x, y, val }),
    {
        Tile { x, y, val }
    }

    pub fn is_empty(&self) -> (b: bool)
        ensures
            b == (base_value(self.val) == 0),
    {
        self.val % TILE_UP == EMPTY
    }

    pub fn is_up(&self) -> (b: bool)
        ensures
            b == is_covered(self.val),
    {
        self.val >= TILE_UP
    }

    pub fn is_flagged(&self) -> (b: bool)
        ensures
            b == is_flagged(self.val),
    {
        self.val >= FLAGGED
    }

    pub fn is_bomb(&self) -> (b: bool)
        ensures
            b == (self.val == BOMB),
    {
        self.val == BOMB
    }
}

/// A transient handle on one cell of a field: its coordinates and exclusive
/// access to its byte.
pub struct MutTile<'field> {
    pub x: usize,
    pub y: usize,
    pub val: &'field mut u8,
}

impl<'field> MutTile<'field> {
    /// The byte the handle currently sees.
    pub open spec fn value(&self) -> u8 {
        *self.val
    }

    pub fn is_empty(&self) -> (b: bool)
        ensures
            b == (base_value(self.value()) == 0),
    {
        *self.val % TILE_UP == EMPTY
    }

    pub fn is_up(&self) -> (b: bool)
        ensures
            b == is_covered(self.value()),
    {
        *self.val >= TILE_UP
    }

    pub fn is_flagged(&self) -> (b: bool)
        ensures
            b == is_flagged(self.value()),
    {
        *self.val >= FLAGGED
    }

    /// Covers the tile; a covered tile stays as it is.
    pub fn up(&mut self)
        ensures
            final(self).value() == covered_value(old(self).value()),
            *final(final(self).val) == *final(old(self).val),
            final(self).x == old(self).x,
            final(self).y == old(self).y,
    {
        if !self.is_up() {
            *self.val = *self.val + TILE_UP;
        }
    }

    /// Uncovers the tile; an uncovered or flagged tile stays as it is.
    pub fn down(&mut self)
        ensures
            final(self).value() == uncovered_value(old(self).value()),
            *final(final(self).val) == *final(old(self).val),
            final(self).x == old(self).x,
            final(self).y == old(self).y,
    {
        if self.is_up() && !self.is_flagged() {
            *self.val = *self.val - TILE_UP;
        }
    }

    /// Flags a tile below the flagged range, unflags one inside it.
    pub fn toggle_flag(&mut self)
        ensures
            final(self).value() == toggled_value(old(self).value()),
            *final(final(self).val) == *final(old(self).val),
            final(self).x == old(self).x,
            final(self).y == old(self).y,
    {
        if *self.val < FLAGGED {
            *self.val = *self.val + TILE_UP;
        } else {
            *self.val = *self.val - TILE_UP;
        }
    }
}

} // verus!
