//! The glyph tables used when a field is rendered as text.

use vstd::prelude::*;

verus! {

/// One glyph per kind of tile.
#[derive(Debug, Clone, Copy)]
pub struct TileSymbols {
    pub empty: char,
    pub bomb: char,
    pub tile_up: char,
    pub flagged: char,
    pub flagged_bomb: char,
    pub sweeped_bomb: char,
}

impl TileSymbols {
    pub const DEFAULT: i32 = 0;

    pub const ASCII: i32 = 1;

    pub const EMOJI: i32 = 2;

    /// The plain ASCII table.
    pub open spec fn ascii() -> TileSymbols {
        TileSymbols {
            empty: ' ',
            bomb: '*',
            tile_up: 'o',
            flagged: '>',
            flagged_bomb: 'x',
            sweeped_bomb: '!',
        }
    }

    /// The emoji table.
    pub open spec fn emoji() -> TileSymbols {
        TileSymbols {
            empty: ' ',
            bomb: '💣',
            tile_up: '▢',
            flagged: '🚩',
            flagged_bomb: '❌',
            sweeped_bomb: '💥',
        }
    }

    /// The table used when no other is asked for.
    pub open spec fn unicode() -> TileSymbols {
        TileSymbols {
            empty: ' ',
            bomb: '☀',
            tile_up: '▢',
            flagged: '>',
            flagged_bomb: 'x',
            sweeped_bomb: '!',
        }
    }

    /// The table a style number selects; any unknown style selects the default.
    pub open spec fn for_style(style: i32) -> TileSymbols {
        if style == 1 {
            Self::ascii()
        } else if style == 2 {
            Self::emoji()
        } else {
            Self::unicode()
        }
    }

    pub fn new(style: i32) -> (symbols: TileSymbols)
        ensures
            symbols == Self::for_style(style),
    {
        match style {
            1 => TileSymbols {
                empty: ' ',
                bomb: '*',
                tile_up: 'o',
                flagged: '>',
                flagged_bomb: 'x',
                sweeped_bomb: '!',
            },
            2 => TileSymbols {
                empty: ' ',
                bomb: '💣',
                tile_up: '▢',
                flagged: '🚩',
                flagged_bomb: '❌',
                sweeped_bomb: '💥',
            },
            _ => TileSymbols {
                empty: ' ',
                bomb: '☀',
                tile_up: '▢',
                flagged: '>',
                flagged_bomb: 'x',
                sweeped_bomb: '!',
            },
        }
    }
}

} // verus!
