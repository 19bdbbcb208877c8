use minesweeper::{MutTile, Tile, TileSymbols, BOMB, EMPTY, FLAGGED, TILE_UP};

#[test]
fn thresholds_have_their_values() {
    assert_eq!(EMPTY, 0);
    assert_eq!(BOMB, 9);
    assert_eq!(TILE_UP, 10);
    assert_eq!(FLAGGED, 20);
}

#[test]
fn tile_new_keeps_its_arguments() {
    let tile = Tile::new(3, 4, 17);
    assert_eq!(tile.x, 3);
    assert_eq!(tile.y, 4);
    assert_eq!(tile.val, 17);
    assert_eq!(tile, Tile { x: 3, y: 4, val: 17 });
}

#[test]
fn tile_predicates_follow_the_encoding() {
    assert!(Tile::new(0, 0, 0).is_empty());
    assert!(Tile::new(0, 0, 10).is_empty());
    assert!(Tile::new(0, 0, 20).is_empty());
    assert!(!Tile::new(0, 0, 1).is_empty());
    assert!(!Tile::new(0, 0, 19).is_empty());

    assert!(!Tile::new(0, 0, 9).is_up());
    assert!(Tile::new(0, 0, 10).is_up());
    assert!(Tile::new(0, 0, 29).is_up());

    assert!(!Tile::new(0, 0, 19).is_flagged());
    assert!(Tile::new(0, 0, 20).is_flagged());

    assert!(Tile::new(0, 0, 9).is_bomb());
    assert!(!Tile::new(0, 0, 19).is_bomb());
    assert!(!Tile::new(0, 0, 8).is_bomb());
}

#[test]
fn mut_tile_predicates_follow_the_encoding() {
    let mut byte = 10u8;
    let tile = MutTile { x: 1, y: 2, val: &mut byte };
    assert!(tile.is_empty());
    assert!(tile.is_up());
    assert!(!tile.is_flagged());
    let mut byte = 25u8;
    let tile = MutTile { x: 1, y: 2, val: &mut byte };
    assert!(!tile.is_empty());
    assert!(tile.is_up());
    assert!(tile.is_flagged());
}

#[test]
fn up_covers_once() {
    let mut byte = 3u8;
    let mut tile = MutTile { x: 0, y: 0, val: &mut byte };
    tile.up();
    assert_eq!(*tile.val, 13);
    tile.up();
    assert_eq!(*tile.val, 13);
    assert_eq!(byte, 13);
}

#[test]
fn down_uncovers_unless_flagged() {
    let mut byte = 13u8;
    let mut tile = MutTile { x: 0, y: 0, val: &mut byte };
    tile.down();
    assert_eq!(*tile.val, 3);
    tile.down();
    assert_eq!(*tile.val, 3);

    let mut byte = 23u8;
    let mut tile = MutTile { x: 0, y: 0, val: &mut byte };
    tile.down();
    assert_eq!(*tile.val, 23);
}

#[test]
fn toggle_flag_goes_back_and_forth() {
    let mut byte = 19u8;
    let mut tile = MutTile { x: 0, y: 0, val: &mut byte };
    tile.toggle_flag();
    assert_eq!(*tile.val, 29);
    tile.toggle_flag();
    assert_eq!(*tile.val, 19);
}

#[test]
fn symbol_tables() {
    let ascii = TileSymbols::new(TileSymbols::ASCII);
    assert_eq!(
        (ascii.empty, ascii.bomb, ascii.tile_up, ascii.flagged, ascii.flagged_bomb, ascii.sweeped_bomb),
        (' ', '*', 'o', '>', 'x', '!')
    );
    let emoji = TileSymbols::new(TileSymbols::EMOJI);
    assert_eq!(
        (emoji.empty, emoji.bomb, emoji.tile_up, emoji.flagged, emoji.flagged_bomb, emoji.sweeped_bomb),
        (' ', '💣', '▢', '🚩', '❌', '💥')
    );
    let plain = TileSymbols::new(TileSymbols::DEFAULT);
    assert_eq!(
        (plain.empty, plain.bomb, plain.tile_up, plain.flagged, plain.flagged_bomb, plain.sweeped_bomb),
        (' ', '☀', '▢', '>', 'x', '!')
    );
    let other = TileSymbols::new(77);
    assert_eq!(other.bomb, '☀');
    let negative = TileSymbols::new(-1);
    assert_eq!(negative.tile_up, '▢');
}
