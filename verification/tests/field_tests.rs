use minesweeper::{FieldError, MineField, Tile};

fn mines(field: &MineField) -> Vec<(usize, usize)> {
    let mut found = Vec::new();
    for y in 0..field.height() {
        for x in 0..field.width() {
            if field.get_value(x, y) % 10 == 9 {
                found.push((x, y));
            }
        }
    }
    found
}

fn mines_around(field: &MineField, x: usize, y: usize) -> u8 {
    let mut count = 0;
    for dy in -1i64..=1 {
        for dx in -1i64..=1 {
            if dx == 0 && dy == 0 {
                continue;
            }
            let nx = x as i64 + dx;
            let ny = y as i64 + dy;
            if nx < 0 || ny < 0 || nx >= field.width() as i64 || ny >= field.height() as i64 {
                continue;
            }
            if field.get_value(nx as usize, ny as usize) % 10 == 9 {
                count += 1;
            }
        }
    }
    count
}

fn cells(field: &MineField) -> Vec<u8> {
    let mut all = Vec::new();
    for y in 0..field.height() {
        for x in 0..field.width() {
            all.push(field.get_value(x, y));
        }
    }
    all
}

#[test]
fn new_field_is_covered_and_empty() {
    let field = MineField::new(4, 3).unwrap();
    assert_eq!(field.width(), 4);
    assert_eq!(field.height(), 3);
    assert_eq!(field.area(), 12);
    assert_eq!(cells(&field), vec![10u8; 12]);
    assert_eq!(field.bomb_count(), 4);
    assert_eq!(field.bombs_left(), 4);
}

#[test]
fn new_rejects_zero_dimensions() {
    assert!(matches!(MineField::new(0, 5), Err(FieldError::ZeroDimension)));
    assert!(matches!(MineField::new(5, 0), Err(FieldError::ZeroDimension)));
    assert!(matches!(MineField::new(0, 0), Err(FieldError::ZeroDimension)));
    assert!(matches!(MineField::new(0, usize::MAX), Err(FieldError::ZeroDimension)));
}

#[test]
fn new_rejects_an_area_that_overflows() {
    assert!(matches!(MineField::new(usize::MAX, 2), Err(FieldError::AreaOverflow)));
    assert!(matches!(MineField::new(usize::MAX, usize::MAX), Err(FieldError::AreaOverflow)));
}

#[test]
fn default_mine_count_is_a_third_rounded() {
    assert_eq!(MineField::new(1, 1).unwrap().bomb_count(), 0);
    assert_eq!(MineField::new(2, 1).unwrap().bomb_count(), 1);
    assert_eq!(MineField::new(2, 2).unwrap().bomb_count(), 1);
    assert_eq!(MineField::new(5, 5).unwrap().bomb_count(), 8);
    assert_eq!(MineField::new(10, 5).unwrap().bomb_count(), 17);
    assert_eq!(MineField::new(15, 15).unwrap().bomb_count(), 74);
    assert_eq!(MineField::new(100, 3).unwrap().bomb_count(), 99);
}

#[test]
fn cells_are_addressed_by_row() {
    let mut field = MineField::new(3, 2).unwrap();
    field.set_value(2, 0, 5);
    field.set_value(0, 1, 6);
    assert_eq!(cells(&field), vec![10, 10, 5, 6, 10, 10]);
    assert_eq!(field.get_value(2, 0), 5);
    assert_eq!(field.get_value(0, 1), 6);
}

#[test]
fn checked_access_knows_the_borders() {
    let mut field = MineField::new(3, 2).unwrap();
    assert_eq!(field.get_value_checked(2, 1), Some(10));
    assert_eq!(field.get_value_checked(3, 1), None);
    assert_eq!(field.get_value_checked(2, 2), None);
    assert_eq!(field.get_value_checked(usize::MAX, usize::MAX), None);
    assert!(field.set_value_ckecked(2, 1, 7));
    assert_eq!(field.get_value(2, 1), 7);
    assert!(!field.set_value_ckecked(3, 0, 7));
    assert!(!field.set_value_ckecked(0, 2, 7));
    assert_eq!(cells(&field), vec![10, 10, 10, 10, 10, 7]);
}

#[test]
fn inc_value_adds() {
    let mut field = MineField::new(2, 2).unwrap();
    field.set_value(1, 1, 3);
    field.inc_value(1, 1, 9);
    assert_eq!(field.get_value(1, 1), 12);
    assert_eq!(field.get_value(0, 1), 10);
}

#[test]
fn clear_zeroes_and_reset_covers() {
    let mut field = MineField::new(3, 3).unwrap();
    field.set_seed(3);
    field.sweep(1, 1);
    field.clear();
    assert_eq!(cells(&field), vec![0u8; 9]);
    field.set_bomb_count(2);
    field.reset();
    assert_eq!(cells(&field), vec![10u8; 9]);
    assert_eq!(field.bombs_left(), 2);
    assert_eq!(field.bomb_count(), 2);
}

#[test]
fn reset_rearms_the_first_sweep() {
    let mut field = MineField::new(6, 6).unwrap();
    field.set_seed(11);
    field.set_bomb_count(6);
    field.sweep(0, 0);
    assert_eq!(mines(&field).len(), 6);
    field.reset();
    assert_eq!(mines(&field).len(), 0);
    field.sweep(5, 5);
    assert_eq!(mines(&field).len(), 6);
    for (x, y) in mines(&field) {
        assert!(x < 4 || y < 4);
    }
}

#[test]
fn set_bomb_count_takes_any_number() {
    let mut field = MineField::new(2, 2).unwrap();
    field.set_bomb_count(1000);
    assert_eq!(field.bomb_count(), 1000);
    field.set_bomb_count(-3);
    assert_eq!(field.bomb_count(), -3);
    assert_eq!(field.bombs_left(), 1);
}

#[test]
fn flag_toggles_and_counts() {
    let mut field = MineField::new(3, 3).unwrap();
    let before = field.bombs_left();
    assert!(field.flag(1, 2));
    assert_eq!(field.get_value(1, 2), 20);
    assert_eq!(field.bombs_left(), before - 1);
    assert!(!field.flag(1, 2));
    assert_eq!(field.get_value(1, 2), 10);
    assert_eq!(field.bombs_left(), before);
}

#[test]
fn flagging_twice_restores_the_counter() {
    let mut field = MineField::new(4, 4).unwrap();
    field.set_seed(5);
    field.populate(0, 0, 1);
    for y in 0..4 {
        for x in 0..4 {
            let counter = field.bombs_left();
            let value = field.get_value(x, y);
            field.flag(x, y);
            field.flag(x, y);
            assert_eq!(field.bombs_left(), counter);
            assert_eq!(field.get_value(x, y), value);
        }
    }
}

#[test]
fn flag_leaves_an_uncovered_tile_alone() {
    let mut field = MineField::new(3, 3).unwrap();
    field.set_value(0, 0, 4);
    let before = field.bombs_left();
    assert!(!field.flag(0, 0));
    assert_eq!(field.get_value(0, 0), 4);
    assert_eq!(field.bombs_left(), before);
}

#[test]
fn flagged_mine_is_twenty_nine() {
    let mut field = MineField::new(2, 1).unwrap();
    field.set_value(1, 0, 19);
    assert!(field.flag(1, 0));
    assert_eq!(field.get_value(1, 0), 29);
}

#[test]
fn reveal_all_uncovers_what_is_not_flagged() {
    let mut field = MineField::new(2, 2).unwrap();
    field.set_value(0, 0, 19);
    field.set_value(1, 0, 13);
    field.set_value(0, 1, 25);
    field.set_value(1, 1, 4);
    field.reveal_all();
    assert_eq!(cells(&field), vec![9, 3, 25, 4]);
}

#[test]
fn neighbors_of_an_inner_cell_come_row_by_row() {
    let mut field = MineField::new(3, 3).unwrap();
    for y in 0..3 {
        for x in 0..3 {
            field.set_value(x, y, (x + 3 * y) as u8);
        }
    }
    assert_eq!(
        field.neighbors(1, 1),
        vec![
            Tile::new(0, 0, 0),
            Tile::new(1, 0, 1),
            Tile::new(2, 0, 2),
            Tile::new(0, 1, 3),
            Tile::new(2, 1, 5),
            Tile::new(0, 2, 6),
            Tile::new(1, 2, 7),
            Tile::new(2, 2, 8),
        ]
    );
}

#[test]
fn neighbors_are_clipped_at_the_border() {
    let field = MineField::new(3, 2).unwrap();
    assert_eq!(
        field.neighbors(0, 0),
        vec![Tile::new(1, 0, 10), Tile::new(0, 1, 10), Tile::new(1, 1, 10)]
    );
    assert_eq!(
        field.neighbors(2, 1),
        vec![Tile::new(1, 0, 10), Tile::new(2, 0, 10), Tile::new(1, 1, 10)]
    );
    assert_eq!(field.neighbors(3, 2), vec![Tile::new(2, 1, 10)]);
    assert_eq!(field.neighbors(7, 7), vec![]);
    assert_eq!(field.neighbors(usize::MAX, usize::MAX), vec![]);
    assert_eq!(MineField::new(1, 1).unwrap().neighbors(0, 0), vec![]);
}

#[test]
fn perimeter_of_a_single_revealed_tile() {
    let mut field = MineField::new(5, 5).unwrap();
    field.set_value(2, 2, 0);
    let mut rim = field.get_perimiter(&vec![Tile::new(2, 2, 0)]);
    rim.sort_by_key(|tile| (tile.y, tile.x));
    assert_eq!(
        rim,
        vec![
            Tile::new(1, 1, 10),
            Tile::new(2, 1, 10),
            Tile::new(3, 1, 10),
            Tile::new(1, 2, 10),
            Tile::new(3, 2, 10),
            Tile::new(1, 3, 10),
            Tile::new(2, 3, 10),
            Tile::new(3, 3, 10),
        ]
    );
}

#[test]
fn perimeter_holds_each_cell_once() {
    let mut field = MineField::new(4, 3).unwrap();
    field.set_value(1, 1, 1);
    field.set_value(2, 1, 2);
    field.set_value(0, 0, 3);
    field.set_value(3, 2, 24);
    let mut rim = field.get_perimiter(&vec![Tile::new(1, 1, 1), Tile::new(2, 1, 2), Tile::new(1, 1, 1)]);
    rim.sort_by_key(|tile| (tile.y, tile.x));
    assert_eq!(
        rim,
        vec![
            Tile::new(1, 0, 10),
            Tile::new(2, 0, 10),
            Tile::new(3, 0, 10),
            Tile::new(0, 1, 10),
            Tile::new(3, 1, 10),
            Tile::new(0, 2, 10),
            Tile::new(1, 2, 10),
            Tile::new(2, 2, 10),
            Tile::new(3, 2, 24),
        ]
    );
}

#[test]
fn perimeter_of_nothing_is_empty() {
    let field = MineField::new(3, 3).unwrap();
    assert_eq!(field.get_perimiter(&vec![]), vec![]);
    assert_eq!(field.get_perimiter(&vec![Tile::new(9, 9, 1)]), vec![]);
}

#[test]
fn populate_keeps_the_square_free() {
    for seed in 0..40u64 {
        let mut field = MineField::new(5, 5).unwrap();
        field.set_seed(seed);
        field.set_bomb_count(5);
        field.populate(2, 2, 1);
        let found = mines(&field);
        assert_eq!(found.len(), 5);
        for (x, y) in found {
            assert!(!((1..=3).contains(&x) && (1..=3).contains(&y)));
        }
        assert_eq!(field.bombs_left(), 5);
    }
}

#[test]
fn first_sweep_keeps_the_square_free() {
    let mut field = MineField::new(5, 5).unwrap();
    field.set_seed(1234);
    field.set_bomb_count(5);
    let swept = field.sweep(2, 2);
    assert_eq!(swept[0], Tile::new(2, 2, 0));
    let found = mines(&field);
    assert_eq!(found.len(), 5);
    for (x, y) in found {
        assert!(!((1..=3).contains(&x) && (1..=3).contains(&y)));
    }
}

#[test]
fn populate_numbers_every_safe_cell() {
    for seed in 0..20u64 {
        let mut field = MineField::new(7, 4).unwrap();
        field.set_seed(seed);
        field.populate(6, 0, 1);
        for y in 0..4 {
            for x in 0..7 {
                let value = field.get_value(x, y);
                assert!((10..=19).contains(&value));
                if value != 19 {
                    assert_eq!(value - 10, mines_around(&field, x, y));
                }
            }
        }
        assert_eq!(mines(&field).len(), 9);
    }
}

#[test]
fn populate_places_no_more_mines_than_candidates() {
    let mut field = MineField::new(4, 4).unwrap();
    field.set_seed(9);
    field.set_bomb_count(100);
    field.populate(0, 0, 1);
    assert_eq!(mines(&field).len(), 12);
    assert_eq!(field.bombs_left(), 12);
    assert_eq!(field.bomb_count(), 100);
    for (x, y) in mines(&field) {
        assert!(x > 1 || y > 1);
    }

    let mut small = MineField::new(3, 3).unwrap();
    small.set_bomb_count(4);
    small.populate(1, 1, 1);
    assert_eq!(mines(&small).len(), 0);
    assert_eq!(small.bombs_left(), 0);
    assert_eq!(cells(&small), vec![10u8; 9]);
}

#[test]
fn populate_with_a_negative_radius_protects_nothing() {
    let mut field = MineField::new(3, 3).unwrap();
    field.set_bomb_count(9);
    field.populate(1, 1, -1);
    assert_eq!(mines(&field).len(), 9);
}

#[test]
fn populate_with_a_far_square_protects_nothing() {
    let mut field = MineField::new(3, 3).unwrap();
    field.set_bomb_count(20);
    field.populate(i32::MAX, i32::MIN, i32::MAX);
    assert_eq!(mines(&field).len(), 9);
    field.populate(-5, 40, 2);
    assert_eq!(mines(&field).len(), 9);
    field.populate(i32::MAX, 0, i32::MAX);
    assert_eq!(mines(&field).len(), 0);
    field.populate(-1, -1, 1);
    assert_eq!(mines(&field).len(), 8);
    assert_eq!(field.get_value(0, 0), 13);
}

#[test]
fn populate_with_a_negative_count_places_nothing() {
    let mut field = MineField::new(3, 3).unwrap();
    field.set_bomb_count(-5);
    field.populate(0, 0, 0);
    assert_eq!(mines(&field).len(), 0);
    assert_eq!(field.bombs_left(), -5);
    assert_eq!(cells(&field), vec![10u8; 9]);
}

#[test]
fn populate_discards_what_was_there() {
    let mut field = MineField::new(3, 3).unwrap();
    field.set_value(0, 0, 29);
    field.set_value(1, 1, 3);
    field.set_bomb_count(0);
    field.populate(1, 1, 0);
    assert_eq!(cells(&field), vec![10u8; 9]);
}

#[test]
fn the_seed_decides_the_board() {
    let mut first = MineField::new(9, 9).unwrap();
    let mut second = MineField::new(9, 9).unwrap();
    first.set_seed(77);
    second.set_seed(77);
    first.populate(4, 4, 1);
    second.populate(4, 4, 1);
    assert_eq!(cells(&first), cells(&second));
    assert_eq!(mines(&first).len(), 27);

    let mut boards = Vec::new();
    for seed in 0..8u64 {
        let mut field = MineField::new(9, 9).unwrap();
        field.set_seed(seed);
        field.populate(4, 4, 1);
        boards.push(cells(&field));
    }
    boards.dedup();
    assert!(boards.len() > 1);
}

#[test]
fn reseeding_leaves_placed_mines() {
    let mut field = MineField::new(6, 6).unwrap();
    field.set_seed(1);
    field.populate(0, 0, 1);
    let before = cells(&field);
    field.set_seed(2);
    assert_eq!(cells(&field), before);
    field.set_random_seed();
    assert_eq!(cells(&field), before);
}

#[test]
fn random_seed_populates_within_the_rules() {
    let mut field = MineField::new(8, 8).unwrap();
    field.set_random_seed();
    field.populate(3, 3, 2);
    let found = mines(&field);
    assert_eq!(found.len(), 21);
    for (x, y) in found {
        assert!(!((1..=5).contains(&x) && (1..=5).contains(&y)));
    }
}

#[test]
fn place_bomb_takes_the_candidate_and_marks_its_cell() {
    let mut field = MineField::new(3, 2).unwrap();
    field.clear();
    let mut candidates = vec![0usize, 4, 2, 5];
    field.place_bomb(&mut candidates, 1);
    assert_eq!(candidates, vec![0, 5, 2]);
    assert_eq!(cells(&field), vec![0, 0, 0, 0, 9, 0]);
    assert_eq!(field.get_value(1, 1), 9);
    field.place_bomb(&mut candidates, 2);
    assert_eq!(candidates, vec![0, 5]);
    assert_eq!(field.get_value(2, 0), 9);
    field.place_bomb(&mut candidates, 0);
    assert_eq!(candidates, vec![5]);
    field.place_bomb(&mut candidates, 0);
    assert_eq!(candidates, vec![]);
    assert_eq!(cells(&field), vec![9, 0, 9, 0, 9, 9]);
}

#[test]
fn sweeping_an_uncovered_or_flagged_cell_does_nothing() {
    let mut field = MineField::new(5, 5).unwrap();
    field.set_seed(8);
    field.set_bomb_count(5);
    let first = field.sweep(2, 2);
    assert!(!first.is_empty());
    let after_first = cells(&field);
    assert!(field.sweep(2, 2).is_empty());
    assert_eq!(cells(&field), after_first);

    let covered = (0..25)
        .map(|k| (k % 5, k / 5))
        .find(|&(x, y)| field.get_value(x, y) >= 10)
        .unwrap();
    assert!(field.flag(covered.0, covered.1));
    let flagged = cells(&field);
    let left = field.bombs_left();
    assert!(field.sweep(covered.0, covered.1).is_empty());
    assert_eq!(cells(&field), flagged);
    assert_eq!(field.bombs_left(), left);
    assert!(field.flood_fill(covered.0, covered.1).is_empty());
    assert_eq!(cells(&field), flagged);
}

#[test]
fn sweep_of_a_mineless_field_reveals_everything() {
    let mut field = MineField::new(6, 4).unwrap();
    field.set_bomb_count(0);
    let swept = field.sweep(3, 1);
    assert_eq!(swept.len(), field.area());
    assert_eq!(swept[0], Tile::new(3, 1, 0));
    assert_eq!(cells(&field), vec![0u8; 24]);
    let mut places: Vec<(usize, usize)> = swept.iter().map(|tile| (tile.x, tile.y)).collect();
    places.sort();
    places.dedup();
    assert_eq!(places.len(), 24);
    assert!(swept.iter().all(|tile| tile.val == 0));
}

#[test]
fn sweep_of_a_large_empty_field_ends() {
    let mut field = MineField::new(120, 90).unwrap();
    field.set_bomb_count(0);
    let swept = field.sweep(0, 0);
    assert_eq!(swept.len(), 120 * 90);
}

#[test]
fn flood_fill_stops_at_numbers_and_flags() {
    let mut field = MineField::new(5, 3).unwrap();
    // row 0: 10 10 11 19 11
    // row 1: 10 10 11 11 11
    // row 2: 20 10 10 10 10
    let rows: [[u8; 5]; 3] = [[10, 10, 11, 19, 11], [10, 10, 11, 11, 11], [20, 10, 10, 10, 10]];
    for y in 0..3 {
        for x in 0..5 {
            field.set_value(x, y, rows[y][x]);
        }
    }
    let swept = field.flood_fill(0, 0);
    assert_eq!(swept[0], Tile::new(0, 0, 0));
    let mut places: Vec<(usize, usize, u8)> = swept.iter().map(|t| (t.x, t.y, t.val)).collect();
    places.sort();
    assert_eq!(
        places,
        vec![
            (0, 0, 0),
            (0, 1, 0),
            (1, 0, 0),
            (1, 1, 0),
            (1, 2, 0),
            (2, 0, 1),
            (2, 1, 1),
            (2, 2, 0),
            (3, 1, 1),
            (3, 2, 0),
            (4, 1, 1),
            (4, 2, 0),
        ]
    );
    assert_eq!(
        cells(&field),
        vec![0, 0, 1, 19, 11, 0, 0, 1, 1, 1, 20, 0, 0, 0, 0]
    );
}

#[test]
fn flood_fill_of_a_number_reveals_only_it() {
    let mut field = MineField::new(3, 3).unwrap();
    field.set_value(1, 1, 12);
    let swept = field.flood_fill(1, 1);
    assert_eq!(swept, vec![Tile::new(1, 1, 2)]);
    assert_eq!(cells(&field), vec![10, 10, 10, 10, 2, 10, 10, 10, 10]);
}

#[test]
fn flood_fill_of_a_mine_reveals_it_first() {
    let mut field = MineField::new(3, 3).unwrap();
    field.set_value(2, 2, 19);
    let swept = field.flood_fill(2, 2);
    assert_eq!(swept, vec![Tile::new(2, 2, 9)]);
    assert!(swept[0].is_bomb());
}

#[test]
fn later_sweeps_do_not_repopulate() {
    let mut field = MineField::new(8, 8).unwrap();
    field.set_seed(21);
    field.set_bomb_count(10);
    field.sweep(0, 0);
    let placed = mines(&field);
    assert_eq!(placed.len(), 10);
    for y in 0..8 {
        for x in 0..8 {
            if field.get_value(x, y) >= 10 && field.get_value(x, y) != 19 {
                field.sweep(x, y);
            }
        }
    }
    assert_eq!(mines(&field), placed);
}
