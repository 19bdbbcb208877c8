use minesweeper::MineField;

#[test]
fn iter_test() {
    let mut field = MineField::new(5, 5).unwrap();
    field.populate(2, 2, 0);

    let mut it = field.iter();
    while let Some(tile) = it.next() {
        assert_eq!(tile.val, field.get_value(tile.x, tile.y));
    }
}

#[test]
fn mut_itr_test() {
    let mut field = MineField::new(5, 5).unwrap();

    let mut it = field.iter_mut();
    while let Some(tile) = it.next() {
        *tile.val = tile.x as u8;
    }

    for y in 0..field.height() {
        for x in 0..field.width() {
            let val = field.get_value(x, y);
            assert_eq!(val, x as u8);
        }
    }

    let mut it = field.iter_mut();
    while let Some(tile) = it.next() {
        *tile.val = tile.y as u8;
    }

    for y in 0..field.height() {
        for x in 0..field.width() {
            let val = field.get_value(x, y);
            assert_eq!(val, y as u8);
        }
    }
}

#[test]
fn iter_visits_every_cell_once_in_row_major_order() {
    let mut field = MineField::new(3, 2).unwrap();
    for y in 0..2 {
        for x in 0..3 {
            field.set_value(x, y, (10 * y + x) as u8);
        }
    }
    let mut seen = Vec::new();
    let mut it = field.iter();
    while let Some(tile) = it.next() {
        seen.push((tile.x, tile.y, tile.val));
    }
    assert_eq!(
        seen,
        vec![(0, 0, 0), (1, 0, 1), (2, 0, 2), (0, 1, 10), (1, 1, 11), (2, 1, 12)]
    );
    assert!(it.next().is_none());
}

#[test]
fn mutable_walk_on_a_wide_field_writes_the_cell_it_names() {
    let mut field = MineField::new(4, 2).unwrap();
    let mut count = 0;
    let mut it = field.iter_mut();
    while let Some(tile) = it.next() {
        *tile.val = (tile.x + 4 * tile.y) as u8;
        count += 1;
    }
    assert!(it.next().is_none());
    assert_eq!(count, 8);
    for y in 0..2 {
        for x in 0..4 {
            assert_eq!(field.get_value(x, y), (x + 4 * y) as u8);
        }
    }
}

#[test]
fn mutable_walk_on_a_tall_field_writes_the_cell_it_names() {
    let mut field = MineField::new(2, 5).unwrap();
    let mut it = field.iter_mut();
    while let Some(tile) = it.next() {
        *tile.val = (tile.y * 2 + tile.x) as u8;
    }
    for y in 0..5 {
        for x in 0..2 {
            assert_eq!(field.get_value(x, y), (y * 2 + x) as u8);
        }
    }
}

#[test]
fn mutable_handles_change_state_in_place() {
    let mut field = MineField::new(2, 1).unwrap();
    field.set_value(0, 0, 3);
    field.set_value(1, 0, 13);
    let mut it = field.iter_mut();
    while let Some(mut tile) = it.next() {
        if tile.is_up() {
            tile.down();
        } else {
            tile.up();
        }
    }
    assert_eq!(field.get_value(0, 0), 13);
    assert_eq!(field.get_value(1, 0), 3);
}
