use minesweeper::MineField;

#[test]
fn fresh_field_renders_all_covered() {
    let field = MineField::new(2, 2).unwrap();
    let text = field.to_string();
    assert_eq!(text, "Bombs left: 1\n2|▢ ▢\n1|▢ ▢\n  ---\n  1 2 \n");
}

#[test]
fn every_kind_of_tile_has_its_glyph() {
    let mut field = MineField::new(4, 3).unwrap();
    let rows: [[u8; 4]; 3] = [[0, 1, 8, 9], [10, 19, 20, 29], [5, 15, 25, 3]];
    for y in 0..3 {
        for x in 0..4 {
            field.set_value(x, y, rows[y][x]);
        }
    }
    assert_eq!(
        field.to_string(),
        "Bombs left: 4\n3|  1 8 ☀\n2|▢ ▢ > >\n1|5 ▢ > 3\n  -------\n  1 2 3 4 \n"
    );
}

#[test]
fn wide_field_has_a_ruler_line_per_digit() {
    let mut field = MineField::new(12, 1).unwrap();
    field.set_bomb_count(0);
    field.reset();
    assert_eq!(
        field.to_string(),
        "Bombs left: 0\n1|▢ ▢ ▢ ▢ ▢ ▢ ▢ ▢ ▢ ▢ ▢ ▢\n  -----------------------\n  1 2 3 4 5 6 7 8 9 1 1 1 \n                    0 1 2 \n"
    );
}

#[test]
fn tall_field_pads_its_row_numbers() {
    let field = MineField::new(1, 10).unwrap();
    let text = field.to_string();
    let lines: Vec<&str> = text.lines().collect();
    assert_eq!(lines.len(), 13);
    assert_eq!(lines[0], "Bombs left: 3");
    assert_eq!(lines[1], "10|▢");
    assert_eq!(lines[2], " 9|▢");
    assert_eq!(lines[10], " 1|▢");
    assert_eq!(lines[11], "   -");
    assert_eq!(lines[12], "   1 ");
}

#[test]
fn negative_counter_is_rendered_with_its_sign() {
    let mut field = MineField::new(1, 1).unwrap();
    field.set_bomb_count(-12);
    field.reset();
    assert_eq!(field.to_string(), "Bombs left: -12\n1|▢\n  -\n  1 \n");
    field.set_bomb_count(i32::MIN);
    field.reset();
    assert!(field.to_string().starts_with("Bombs left: -2147483648\n"));
    field.set_bomb_count(i32::MAX);
    field.reset();
    assert!(field.to_string().starts_with("Bombs left: 2147483647\n"));
}

#[test]
fn counter_follows_the_flags() {
    let mut field = MineField::new(3, 1).unwrap();
    assert!(field.to_string().starts_with("Bombs left: 1\n"));
    field.flag(0, 0);
    field.flag(1, 0);
    assert_eq!(field.to_string(), "Bombs left: -1\n1|> > ▢\n  -----\n  1 2 3 \n");
}

#[test]
fn rows_count_down_from_the_height() {
    let mut field = MineField::new(2, 3).unwrap();
    field.set_value(0, 0, 1);
    field.set_value(1, 2, 2);
    assert_eq!(
        field.to_string(),
        "Bombs left: 2\n3|1 ▢\n2|▢ ▢\n1|▢ 2\n  ---\n  1 2 \n"
    );
}
