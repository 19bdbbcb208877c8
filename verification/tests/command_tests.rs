use minesweeper::{
    command_from_words, parse_command, parse_int, strip_trailing_newline, translate_coordinates,
    Command, MSError,
};

#[test]
fn strips_one_unix_line_end() {
    assert_eq!(strip_trailing_newline("sweep 1 2\n"), "sweep 1 2");
    assert_eq!(strip_trailing_newline("a\n\n"), "a\n");
}

#[test]
fn strips_one_windows_line_end() {
    assert_eq!(strip_trailing_newline("flag 3 4\r\n"), "flag 3 4");
    assert_eq!(strip_trailing_newline("\r\n"), "");
}

#[test]
fn leaves_other_text_alone() {
    assert_eq!(strip_trailing_newline("exit"), "exit");
    assert_eq!(strip_trailing_newline(""), "");
    assert_eq!(strip_trailing_newline("a\r"), "a\r");
    assert_eq!(strip_trailing_newline("a\n\r"), "a\n\r");
    assert_eq!(strip_trailing_newline("\n"), "");
    assert_eq!(strip_trailing_newline("é💣\n"), "é💣");
}

fn parsed(text: &str) -> Option<i32> {
    match parse_int(text) {
        Ok(value) => Some(value),
        Err(MSError::ParseNumErr(bad)) => {
            assert_eq!(bad, text);
            None
        }
        Err(other) => panic!("unexpected error {:?}", other),
    }
}

#[test]
fn parses_plain_numbers() {
    assert_eq!(parsed("0"), Some(0));
    assert_eq!(parsed("7"), Some(7));
    assert_eq!(parsed("15"), Some(15));
    assert_eq!(parsed("007"), Some(7));
    assert_eq!(parsed("2147483647"), Some(i32::MAX));
}

#[test]
fn parses_signed_numbers() {
    assert_eq!(parsed("+12"), Some(12));
    assert_eq!(parsed("-12"), Some(-12));
    assert_eq!(parsed("-0"), Some(0));
    assert_eq!(parsed("-2147483648"), Some(i32::MIN));
}

#[test]
fn rejects_what_is_no_number() {
    assert_eq!(parsed(""), None);
    assert_eq!(parsed("-"), None);
    assert_eq!(parsed("+"), None);
    assert_eq!(parsed("12a"), None);
    assert_eq!(parsed("a12"), None);
    assert_eq!(parsed(" 12"), None);
    assert_eq!(parsed("12 "), None);
    assert_eq!(parsed("1.5"), None);
    assert_eq!(parsed("--1"), None);
    assert_eq!(parsed("+-1"), None);
    assert_eq!(parsed("١٢"), None);
}

#[test]
fn rejects_numbers_that_do_not_fit() {
    assert_eq!(parsed("2147483648"), None);
    assert_eq!(parsed("-2147483649"), None);
    assert_eq!(parsed("99999999999999999999999999"), None);
    assert_eq!(parsed("-99999999999999999999999999"), None);
}

#[test]
fn agrees_with_the_standard_parser() {
    let samples = [
        "0", "1", "-1", "+1", "10", "0010", "2147483647", "2147483648", "-2147483648",
        "-2147483649", "", "+", "-", "x", "1x", "4294967296", "+0", "-00", "1_000", "0x10",
    ];
    for text in samples {
        assert_eq!(parsed(text), text.parse::<i32>().ok());
    }
}


fn words(parts: &[&str]) -> Vec<String> {
    parts.iter().map(|part| part.to_string()).collect()
}

#[test]
fn empty_line_asks_for_nothing() {
    assert!(matches!(parse_command("", 9), Ok(Command::Nothing)));
    assert!(matches!(parse_command("   \t ", 9), Ok(Command::Nothing)));
    assert!(matches!(command_from_words("exit", &words(&[]), 9), Ok(Command::Nothing)));
}

#[test]
fn verbs_are_matched_in_lower_case() {
    assert!(matches!(parse_command("exit", 9), Ok(Command::Exit)));
    assert!(matches!(parse_command("EXIT", 9), Ok(Command::Exit)));
    assert!(matches!(parse_command("  Exit  now", 9), Ok(Command::Exit)));
    assert!(matches!(parse_command("r", 9), Ok(Command::Reset)));
    assert!(matches!(parse_command("Reset", 9), Ok(Command::Reset)));
}

#[test]
fn sweep_and_flag_carry_what_was_typed() {
    assert!(matches!(parse_command("s 3 4", 9), Ok(Command::Sweep(3, 4))));
    assert!(matches!(parse_command("sweep 3 4", 9), Ok(Command::Sweep(3, 4))));
    assert!(matches!(parse_command("Sweep 3 4", 9), Ok(Command::Sweep(3, 4))));
    assert!(matches!(parse_command("f 1 -2", 9), Ok(Command::Flag(1, -2))));
    assert!(matches!(parse_command("flag\t10   20 extra", 9), Ok(Command::Flag(10, 20))));
}

#[test]
fn seed_takes_a_number() {
    assert!(matches!(parse_command("seed 42", 9), Ok(Command::Seed(42))));
    assert!(matches!(parse_command("seed -1", 9), Ok(Command::Seed(-1))));
    match parse_command("seed", 9) {
        Err(MSError::MissingArg(text)) => assert_eq!(text, "seed <int>"),
        other => panic!("unexpected {:?}", other),
    }
    match parse_command("seed x1", 9) {
        Err(MSError::ParseNumErr(text)) => assert_eq!(text, "x1"),
        other => panic!("unexpected {:?}", other),
    }
}

#[test]
fn missing_coordinates_are_named() {
    match parse_command("Sweep", 9) {
        Err(MSError::MissingArg(text)) => assert_eq!(text, "Sweep <x> <y>"),
        other => panic!("unexpected {:?}", other),
    }
    match parse_command("f 7", 9) {
        Err(MSError::MissingArg(text)) => assert_eq!(text, "f 7 <y>"),
        other => panic!("unexpected {:?}", other),
    }
    match parse_command("f seven", 9) {
        Err(MSError::ParseNumErr(text)) => assert_eq!(text, "seven"),
        other => panic!("unexpected {:?}", other),
    }
    match parse_command("s 7 y", 9) {
        Err(MSError::ParseNumErr(text)) => assert_eq!(text, "y"),
        other => panic!("unexpected {:?}", other),
    }
}

#[test]
fn density_keeps_the_text_of_its_number() {
    match parse_command("d 0.25", 9) {
        Ok(Command::Density(text)) => assert_eq!(text, "0.25"),
        other => panic!("unexpected {:?}", other),
    }
    match parse_command("density", 9) {
        Err(MSError::MissingArg(text)) => assert_eq!(text, "density <d>"),
        other => panic!("unexpected {:?}", other),
    }
}

#[test]
fn count_lies_within_the_area() {
    assert!(matches!(parse_command("c 0", 9), Ok(Command::Count(0))));
    assert!(matches!(parse_command("count 9", 9), Ok(Command::Count(9))));
    match parse_command("count 10", 9) {
        Err(MSError::IntRangeErr(text, low, high)) => {
            assert_eq!(text, "<c>");
            assert_eq!((low, high), (0, 9));
        }
        other => panic!("unexpected {:?}", other),
    }
    match parse_command("c -1", usize::MAX) {
        Err(MSError::IntRangeErr(text, low, high)) => {
            assert_eq!(text, "<c>");
            assert_eq!((low, high), (0, i32::MAX));
        }
        other => panic!("unexpected {:?}", other),
    }
    assert!(matches!(
        parse_command("c 2147483647", usize::MAX),
        Ok(Command::Count(i32::MAX))
    ));
    match parse_command("c", 9) {
        Err(MSError::MissingArg(text)) => assert_eq!(text, "count <c>"),
        other => panic!("unexpected {:?}", other),
    }
    match parse_command("c many", 9) {
        Err(MSError::ParseNumErr(text)) => assert_eq!(text, "many"),
        other => panic!("unexpected {:?}", other),
    }
}

#[test]
fn unknown_verbs_are_turned_down_as_typed() {
    match parse_command("Dig 1 2", 9) {
        Err(MSError::InvalidCmdErr(text)) => assert_eq!(text, "Dig"),
        other => panic!("unexpected {:?}", other),
    }
    match parse_command("sweeper 1 2", 9) {
        Err(MSError::InvalidCmdErr(text)) => assert_eq!(text, "sweeper"),
        other => panic!("unexpected {:?}", other),
    }
}

#[test]
fn words_decide_with_the_verb_given() {
    assert!(matches!(
        command_from_words("sweep", &words(&["SWEEP", "2", "3"]), 9),
        Ok(Command::Sweep(2, 3))
    ));
    match command_from_words("SWEEP", &words(&["SWEEP", "2", "3"]), 9) {
        Err(MSError::InvalidCmdErr(text)) => assert_eq!(text, "SWEEP"),
        other => panic!("unexpected {:?}", other),
    }
    match command_from_words("flag", &words(&["FLAG", "2"]), 9) {
        Err(MSError::MissingArg(text)) => assert_eq!(text, "FLAG 2 <y>"),
        other => panic!("unexpected {:?}", other),
    }
}

#[test]
fn coordinates_count_from_one_and_rows_from_the_bottom() {
    assert_eq!(translate_coordinates(15, 15, 1, 15), Some((0, 0)));
    assert_eq!(translate_coordinates(15, 15, 1, 1), Some((0, 14)));
    assert_eq!(translate_coordinates(15, 15, 15, 1), Some((14, 14)));
    assert_eq!(translate_coordinates(4, 7, 3, 2), Some((2, 5)));
}

#[test]
fn coordinates_outside_the_grid_name_no_cell() {
    assert_eq!(translate_coordinates(15, 15, 0, 1), None);
    assert_eq!(translate_coordinates(15, 15, 1, 0), None);
    assert_eq!(translate_coordinates(15, 15, 16, 1), None);
    assert_eq!(translate_coordinates(15, 15, 1, 16), None);
    assert_eq!(translate_coordinates(15, 15, -3, 4), None);
    assert_eq!(translate_coordinates(15, 15, i32::MIN, i32::MAX), None);
    assert_eq!(translate_coordinates(usize::MAX, usize::MAX, i32::MAX, i32::MAX).is_some(), true);
}
