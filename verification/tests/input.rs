use reversi::input::parse_pos;

#[test]
fn two_numbers_are_a_position_counted_from_one() {
    assert_eq!(parse_pos("4 6\n"), Some((3, 5)));
    assert_eq!(parse_pos("4 6"), Some((3, 5)));
    assert_eq!(parse_pos("1 1\n"), Some((0, 0)));
    assert_eq!(parse_pos("8 8\r\n"), Some((7, 7)));
    assert_eq!(parse_pos("12 345\n"), Some((11, 344)));
}

#[test]
fn blanks_of_any_kind_separate_and_surround() {
    assert_eq!(parse_pos("  4   6  \n"), Some((3, 5)));
    assert_eq!(parse_pos("\t4\t6"), Some((3, 5)));
    assert_eq!(parse_pos("4\n6\n"), Some((3, 5)));
    assert_eq!(parse_pos("\x0b4\x0c6\r"), Some((3, 5)));
}

#[test]
fn what_follows_the_second_number_is_ignored() {
    assert_eq!(parse_pos("4 6 7\n"), Some((3, 5)));
    assert_eq!(parse_pos("4 6 please\n"), Some((3, 5)));
}

#[test]
fn signs_and_leading_zeros_are_read() {
    assert_eq!(parse_pos("+4 -6\n"), Some((3, -7)));
    assert_eq!(parse_pos("0 0\n"), Some((-1, -1)));
    assert_eq!(parse_pos("-0 +0\n"), Some((-1, -1)));
    assert_eq!(parse_pos("007 08\n"), Some((6, 7)));
}

#[test]
fn missing_numbers_are_malformed() {
    assert_eq!(parse_pos(""), None);
    assert_eq!(parse_pos("\n"), None);
    assert_eq!(parse_pos("   "), None);
    assert_eq!(parse_pos("4\n"), None);
    assert_eq!(parse_pos("  4  \n"), None);
}

#[test]
fn words_that_are_no_numbers_are_malformed() {
    assert_eq!(parse_pos("a b\n"), None);
    assert_eq!(parse_pos("4 x\n"), None);
    assert_eq!(parse_pos("x 6\n"), None);
    assert_eq!(parse_pos("4,6\n"), None);
    assert_eq!(parse_pos("4-6 1\n"), None);
    assert_eq!(parse_pos("4 6x\n"), None);
    assert_eq!(parse_pos("+ 6\n"), None);
    assert_eq!(parse_pos("4 -\n"), None);
    assert_eq!(parse_pos("++4 6\n"), None);
    assert_eq!(parse_pos("4.0 6\n"), None);
    assert_eq!(parse_pos("\u{a0}4 6\n"), None);
}

#[test]
fn numbers_beyond_the_machine_range_are_malformed() {
    assert_eq!(parse_pos("99999999999999999999999999999999999999999 1\n"), None);
    assert_eq!(parse_pos("1 -99999999999999999999999999999999999999999\n"), None);
    let max = format!("{} {}\n", isize::MAX, isize::MAX);
    assert_eq!(parse_pos(&max), Some((isize::MAX - 1, isize::MAX - 1)));
    let low = format!("-{} 1\n", isize::MAX);
    assert_eq!(parse_pos(&low), Some((isize::MIN, 0)));
    let min = format!("{} 1\n", isize::MIN);
    assert_eq!(parse_pos(&min), None);
    let over = format!("{}0 1\n", isize::MAX);
    assert_eq!(parse_pos(&over), None);
}
