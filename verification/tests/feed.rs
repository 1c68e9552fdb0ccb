use code_vs_zombies::feed::{
    read_count, read_human, read_number, read_numbers, read_position, read_zombie, trim,
};
use code_vs_zombies::{Human, Position, Zombie};

fn number(text: &str) -> Option<i32> {
    read_number(text.as_bytes(), 0, text.len())
}

#[test]
fn read_number_plain_and_signed() {
    assert_eq!(number("0"), Some(0));
    assert_eq!(number("42"), Some(42));
    assert_eq!(number("-42"), Some(-42));
    assert_eq!(number("+42"), Some(42));
    assert_eq!(number("007"), Some(7));
    assert_eq!(number("-0"), Some(0));
    assert_eq!(number("16000"), Some(16000));
}

#[test]
fn read_number_refuses_what_is_no_number() {
    assert_eq!(number(""), None);
    assert_eq!(number("-"), None);
    assert_eq!(number("+"), None);
    assert_eq!(number("--4"), None);
    assert_eq!(number("+-4"), None);
    assert_eq!(number("4a"), None);
    assert_eq!(number("a4"), None);
    assert_eq!(number("4-"), None);
    assert_eq!(number(" 4"), None);
    assert_eq!(number("4 "), None);
    assert_eq!(number("4.0"), None);
    assert_eq!(number("/"), None);
    assert_eq!(number(":"), None);
}

#[test]
fn read_number_at_the_limits() {
    assert_eq!(number("2147483647"), Some(i32::MAX));
    assert_eq!(number("2147483648"), None);
    assert_eq!(number("+2147483647"), Some(i32::MAX));
    assert_eq!(number("-2147483648"), Some(i32::MIN));
    assert_eq!(number("-2147483649"), None);
    assert_eq!(number("0000000002147483647"), Some(i32::MAX));
    assert_eq!(number("99999999999999999999999999999999"), None);
    assert_eq!(number("-99999999999999999999999999999999"), None);
    assert_eq!(number("21474836470"), None);
}

#[test]
fn read_number_in_the_middle_of_a_line() {
    let line = "12 -345 6".as_bytes();
    assert_eq!(read_number(line, 0, 2), Some(12));
    assert_eq!(read_number(line, 3, 7), Some(-345));
    assert_eq!(read_number(line, 4, 7), Some(345));
    assert_eq!(read_number(line, 8, 9), Some(6));
    assert_eq!(read_number(line, 2, 7), None);
    assert_eq!(read_number(line, 5, 5), None);
}

#[test]
fn trim_leaves_out_white_space_at_both_ends() {
    assert_eq!(trim(" \t12 3\r\n".as_bytes(), 0, 8), (2, 6));
    assert_eq!(trim("12".as_bytes(), 0, 2), (0, 2));
    assert_eq!(trim("".as_bytes(), 0, 0), (0, 0));
    assert_eq!(trim("  \n".as_bytes(), 0, 3), (3, 3));
    assert_eq!(trim(" a b ".as_bytes(), 1, 4), (1, 4));
    assert_eq!(trim(" a b ".as_bytes(), 2, 5), (3, 4));
    assert_eq!(trim("\x0b\x0cx\x0b\x0c".as_bytes(), 0, 5), (2, 3));
    assert_eq!(trim("\x08x\x0e".as_bytes(), 0, 3), (0, 3));
}

#[test]
fn read_numbers_takes_the_leading_fields() {
    assert_eq!(read_numbers("1 2 3".as_bytes(), 3), Some(vec![1, 2, 3]));
    assert_eq!(read_numbers("1 2 3\n".as_bytes(), 3), Some(vec![1, 2, 3]));
    assert_eq!(read_numbers("1 2 3 4".as_bytes(), 2), Some(vec![1, 2]));
    assert_eq!(read_numbers("1 2 x y".as_bytes(), 2), Some(vec![1, 2]));
    assert_eq!(read_numbers("\t-1 +2\r\n".as_bytes(), 2), Some(vec![-1, 2]));
    assert_eq!(read_numbers("7".as_bytes(), 1), Some(vec![7]));
    assert_eq!(read_numbers("".as_bytes(), 0), Some(vec![]));
    assert_eq!(read_numbers("anything".as_bytes(), 0), Some(vec![]));
}

#[test]
fn read_numbers_refuses_short_and_malformed_lines() {
    assert_eq!(read_numbers("1 2".as_bytes(), 3), None);
    assert_eq!(read_numbers("1  2".as_bytes(), 2), None);
    assert_eq!(read_numbers(" 1 2".as_bytes(), 2), None);
    assert_eq!(read_numbers("1 x 3".as_bytes(), 3), None);
    assert_eq!(read_numbers("1\t2".as_bytes(), 2), None);
    assert_eq!(read_numbers("".as_bytes(), 1), None);
    assert_eq!(read_numbers("1 2147483648".as_bytes(), 2), None);
}

#[test]
fn read_position_of_the_character() {
    assert_eq!(read_position("8250 4500\n".as_bytes()), Some(Position(8250, 4500)));
    assert_eq!(read_position("0 0".as_bytes()), Some(Position(0, 0)));
    assert_eq!(read_position("-5 7 9".as_bytes()), Some(Position(-5, 7)));
    assert_eq!(read_position("8250\n".as_bytes()), None);
    assert_eq!(read_position("\n".as_bytes()), None);
}

#[test]
fn read_count_of_a_list() {
    assert_eq!(read_count("3\n".as_bytes()), Some(3));
    assert_eq!(read_count("0".as_bytes()), Some(0));
    assert_eq!(read_count("  99 \r\n".as_bytes()), Some(99));
    assert_eq!(read_count("2147483647".as_bytes()), Some(2147483647));
    assert_eq!(read_count("-1\n".as_bytes()), None);
    assert_eq!(read_count("3 4\n".as_bytes()), None);
    assert_eq!(read_count("\n".as_bytes()), None);
    assert_eq!(read_count("three".as_bytes()), None);
}

#[test]
fn read_human_record() {
    assert_eq!(read_human("0 8250 4500\n".as_bytes()), Some(Human::new(0, 8250, 4500)));
    assert_eq!(read_human("12 0 8999".as_bytes()), Some(Human::new(12, 0, 8999)));
    assert_eq!(read_human("12 0".as_bytes()), None);
    assert_eq!(read_human("12 0 x".as_bytes()), None);
}

#[test]
fn read_zombie_record() {
    assert_eq!(
        read_zombie("0 8250 8999 8250 8599\n".as_bytes()),
        Some(Zombie::new(0, 8250, 8999, 8250, 8599))
    );
    assert_eq!(read_zombie("3 1 2 -3 -4".as_bytes()), Some(Zombie::new(3, 1, 2, -3, -4)));
    assert_eq!(read_zombie("0 8250 8999 8250".as_bytes()), None);
    assert_eq!(read_zombie("0 8250 8999 8250 8599.5".as_bytes()), None);
}
