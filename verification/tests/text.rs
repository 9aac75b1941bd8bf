use insc::text::{join_lines, push_decimal, push_index, push_numeral};

fn numeral(n: u64) -> String {
    let mut out = String::new();
    push_numeral(&mut out, n);
    out
}

fn decimal(i: i32) -> String {
    let mut out = String::new();
    push_decimal(&mut out, i);
    out
}

#[test]
fn numerals_have_no_leading_zeros() {
    assert_eq!(numeral(0), "0");
    assert_eq!(numeral(9), "9");
    assert_eq!(numeral(10), "10");
    assert_eq!(numeral(1234567890), "1234567890");
    assert_eq!(numeral(u64::MAX), "18446744073709551615");
}

#[test]
fn negative_numbers_carry_a_minus_sign() {
    assert_eq!(decimal(0), "0");
    assert_eq!(decimal(-1), "-1");
    assert_eq!(decimal(-907), "-907");
    assert_eq!(decimal(i32::MAX), "2147483647");
    assert_eq!(decimal(i32::MIN), "-2147483648");
}

#[test]
fn numerals_are_appended_to_what_is_there() {
    let mut out = String::from("slot ");
    push_index(&mut out, 42);
    push_decimal(&mut out, -7);
    assert_eq!(out, "slot 42-7");
}

#[test]
fn lines_are_joined_with_the_separator_between_them() {
    let none: Vec<String> = vec![];
    assert_eq!(join_lines(&none, ", "), "");
    assert_eq!(join_lines(&vec![String::from("a")], ", "), "a");
    let three = vec![String::from("a"), String::new(), String::from("c")];
    assert_eq!(join_lines(&three, "\n\t"), "a\n\t\n\tc");
}
