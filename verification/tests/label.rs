use workstyle::label::{join_with_spaces, push_decimal, push_decimal_nat, synthesize_label};

fn strings(items: &[&str]) -> Vec<String> {
    items.iter().map(|s| s.to_string()).collect()
}

#[test]
fn label_without_icons_is_the_number() {
    assert_eq!(synthesize_label(Some(7), &strings(&[])), "7");
}

#[test]
fn label_with_two_icons() {
    assert_eq!(synthesize_label(Some(7), &strings(&["a", "b"])), "7: a b ");
}

#[test]
fn label_without_number_is_a_space() {
    assert_eq!(synthesize_label(None, &strings(&[])), " ");
}

#[test]
fn label_without_number_ignores_the_icons() {
    assert_eq!(synthesize_label(None, &strings(&["a", "b"])), " ");
}

#[test]
fn label_with_one_icon_has_a_closing_space() {
    assert_eq!(synthesize_label(Some(1), &strings(&["🦊"])), "1: 🦊 ");
}

#[test]
fn label_keeps_the_order_of_the_icons() {
    assert_eq!(
        synthesize_label(Some(12), &strings(&["c", "a", "b", "a"])),
        "12: c a b a "
    );
}

#[test]
fn label_of_one_empty_icon_is_the_number() {
    assert_eq!(synthesize_label(Some(5), &strings(&[""])), "5");
}

#[test]
fn label_of_two_empty_icons_holds_their_separator() {
    assert_eq!(synthesize_label(Some(5), &strings(&["", ""])), "5:   ");
}

#[test]
fn label_of_number_zero() {
    assert_eq!(synthesize_label(Some(0), &strings(&[])), "0");
}

#[test]
fn label_of_a_negative_number() {
    assert_eq!(synthesize_label(Some(-1), &strings(&["x"])), "-1: x ");
}

#[test]
fn label_of_the_extreme_numbers() {
    assert_eq!(synthesize_label(Some(i32::MAX), &strings(&[])), "2147483647");
    assert_eq!(synthesize_label(Some(i32::MIN), &strings(&[])), "-2147483648");
}

#[test]
fn label_agrees_with_the_standard_formatting() {
    for number in [-1000, -99, -10, -9, -1, 0, 1, 9, 10, 11, 99, 100, 101, 1000, 65535] {
        assert_eq!(synthesize_label(Some(number), &strings(&[])), format!("{}", number));
        assert_eq!(
            synthesize_label(Some(number), &strings(&["i", "j"])),
            format!("{}: {} ", number, "i j")
        );
    }
}

#[test]
fn label_is_the_same_for_the_same_input() {
    let icons = strings(&["a", "b"]);
    assert_eq!(synthesize_label(Some(3), &icons), synthesize_label(Some(3), &icons));
}

#[test]
fn join_puts_one_space_between_neighbours() {
    assert_eq!(join_with_spaces(&strings(&[])), "");
    assert_eq!(join_with_spaces(&strings(&["a"])), "a");
    assert_eq!(join_with_spaces(&strings(&["a", "b", "c"])), "a b c");
    assert_eq!(join_with_spaces(&strings(&["a", "", "c"])), "a  c");
}

#[test]
fn decimal_is_appended_to_what_is_there() {
    let mut out = String::from("n=");
    push_decimal(&mut out, -42);
    assert_eq!(out, "n=-42");
    push_decimal_nat(&mut out, 7);
    assert_eq!(out, "n=-427");
}

#[test]
fn decimal_of_the_extreme_values() {
    let mut out = String::new();
    push_decimal(&mut out, i64::MIN);
    assert_eq!(out, "-9223372036854775808");
    let mut out = String::new();
    push_decimal(&mut out, i64::MAX);
    assert_eq!(out, "9223372036854775807");
    let mut out = String::new();
    push_decimal_nat(&mut out, u64::MAX);
    assert_eq!(out, "18446744073709551615");
    let mut out = String::new();
    push_decimal_nat(&mut out, 0);
    assert_eq!(out, "0");
}
