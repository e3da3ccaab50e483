use expr_tree::splitter::{has_no_operators, split_on_lowest_priority_operator};

#[test]
fn splits_addition() {
    let (op, l, r) = split_on_lowest_priority_operator("1 + 2".to_string());
    assert_eq!(op, "+");
    assert_eq!(l, "1");
    assert_eq!(r, "2");
}

#[test]
fn splits_leftmost_additive_first() {
    let (op, l, r) = split_on_lowest_priority_operator("1 + 2 * 3".to_string());
    assert_eq!(op, "+");
    assert_eq!(l, "1");
    assert_eq!(r, "2 * 3");
}

#[test]
fn splits_multiplicative_over_power() {
    let (op, l, r) = split_on_lowest_priority_operator("2 * 3 ^ 2".to_string());
    assert_eq!(op, "*");
    assert_eq!(l, "2");
    assert_eq!(r, "3 ^ 2");
}

#[test]
fn splits_power_when_alone() {
    let (op, l, r) = split_on_lowest_priority_operator("2 ^ 3".to_string());
    assert_eq!(op, "^");
    assert_eq!(l, "2");
    assert_eq!(r, "3");
}

#[test]
fn splits_leftmost_of_same_tier() {
    let (op, l, r) = split_on_lowest_priority_operator("1 - 2 + 3".to_string());
    assert_eq!(op, "-");
    assert_eq!(l, "1");
    assert_eq!(r, "2 + 3");
}

#[test]
fn splits_leftmost_multiplicative() {
    let (op, l, r) = split_on_lowest_priority_operator("8 / 2 * 3".to_string());
    assert_eq!(op, "/");
    assert_eq!(l, "8");
    assert_eq!(r, "2 * 3");
}

#[test]
fn leaves_number_whole() {
    let (op, l, r) = split_on_lowest_priority_operator("42".to_string());
    assert_eq!(op, "42");
    assert_eq!(l, "");
    assert_eq!(r, "");
}

#[test]
fn leaves_operator_free_expression_whole() {
    let (op, l, r) = split_on_lowest_priority_operator("foo bar".to_string());
    assert_eq!(op, "foo bar");
    assert_eq!(l, "");
    assert_eq!(r, "");
}

#[test]
fn unspaced_operator_is_not_a_token() {
    let (op, l, r) = split_on_lowest_priority_operator("1+2".to_string());
    assert_eq!(op, "1+2");
    assert_eq!(l, "");
    assert_eq!(r, "");
}

#[test]
fn operator_at_front_leaves_left_empty() {
    let (op, l, r) = split_on_lowest_priority_operator("+ 2".to_string());
    assert_eq!(op, "+");
    assert_eq!(l, "");
    assert_eq!(r, "2");
}

#[test]
fn operator_at_end_leaves_right_empty() {
    let (op, l, r) = split_on_lowest_priority_operator("1 +".to_string());
    assert_eq!(op, "+");
    assert_eq!(l, "1");
    assert_eq!(r, "");
}

#[test]
fn reports_operator_free_text() {
    assert!(has_no_operators(&"42".to_string()));
    assert!(has_no_operators(&"foo bar".to_string()));
    assert!(!has_no_operators(&"1 + 2".to_string()));
    assert!(!has_no_operators(&"1+2".to_string()));
    assert!(!has_no_operators(&"a^b".to_string()));
}
