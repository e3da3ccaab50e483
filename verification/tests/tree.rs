use expr_tree::node::{Node, NodeError};

#[test]
fn builds_addition_tree() {
    let root = Node::from_expression("1 + 2".to_string());
    assert_eq!(root.value, "+");
    let l = root.l_child.as_ref().expect("left child");
    let r = root.r_child.as_ref().expect("right child");
    assert_eq!(l.value, "1");
    assert_eq!(r.value, "2");
    assert!(!l.has_children());
    assert!(!r.has_children());
}

#[test]
fn additive_operator_is_root_despite_later_multiplication() {
    let root = Node::from_expression("1 + 2 * 3".to_string());
    assert_eq!(root.value, "+");
    assert_eq!(root.l_child.as_ref().unwrap().value, "1");
    let mul = root.r_child.as_ref().unwrap();
    assert_eq!(mul.value, "*");
    assert_eq!(mul.l_child.as_ref().unwrap().value, "2");
    assert_eq!(mul.r_child.as_ref().unwrap().value, "3");
}

#[test]
fn multiplication_is_root_over_power() {
    let root = Node::from_expression("2 * 3 ^ 2".to_string());
    assert_eq!(root.value, "*");
    assert_eq!(root.l_child.as_ref().unwrap().value, "2");
    let pow = root.r_child.as_ref().unwrap();
    assert_eq!(pow.value, "^");
    assert_eq!(pow.l_child.as_ref().unwrap().value, "3");
    assert_eq!(pow.r_child.as_ref().unwrap().value, "2");
}

#[test]
fn builds_subtraction_tree() {
    let root = Node::from_expression("1 - 2".to_string());
    assert_eq!(root.value, "-");
    assert_eq!(root.l_child.as_ref().unwrap().value, "1");
    assert_eq!(root.r_child.as_ref().unwrap().value, "2");
}

#[test]
fn builds_multiplication_tree() {
    let root = Node::from_expression("2 * 10".to_string());
    assert_eq!(root.value, "*");
    assert_eq!(root.l_child.as_ref().unwrap().value, "2");
    assert_eq!(root.r_child.as_ref().unwrap().value, "10");
}

#[test]
fn builds_division_tree() {
    let root = Node::from_expression("1 / 10".to_string());
    assert_eq!(root.value, "/");
    assert_eq!(root.l_child.as_ref().unwrap().value, "1");
    assert_eq!(root.r_child.as_ref().unwrap().value, "10");
}

#[test]
fn leaf_expression_builds_childless_node() {
    let root = Node::from_expression("42".to_string());
    assert_eq!(root.value, "42");
    assert!(!root.has_children());
}

#[test]
fn invalid_word_builds_childless_node() {
    let root = Node::from_expression("expression".to_string());
    assert_eq!(root.value, "expression");
    assert!(!root.has_children());
}

#[test]
fn division_tree_has_both_operands() {
    let root = Node::from_expression("1 / 0".to_string());
    assert_eq!(root.value, "/");
    assert_eq!(root.l_child.as_ref().unwrap().value, "1");
    assert_eq!(root.r_child.as_ref().unwrap().value, "0");
}

#[test]
fn degenerate_operator_keeps_missing_side_empty() {
    let root = Node::from_expression("+ 2".to_string());
    assert_eq!(root.value, "+");
    assert!(root.l_child.is_none());
    assert_eq!(root.r_child.as_ref().unwrap().value, "2");
}

#[test]
fn renders_leaf_as_bare_value() {
    let root = Node::from_expression("42".to_string());
    assert_eq!(root.to_string(), "42");
}

#[test]
fn renders_two_children_with_markers() {
    let root = Node::from_expression("1 + 2".to_string());
    assert_eq!(root.to_string(), "+\n|-- 1\n`-- 2\n");
}

#[test]
fn renders_nested_tree_with_aligned_markers() {
    let root = Node::from_expression("1 + 2 * 3".to_string());
    assert_eq!(root.to_string(), "+\n|-- 1\n`-- *\n    |-- 2\n    `-- 3\n");
}

#[test]
fn renders_sole_right_child_as_last_branch() {
    let root = Node::from_expression("+ 2".to_string());
    assert_eq!(root.to_string(), "+\n`-- 2\n");
}

#[test]
fn renders_sole_left_child_as_last_branch() {
    let root = Node::from_expression("1 +".to_string());
    assert_eq!(root.to_string(), "+\n`-- 1\n");
}

#[test]
fn marker_counts_match_tree_shape() {
    // two two-child nodes: one `|-- ` and one `` `-- `` each
    let root = Node::from_expression("1 + 2 * 3".to_string());
    let text = root.to_string();
    assert_eq!(text.matches("|-- ").count(), 2);
    assert_eq!(text.matches("`-- ").count(), 2);
    // a single-child node produces exactly one `` `-- `` marked child
    let sole = Node::from_expression("+ 2".to_string());
    let text = sole.to_string();
    assert_eq!(text.matches("|-- ").count(), 0);
    assert_eq!(text.matches("`-- ").count(), 1);
}

#[test]
fn rendered_lines_count_the_nodes() {
    let root = Node::from_expression("1 + 2 * 3".to_string());
    let text = root.to_string();
    assert_eq!(text.trim_end().split('\n').count(), 5);
}

#[test]
fn building_twice_yields_identical_trees() {
    let a = Node::from_expression("3 + 4 * 5".to_string());
    let b = Node::from_expression("3 + 4 * 5".to_string());
    assert_eq!(a.to_string(), b.to_string());
    assert_eq!(a.value, b.value);
    assert_eq!(a.has_children(), b.has_children());
}

#[test]
fn divide_by_zero_message() {
    assert_eq!(NodeError::DivideByZero.message(), "Cannot divide by zero");
}

#[test]
fn invalid_expression_message_names_the_text() {
    let err = NodeError::InvalidExpression("expression".to_string());
    assert_eq!(
        err.message(),
        "The entered expression is invalid: expression"
    );
}

#[test]
fn has_children_reports_each_side() {
    let both = Node::from_expression("1 + 2".to_string());
    assert!(both.has_children());
    let leaf = Node::from_expression("7".to_string());
    assert!(!leaf.has_children());
    let sole = Node::from_expression("+ 2".to_string());
    assert!(sole.has_children());
}
