use calc_tree::ast::{BinKind, CalcError, Expr, Op};
use calc_tree::builder::{build_ast, build_group, ParseNode};
use calc_tree::resolver::build_bin_op;

fn number(s: &str) -> Expr {
    Expr::Number(s.to_string())
}

fn bin(l: Expr, k: BinKind, r: Expr) -> Expr {
    Expr::BinaryNode(Box::new(l), k, Box::new(r))
}

#[test]
fn resolver_rejects_anything_but_a_group() {
    assert_eq!(build_bin_op(number("1")), None);
    assert_eq!(build_bin_op(Expr::Empty), None);
    assert_eq!(build_bin_op(Expr::Operator(Op::Add)), None);
}

#[test]
fn resolver_rejects_the_empty_sequence() {
    assert_eq!(build_bin_op(Expr::Group(vec![])), None);
    assert_eq!(
        build_group(&vec![]),
        Err(CalcError::ResolutionError)
    );
}

#[test]
fn a_group_of_one_is_returned_as_is() {
    let r = build_bin_op(Expr::Group(vec![(number("7"), 0)]));
    assert_eq!(r, Some(number("7")));
}

#[test]
fn resolver_binds_the_stored_priorities() {
    let r = build_bin_op(Expr::Group(vec![
        (number("2"), 0),
        (Expr::Operator(Op::Multiply), 3),
        (number("3"), 0),
    ]));
    assert_eq!(r, Some(bin(number("2"), BinKind::Multiply, number("3"))));
}

#[test]
fn trailing_operator_is_a_resolution_error() {
    // 5 +
    let r = build_ast(&ParseNode::Group(vec![
        ParseNode::Num("5".to_string()),
        ParseNode::AddSym,
    ]));
    assert_eq!(r, Err(CalcError::ResolutionError));
}

#[test]
fn leading_multiply_or_divide_is_a_resolution_error() {
    let r = build_ast(&ParseNode::Group(vec![
        ParseNode::MultiplySym,
        ParseNode::Num("5".to_string()),
    ]));
    assert_eq!(r, Err(CalcError::ResolutionError));

    let r = build_ast(&ParseNode::Group(vec![
        ParseNode::DivideSym,
        ParseNode::Num("5".to_string()),
    ]));
    assert_eq!(r, Err(CalcError::ResolutionError));
}

#[test]
fn two_operands_without_an_operator_fail() {
    let r = build_ast(&ParseNode::Group(vec![
        ParseNode::Num("5".to_string()),
        ParseNode::Num("6".to_string()),
    ]));
    assert_eq!(r, Err(CalcError::ResolutionError));
}

#[test]
fn a_failing_inner_group_fails_the_outer_group() {
    // (5 +) * 2
    let r = build_ast(&ParseNode::Group(vec![
        ParseNode::Group(vec![ParseNode::Num("5".to_string()), ParseNode::AddSym]),
        ParseNode::MultiplySym,
        ParseNode::Num("2".to_string()),
    ]));
    assert_eq!(r, Err(CalcError::ResolutionError));
}

#[test]
fn classification_weights_follow_the_table() {
    assert_eq!(ParseNode::AddSym.priority(), 1);
    assert_eq!(ParseNode::SubtractSym.priority(), 2);
    assert_eq!(ParseNode::MultiplySym.priority(), 3);
    assert_eq!(ParseNode::DivideSym.priority(), 4);
    assert_eq!(ParseNode::Num("1".to_string()).priority(), 0);
    assert_eq!(ParseNode::SqrtCall("4".to_string()).priority(), 0);
    assert_eq!(ParseNode::Group(vec![]).priority(), 0);
    assert_eq!(ParseNode::Unknown.priority(), 0);
}

#[test]
fn operator_markers_expose_their_binary_kind() {
    assert_eq!(Op::Add.bin_kind(), Some(BinKind::Add));
    assert_eq!(Op::Subtract.bin_kind(), Some(BinKind::Subtract));
    assert_eq!(Op::Multiply.bin_kind(), Some(BinKind::Multiply));
    assert_eq!(Op::Divide.bin_kind(), Some(BinKind::Divide));
    assert_eq!(Op::Sqrt("4".to_string()).bin_kind(), None);
    assert_eq!(
        Op::Pow("2".to_string(), "3".to_string()).bin_kind(),
        None
    );
}
