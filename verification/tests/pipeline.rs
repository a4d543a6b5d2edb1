use calc_tree::ast::{BinKind, Expr, Op};
use calc_tree::builder::{build_ast, ParseNode};

fn num(s: &str) -> ParseNode {
    ParseNode::Num(s.to_string())
}

fn group(children: Vec<ParseNode>) -> ParseNode {
    ParseNode::Group(children)
}

fn number(s: &str) -> Expr {
    Expr::Number(s.to_string())
}

fn bin(l: Expr, k: BinKind, r: Expr) -> Expr {
    Expr::BinaryNode(Box::new(l), k, Box::new(r))
}

/// Evaluates a resolved tree with the evaluator's semantics: literal text
/// parsed at evaluation time, IEEE arithmetic, and no numeric value for a
/// tangent at a discontinuity or a non-value node.  `sin` and `cos` read
/// radians; `tan` reads degrees.
fn eval(e: &Expr) -> Option<f32> {
    match e {
        Expr::Number(t) => t.trim().parse::<f32>().ok(),
        Expr::BinaryNode(l, k, r) => {
            let lv = eval(l)?;
            let rv = eval(r)?;
            Some(match k {
                BinKind::Add => lv + rv,
                BinKind::Subtract => lv - rv,
                BinKind::Multiply => lv * rv,
                BinKind::Divide => lv / rv,
            })
        }
        Expr::Operator(Op::Pow(b, e2)) => {
            Some(b.parse::<f32>().ok()?.powf(e2.parse::<f32>().ok()?))
        }
        Expr::Operator(Op::Sqrt(x)) => Some(x.parse::<f32>().ok()?.sqrt()),
        Expr::Operator(Op::Root(x, n)) => {
            Some(x.parse::<f32>().ok()?.powf(1.0 / n.parse::<f32>().ok()?))
        }
        Expr::Operator(Op::Cos(x)) => Some(x.parse::<f32>().ok()?.cos()),
        Expr::Operator(Op::Sine(x)) => Some(x.parse::<f32>().ok()?.sin()),
        Expr::Operator(Op::Tan(x)) => {
            let d = x.parse::<f32>().ok()?;
            if (d % 180.0) == 90.0 {
                None
            } else {
                Some(d.to_radians().tan())
            }
        }
        _ => None,
    }
}

#[test]
fn single_literal_evaluates_to_its_parsed_value() {
    let t = build_ast(&num("42")).unwrap();
    assert_eq!(t, number("42"));
    assert_eq!(eval(&t), Some(42.0));

    let t = build_ast(&num("3.5")).unwrap();
    assert_eq!(eval(&t), Some(3.5));
}

#[test]
fn multiplication_binds_tighter_than_addition() {
    // 3 + 5 * 2
    let t = build_ast(&group(vec![
        num("3"),
        ParseNode::AddSym,
        num("5"),
        ParseNode::MultiplySym,
        num("2"),
    ]))
    .unwrap();
    assert_eq!(
        t,
        bin(
            number("3"),
            BinKind::Add,
            bin(number("5"), BinKind::Multiply, number("2"))
        )
    );
    assert_eq!(eval(&t), Some(13.0));
}

#[test]
fn parenthesized_group_is_an_atomic_operand() {
    // (3 + 5) * 2
    let t = build_ast(&group(vec![
        group(vec![num("3"), ParseNode::AddSym, num("5")]),
        ParseNode::MultiplySym,
        num("2"),
    ]))
    .unwrap();
    assert_eq!(
        t,
        bin(
            bin(number("3"), BinKind::Add, number("5")),
            BinKind::Multiply,
            number("2")
        )
    );
    assert_eq!(eval(&t), Some(16.0));
}

#[test]
fn division_outranks_multiplication_by_weight() {
    // 8 / 2 * 4: the weight-4 division binds before the weight-3
    // multiplication
    let t = build_ast(&group(vec![
        num("8"),
        ParseNode::DivideSym,
        num("2"),
        ParseNode::MultiplySym,
        num("4"),
    ]))
    .unwrap();
    assert_eq!(
        t,
        bin(
            bin(number("8"), BinKind::Divide, number("2")),
            BinKind::Multiply,
            number("4")
        )
    );
    assert_eq!(eval(&t), Some(16.0));
}

#[test]
fn function_calls_are_self_contained_leaves() {
    let t = build_ast(&group(vec![ParseNode::SqrtCall("16".to_string())])).unwrap();
    assert_eq!(t, Expr::Operator(Op::Sqrt("16".to_string())));
    assert_eq!(eval(&t), Some(4.0));

    let t = build_ast(&group(vec![ParseNode::PowCall(
        "2".to_string(),
        "10".to_string(),
    )]))
    .unwrap();
    assert_eq!(eval(&t), Some(1024.0));

    let t = build_ast(&group(vec![ParseNode::RootCall(
        "27".to_string(),
        "3".to_string(),
    )]))
    .unwrap();
    let v = eval(&t).unwrap();
    assert!((v - 3.0).abs() < 1e-4);
}

#[test]
fn tangent_at_ninety_degrees_is_undefined_not_a_crash() {
    let t = build_ast(&group(vec![ParseNode::TanCall("90".to_string())])).unwrap();
    assert_eq!(t, Expr::Operator(Op::Tan("90".to_string())));
    assert_eq!(eval(&t), None);

    // away from the discontinuity a numeric value comes back
    let t = build_ast(&group(vec![ParseNode::TanCall("45".to_string())])).unwrap();
    let v = eval(&t).unwrap();
    assert!((v - 1.0).abs() < 1e-4);
}

#[test]
fn reduction_matches_conventional_precedence_parse() {
    // 1 + 2 * 3 - 4 / 2: a conventional parse for this system's weights
    // (/ over * over - over +, each level left-associative) gives
    // 1 + ((2 * 3) - (4 / 2))
    let t = build_ast(&group(vec![
        num("1"),
        ParseNode::AddSym,
        num("2"),
        ParseNode::MultiplySym,
        num("3"),
        ParseNode::SubtractSym,
        num("4"),
        ParseNode::DivideSym,
        num("2"),
    ]))
    .unwrap();
    let conventional = bin(
        number("1"),
        BinKind::Add,
        bin(
            bin(number("2"), BinKind::Multiply, number("3")),
            BinKind::Subtract,
            bin(number("4"), BinKind::Divide, number("2")),
        ),
    );
    assert_eq!(t, conventional);
    assert_eq!(eval(&t), Some(5.0));
}

#[test]
fn equal_weights_bind_left_to_right() {
    // 10 - 4 - 3 must read ((10 - 4) - 3), not 10 - (4 - 3)
    let t = build_ast(&group(vec![
        num("10"),
        ParseNode::SubtractSym,
        num("4"),
        ParseNode::SubtractSym,
        num("3"),
    ]))
    .unwrap();
    assert_eq!(
        t,
        bin(
            bin(number("10"), BinKind::Subtract, number("4")),
            BinKind::Subtract,
            number("3")
        )
    );
    assert_eq!(eval(&t), Some(3.0));
}

#[test]
fn evaluating_the_same_tree_twice_is_identical() {
    let input = group(vec![
        num("3"),
        ParseNode::AddSym,
        num("5"),
        ParseNode::MultiplySym,
        num("2"),
    ]);
    let t1 = build_ast(&input).unwrap();
    let t2 = build_ast(&input).unwrap();
    assert_eq!(t1, t2);
    assert_eq!(eval(&t1), eval(&t1));
    assert_eq!(eval(&t1), eval(&t2));
}

#[test]
fn nested_parentheses_collapse_to_the_inner_node() {
    // ((2)) is the literal 2
    let t = build_ast(&group(vec![group(vec![group(vec![num("2")])])])).unwrap();
    assert_eq!(t, number("2"));
}

#[test]
fn unrecognized_nodes_carry_no_content() {
    let t = build_ast(&group(vec![
        num("1"),
        ParseNode::Unknown,
        ParseNode::AddSym,
        num("2"),
    ]))
    .unwrap();
    assert_eq!(t, bin(number("1"), BinKind::Add, number("2")));

    assert_eq!(build_ast(&ParseNode::Unknown).unwrap(), Expr::Empty);
}

#[test]
fn leading_minus_reads_as_unary_negation() {
    // -5 + 3 is (0 - 5) + 3
    let t = build_ast(&group(vec![
        ParseNode::SubtractSym,
        num("5"),
        ParseNode::AddSym,
        num("3"),
    ]))
    .unwrap();
    assert_eq!(
        t,
        bin(
            bin(number("0"), BinKind::Subtract, number("5")),
            BinKind::Add,
            number("3")
        )
    );
    assert_eq!(eval(&t), Some(-2.0));
}
