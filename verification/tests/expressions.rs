use ceresc::error::{Expected, ParseError};
use ceresc::expr::{BinOpTy, Expr, UnaryOpTy};
use ceresc::syntax::{Rule, SyntaxNode};

const DEPTH: usize = 64;

fn leaf(rule: Rule, text: &str) -> SyntaxNode {
    SyntaxNode { rule, text: text.to_owned(), children: Vec::new() }
}

fn group(rule: Rule, children: Vec<SyntaxNode>) -> SyntaxNode {
    SyntaxNode { rule, text: String::new(), children }
}

fn num(text: &str) -> SyntaxNode {
    leaf(Rule::Integer, text)
}

fn name(text: &str) -> SyntaxNode {
    leaf(Rule::Ident, text)
}

fn op(rule: Rule) -> SyntaxNode {
    leaf(rule, "")
}

fn paren(children: Vec<SyntaxNode>) -> SyntaxNode {
    group(Rule::Expr, children)
}

fn call(id: &str, args: Vec<Vec<SyntaxNode>>) -> SyntaxNode {
    let args = args.into_iter().map(paren).collect();
    group(Rule::FnCall, vec![name(id), group(Rule::FnArgs, args)])
}

fn lit(text: &str) -> Expr {
    Expr::Integer(text.to_owned())
}

fn var(text: &str) -> Expr {
    Expr::Ident(text.to_owned())
}

fn bin(lhs: Expr, op: BinOpTy, rhs: Expr) -> Expr {
    Expr::BinOp { lhs: Box::new(lhs), op, rhs: Box::new(rhs) }
}

fn un(op: UnaryOpTy, ex: Expr) -> Expr {
    Expr::UnaryOp { op, ex: Box::new(ex) }
}

fn unexpected(found: Rule, expected: Expected) -> ParseError {
    ParseError::Unexpected { found, expected }
}

fn missing(expected: Expected) -> ParseError {
    ParseError::Missing { expected }
}

/// The fully parenthesized spelling of an expression.
fn canonical(expr: &Expr) -> Vec<SyntaxNode> {
    match expr {
        Expr::Ident(text) => vec![name(text)],
        Expr::Integer(text) => vec![num(text)],
        Expr::FnCall { id, args } => vec![call(id, args.iter().map(canonical).collect())],
        Expr::UnaryOp { op, ex } => {
            let rule = match op {
                UnaryOpTy::Minus => Rule::UnaryMinus,
                UnaryOpTy::Neg => Rule::UnaryNot,
            };
            vec![leaf(rule, ""), paren(canonical(ex))]
        }
        Expr::BinOp { lhs, op, rhs } => {
            let rule = match op {
                BinOpTy::Add => Rule::Add,
                BinOpTy::Subtract => Rule::Subtract,
                BinOpTy::Multiply => Rule::Multiply,
                BinOpTy::Divide => Rule::Divide,
                BinOpTy::Modulo => Rule::Modulo,
                BinOpTy::EqEq => Rule::EqEq,
            };
            vec![paren(canonical(lhs)), leaf(rule, ""), paren(canonical(rhs))]
        }
    }
}

/// `levels` pairs of parentheses around the literal 1.
fn nested(levels: usize) -> Vec<SyntaxNode> {
    let mut nodes = vec![num("1")];
    let mut done = 0;
    while done < levels {
        nodes = vec![paren(nodes)];
        done += 1;
    }
    nodes
}

#[test]
fn multiplication_binds_tighter_than_addition() {
    let nodes = vec![num("1"), op(Rule::Add), num("2"), op(Rule::Multiply), num("3")];
    let expected = bin(lit("1"), BinOpTy::Add, bin(lit("2"), BinOpTy::Multiply, lit("3")));
    assert_eq!(Expr::parse(&nodes, DEPTH), Ok(expected));
    let wrong = bin(bin(lit("1"), BinOpTy::Add, lit("2")), BinOpTy::Multiply, lit("3"));
    assert_ne!(Expr::parse(&nodes, DEPTH), Ok(wrong));
}

#[test]
fn multiplication_before_addition_groups_first() {
    let nodes = vec![num("1"), op(Rule::Multiply), num("2"), op(Rule::Add), num("3")];
    let expected = bin(bin(lit("1"), BinOpTy::Multiply, lit("2")), BinOpTy::Add, lit("3"));
    assert_eq!(Expr::parse(&nodes, DEPTH), Ok(expected));
}

#[test]
fn subtraction_groups_to_the_left() {
    let nodes = vec![num("1"), op(Rule::Subtract), num("2"), op(Rule::Subtract), num("3")];
    let expected = bin(bin(lit("1"), BinOpTy::Subtract, lit("2")), BinOpTy::Subtract, lit("3"));
    assert_eq!(Expr::parse(&nodes, DEPTH), Ok(expected));
}

#[test]
fn every_level_groups_to_the_left() {
    let levels = [
        (Rule::EqEq, BinOpTy::EqEq, Rule::EqEq, BinOpTy::EqEq),
        (Rule::Add, BinOpTy::Add, Rule::Subtract, BinOpTy::Subtract),
        (Rule::Subtract, BinOpTy::Subtract, Rule::Add, BinOpTy::Add),
        (Rule::Multiply, BinOpTy::Multiply, Rule::Divide, BinOpTy::Divide),
        (Rule::Divide, BinOpTy::Divide, Rule::Modulo, BinOpTy::Modulo),
        (Rule::Modulo, BinOpTy::Modulo, Rule::Multiply, BinOpTy::Multiply),
    ];
    for (first_rule, first, second_rule, second) in levels {
        let nodes = vec![name("a"), op(first_rule), name("b"), op(second_rule), name("c")];
        let expected = bin(bin(var("a"), first, var("b")), second, var("c"));
        assert_eq!(Expr::parse(&nodes, DEPTH), Ok(expected));
    }
}

#[test]
fn prefix_binds_tighter_than_binary() {
    let nodes = vec![op(Rule::UnaryMinus), num("1"), op(Rule::Add), num("2")];
    let expected = bin(un(UnaryOpTy::Minus, lit("1")), BinOpTy::Add, lit("2"));
    assert_eq!(Expr::parse(&nodes, DEPTH), Ok(expected));
}

#[test]
fn prefix_applies_to_the_right_operand_only() {
    let nodes = vec![num("1"), op(Rule::Multiply), op(Rule::UnaryNot), name("x"), op(Rule::Multiply), num("2")];
    let expected = bin(
        bin(lit("1"), BinOpTy::Multiply, un(UnaryOpTy::Neg, var("x"))),
        BinOpTy::Multiply,
        lit("2"),
    );
    assert_eq!(Expr::parse(&nodes, DEPTH), Ok(expected));
}

#[test]
fn prefix_operators_stack_outermost_first() {
    let nodes = vec![op(Rule::UnaryMinus), op(Rule::UnaryNot), op(Rule::UnaryMinus), name("x")];
    let expected = un(
        UnaryOpTy::Minus,
        un(UnaryOpTy::Neg, un(UnaryOpTy::Minus, var("x"))),
    );
    assert_eq!(Expr::parse(&nodes, DEPTH), Ok(expected));
}

#[test]
fn long_prefix_run_needs_no_depth() {
    let mut nodes = Vec::new();
    let mut expected = var("x");
    let mut count = 0;
    while count < 5000 {
        nodes.push(op(Rule::UnaryNot));
        expected = un(UnaryOpTy::Neg, expected);
        count += 1;
    }
    nodes.push(name("x"));
    let parsed = Expr::parse(&nodes, 0);
    assert!(parsed == Ok(expected));
    std::mem::forget(parsed);
}

#[test]
fn equality_binds_loosest() {
    let nodes = vec![
        num("1"),
        op(Rule::Add),
        num("2"),
        op(Rule::EqEq),
        num("3"),
        op(Rule::Multiply),
        num("1"),
    ];
    let expected = bin(
        bin(lit("1"), BinOpTy::Add, lit("2")),
        BinOpTy::EqEq,
        bin(lit("3"), BinOpTy::Multiply, lit("1")),
    );
    assert_eq!(Expr::parse(&nodes, DEPTH), Ok(expected));
}

#[test]
fn mixed_levels_fold_back_down() {
    // a == b + c * d - e
    let nodes = vec![
        name("a"),
        op(Rule::EqEq),
        name("b"),
        op(Rule::Add),
        name("c"),
        op(Rule::Multiply),
        name("d"),
        op(Rule::Subtract),
        name("e"),
    ];
    let product = bin(var("c"), BinOpTy::Multiply, var("d"));
    let sum = bin(bin(var("b"), BinOpTy::Add, product), BinOpTy::Subtract, var("e"));
    let expected = bin(var("a"), BinOpTy::EqEq, sum);
    assert_eq!(Expr::parse(&nodes, DEPTH), Ok(expected));
}

#[test]
fn parentheses_override_precedence() {
    let inner = vec![num("1"), op(Rule::Add), num("2")];
    let nodes = vec![paren(inner), op(Rule::Multiply), num("3")];
    let expected = bin(bin(lit("1"), BinOpTy::Add, lit("2")), BinOpTy::Multiply, lit("3"));
    assert_eq!(Expr::parse(&nodes, DEPTH), Ok(expected));
}

#[test]
fn single_atoms_keep_their_text() {
    assert_eq!(Expr::parse(&[name("counter_1")], 0), Ok(var("counter_1")));
    assert_eq!(Expr::parse(&[num("00042")], 0), Ok(lit("00042")));
    assert_eq!(
        Expr::parse(&[num("99999999999999999999999999")], 0),
        Ok(lit("99999999999999999999999999"))
    );
}

#[test]
fn call_arguments_keep_their_order() {
    let nodes = vec![call("f", vec![vec![name("a")], vec![name("b")], vec![name("c")]])];
    let expected = Expr::FnCall { id: "f".to_owned(), args: vec![var("a"), var("b"), var("c")] };
    assert_eq!(Expr::parse(&nodes, DEPTH), Ok(expected));
}

#[test]
fn call_without_arguments() {
    let nodes = vec![call("now", vec![])];
    let expected = Expr::FnCall { id: "now".to_owned(), args: vec![] };
    assert_eq!(Expr::parse(&nodes, DEPTH), Ok(expected));
}

#[test]
fn call_arguments_are_whole_expressions() {
    let first = vec![num("1"), op(Rule::Add), num("2"), op(Rule::Multiply), num("3")];
    let second = vec![call("g", vec![vec![op(Rule::UnaryMinus), name("x")]])];
    let nodes = vec![call("f", vec![first, second]), op(Rule::EqEq), num("0")];
    let expected = bin(
        Expr::FnCall {
            id: "f".to_owned(),
            args: vec![
                bin(lit("1"), BinOpTy::Add, bin(lit("2"), BinOpTy::Multiply, lit("3"))),
                Expr::FnCall { id: "g".to_owned(), args: vec![un(UnaryOpTy::Minus, var("x"))] },
            ],
        },
        BinOpTy::EqEq,
        lit("0"),
    );
    assert_eq!(Expr::parse(&nodes, DEPTH), Ok(expected));
}

#[test]
fn canonical_spelling_reads_back_as_the_same_tree() {
    let trees = vec![
        var("x"),
        lit("7"),
        un(UnaryOpTy::Minus, lit("1")),
        bin(bin(lit("1"), BinOpTy::Add, lit("2")), BinOpTy::Multiply, lit("3")),
        bin(lit("1"), BinOpTy::Subtract, bin(lit("2"), BinOpTy::Subtract, lit("3"))),
        un(UnaryOpTy::Neg, bin(var("a"), BinOpTy::EqEq, var("b"))),
        Expr::FnCall {
            id: "f".to_owned(),
            args: vec![
                bin(var("a"), BinOpTy::Modulo, un(UnaryOpTy::Minus, var("b"))),
                Expr::FnCall { id: "g".to_owned(), args: vec![] },
                bin(bin(var("a"), BinOpTy::EqEq, var("b")), BinOpTy::Divide, lit("2")),
            ],
        },
    ];
    for tree in trees {
        let nodes = canonical(&tree);
        assert_eq!(Expr::parse(&nodes, DEPTH), Ok(tree));
    }
}

#[test]
fn reading_the_canonical_spelling_twice_changes_nothing() {
    let nodes = vec![num("1"), op(Rule::Add), num("2"), op(Rule::Multiply), num("3")];
    let once = Expr::parse(&nodes, DEPTH).unwrap();
    let twice = Expr::parse(&canonical(&once), DEPTH).unwrap();
    assert_eq!(once, twice);
}

#[test]
fn nesting_within_the_limit_is_read() {
    let nodes = nested(3);
    assert_eq!(Expr::parse(&nodes, 3), Ok(lit("1")));
    assert_eq!(Expr::parse(&nodes, 4), Ok(lit("1")));
    assert_eq!(Expr::parse(&nested(200), 256), Ok(lit("1")));
}

#[test]
fn nesting_beyond_the_limit_is_too_deep() {
    assert_eq!(Expr::parse(&nested(3), 2), Err(ParseError::TooDeep));
    assert_eq!(Expr::parse(&nested(1), 0), Err(ParseError::TooDeep));
    assert_eq!(Expr::parse(&nested(0), 0), Ok(lit("1")));
}

#[test]
fn ten_thousand_levels_are_given_up_not_crashed_on() {
    let nodes = nested(10_000);
    assert_eq!(Expr::parse(&nodes, 256), Err(ParseError::TooDeep));
    assert_eq!(Expr::parse(&nodes, 256), Err(ParseError::TooDeep));
    std::mem::forget(nodes);
}

#[test]
fn call_arguments_count_as_one_level() {
    let nodes = vec![call("f", vec![vec![name("a")]])];
    assert_eq!(Expr::parse(&nodes, 0), Err(ParseError::TooDeep));
    assert_eq!(
        Expr::parse(&nodes, 1),
        Ok(Expr::FnCall { id: "f".to_owned(), args: vec![var("a")] })
    );
    let deeper = vec![call("f", vec![vec![paren(vec![name("a")])]])];
    assert_eq!(Expr::parse(&deeper, 1), Err(ParseError::TooDeep));
    assert_eq!(
        Expr::parse(&deeper, 2),
        Ok(Expr::FnCall { id: "f".to_owned(), args: vec![var("a")] })
    );
}

#[test]
fn no_nodes_is_a_missing_atom() {
    assert_eq!(Expr::parse(&[], DEPTH), Err(missing(Expected::Atom)));
    assert_eq!(Expr::parse(&[paren(vec![])], DEPTH), Err(missing(Expected::Atom)));
}

#[test]
fn operator_without_right_operand_is_a_missing_atom() {
    let nodes = vec![num("1"), op(Rule::Add)];
    assert_eq!(Expr::parse(&nodes, DEPTH), Err(missing(Expected::Atom)));
    let nodes = vec![op(Rule::UnaryMinus)];
    assert_eq!(Expr::parse(&nodes, DEPTH), Err(missing(Expected::Atom)));
    let nodes = vec![num("1"), op(Rule::Multiply), op(Rule::UnaryNot)];
    assert_eq!(Expr::parse(&nodes, DEPTH), Err(missing(Expected::Atom)));
}

#[test]
fn operator_in_operand_position_is_refused() {
    let nodes = vec![op(Rule::Add), num("1")];
    assert_eq!(Expr::parse(&nodes, DEPTH), Err(unexpected(Rule::Add, Expected::Atom)));
    let nodes = vec![num("1"), op(Rule::Add), op(Rule::Multiply), num("2")];
    assert_eq!(Expr::parse(&nodes, DEPTH), Err(unexpected(Rule::Multiply, Expected::Atom)));
    let nodes = vec![leaf(Rule::RetStmt, "return")];
    assert_eq!(Expr::parse(&nodes, DEPTH), Err(unexpected(Rule::RetStmt, Expected::Atom)));
}

#[test]
fn operand_in_operator_position_is_refused() {
    let nodes = vec![num("1"), num("2")];
    assert_eq!(Expr::parse(&nodes, DEPTH), Err(unexpected(Rule::Integer, Expected::InfixOperator)));
    let nodes = vec![num("1"), op(Rule::UnaryMinus), num("2")];
    assert_eq!(
        Expr::parse(&nodes, DEPTH),
        Err(unexpected(Rule::UnaryMinus, Expected::InfixOperator))
    );
    let nodes = vec![num("1"), op(Rule::Multiply), num("2"), name("x"), op(Rule::Add), num("3")];
    assert_eq!(Expr::parse(&nodes, DEPTH), Err(unexpected(Rule::Ident, Expected::InfixOperator)));
}

#[test]
fn the_first_fault_from_the_left_is_reported() {
    let nodes = vec![num("1"), num("2"), op(Rule::Add)];
    assert_eq!(Expr::parse(&nodes, DEPTH), Err(unexpected(Rule::Integer, Expected::InfixOperator)));
    let nodes = vec![paren(vec![]), num("2")];
    assert_eq!(Expr::parse(&nodes, DEPTH), Err(missing(Expected::Atom)));
    let bad_then_deep = vec![call("f", vec![vec![op(Rule::Add)], nested(9)])];
    assert_eq!(Expr::parse(&bad_then_deep, 3), Err(unexpected(Rule::Add, Expected::Atom)));
    let deep_then_bad = vec![call("f", vec![nested(9), vec![op(Rule::Add)]])];
    assert_eq!(Expr::parse(&deep_then_bad, 3), Err(ParseError::TooDeep));
}

#[test]
fn call_without_its_parts_is_refused() {
    let nodes = vec![group(Rule::FnCall, vec![])];
    assert_eq!(Expr::parse(&nodes, DEPTH), Err(missing(Expected::Name)));
    let nodes = vec![group(Rule::FnCall, vec![name("f")])];
    assert_eq!(Expr::parse(&nodes, DEPTH), Err(missing(Expected::Arguments)));
}

#[test]
fn operators_are_told_apart_by_rule() {
    assert_eq!(UnaryOpTy::from_rule(Rule::UnaryMinus), Some(UnaryOpTy::Minus));
    assert_eq!(UnaryOpTy::from_rule(Rule::UnaryNot), Some(UnaryOpTy::Neg));
    assert_eq!(UnaryOpTy::from_rule(Rule::Subtract), None);
    assert_eq!(BinOpTy::from_rule(Rule::Add), Some(BinOpTy::Add));
    assert_eq!(BinOpTy::from_rule(Rule::Subtract), Some(BinOpTy::Subtract));
    assert_eq!(BinOpTy::from_rule(Rule::Multiply), Some(BinOpTy::Multiply));
    assert_eq!(BinOpTy::from_rule(Rule::Divide), Some(BinOpTy::Divide));
    assert_eq!(BinOpTy::from_rule(Rule::Modulo), Some(BinOpTy::Modulo));
    assert_eq!(BinOpTy::from_rule(Rule::EqEq), Some(BinOpTy::EqEq));
    assert_eq!(BinOpTy::from_rule(Rule::UnaryMinus), None);
    assert_eq!(BinOpTy::from_rule(Rule::Ident), None);
}

#[test]
fn precedence_has_three_levels() {
    assert_eq!(BinOpTy::EqEq.precedence(), 1);
    assert_eq!(BinOpTy::Add.precedence(), 2);
    assert_eq!(BinOpTy::Subtract.precedence(), 2);
    assert_eq!(BinOpTy::Multiply.precedence(), 3);
    assert_eq!(BinOpTy::Divide.precedence(), 3);
    assert_eq!(BinOpTy::Modulo.precedence(), 3);
}
