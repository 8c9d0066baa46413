use ceresc::error::{Expected, ParseError};
use ceresc::expr::{BinOpTy, Expr};
use ceresc::stmt::{Block, Stmt, Ty, VarDecl};
use ceresc::syntax::{Rule, SyntaxNode};
use ceresc::top_level::TopLevel;
use ceresc::trans_unit::TransUnit;

const DEPTH: usize = 64;

fn leaf(rule: Rule, text: &str) -> SyntaxNode {
    SyntaxNode { rule, text: text.to_owned(), children: Vec::new() }
}

fn group(rule: Rule, children: Vec<SyntaxNode>) -> SyntaxNode {
    SyntaxNode { rule, text: String::new(), children }
}

fn name(text: &str) -> SyntaxNode {
    leaf(Rule::Ident, text)
}

fn num(text: &str) -> SyntaxNode {
    leaf(Rule::Integer, text)
}

fn expr(children: Vec<SyntaxNode>) -> SyntaxNode {
    group(Rule::Expr, children)
}

/// A statement as the grammar wraps it.
fn stmt(inner: SyntaxNode) -> SyntaxNode {
    group(Rule::Stmt, vec![inner])
}

fn expr_stmt(children: Vec<SyntaxNode>) -> SyntaxNode {
    stmt(expr(children))
}

fn ret_stmt(children: Vec<SyntaxNode>) -> SyntaxNode {
    stmt(group(Rule::RetStmt, vec![expr(children)]))
}

fn block_stmt(stmts: Vec<SyntaxNode>) -> SyntaxNode {
    stmt(group(Rule::BlockStmt, stmts))
}

fn var_decl(id: &str, ty: Rule) -> SyntaxNode {
    group(Rule::VarDecl, vec![name(id), leaf(ty, "")])
}

fn var_def(id: &str, ty: Rule, init: Option<Vec<SyntaxNode>>) -> SyntaxNode {
    let mut parts = vec![var_decl(id, ty)];
    if let Some(init) = init {
        parts.push(expr(init));
    }
    stmt(group(Rule::VarDeclStmt, parts))
}

fn if_stmt(cond: Vec<SyntaxNode>, then: Vec<SyntaxNode>, other: Option<Vec<SyntaxNode>>) -> SyntaxNode {
    let mut parts = vec![expr(cond), group(Rule::Block, then)];
    if let Some(other) = other {
        parts.push(group(Rule::Block, other));
    }
    stmt(group(Rule::IfStmt, parts))
}

fn fn_def(id: &str, params: Vec<SyntaxNode>, ret: Option<Rule>, body: Vec<SyntaxNode>) -> SyntaxNode {
    let ret = match ret {
        Some(ty) => vec![leaf(ty, "")],
        None => vec![],
    };
    group(
        Rule::FnDefTop,
        vec![
            name(id),
            group(Rule::FnParams, params),
            group(Rule::FnRet, ret),
            group(Rule::Block, body),
        ],
    )
}

fn entry(inner: SyntaxNode) -> SyntaxNode {
    group(Rule::TopLevel, vec![inner])
}

fn end_of_input() -> SyntaxNode {
    leaf(Rule::EndOfInput, "")
}

fn unit(entries: Vec<SyntaxNode>) -> Vec<SyntaxNode> {
    vec![group(Rule::TransUnit, entries)]
}

fn var(text: &str) -> Expr {
    Expr::Ident(text.to_owned())
}

fn lit(text: &str) -> Expr {
    Expr::Integer(text.to_owned())
}

fn decl(id: &str, ty: Ty) -> VarDecl {
    VarDecl { id: id.to_owned(), ty }
}

fn unexpected(found: Rule, expected: Expected) -> ParseError {
    ParseError::Unexpected { found, expected }
}

fn missing(expected: Expected) -> ParseError {
    ParseError::Missing { expected }
}

/// `levels` blocks inside one another around `x;`, as one statement.
fn nested_blocks(levels: usize) -> SyntaxNode {
    let mut node = expr_stmt(vec![name("x")]);
    let mut done = 0;
    while done < levels {
        node = block_stmt(vec![node]);
        done += 1;
    }
    node
}

#[test]
fn every_type_is_read() {
    let table = [
        (Rule::TyI8, Ty::I8),
        (Rule::TyI16, Ty::I16),
        (Rule::TyI32, Ty::I32),
        (Rule::TyU8, Ty::U8),
        (Rule::TyU16, Ty::U16),
        (Rule::TyU32, Ty::U32),
        (Rule::TyBool, Ty::Bool),
    ];
    for (rule, ty) in table {
        assert_eq!(Ty::parse(&[leaf(rule, "")]), Ok(ty));
    }
}

#[test]
fn type_looks_at_the_first_node_only() {
    assert_eq!(Ty::parse(&[leaf(Rule::TyU8, ""), leaf(Rule::Add, "")]), Ok(Ty::U8));
}

#[test]
fn what_is_no_type_is_refused() {
    assert_eq!(Ty::parse(&[]), Err(missing(Expected::Type)));
    assert_eq!(Ty::parse(&[name("u8")]), Err(unexpected(Rule::Ident, Expected::Type)));
    assert_eq!(
        Ty::parse(&[leaf(Rule::Add, ""), leaf(Rule::TyU8, "")]),
        Err(unexpected(Rule::Add, Expected::Type))
    );
}

#[test]
fn declaration_has_name_and_type() {
    let nodes = vec![name("total"), leaf(Rule::TyI32, "i32")];
    assert_eq!(VarDecl::parse(&nodes), Ok(decl("total", Ty::I32)));
}

#[test]
fn declaration_without_its_parts_is_refused() {
    assert_eq!(VarDecl::parse(&[]), Err(missing(Expected::Name)));
    assert_eq!(VarDecl::parse(&[name("x")]), Err(missing(Expected::Type)));
    assert_eq!(
        VarDecl::parse(&[name("x"), name("y")]),
        Err(unexpected(Rule::Ident, Expected::Type))
    );
}

#[test]
fn expression_statement() {
    let nodes = vec![expr(vec![name("x"), leaf(Rule::Add, "+"), num("1")])];
    let expected = Stmt::Expr {
        expr: Expr::BinOp { lhs: Box::new(var("x")), op: BinOpTy::Add, rhs: Box::new(lit("1")) },
    };
    assert_eq!(Stmt::parse(&nodes, DEPTH), Ok(expected));
}

#[test]
fn return_statement() {
    let nodes = vec![group(Rule::RetStmt, vec![expr(vec![name("x")])])];
    assert_eq!(Stmt::parse(&nodes, DEPTH), Ok(Stmt::Return { expr: var("x") }));
}

#[test]
fn return_needs_one_level_for_its_expression() {
    let nodes = vec![group(Rule::RetStmt, vec![expr(vec![name("x")])])];
    assert_eq!(Stmt::parse(&nodes, 0), Err(ParseError::TooDeep));
    assert_eq!(Stmt::parse(&nodes, 1), Ok(Stmt::Return { expr: var("x") }));
}

#[test]
fn definition_without_initializer() {
    let nodes = vec![group(Rule::VarDeclStmt, vec![var_decl("x", Rule::TyU8)])];
    let expected = Stmt::VarDef { decl: decl("x", Ty::U8), assign: None };
    assert_eq!(Stmt::parse(&nodes, DEPTH), Ok(expected));
}

#[test]
fn definition_with_initializer() {
    let nodes = vec![group(Rule::VarDeclStmt, vec![var_decl("x", Rule::TyBool), expr(vec![num("0")])])];
    let expected = Stmt::VarDef { decl: decl("x", Ty::Bool), assign: Some(lit("0")) };
    assert_eq!(Stmt::parse(&nodes, DEPTH), Ok(expected));
}

#[test]
fn definition_faults() {
    let nodes = vec![group(Rule::VarDeclStmt, vec![])];
    assert_eq!(Stmt::parse(&nodes, DEPTH), Err(missing(Expected::Declaration)));
    let nodes = vec![group(Rule::VarDeclStmt, vec![group(Rule::VarDecl, vec![])])];
    assert_eq!(Stmt::parse(&nodes, DEPTH), Err(missing(Expected::Name)));
    let nodes = vec![group(Rule::VarDeclStmt, vec![var_decl("x", Rule::TyU8), expr(vec![])])];
    assert_eq!(Stmt::parse(&nodes, DEPTH), Err(missing(Expected::Atom)));
}

#[test]
fn block_keeps_statement_order() {
    let nodes = vec![
        expr_stmt(vec![name("a")]),
        ret_stmt(vec![name("b")]),
        expr_stmt(vec![name("c")]),
    ];
    let expected = Block {
        block: vec![
            Stmt::Expr { expr: var("a") },
            Stmt::Return { expr: var("b") },
            Stmt::Expr { expr: var("c") },
        ],
    };
    assert_eq!(Block::parse(&nodes, DEPTH), Ok(expected));
}

#[test]
fn empty_block_needs_no_depth() {
    assert_eq!(Block::parse(&[], 0), Ok(Block { block: vec![] }));
}

#[test]
fn block_reports_its_first_fault() {
    let nodes = vec![
        expr_stmt(vec![name("a")]),
        stmt(leaf(Rule::Add, "+")),
        group(Rule::Stmt, vec![]),
    ];
    assert_eq!(Block::parse(&nodes, DEPTH), Err(unexpected(Rule::Add, Expected::Statement)));
    let nodes = vec![group(Rule::Stmt, vec![]), stmt(leaf(Rule::Add, "+"))];
    assert_eq!(Block::parse(&nodes, DEPTH), Err(missing(Expected::Statement)));
}

#[test]
fn block_statement_holds_a_block() {
    let nodes = vec![group(Rule::BlockStmt, vec![expr_stmt(vec![name("a")])])];
    let expected = Stmt::Block { block: Block { block: vec![Stmt::Expr { expr: var("a") }] } };
    assert_eq!(Stmt::parse(&nodes, DEPTH), Ok(expected));
}

#[test]
fn if_without_else_has_no_alternative() {
    let nodes = vec![group(
        Rule::IfStmt,
        vec![expr(vec![name("c")]), group(Rule::Block, vec![expr_stmt(vec![name("x")])])],
    )];
    let expected = Stmt::IfElse {
        cond: var("c"),
        ifb: Block { block: vec![Stmt::Expr { expr: var("x") }] },
        elseb: None,
    };
    assert_eq!(Stmt::parse(&nodes, DEPTH), Ok(expected));
}

#[test]
fn if_with_else_keeps_both_blocks_in_order() {
    let then = vec![expr_stmt(vec![name("a")]), expr_stmt(vec![name("b")])];
    let other = vec![expr_stmt(vec![name("c")]), ret_stmt(vec![name("d")]), expr_stmt(vec![name("e")])];
    let nodes = vec![group(
        Rule::IfStmt,
        vec![expr(vec![name("c")]), group(Rule::Block, then), group(Rule::Block, other)],
    )];
    let expected = Stmt::IfElse {
        cond: var("c"),
        ifb: Block { block: vec![Stmt::Expr { expr: var("a") }, Stmt::Expr { expr: var("b") }] },
        elseb: Some(Block {
            block: vec![
                Stmt::Expr { expr: var("c") },
                Stmt::Return { expr: var("d") },
                Stmt::Expr { expr: var("e") },
            ],
        }),
    };
    assert_eq!(Stmt::parse(&nodes, DEPTH), Ok(expected));
}

#[test]
fn if_with_empty_else_still_has_one() {
    let nodes = vec![group(
        Rule::IfStmt,
        vec![expr(vec![name("c")]), group(Rule::Block, vec![]), group(Rule::Block, vec![])],
    )];
    let expected = Stmt::IfElse {
        cond: var("c"),
        ifb: Block { block: vec![] },
        elseb: Some(Block { block: vec![] }),
    };
    assert_eq!(Stmt::parse(&nodes, DEPTH), Ok(expected));
}

#[test]
fn if_faults_in_the_order_of_its_parts() {
    let nodes = vec![group(Rule::IfStmt, vec![])];
    assert_eq!(Stmt::parse(&nodes, DEPTH), Err(missing(Expected::Condition)));
    let nodes = vec![group(Rule::IfStmt, vec![expr(vec![name("c")])])];
    assert_eq!(Stmt::parse(&nodes, DEPTH), Err(missing(Expected::Block)));
    let nodes = vec![group(Rule::IfStmt, vec![expr(vec![])])];
    assert_eq!(Stmt::parse(&nodes, DEPTH), Err(missing(Expected::Atom)));
    let bad = group(Rule::Block, vec![stmt(leaf(Rule::Ident, "x"))]);
    let nodes = vec![group(Rule::IfStmt, vec![expr(vec![name("c")]), group(Rule::Block, vec![]), bad])];
    assert_eq!(Stmt::parse(&nodes, DEPTH), Err(unexpected(Rule::Ident, Expected::Statement)));
}

#[test]
fn what_is_no_statement_is_refused() {
    assert_eq!(Stmt::parse(&[], DEPTH), Err(missing(Expected::Statement)));
    assert_eq!(Stmt::parse(&[name("x")], DEPTH), Err(unexpected(Rule::Ident, Expected::Statement)));
    assert_eq!(
        Stmt::parse(&[group(Rule::FnDefTop, vec![])], DEPTH),
        Err(unexpected(Rule::FnDefTop, Expected::Statement))
    );
}

#[test]
fn statement_looks_at_the_first_node_only() {
    let nodes = vec![expr(vec![name("x")]), leaf(Rule::Add, "+")];
    assert_eq!(Stmt::parse(&nodes, DEPTH), Ok(Stmt::Expr { expr: var("x") }));
}

#[test]
fn nested_blocks_count_one_level_each() {
    let nodes = vec![nested_blocks(3)];
    assert!(Block::parse(&nodes, 4).is_ok());
    assert_eq!(Block::parse(&nodes, 3), Err(ParseError::TooDeep));
    assert_eq!(Block::parse(&nodes, 0), Err(ParseError::TooDeep));
}

#[test]
fn ten_thousand_blocks_are_given_up_not_crashed_on() {
    let nodes = vec![nested_blocks(10_000)];
    assert_eq!(Block::parse(&nodes, 200), Err(ParseError::TooDeep));
    assert_eq!(Stmt::parse(&nodes[0].children, 200), Err(ParseError::TooDeep));
    std::mem::forget(nodes);
}

#[test]
fn function_with_everything() {
    let nodes = vec![fn_def(
        "add",
        vec![var_decl("a", Rule::TyI32), var_decl("b", Rule::TyU16)],
        Some(Rule::TyI32),
        vec![ret_stmt(vec![name("a"), leaf(Rule::Add, "+"), name("b")])],
    )];
    let expected = TopLevel::FnDef {
        id: "add".to_owned(),
        args: vec![decl("a", Ty::I32), decl("b", Ty::U16)],
        ret: Some(Ty::I32),
        block: Block {
            block: vec![Stmt::Return {
                expr: Expr::BinOp {
                    lhs: Box::new(var("a")),
                    op: BinOpTy::Add,
                    rhs: Box::new(var("b")),
                },
            }],
        },
    };
    assert_eq!(TopLevel::parse(&nodes, DEPTH), Ok(expected));
}

#[test]
fn function_without_return_type_or_parameters() {
    let nodes = vec![fn_def("main", vec![], None, vec![])];
    let expected = TopLevel::FnDef {
        id: "main".to_owned(),
        args: vec![],
        ret: None,
        block: Block { block: vec![] },
    };
    assert_eq!(TopLevel::parse(&nodes, 0), Ok(expected));
}

#[test]
fn function_faults_in_the_order_of_its_parts() {
    let def = |parts: Vec<SyntaxNode>| vec![group(Rule::FnDefTop, parts)];
    assert_eq!(TopLevel::parse(&def(vec![]), DEPTH), Err(missing(Expected::Name)));
    assert_eq!(TopLevel::parse(&def(vec![name("f")]), DEPTH), Err(missing(Expected::Parameters)));
    let params = || group(Rule::FnParams, vec![]);
    assert_eq!(
        TopLevel::parse(&def(vec![name("f"), params()]), DEPTH),
        Err(missing(Expected::ReturnType))
    );
    let no_ret = || group(Rule::FnRet, vec![]);
    assert_eq!(
        TopLevel::parse(&def(vec![name("f"), params(), no_ret()]), DEPTH),
        Err(missing(Expected::Block))
    );
    let bad_params = group(Rule::FnParams, vec![group(Rule::VarDecl, vec![name("a")])]);
    assert_eq!(
        TopLevel::parse(&def(vec![name("f"), bad_params]), DEPTH),
        Err(missing(Expected::Type))
    );
    let bad_ret = group(Rule::FnRet, vec![name("int")]);
    assert_eq!(
        TopLevel::parse(&def(vec![name("f"), params(), bad_ret]), DEPTH),
        Err(unexpected(Rule::Ident, Expected::Type))
    );
}

#[test]
fn what_is_no_top_level_declaration_is_refused() {
    assert_eq!(TopLevel::parse(&[], DEPTH), Err(missing(Expected::TopLevel)));
    assert_eq!(
        TopLevel::parse(&[group(Rule::IfStmt, vec![])], DEPTH),
        Err(unexpected(Rule::IfStmt, Expected::TopLevel))
    );
}

#[test]
fn unit_with_only_the_end_marker_declares_nothing() {
    let nodes = unit(vec![end_of_input()]);
    assert_eq!(TransUnit::parse(&nodes, DEPTH), Ok(TransUnit::Defs { list: vec![] }));
    assert_eq!(TransUnit::parse(&nodes, 0), Ok(TransUnit::Defs { list: vec![] }));
}

#[test]
fn unit_without_entries_declares_nothing() {
    assert_eq!(TransUnit::parse(&unit(vec![]), DEPTH), Ok(TransUnit::Defs { list: vec![] }));
}

#[test]
fn unit_keeps_declarations_in_order_and_skips_empty_entries() {
    let nodes = unit(vec![
        entry(fn_def("first", vec![], None, vec![])),
        group(Rule::TopLevel, vec![]),
        entry(fn_def("second", vec![var_decl("x", Rule::TyU8)], Some(Rule::TyBool), vec![])),
        entry(fn_def("third", vec![], None, vec![expr_stmt(vec![name("x")])])),
        end_of_input(),
    ]);
    let empty = || Block { block: vec![] };
    let expected = TransUnit::Defs {
        list: vec![
            TopLevel::FnDef { id: "first".to_owned(), args: vec![], ret: None, block: empty() },
            TopLevel::FnDef {
                id: "second".to_owned(),
                args: vec![decl("x", Ty::U8)],
                ret: Some(Ty::Bool),
                block: empty(),
            },
            TopLevel::FnDef {
                id: "third".to_owned(),
                args: vec![],
                ret: None,
                block: Block { block: vec![Stmt::Expr { expr: var("x") }] },
            },
        ],
    };
    assert_eq!(TransUnit::parse(&nodes, DEPTH), Ok(expected));
}

#[test]
fn unit_reports_its_first_fault() {
    let nodes = unit(vec![
        entry(fn_def("ok", vec![], None, vec![])),
        end_of_input(),
        entry(leaf(Rule::Ident, "stray")),
        entry(group(Rule::FnDefTop, vec![])),
    ]);
    assert_eq!(TransUnit::parse(&nodes, DEPTH), Err(unexpected(Rule::Ident, Expected::TopLevel)));
}

#[test]
fn what_is_no_unit_is_refused() {
    assert_eq!(TransUnit::parse(&[], DEPTH), Err(missing(Expected::TransUnit)));
    assert_eq!(
        TransUnit::parse(&[fn_def("f", vec![], None, vec![])], DEPTH),
        Err(unexpected(Rule::FnDefTop, Expected::TransUnit))
    );
}

#[test]
fn whole_program_shares_one_nesting_allowance() {
    // fn f() { if (c) { return (x); } }
    let body = vec![if_stmt(
        vec![name("c")],
        vec![ret_stmt(vec![expr(vec![name("x")])])],
        None,
    )];
    let nodes = unit(vec![entry(fn_def("f", vec![], None, body)), end_of_input()]);
    assert_eq!(TransUnit::parse(&nodes, 3), Err(ParseError::TooDeep));
    let parsed = TransUnit::parse(&nodes, 4);
    let expected = TransUnit::Defs {
        list: vec![TopLevel::FnDef {
            id: "f".to_owned(),
            args: vec![],
            ret: None,
            block: Block {
                block: vec![Stmt::IfElse {
                    cond: var("c"),
                    ifb: Block { block: vec![Stmt::Return { expr: var("x") }] },
                    elseb: None,
                }],
            },
        }],
    };
    assert_eq!(parsed, Ok(expected));
    assert_eq!(TransUnit::parse(&nodes, 4), TransUnit::parse(&nodes, 400));
}

#[test]
fn definitions_inside_blocks() {
    let nodes = vec![
        var_def("x", Rule::TyU32, Some(vec![num("1")])),
        var_def("y", Rule::TyI8, None),
        block_stmt(vec![var_def("z", Rule::TyI16, None)]),
    ];
    let expected = Block {
        block: vec![
            Stmt::VarDef { decl: decl("x", Ty::U32), assign: Some(lit("1")) },
            Stmt::VarDef { decl: decl("y", Ty::I8), assign: None },
            Stmt::Block {
                block: Block { block: vec![Stmt::VarDef { decl: decl("z", Ty::I16), assign: None }] },
            },
        ],
    };
    assert_eq!(Block::parse(&nodes, DEPTH), Ok(expected));
}
