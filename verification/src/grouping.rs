//! How a flat run of operands and operators groups: by precedence, to the
//! left among equals, and with prefix operators bound tightest.
use crate::error::ParseError;
use crate::expr::{
    climb_end, climbed, climbed_on, infix_operator, operand_end, parsed_expr, parsed_operand,
    parsed_primary, precedence, prefix_operator, BinOpTy, ExprView, UnaryOpTy, LOWEST,
};
use crate::syntax::NodeView;
use vstd::prelude::*;

verus! {

/// The binary operator `op` applied to `lhs` and `rhs`.
pub open spec fn binary(lhs: ExprView, op: BinOpTy, rhs: ExprView) -> ExprView {
    ExprView::BinOp { lhs: Box::new(lhs), op, rhs: Box::new(rhs) }
}

/// The prefix operator `op` applied to `ex`.
pub open spec fn unary(op: UnaryOpTy, ex: ExprView) -> ExprView {
    ExprView::UnaryOp { op, ex: Box::new(ex) }
}

/// Whether the node at `i` is an atom that reads as `e`.
pub open spec fn atom_at(s: Seq<NodeView>, i: int, e: ExprView, depth: nat) -> bool {
    &&& 0 <= i < s.len()
    &&& prefix_operator(s[i].rule) is None
    &&& parsed_primary(s[i], depth) == Ok::<ExprView, ParseError>(e)
}

/// A sequence that is one operand and nothing else spells that operand.
pub proof fn lemma_lone_operand(s: Seq<NodeView>, depth: nat)
    requires
        s.len() > 0,
        operand_end(s, 0) == s.len(),
    ensures
        parsed_expr(s, depth) == parsed_operand(s, 0, depth),
{
    let min = LOWEST as nat;
    assert(parsed_expr(s, depth) == climbed(s, 0, min, depth));
    match parsed_operand(s, 0, depth) {
        Err(e) => {},
        Ok(lhs) => {
            assert(climbed(s, 0, min, depth) == climbed_on(s, lhs, s.len() as int, min, depth));
        },
    }
}

/// A single node that is no prefix operator spells the atom it stands
/// for.
pub proof fn lemma_reads_atom(s: Seq<NodeView>, depth: nat)
    requires
        s.len() == 1,
        prefix_operator(s[0].rule) is None,
    ensures
        parsed_expr(s, depth) == parsed_primary(s[0], depth),
{
    assert(operand_end(s, 0) == 1);
    lemma_lone_operand(s, depth);
    assert(parsed_operand(s, 0, depth) == parsed_primary(s[0], depth));
}

/// A prefix operator before an atom spells the operator applied to it.
pub proof fn lemma_reads_prefixed(s: Seq<NodeView>, op: UnaryOpTy, ex: ExprView, depth: nat)
    requires
        s.len() == 2,
        prefix_operator(s[0].rule) == Some(op),
        prefix_operator(s[1].rule) is None,
        parsed_primary(s[1], depth) == Ok::<ExprView, ParseError>(ex),
    ensures
        parsed_expr(s, depth) == Ok::<ExprView, ParseError>(
            ExprView::UnaryOp { op, ex: Box::new(ex) },
        ),
{
    assert(parsed_operand(s, 1, depth) == parsed_primary(s[1], depth));
    assert(parsed_operand(s, 0, depth) == Ok::<ExprView, ParseError>(
        ExprView::UnaryOp { op, ex: Box::new(ex) },
    ));
    assert(operand_end(s, 1) == 2);
    assert(operand_end(s, 0) == 2);
    lemma_lone_operand(s, depth);
}

/// Two atoms around a binary operator spell the operator applied to them.
pub proof fn lemma_reads_binary(
    s: Seq<NodeView>,
    lhs: ExprView,
    op: BinOpTy,
    rhs: ExprView,
    depth: nat,
)
    requires
        s.len() == 3,
        prefix_operator(s[0].rule) is None,
        infix_operator(s[1].rule) == Some(op),
        prefix_operator(s[2].rule) is None,
        parsed_primary(s[0], depth) == Ok::<ExprView, ParseError>(lhs),
        parsed_primary(s[2], depth) == Ok::<ExprView, ParseError>(rhs),
    ensures
        parsed_expr(s, depth) == Ok::<ExprView, ParseError>(
            ExprView::BinOp { lhs: Box::new(lhs), op, rhs: Box::new(rhs) },
        ),
{
    let min = LOWEST as nat;
    let next = precedence(op) + 1;
    let whole = ExprView::BinOp { lhs: Box::new(lhs), op, rhs: Box::new(rhs) };
    assert(parsed_operand(s, 0, depth) == parsed_primary(s[0], depth));
    assert(parsed_operand(s, 2, depth) == parsed_primary(s[2], depth));
    assert(operand_end(s, 0) == 1);
    assert(operand_end(s, 2) == 3);
    assert(climb_end(s, 3, next) == 3);
    assert(climbed_on(s, rhs, 3, next, depth) == Ok::<ExprView, ParseError>(rhs));
    assert(climbed(s, 2, next, depth) == Ok::<ExprView, ParseError>(rhs));
    assert(climbed_on(s, whole, 3, min, depth) == Ok::<ExprView, ParseError>(whole));
    assert(climbed_on(s, lhs, 1, min, depth) == Ok::<ExprView, ParseError>(whole));
    assert(climbed(s, 0, min, depth) == Ok::<ExprView, ParseError>(whole));
}

/// A prefix operator binds tighter than the binary operator that follows
/// its operand.
pub proof fn lemma_prefix_binds_tightest(
    s: Seq<NodeView>,
    prefix: UnaryOpTy,
    a: ExprView,
    op: BinOpTy,
    b: ExprView,
    depth: nat,
)
    requires
        s.len() == 4,
        prefix_operator(s[0].rule) == Some(prefix),
        atom_at(s, 1, a, depth),
        infix_operator(s[2].rule) == Some(op),
        atom_at(s, 3, b, depth),
    ensures
        parsed_expr(s, depth) == Ok::<ExprView, ParseError>(binary(unary(prefix, a), op, b)),
{
    let min = LOWEST as nat;
    let next = precedence(op) + 1;
    let lhs = unary(prefix, a);
    let whole = binary(lhs, op, b);
    assert(parsed_operand(s, 1, depth) == parsed_primary(s[1], depth));
    assert(parsed_operand(s, 0, depth) == Ok::<ExprView, ParseError>(lhs));
    assert(parsed_operand(s, 3, depth) == parsed_primary(s[3], depth));
    assert(operand_end(s, 1) == 2);
    assert(operand_end(s, 0) == 2);
    assert(operand_end(s, 3) == 4);
    assert(climb_end(s, 4, next) == 4);
    assert(climbed_on(s, b, 4, next, depth) == Ok::<ExprView, ParseError>(b));
    assert(climbed(s, 3, next, depth) == Ok::<ExprView, ParseError>(b));
    assert(climbed_on(s, whole, 4, min, depth) == Ok::<ExprView, ParseError>(whole));
    assert(climbed_on(s, lhs, 2, min, depth) == Ok::<ExprView, ParseError>(whole));
    assert(climbed(s, 0, min, depth) == Ok::<ExprView, ParseError>(whole));
}

/// Of two binary operators in a row, the second takes the middle operand
/// only if it binds strictly tighter than the first; otherwise the first
/// does, so that equals group to the left.
pub proof fn lemma_groups_by_precedence(
    s: Seq<NodeView>,
    a: ExprView,
    first: BinOpTy,
    b: ExprView,
    second: BinOpTy,
    c: ExprView,
    depth: nat,
)
    requires
        s.len() == 5,
        atom_at(s, 0, a, depth),
        infix_operator(s[1].rule) == Some(first),
        atom_at(s, 2, b, depth),
        infix_operator(s[3].rule) == Some(second),
        atom_at(s, 4, c, depth),
    ensures
        parsed_expr(s, depth) == Ok::<ExprView, ParseError>(
            if precedence(second) > precedence(first) {
                binary(a, first, binary(b, second, c))
            } else {
                binary(binary(a, first, b), second, c)
            },
        ),
{
    let min = LOWEST as nat;
    let after_first = precedence(first) + 1;
    let after_second = precedence(second) + 1;
    assert(parsed_operand(s, 0, depth) == parsed_primary(s[0], depth));
    assert(parsed_operand(s, 2, depth) == parsed_primary(s[2], depth));
    assert(parsed_operand(s, 4, depth) == parsed_primary(s[4], depth));
    assert(operand_end(s, 0) == 1);
    assert(operand_end(s, 2) == 3);
    assert(operand_end(s, 4) == 5);
    assert(climb_end(s, 5, after_second) == 5);
    assert(climb_end(s, 5, after_first) == 5);
    assert(climbed_on(s, c, 5, after_second, depth) == Ok::<ExprView, ParseError>(c));
    assert(climbed(s, 4, after_second, depth) == Ok::<ExprView, ParseError>(c));
    if precedence(second) > precedence(first) {
        let right = binary(b, second, c);
        let whole = binary(a, first, right);
        assert(climbed_on(s, right, 5, after_first, depth) == Ok::<ExprView, ParseError>(right));
        assert(climbed_on(s, b, 3, after_first, depth) == Ok::<ExprView, ParseError>(right));
        assert(climbed(s, 2, after_first, depth) == Ok::<ExprView, ParseError>(right));
        assert(climb_end(s, 3, after_first) == 5);
        assert(climbed_on(s, whole, 5, min, depth) == Ok::<ExprView, ParseError>(whole));
        assert(climbed_on(s, a, 1, min, depth) == Ok::<ExprView, ParseError>(whole));
        assert(climbed(s, 0, min, depth) == Ok::<ExprView, ParseError>(whole));
    } else {
        let left = binary(a, first, b);
        let whole = binary(left, second, c);
        assert(climbed_on(s, b, 3, after_first, depth) == Ok::<ExprView, ParseError>(b));
        assert(climbed(s, 2, after_first, depth) == Ok::<ExprView, ParseError>(b));
        assert(climb_end(s, 3, after_first) == 3);
        assert(climbed_on(s, whole, 5, min, depth) == Ok::<ExprView, ParseError>(whole));
        assert(climbed_on(s, left, 3, min, depth) == Ok::<ExprView, ParseError>(whole));
        assert(climbed_on(s, a, 1, min, depth) == Ok::<ExprView, ParseError>(whole));
        assert(climbed(s, 0, min, depth) == Ok::<ExprView, ParseError>(whole));
    }
}

} // verus!
