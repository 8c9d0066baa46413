//! The fully parenthesized spelling of an expression, and the proof that
//! reading it gives the expression back.
use crate::error::{lemma_collect_all_ok, ParseError};
use crate::expr::{
    arg_results, parsed_args, parsed_expr, parsed_primary, BinOpTy, ExprView, UnaryOpTy,
};
use crate::grouping::{lemma_reads_atom, lemma_reads_binary, lemma_reads_prefixed};
use crate::syntax::{NodeView, Rule};
use vstd::prelude::*;

verus! {

/// The kind of node that spells a prefix operator.
pub open spec fn prefix_rule(op: UnaryOpTy) -> Rule {
    match op {
        UnaryOpTy::Minus => Rule::UnaryMinus,
        UnaryOpTy::Neg => Rule::UnaryNot,
    }
}

/// The kind of node that spells a binary operator.
pub open spec fn infix_rule(op: BinOpTy) -> Rule {
    match op {
        BinOpTy::Add => Rule::Add,
        BinOpTy::Subtract => Rule::Subtract,
        BinOpTy::Multiply => Rule::Multiply,
        BinOpTy::Divide => Rule::Divide,
        BinOpTy::Modulo => Rule::Modulo,
        BinOpTy::EqEq => Rule::EqEq,
    }
}

/// A node without children.
pub open spec fn leaf(rule: Rule, text: Seq<char>) -> NodeView {
    NodeView { rule, text, children: Seq::empty() }
}

/// A node that only groups its children.
pub open spec fn group(rule: Rule, children: Seq<NodeView>) -> NodeView {
    NodeView { rule, text: Seq::empty(), children }
}

/// The canonical spelling of `e`: every operand of an operator and every
/// argument of a call stands in parentheses of its own.
pub open spec fn canonical(e: ExprView) -> Seq<NodeView>
    decreases e,
{
    match e {
        ExprView::Ident(text) => seq![leaf(Rule::Ident, text)],
        ExprView::Integer(text) => seq![leaf(Rule::Integer, text)],
        ExprView::FnCall { id, args } => seq![
            group(
                Rule::FnCall,
                seq![
                    leaf(Rule::Ident, id),
                    group(Rule::FnArgs, canonical_args(args)),
                ],
            ),
        ],
        ExprView::UnaryOp { op, ex } => seq![
            leaf(prefix_rule(op), Seq::empty()),
            group(Rule::Expr, canonical(*ex)),
        ],
        ExprView::BinOp { lhs, op, rhs } => seq![
            group(Rule::Expr, canonical(*lhs)),
            leaf(infix_rule(op), Seq::empty()),
            group(Rule::Expr, canonical(*rhs)),
        ],
    }
}

/// The canonical spelling of the arguments of a call: each in parentheses
/// of its own.
pub open spec fn canonical_args(args: Seq<ExprView>) -> Seq<NodeView>
    decreases args,
{
    Seq::new(
        args.len(),
        |i: int|
            if 0 <= i < args.len() {
                group(Rule::Expr, canonical(args[i]))
            } else {
                arbitrary()
            },
    )
}

/// The largest of `levels`, or zero when there is none.
pub open spec fn deepest(levels: Seq<nat>) -> nat
    decreases levels.len(),
{
    if levels.len() == 0 {
        0
    } else if deepest(levels.drop_last()) >= levels.last() {
        deepest(levels.drop_last())
    } else {
        levels.last()
    }
}

/// How many levels the canonical spelling of `e` nests: none for a name or
/// a literal, one more than its deepest part for anything else.
pub open spec fn nesting(e: ExprView) -> nat
    decreases e,
{
    match e {
        ExprView::Ident(_) => 0,
        ExprView::Integer(_) => 0,
        ExprView::FnCall { id, args } => 1 + deepest(arg_nesting(args)),
        ExprView::UnaryOp { op, ex } => 1 + nesting(*ex),
        ExprView::BinOp { lhs, op, rhs } => 1 + deepest(seq![nesting(*lhs), nesting(*rhs)]),
    }
}

/// How many levels each argument of a call nests.
pub open spec fn arg_nesting(args: Seq<ExprView>) -> Seq<nat>
    decreases args,
{
    Seq::new(
        args.len(),
        |i: int|
            if 0 <= i < args.len() {
                nesting(args[i])
            } else {
                0
            },
    )
}

/// The largest level is at least each of them.
pub proof fn lemma_deepest_bounds(levels: Seq<nat>, i: int)
    requires
        0 <= i < levels.len(),
    ensures
        levels[i] <= deepest(levels),
    decreases levels.len(),
{
    if i < levels.len() - 1 {
        lemma_deepest_bounds(levels.drop_last(), i);
    }
}

/// Reading the canonical spelling of an expression, with room for its
/// nesting, gives the expression back.
pub proof fn lemma_round_trip(e: ExprView, depth: nat)
    requires
        nesting(e) <= depth,
    ensures
        parsed_expr(canonical(e), depth) == Ok::<ExprView, ParseError>(e),
    decreases e,
{
    let s = canonical(e);
    match e {
        ExprView::Ident(text) => {
            lemma_reads_atom(s, depth);
        },
        ExprView::Integer(text) => {
            lemma_reads_atom(s, depth);
        },
        ExprView::FnCall { id, args } => {
            let inner = (depth - 1) as nat;
            let wrapped = canonical_args(args);
            let results = arg_results(wrapped, inner);
            let levels = arg_nesting(args);
            assert(s[0].children[1].children == wrapped);
            assert forall|i: int| 0 <= i < results.len() implies #[trigger] results[i] == Ok::<
                ExprView,
                ParseError,
            >(args[i]) by {
                lemma_deepest_bounds(levels, i);
                lemma_round_trip(args[i], inner);
            }
            lemma_collect_all_ok(results, args);
            assert(parsed_args(wrapped, inner) == Ok::<Seq<ExprView>, ParseError>(args));
            assert(s[0].children.len() == 2);
            assert(parsed_primary(s[0], depth) == Ok::<ExprView, ParseError>(e));
            lemma_reads_atom(s, depth);
        },
        ExprView::UnaryOp { op, ex } => {
            lemma_round_trip(*ex, (depth - 1) as nat);
            lemma_reads_prefixed(s, op, *ex, depth);
        },
        ExprView::BinOp { lhs, op, rhs } => {
            let levels = seq![nesting(*lhs), nesting(*rhs)];
            lemma_deepest_bounds(levels, 0);
            lemma_deepest_bounds(levels, 1);
            lemma_round_trip(*lhs, (depth - 1) as nat);
            lemma_round_trip(*rhs, (depth - 1) as nat);
            lemma_reads_binary(s, *lhs, op, *rhs, depth);
        },
    }
}

} // verus!
