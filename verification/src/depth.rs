//! What the nesting allowance does and does not change: input that stays
//! within it is never given up as too deep, and raising it leaves every
//! other outcome as it was.
use crate::error::{collect, lemma_collect_agree, lemma_collect_ok, ParseError};
use crate::expr::{
    arg_results, climb_end, climbed, climbed_on, infix_operator, lemma_climb_end_bounds,
    lemma_operand_end_bounds, operand_end, parsed_args, parsed_expr, parsed_operand,
    parsed_primary, precedence, prefix_operator, ExprView, ABOVE_ALL, LOWEST,
};
use crate::stmt::{
    parsed_block, parsed_if, parsed_stmt, parsed_var_def, stmt_results, BlockView, StmtView,
};
use crate::syntax::{height, lemma_height_child, NodeView, Rule};
use crate::top_level::{parsed_fn_def, parsed_top_level, TopLevelView};
use crate::trans_unit::{
    declarations, entry_results, lemma_declarations_are_entries, parsed_trans_unit,
    TransUnitView,
};
use vstd::prelude::*;

verus! {

/// An expression spelled by nodes that hold at most `depth` levels is
/// never given up as too deep.
pub proof fn lemma_shallow_expr(s: Seq<NodeView>, depth: nat)
    requires
        height(s) <= depth,
    ensures
        parsed_expr(s, depth) != Err::<ExprView, ParseError>(ParseError::TooDeep),
    decreases depth, 7int, 0int, 0int,
{
    lemma_shallow_climbed(s, 0, LOWEST as nat, depth);
}

proof fn lemma_shallow_args(args: Seq<NodeView>, depth: nat)
    requires
        height(args) <= depth,
    ensures
        parsed_args(args, depth) != Err::<Seq<ExprView>, ParseError>(ParseError::TooDeep),
    decreases depth, 9int, 0int, 0int,
{
    let results = arg_results(args, depth);
    lemma_collect_ok(results);
    assert forall|i: int| 0 <= i < results.len() implies #[trigger] results[i] != Err::<
        ExprView,
        ParseError,
    >(ParseError::TooDeep) by {
        lemma_height_child(args, i);
        lemma_shallow_expr(args[i].children, depth);
    }
}

proof fn lemma_shallow_climbed(s: Seq<NodeView>, i: int, min: nat, depth: nat)
    requires
        height(s) <= depth,
    ensures
        climbed(s, i, min, depth) != Err::<ExprView, ParseError>(ParseError::TooDeep),
    decreases depth, 5int, ABOVE_ALL + 1 - min, s.len() + 2 - i,
{
    if 0 <= i < s.len() {
        lemma_shallow_operand(s, i, depth);
        match parsed_operand(s, i, depth) {
            Err(e) => {},
            Ok(lhs) => {
                lemma_operand_end_bounds(s, i);
                lemma_shallow_climbed_on(s, lhs, operand_end(s, i), min, depth);
            },
        }
    }
}

proof fn lemma_shallow_climbed_on(s: Seq<NodeView>, lhs: ExprView, i: int, min: nat, depth: nat)
    requires
        height(s) <= depth,
    ensures
        climbed_on(s, lhs, i, min, depth) != Err::<ExprView, ParseError>(ParseError::TooDeep),
    decreases depth, 5int, ABOVE_ALL + 1 - min, s.len() + 1 - i,
{
    if 0 <= i < s.len() {
        match infix_operator(s[i].rule) {
            None => {},
            Some(op) => {
                if precedence(op) >= min {
                    let next = precedence(op) + 1;
                    lemma_shallow_climbed(s, i + 1, next, depth);
                    match climbed(s, i + 1, next, depth) {
                        Err(e) => {},
                        Ok(rhs) => {
                            lemma_operand_end_bounds(s, i + 1);
                            lemma_climb_end_bounds(s, operand_end(s, i + 1), next);
                            lemma_shallow_climbed_on(
                                s,
                                ExprView::BinOp { lhs: Box::new(lhs), op, rhs: Box::new(rhs) },
                                climb_end(s, operand_end(s, i + 1), next),
                                min,
                                depth,
                            );
                        },
                    }
                }
            },
        }
    }
}

proof fn lemma_shallow_operand(s: Seq<NodeView>, i: int, depth: nat)
    requires
        height(s) <= depth,
    ensures
        parsed_operand(s, i, depth) != Err::<ExprView, ParseError>(ParseError::TooDeep),
    decreases depth, 4int, s.len() - i, 0int,
{
    if 0 <= i < s.len() {
        if prefix_operator(s[i].rule) is Some {
            lemma_shallow_operand(s, i + 1, depth);
        } else {
            lemma_height_child(s, i);
            lemma_shallow_primary(s[i], depth);
        }
    }
}

proof fn lemma_shallow_primary(n: NodeView, depth: nat)
    requires
        1 + height(n.children) <= depth,
    ensures
        parsed_primary(n, depth) != Err::<ExprView, ParseError>(ParseError::TooDeep),
    decreases depth, 3int, 0int, 0int,
{
    let inner = (depth - 1) as nat;
    match n.rule {
        Rule::Expr => {
            lemma_shallow_expr(n.children, inner);
        },
        Rule::FnCall => {
            if n.children.len() >= 2 {
                lemma_height_child(n.children, 1);
                lemma_shallow_args(n.children[1].children, inner);
            }
        },
        _ => {},
    }
}

/// A block spelled by nodes that hold at most `depth` levels is never
/// given up as too deep.
pub proof fn lemma_shallow_block(s: Seq<NodeView>, depth: nat)
    requires
        height(s) <= depth,
    ensures
        parsed_block(s, depth) != Err::<BlockView, ParseError>(ParseError::TooDeep),
    decreases depth, 2int,
{
    let results = stmt_results(s, depth);
    lemma_collect_ok(results);
    assert forall|i: int| 0 <= i < results.len() implies #[trigger] results[i] != Err::<
        StmtView,
        ParseError,
    >(ParseError::TooDeep) by {
        lemma_height_child(s, i);
        lemma_shallow_stmt(s[i].children, (depth - 1) as nat);
    }
}

proof fn lemma_shallow_var_def(c: Seq<NodeView>, depth: nat)
    requires
        height(c) <= depth,
    ensures
        parsed_var_def(c, depth) != Err::<StmtView, ParseError>(ParseError::TooDeep),
{
    if c.len() >= 2 {
        lemma_height_child(c, 1);
        lemma_shallow_expr(c[1].children, depth);
    }
}

proof fn lemma_shallow_if(c: Seq<NodeView>, depth: nat)
    requires
        height(c) <= depth,
    ensures
        parsed_if(c, depth) != Err::<StmtView, ParseError>(ParseError::TooDeep),
    decreases depth, 3int,
{
    if c.len() >= 1 {
        lemma_height_child(c, 0);
        lemma_shallow_expr(c[0].children, depth);
    }
    if c.len() >= 2 {
        lemma_height_child(c, 1);
        lemma_shallow_block(c[1].children, depth);
    }
    if c.len() >= 3 {
        lemma_height_child(c, 2);
        lemma_shallow_block(c[2].children, depth);
    }
}

/// A statement spelled by nodes that hold at most `depth` levels is never
/// given up as too deep.
pub proof fn lemma_shallow_stmt(s: Seq<NodeView>, depth: nat)
    requires
        height(s) <= depth,
    ensures
        parsed_stmt(s, depth) != Err::<StmtView, ParseError>(ParseError::TooDeep),
    decreases depth, 4int,
{
    if s.len() > 0 {
        lemma_height_child(s, 0);
        match s[0].rule {
            Rule::BlockStmt => {
                lemma_shallow_block(s[0].children, depth);
            },
            Rule::Expr => {
                lemma_shallow_expr(s[0].children, depth);
            },
            Rule::VarDeclStmt => {
                lemma_shallow_var_def(s[0].children, depth);
            },
            Rule::RetStmt => {
                lemma_shallow_expr(s[0].children, depth);
            },
            Rule::IfStmt => {
                lemma_shallow_if(s[0].children, depth);
            },
            _ => {},
        }
    }
}

/// A top-level declaration spelled by nodes that hold at most `depth`
/// levels is never given up as too deep.
pub proof fn lemma_shallow_top_level(s: Seq<NodeView>, depth: nat)
    requires
        height(s) <= depth,
    ensures
        parsed_top_level(s, depth) != Err::<TopLevelView, ParseError>(ParseError::TooDeep),
{
    if s.len() > 0 && s[0].rule == Rule::FnDefTop {
        lemma_height_child(s, 0);
        let c = s[0].children;
        if c.len() >= 2 {
            let params = crate::top_level::param_results(c[1].children);
            lemma_collect_ok(params);
        }
        if c.len() >= 4 {
            lemma_height_child(c, 3);
            lemma_shallow_block(c[3].children, depth);
        }
    }
}

/// A translation unit spelled by nodes that hold at most `depth` levels
/// is never given up as too deep.
pub proof fn lemma_shallow_trans_unit(s: Seq<NodeView>, depth: nat)
    requires
        height(s) <= depth,
    ensures
        parsed_trans_unit(s, depth) != Err::<TransUnitView, ParseError>(ParseError::TooDeep),
{
    if s.len() > 0 && s[0].rule == Rule::TransUnit {
        lemma_height_child(s, 0);
        let entries = s[0].children;
        let results = entry_results(entries, depth);
        lemma_collect_ok(results);
        assert forall|i: int| 0 <= i < results.len() implies #[trigger] results[i] != Err::<
            TopLevelView,
            ParseError,
        >(ParseError::TooDeep) by {
            lemma_declarations_are_entries(entries, i);
            let j = choose|j: int|
                0 <= j < entries.len() && #[trigger] entries[j] == declarations(entries)[i];
            lemma_height_child(entries, j);
            lemma_shallow_top_level(entries[j].children, depth);
        }
    }
}

/// Raising the nesting allowance changes no outcome of reading an
/// expression but that of having been given up as too deep.
pub proof fn lemma_deeper_expr(s: Seq<NodeView>, depth: nat, more: nat)
    requires
        depth <= more,
        parsed_expr(s, depth) != Err::<ExprView, ParseError>(ParseError::TooDeep),
    ensures
        parsed_expr(s, more) == parsed_expr(s, depth),
    decreases depth, 7int, 0int, 0int,
{
    lemma_deeper_climbed(s, 0, LOWEST as nat, depth, more);
}

proof fn lemma_deeper_args(args: Seq<NodeView>, depth: nat, more: nat)
    requires
        depth <= more,
        parsed_args(args, depth) != Err::<Seq<ExprView>, ParseError>(ParseError::TooDeep),
    ensures
        parsed_args(args, more) == parsed_args(args, depth),
    decreases depth, 9int, 0int, 0int,
{
    let first = arg_results(args, depth);
    let second = arg_results(args, more);
    assert forall|i: int|
        0 <= i < first.len() && #[trigger] first[i] != Err::<ExprView, ParseError>(
            ParseError::TooDeep,
        ) implies second[i] == first[i] by {
        lemma_deeper_expr(args[i].children, depth, more);
    }
    lemma_collect_agree(first, second, ParseError::TooDeep);
}

proof fn lemma_deeper_climbed(s: Seq<NodeView>, i: int, min: nat, depth: nat, more: nat)
    requires
        depth <= more,
        climbed(s, i, min, depth) != Err::<ExprView, ParseError>(ParseError::TooDeep),
    ensures
        climbed(s, i, min, more) == climbed(s, i, min, depth),
    decreases depth, 5int, ABOVE_ALL + 1 - min, s.len() + 2 - i,
{
    if 0 <= i < s.len() {
        lemma_deeper_operand(s, i, depth, more);
        match parsed_operand(s, i, depth) {
            Err(e) => {},
            Ok(lhs) => {
                lemma_operand_end_bounds(s, i);
                lemma_deeper_climbed_on(s, lhs, operand_end(s, i), min, depth, more);
            },
        }
    }
}

proof fn lemma_deeper_climbed_on(
    s: Seq<NodeView>,
    lhs: ExprView,
    i: int,
    min: nat,
    depth: nat,
    more: nat,
)
    requires
        depth <= more,
        climbed_on(s, lhs, i, min, depth) != Err::<ExprView, ParseError>(ParseError::TooDeep),
    ensures
        climbed_on(s, lhs, i, min, more) == climbed_on(s, lhs, i, min, depth),
    decreases depth, 5int, ABOVE_ALL + 1 - min, s.len() + 1 - i,
{
    if 0 <= i < s.len() {
        match infix_operator(s[i].rule) {
            None => {},
            Some(op) => {
                if precedence(op) >= min {
                    let next = precedence(op) + 1;
                    lemma_deeper_climbed(s, i + 1, next, depth, more);
                    match climbed(s, i + 1, next, depth) {
                        Err(e) => {},
                        Ok(rhs) => {
                            lemma_operand_end_bounds(s, i + 1);
                            lemma_climb_end_bounds(s, operand_end(s, i + 1), next);
                            lemma_deeper_climbed_on(
                                s,
                                ExprView::BinOp { lhs: Box::new(lhs), op, rhs: Box::new(rhs) },
                                climb_end(s, operand_end(s, i + 1), next),
                                min,
                                depth,
                                more,
                            );
                        },
                    }
                }
            },
        }
    }
}

proof fn lemma_deeper_operand(s: Seq<NodeView>, i: int, depth: nat, more: nat)
    requires
        depth <= more,
        parsed_operand(s, i, depth) != Err::<ExprView, ParseError>(ParseError::TooDeep),
    ensures
        parsed_operand(s, i, more) == parsed_operand(s, i, depth),
    decreases depth, 4int, s.len() - i, 0int,
{
    if 0 <= i < s.len() {
        if prefix_operator(s[i].rule) is Some {
            lemma_deeper_operand(s, i + 1, depth, more);
        } else {
            lemma_deeper_primary(s[i], depth, more);
        }
    }
}

proof fn lemma_deeper_primary(n: NodeView, depth: nat, more: nat)
    requires
        depth <= more,
        parsed_primary(n, depth) != Err::<ExprView, ParseError>(ParseError::TooDeep),
    ensures
        parsed_primary(n, more) == parsed_primary(n, depth),
    decreases depth, 3int, 0int, 0int,
{
    match n.rule {
        Rule::Expr => {
            if depth > 0 {
                lemma_deeper_expr(n.children, (depth - 1) as nat, (more - 1) as nat);
            }
        },
        Rule::FnCall => {
            if n.children.len() >= 2 && depth > 0 {
                lemma_deeper_args(n.children[1].children, (depth - 1) as nat, (more - 1) as nat);
            }
        },
        _ => {},
    }
}

/// Raising the nesting allowance changes no outcome of reading a block
/// but that of having been given up as too deep.
pub proof fn lemma_deeper_block(s: Seq<NodeView>, depth: nat, more: nat)
    requires
        depth <= more,
        parsed_block(s, depth) != Err::<BlockView, ParseError>(ParseError::TooDeep),
    ensures
        parsed_block(s, more) == parsed_block(s, depth),
    decreases depth, 2int,
{
    let first = stmt_results(s, depth);
    let second = stmt_results(s, more);
    assert forall|i: int|
        0 <= i < first.len() && #[trigger] first[i] != Err::<StmtView, ParseError>(
            ParseError::TooDeep,
        ) implies second[i] == first[i] by {
        lemma_deeper_stmt(s[i].children, (depth - 1) as nat, (more - 1) as nat);
    }
    lemma_collect_agree(first, second, ParseError::TooDeep);
}

proof fn lemma_deeper_var_def(c: Seq<NodeView>, depth: nat, more: nat)
    requires
        depth <= more,
        parsed_var_def(c, depth) != Err::<StmtView, ParseError>(ParseError::TooDeep),
    ensures
        parsed_var_def(c, more) == parsed_var_def(c, depth),
{
    if c.len() >= 2 && crate::stmt::parsed_var_decl(c[0].children) is Ok {
        lemma_deeper_expr(c[1].children, depth, more);
    }
}

proof fn lemma_deeper_if(c: Seq<NodeView>, depth: nat, more: nat)
    requires
        depth <= more,
        parsed_if(c, depth) != Err::<StmtView, ParseError>(ParseError::TooDeep),
    ensures
        parsed_if(c, more) == parsed_if(c, depth),
    decreases depth, 3int,
{
    if c.len() >= 1 {
        lemma_deeper_expr(c[0].children, depth, more);
        if c.len() >= 2 && parsed_expr(c[0].children, depth) is Ok {
            lemma_deeper_block(c[1].children, depth, more);
            if c.len() >= 3 && parsed_block(c[1].children, depth) is Ok {
                lemma_deeper_block(c[2].children, depth, more);
            }
        }
    }
}

/// Raising the nesting allowance changes no outcome of reading a
/// statement but that of having been given up as too deep.
pub proof fn lemma_deeper_stmt(s: Seq<NodeView>, depth: nat, more: nat)
    requires
        depth <= more,
        parsed_stmt(s, depth) != Err::<StmtView, ParseError>(ParseError::TooDeep),
    ensures
        parsed_stmt(s, more) == parsed_stmt(s, depth),
    decreases depth, 4int,
{
    if s.len() > 0 {
        match s[0].rule {
            Rule::BlockStmt => {
                lemma_deeper_block(s[0].children, depth, more);
            },
            Rule::Expr => {
                lemma_deeper_expr(s[0].children, depth, more);
            },
            Rule::VarDeclStmt => {
                lemma_deeper_var_def(s[0].children, depth, more);
            },
            Rule::RetStmt => {
                lemma_deeper_expr(s[0].children, depth, more);
            },
            Rule::IfStmt => {
                lemma_deeper_if(s[0].children, depth, more);
            },
            _ => {},
        }
    }
}

/// Raising the nesting allowance changes no outcome of reading a
/// top-level declaration but that of having been given up as too deep.
pub proof fn lemma_deeper_top_level(s: Seq<NodeView>, depth: nat, more: nat)
    requires
        depth <= more,
        parsed_top_level(s, depth) != Err::<TopLevelView, ParseError>(ParseError::TooDeep),
    ensures
        parsed_top_level(s, more) == parsed_top_level(s, depth),
{
    if s.len() > 0 && s[0].rule == Rule::FnDefTop {
        let c = s[0].children;
        assert(parsed_top_level(s, depth) == parsed_fn_def(c, depth));
        assert(parsed_top_level(s, more) == parsed_fn_def(c, more));
        if c.len() >= 4 && collect(crate::top_level::param_results(c[1].children)) is Ok
            && crate::top_level::parsed_return_type(c[2].children) is Ok {
            lemma_deeper_block(c[3].children, depth, more);
        }
    }
}

/// Raising the nesting allowance changes no outcome of reading a
/// translation unit but that of having been given up as too deep.
pub proof fn lemma_deeper_trans_unit(s: Seq<NodeView>, depth: nat, more: nat)
    requires
        depth <= more,
        parsed_trans_unit(s, depth) != Err::<TransUnitView, ParseError>(ParseError::TooDeep),
    ensures
        parsed_trans_unit(s, more) == parsed_trans_unit(s, depth),
{
    if s.len() > 0 && s[0].rule == Rule::TransUnit {
        let entries = s[0].children;
        let first = entry_results(entries, depth);
        let second = entry_results(entries, more);
        assert forall|i: int|
            0 <= i < first.len() && #[trigger] first[i] != Err::<TopLevelView, ParseError>(
                ParseError::TooDeep,
            ) implies second[i] == first[i] by {
            lemma_deeper_top_level(declarations(entries)[i].children, depth, more);
        }
        lemma_collect_agree(first, second, ParseError::TooDeep);
    }
}

} // verus!
