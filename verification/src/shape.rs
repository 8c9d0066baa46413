//! The shape of input that the grammar engine promises, and the proof that
//! the builder reads exactly the input of that shape: it refuses nothing
//! that has it, unless for want of depth, and accepts nothing that lacks
//! it.
use crate::depth::{
    lemma_shallow_block, lemma_shallow_expr, lemma_shallow_stmt, lemma_shallow_top_level,
    lemma_shallow_trans_unit,
};
use crate::error::{lemma_collect_ok, ParseError};
use crate::expr::{
    arg_results, binds_at_least, climb_end, climbed, climbed_on, infix_operator,
    lemma_climb_end_bounds, lemma_climb_end_resume, lemma_operand_end_bounds, operand_end,
    parsed_args, parsed_expr, parsed_operand, parsed_primary, precedence, prefix_operator,
    ExprView, ABOVE_ALL, LOWEST,
};
use crate::stmt::{
    parsed_block, parsed_if, parsed_stmt, parsed_type, parsed_var_decl, parsed_var_def,
    stmt_results, StmtView, VarDeclView,
};
use crate::syntax::{height, NodeView, Rule};
use crate::top_level::{
    param_results, parsed_fn_def, parsed_top_level, TopLevelView,
};
use crate::trans_unit::{
    declarations, entry_results, holds_declaration, lemma_declarations_are_entries,
    lemma_entries_are_declarations, parsed_trans_unit,
};
use vstd::prelude::*;

verus! {

/// Whether `s` has the shape of an expression: operands with binary
/// operators between them.
pub open spec fn expr_conforms(s: Seq<NodeView>) -> bool
    decreases s, s.len() + 3, 0int,
{
    chain_until(s, 0, s.len() as int)
}

/// Whether each node of `args` wraps the shape of an expression.
pub open spec fn args_conform(args: Seq<NodeView>) -> bool
    decreases args, args.len() + 4, 0int,
{
    forall|i: int| 0 <= i < args.len() ==> expr_conforms(#[trigger] args[i].children)
}

/// Whether the nodes from `i` up to `end` are operands with binary
/// operators between them.
pub open spec fn chain_until(s: Seq<NodeView>, i: int, end: int) -> bool
    decreases s, s.len() + 2 - i, 1int,
{
    &&& 0 <= i < s.len()
    &&& operand_conforms(s, i)
    &&& {
        proof {
            lemma_operand_end_bounds(s, i);
        }
        rest_until(s, operand_end(s, i), end)
    }
}

/// Whether the nodes from `j` up to `end` are binary operators, each with
/// the operand after it.
pub open spec fn rest_until(s: Seq<NodeView>, j: int, end: int) -> bool
    decreases s, s.len() + 2 - j, 2int,
{
    j == end || (0 <= j < s.len() && j < end && infix_operator(s[j].rule) is Some && chain_until(
        s,
        j + 1,
        end,
    ))
}

/// Whether the nodes from `i` on start with an operand: prefix operators
/// and then an atom.
pub open spec fn operand_conforms(s: Seq<NodeView>, i: int) -> bool
    decreases s, s.len() + 2 - i, 0int,
{
    &&& 0 <= i < s.len()
    &&& if prefix_operator(s[i].rule) is Some {
        operand_conforms(s, i + 1)
    } else {
        atom_conforms(s[i])
    }
}

/// Whether `n` has the shape of an atom: a name, a literal, a nested
/// expression, or a call with its name and its argument list.
pub open spec fn atom_conforms(n: NodeView) -> bool
    decreases n, 0int, 0int,
{
    match n.rule {
        Rule::Ident => true,
        Rule::Integer => true,
        Rule::Expr => expr_conforms(n.children),
        Rule::FnCall => n.children.len() >= 2 && args_conform(n.children[1].children),
        _ => false,
    }
}

/// Whether reading came to an end for want of nothing but depth.
pub open spec fn read_or_too_deep<T>(r: Result<T, ParseError>) -> bool {
    r is Ok || r == Err::<T, ParseError>(ParseError::TooDeep)
}

/// Reading stops where no binary operator binds tightly enough.
pub proof fn lemma_climb_end_stops(s: Seq<NodeView>, j: int, min: nat)
    ensures
        !(0 <= climb_end(s, j, min) < s.len() && binds_at_least(
            s[climb_end(s, j, min)].rule,
            min,
        )),
    decreases s.len() + 1 - j,
{
    if 0 <= j < s.len() && binds_at_least(s[j].rule, min) {
        lemma_operand_end_bounds(s, j + 1);
        lemma_climb_end_stops(s, operand_end(s, j + 1), min);
    }
}

/// A chain ends after its first operand at the earliest.
pub proof fn lemma_chain_covers_operand(s: Seq<NodeView>, i: int, end: int)
    requires
        chain_until(s, i, end),
    ensures
        i < operand_end(s, i) <= end,
    decreases s.len() + 2 - i,
{
    lemma_operand_end_bounds(s, i);
    let j = operand_end(s, i);
    if j != end {
        lemma_chain_covers_operand(s, j + 1, end);
    }
}

/// A chain goes on through the operators and operands that follow it.
pub proof fn lemma_chain_extends(s: Seq<NodeView>, i: int, mid: int, end: int)
    requires
        chain_until(s, i, mid),
        rest_until(s, mid, end),
    ensures
        chain_until(s, i, end),
    decreases s.len() + 2 - i,
{
    lemma_operand_end_bounds(s, i);
    let j = operand_end(s, i);
    if j != mid {
        lemma_chain_extends(s, j + 1, mid, end);
        lemma_chain_covers_operand(s, j + 1, end);
    }
}

/// Where reading with some binding power stops within a chain that runs to
/// the end, the rest of the chain follows.
pub proof fn lemma_rest_after_climb(s: Seq<NodeView>, j: int, min: nat)
    requires
        rest_until(s, j, s.len() as int),
    ensures
        rest_until(s, climb_end(s, j, min), s.len() as int),
    decreases s.len() + 1 - j,
{
    if 0 <= j < s.len() && binds_at_least(s[j].rule, min) {
        lemma_operand_end_bounds(s, j + 1);
        lemma_rest_after_climb(s, operand_end(s, j + 1), min);
    }
}

/// An expression that was read has the shape of one.
pub proof fn lemma_read_expr_conforms(s: Seq<NodeView>, depth: nat)
    requires
        parsed_expr(s, depth) is Ok,
    ensures
        expr_conforms(s),
    decreases depth, 7int, 0int, 0int,
{
    let min = LOWEST as nat;
    lemma_read_climbed(s, 0, min, depth);
    let end = climb_end(s, operand_end(s, 0), min);
    lemma_operand_end_bounds(s, 0);
    lemma_climb_end_bounds(s, operand_end(s, 0), min);
    lemma_climb_end_stops(s, operand_end(s, 0), min);
    if end < s.len() {
        let op = infix_operator(s[end].rule)->Some_0;
        assert(precedence(op) >= min);
        assert(binds_at_least(s[end].rule, min));
    }
}

proof fn lemma_read_args(args: Seq<NodeView>, depth: nat)
    requires
        parsed_args(args, depth) is Ok,
    ensures
        args_conform(args),
    decreases depth, 9int, 0int, 0int,
{
    let results = arg_results(args, depth);
    let values = parsed_args(args, depth)->Ok_0;
    lemma_collect_ok(results);
    assert forall|i: int| 0 <= i < args.len() implies expr_conforms(
        #[trigger] args[i].children,
    ) by {
        assert(results[i] == Ok::<ExprView, ParseError>(values[i]));
        lemma_read_expr_conforms(args[i].children, depth);
    }
}

proof fn lemma_read_climbed(s: Seq<NodeView>, i: int, min: nat, depth: nat)
    requires
        climbed(s, i, min, depth) is Ok,
    ensures
        chain_until(s, i, climb_end(s, operand_end(s, i), min)),
        climb_end(s, operand_end(s, i), min) <= s.len(),
        climb_end(s, operand_end(s, i), min) == s.len() || infix_operator(
            s[climb_end(s, operand_end(s, i), min)].rule,
        ) is Some,
    decreases depth, 5int, ABOVE_ALL + 1 - min, s.len() + 2 - i,
{
    lemma_operand_end_bounds(s, i);
    lemma_read_operand(s, i, depth);
    let lhs = parsed_operand(s, i, depth)->Ok_0;
    lemma_read_climbed_on(s, lhs, operand_end(s, i), min, depth);
}

proof fn lemma_read_climbed_on(s: Seq<NodeView>, lhs: ExprView, j: int, min: nat, depth: nat)
    requires
        climbed_on(s, lhs, j, min, depth) is Ok,
        0 <= j <= s.len(),
    ensures
        rest_until(s, j, climb_end(s, j, min)),
        j <= climb_end(s, j, min) <= s.len(),
        climb_end(s, j, min) == s.len() || infix_operator(s[climb_end(s, j, min)].rule) is Some,
    decreases depth, 5int, ABOVE_ALL + 1 - min, s.len() + 1 - j,
{
    if j < s.len() {
        let op = infix_operator(s[j].rule)->Some_0;
        if precedence(op) >= min {
            let next = precedence(op) + 1;
            lemma_read_climbed(s, j + 1, next, depth);
            let rhs = climbed(s, j + 1, next, depth)->Ok_0;
            let mid = climb_end(s, operand_end(s, j + 1), next);
            let end = climb_end(s, mid, min);
            lemma_operand_end_bounds(s, j + 1);
            lemma_climb_end_bounds(s, operand_end(s, j + 1), next);
            lemma_read_climbed_on(
                s,
                ExprView::BinOp { lhs: Box::new(lhs), op, rhs: Box::new(rhs) },
                mid,
                min,
                depth,
            );
            lemma_climb_end_resume(s, operand_end(s, j + 1), next, min);
            assert(end == climb_end(s, j, min));
            lemma_chain_extends(s, j + 1, mid, end);
        }
    }
}

proof fn lemma_read_operand(s: Seq<NodeView>, i: int, depth: nat)
    requires
        parsed_operand(s, i, depth) is Ok,
    ensures
        operand_conforms(s, i),
        operand_end(s, i) <= s.len(),
    decreases depth, 4int, s.len() - i, 0int,
{
    if prefix_operator(s[i].rule) is Some {
        lemma_read_operand(s, i + 1, depth);
    } else {
        lemma_read_primary(s[i], depth);
    }
}

proof fn lemma_read_primary(n: NodeView, depth: nat)
    requires
        parsed_primary(n, depth) is Ok,
    ensures
        atom_conforms(n),
    decreases depth, 3int, 0int, 0int,
{
    match n.rule {
        Rule::Expr => {
            lemma_read_expr_conforms(n.children, (depth - 1) as nat);
        },
        Rule::FnCall => {
            lemma_read_args(n.children[1].children, (depth - 1) as nat);
        },
        _ => {},
    }
}

/// Nodes that have the shape of an expression are read as one, unless
/// they nest too deep.
pub proof fn lemma_conforming_expr_is_read(s: Seq<NodeView>, depth: nat)
    requires
        expr_conforms(s),
    ensures
        read_or_too_deep(parsed_expr(s, depth)),
    decreases depth, 7int, 0int, 0int,
{
    lemma_conforming_climbed(s, 0, LOWEST as nat, depth);
}

proof fn lemma_conforming_args(args: Seq<NodeView>, depth: nat)
    requires
        args_conform(args),
    ensures
        read_or_too_deep(parsed_args(args, depth)),
    decreases depth, 9int, 0int, 0int,
{
    let results = arg_results(args, depth);
    lemma_collect_ok(results);
    assert forall|i: int| 0 <= i < results.len() implies read_or_too_deep(
        #[trigger] results[i],
    ) by {
        assert(expr_conforms(args[i].children));
        lemma_conforming_expr_is_read(args[i].children, depth);
    }
}

proof fn lemma_conforming_climbed(s: Seq<NodeView>, i: int, min: nat, depth: nat)
    requires
        chain_until(s, i, s.len() as int),
    ensures
        read_or_too_deep(climbed(s, i, min, depth)),
    decreases depth, 5int, ABOVE_ALL + 1 - min, s.len() + 2 - i,
{
    lemma_operand_end_bounds(s, i);
    lemma_conforming_operand(s, i, depth);
    match parsed_operand(s, i, depth) {
        Err(e) => {},
        Ok(lhs) => {
            lemma_conforming_climbed_on(s, lhs, operand_end(s, i), min, depth);
        },
    }
}

proof fn lemma_conforming_climbed_on(
    s: Seq<NodeView>,
    lhs: ExprView,
    j: int,
    min: nat,
    depth: nat,
)
    requires
        rest_until(s, j, s.len() as int),
    ensures
        read_or_too_deep(climbed_on(s, lhs, j, min, depth)),
    decreases depth, 5int, ABOVE_ALL + 1 - min, s.len() + 1 - j,
{
    if 0 <= j < s.len() {
        let op = infix_operator(s[j].rule)->Some_0;
        if precedence(op) >= min {
            let next = precedence(op) + 1;
            lemma_conforming_climbed(s, j + 1, next, depth);
            match climbed(s, j + 1, next, depth) {
                Err(e) => {},
                Ok(rhs) => {
                    lemma_operand_end_bounds(s, j + 1);
                    lemma_climb_end_bounds(s, operand_end(s, j + 1), next);
                    lemma_rest_after_climb(s, operand_end(s, j + 1), next);
                    lemma_conforming_climbed_on(
                        s,
                        ExprView::BinOp { lhs: Box::new(lhs), op, rhs: Box::new(rhs) },
                        climb_end(s, operand_end(s, j + 1), next),
                        min,
                        depth,
                    );
                },
            }
        }
    }
}

proof fn lemma_conforming_operand(s: Seq<NodeView>, i: int, depth: nat)
    requires
        operand_conforms(s, i),
    ensures
        read_or_too_deep(parsed_operand(s, i, depth)),
    decreases depth, 4int, s.len() - i, 0int,
{
    if prefix_operator(s[i].rule) is Some {
        lemma_conforming_operand(s, i + 1, depth);
    } else {
        lemma_conforming_primary(s[i], depth);
    }
}

proof fn lemma_conforming_primary(n: NodeView, depth: nat)
    requires
        atom_conforms(n),
    ensures
        read_or_too_deep(parsed_primary(n, depth)),
    decreases depth, 3int, 0int, 0int,
{
    if depth > 0 {
        match n.rule {
            Rule::Expr => {
                lemma_conforming_expr_is_read(n.children, (depth - 1) as nat);
            },
            Rule::FnCall => {
                lemma_conforming_args(n.children[1].children, (depth - 1) as nat);
            },
            _ => {},
        }
    }
}

/// Whether `rule` names a built-in type.
pub open spec fn is_type(rule: Rule) -> bool {
    rule == Rule::TyI8 || rule == Rule::TyI16 || rule == Rule::TyI32 || rule == Rule::TyU8 || rule
        == Rule::TyU16 || rule == Rule::TyU32 || rule == Rule::TyBool
}

/// Whether `s` starts with a type.
pub open spec fn type_conforms(s: Seq<NodeView>) -> bool {
    s.len() >= 1 && is_type(s[0].rule)
}

/// Whether `s` has the shape of a declaration: a name, then a type.
pub open spec fn decl_conforms(s: Seq<NodeView>) -> bool {
    s.len() >= 2 && is_type(s[1].rule)
}

/// Whether each node of `params` wraps the shape of a declaration.
pub open spec fn params_conform(params: Seq<NodeView>) -> bool {
    forall|i: int| 0 <= i < params.len() ==> decl_conforms(#[trigger] params[i].children)
}

/// Whether `c` has the shape of the parts of a variable definition.
pub open spec fn var_def_conforms(c: Seq<NodeView>) -> bool {
    &&& c.len() >= 1
    &&& decl_conforms(c[0].children)
    &&& c.len() >= 2 ==> expr_conforms(c[1].children)
}

/// Whether each node of `s` wraps the shape of a statement.
pub open spec fn block_conforms(s: Seq<NodeView>) -> bool
    decreases s, 1int,
{
    forall|i: int| 0 <= i < s.len() ==> stmt_conforms(#[trigger] s[i].children)
}

/// Whether `c` has the shape of the parts of a conditional.
pub open spec fn if_conforms(c: Seq<NodeView>) -> bool
    decreases c, 2int,
{
    &&& c.len() >= 2
    &&& expr_conforms(c[0].children)
    &&& block_conforms(c[1].children)
    &&& c.len() >= 3 ==> block_conforms(c[2].children)
}

/// Whether `s` starts with the shape of a statement.
pub open spec fn stmt_conforms(s: Seq<NodeView>) -> bool
    decreases s, 3int,
{
    &&& s.len() >= 1
    &&& match s[0].rule {
        Rule::BlockStmt => block_conforms(s[0].children),
        Rule::Expr => expr_conforms(s[0].children),
        Rule::VarDeclStmt => var_def_conforms(s[0].children),
        Rule::RetStmt => expr_conforms(s[0].children),
        Rule::IfStmt => if_conforms(s[0].children),
        _ => false,
    }
}

/// Whether `c` has the shape of the parts of a function definition.
pub open spec fn fn_def_conforms(c: Seq<NodeView>) -> bool {
    &&& c.len() >= 4
    &&& params_conform(c[1].children)
    &&& c[2].children.len() == 0 || type_conforms(c[2].children)
    &&& block_conforms(c[3].children)
}

/// Whether `s` starts with the shape of a top-level declaration.
pub open spec fn top_level_conforms(s: Seq<NodeView>) -> bool {
    s.len() >= 1 && s[0].rule == Rule::FnDefTop && fn_def_conforms(s[0].children)
}

/// Whether `s` starts with the shape of a translation unit: each entry
/// that holds anything holds the shape of a top-level declaration.
pub open spec fn unit_conforms(s: Seq<NodeView>) -> bool {
    &&& s.len() >= 1
    &&& s[0].rule == Rule::TransUnit
    &&& forall|j: int|
        0 <= j < s[0].children.len() && holds_declaration(#[trigger] s[0].children[j])
            ==> top_level_conforms(s[0].children[j].children)
}

/// A type is read from exactly the nodes that start with one.
pub proof fn lemma_type_read_iff_conforms(s: Seq<NodeView>)
    ensures
        parsed_type(s) is Ok <==> type_conforms(s),
        parsed_type(s) != Err::<crate::stmt::Ty, ParseError>(ParseError::TooDeep),
{
}

/// A declaration is read from exactly the nodes that have the shape of
/// one.
pub proof fn lemma_decl_read_iff_conforms(s: Seq<NodeView>)
    ensures
        parsed_var_decl(s) is Ok <==> decl_conforms(s),
        parsed_var_decl(s) != Err::<VarDeclView, ParseError>(ParseError::TooDeep),
{
    if s.len() >= 1 {
        lemma_type_read_iff_conforms(s.skip(1));
    }
}

/// Parameters are read from exactly the nodes that each wrap the shape of
/// a declaration.
pub proof fn lemma_params_read_iff_conform(params: Seq<NodeView>)
    ensures
        crate::error::collect(param_results(params)) is Ok <==> params_conform(params),
        crate::error::collect(param_results(params)) != Err::<Seq<VarDeclView>, ParseError>(
            ParseError::TooDeep,
        ),
{
    let results = param_results(params);
    lemma_collect_ok(results);
    assert forall|i: int| 0 <= i < params.len() implies (#[trigger] results[i] is Ok
        <==> decl_conforms(params[i].children)) && results[i] != Err::<VarDeclView, ParseError>(
        ParseError::TooDeep,
    ) by {
        lemma_decl_read_iff_conforms(params[i].children);
    }
    if crate::error::collect(results) is Ok {
        let values = crate::error::collect(results)->Ok_0;
        assert forall|i: int| 0 <= i < params.len() implies decl_conforms(
            #[trigger] params[i].children,
        ) by {
            assert(results[i] == Ok::<VarDeclView, ParseError>(values[i]));
        }
    } else {
        let e = crate::error::collect(results)->Err_0;
        let i = choose|i: int|
            0 <= i < results.len() && #[trigger] results[i] == Err::<VarDeclView, ParseError>(e);
        assert(!decl_conforms(params[i].children));
    }
}

/// A block that was read has the shape of one.
pub proof fn lemma_read_block_conforms(s: Seq<NodeView>, depth: nat)
    requires
        parsed_block(s, depth) is Ok,
    ensures
        block_conforms(s),
    decreases depth, 2int,
{
    let results = stmt_results(s, depth);
    let values = crate::error::collect(results)->Ok_0;
    lemma_collect_ok(results);
    assert forall|i: int| 0 <= i < s.len() implies stmt_conforms(#[trigger] s[i].children) by {
        assert(results[i] == Ok::<StmtView, ParseError>(values[i]));
        lemma_read_stmt_conforms(s[i].children, (depth - 1) as nat);
    }
}

proof fn lemma_read_var_def(c: Seq<NodeView>, depth: nat)
    requires
        parsed_var_def(c, depth) is Ok,
    ensures
        var_def_conforms(c),
{
    lemma_decl_read_iff_conforms(c[0].children);
    if c.len() >= 2 {
        lemma_read_expr_conforms(c[1].children, depth);
    }
}

proof fn lemma_read_if(c: Seq<NodeView>, depth: nat)
    requires
        parsed_if(c, depth) is Ok,
    ensures
        if_conforms(c),
    decreases depth, 3int,
{
    lemma_read_expr_conforms(c[0].children, depth);
    lemma_read_block_conforms(c[1].children, depth);
    if c.len() >= 3 {
        lemma_read_block_conforms(c[2].children, depth);
    }
}

/// A statement that was read has the shape of one.
pub proof fn lemma_read_stmt_conforms(s: Seq<NodeView>, depth: nat)
    requires
        parsed_stmt(s, depth) is Ok,
    ensures
        stmt_conforms(s),
    decreases depth, 4int,
{
    match s[0].rule {
        Rule::BlockStmt => {
            lemma_read_block_conforms(s[0].children, depth);
        },
        Rule::Expr => {
            lemma_read_expr_conforms(s[0].children, depth);
        },
        Rule::VarDeclStmt => {
            lemma_read_var_def(s[0].children, depth);
        },
        Rule::RetStmt => {
            lemma_read_expr_conforms(s[0].children, depth);
        },
        Rule::IfStmt => {
            lemma_read_if(s[0].children, depth);
        },
        _ => {},
    }
}

/// A top-level declaration that was read has the shape of one.
pub proof fn lemma_read_top_level_conforms(s: Seq<NodeView>, depth: nat)
    requires
        parsed_top_level(s, depth) is Ok,
    ensures
        top_level_conforms(s),
{
    let c = s[0].children;
    assert(parsed_top_level(s, depth) == parsed_fn_def(c, depth));
    lemma_params_read_iff_conform(c[1].children);
    lemma_type_read_iff_conforms(c[2].children);
    lemma_read_block_conforms(c[3].children, depth);
}

/// A translation unit that was read has the shape of one.
pub proof fn lemma_read_unit_conforms(s: Seq<NodeView>, depth: nat)
    requires
        parsed_trans_unit(s, depth) is Ok,
    ensures
        unit_conforms(s),
{
    let entries = s[0].children;
    let results = entry_results(entries, depth);
    let values = crate::error::collect(results)->Ok_0;
    lemma_collect_ok(results);
    assert forall|j: int|
        0 <= j < entries.len() && holds_declaration(
            #[trigger] entries[j],
        ) implies top_level_conforms(entries[j].children) by {
        lemma_entries_are_declarations(entries, j);
        let i = choose|i: int|
            0 <= i < declarations(entries).len() && #[trigger] declarations(entries)[i]
                == entries[j];
        assert(results[i] == Ok::<TopLevelView, ParseError>(values[i]));
        lemma_read_top_level_conforms(entries[j].children, depth);
    }
}

/// Nodes that each wrap the shape of a statement are read as a block,
/// unless they nest too deep.
pub proof fn lemma_conforming_block_is_read(s: Seq<NodeView>, depth: nat)
    requires
        block_conforms(s),
    ensures
        read_or_too_deep(parsed_block(s, depth)),
    decreases depth, 2int,
{
    let results = stmt_results(s, depth);
    lemma_collect_ok(results);
    assert forall|i: int| 0 <= i < results.len() implies read_or_too_deep(
        #[trigger] results[i],
    ) by {
        assert(stmt_conforms(s[i].children));
        if depth > 0 {
            lemma_conforming_stmt_is_read(s[i].children, (depth - 1) as nat);
        }
    }
}

proof fn lemma_conforming_var_def(c: Seq<NodeView>, depth: nat)
    requires
        var_def_conforms(c),
    ensures
        read_or_too_deep(parsed_var_def(c, depth)),
{
    lemma_decl_read_iff_conforms(c[0].children);
    if c.len() >= 2 {
        lemma_conforming_expr_is_read(c[1].children, depth);
    }
}

proof fn lemma_conforming_if(c: Seq<NodeView>, depth: nat)
    requires
        if_conforms(c),
    ensures
        read_or_too_deep(parsed_if(c, depth)),
    decreases depth, 3int,
{
    lemma_conforming_expr_is_read(c[0].children, depth);
    lemma_conforming_block_is_read(c[1].children, depth);
    if c.len() >= 3 {
        lemma_conforming_block_is_read(c[2].children, depth);
    }
}

/// Nodes that start with the shape of a statement are read as one, unless
/// they nest too deep.
pub proof fn lemma_conforming_stmt_is_read(s: Seq<NodeView>, depth: nat)
    requires
        stmt_conforms(s),
    ensures
        read_or_too_deep(parsed_stmt(s, depth)),
    decreases depth, 4int,
{
    match s[0].rule {
        Rule::BlockStmt => {
            lemma_conforming_block_is_read(s[0].children, depth);
        },
        Rule::Expr => {
            lemma_conforming_expr_is_read(s[0].children, depth);
        },
        Rule::VarDeclStmt => {
            lemma_conforming_var_def(s[0].children, depth);
        },
        Rule::RetStmt => {
            lemma_conforming_expr_is_read(s[0].children, depth);
        },
        Rule::IfStmt => {
            lemma_conforming_if(s[0].children, depth);
        },
        _ => {},
    }
}

/// Nodes that start with the shape of a top-level declaration are read as
/// one, unless they nest too deep.
pub proof fn lemma_conforming_top_level_is_read(s: Seq<NodeView>, depth: nat)
    requires
        top_level_conforms(s),
    ensures
        read_or_too_deep(parsed_top_level(s, depth)),
{
    let c = s[0].children;
    assert(parsed_top_level(s, depth) == parsed_fn_def(c, depth));
    lemma_params_read_iff_conform(c[1].children);
    lemma_type_read_iff_conforms(c[2].children);
    lemma_conforming_block_is_read(c[3].children, depth);
}

/// Nodes that start with the shape of a translation unit are read as one,
/// unless they nest too deep.
pub proof fn lemma_conforming_unit_is_read(s: Seq<NodeView>, depth: nat)
    requires
        unit_conforms(s),
    ensures
        read_or_too_deep(parsed_trans_unit(s, depth)),
{
    let entries = s[0].children;
    let results = entry_results(entries, depth);
    lemma_collect_ok(results);
    assert forall|i: int| 0 <= i < results.len() implies read_or_too_deep(
        #[trigger] results[i],
    ) by {
        lemma_declarations_are_entries(entries, i);
        let j = choose|j: int|
            0 <= j < entries.len() && #[trigger] entries[j] == declarations(entries)[i];
        assert(holds_declaration(entries[j]));
        lemma_conforming_top_level_is_read(entries[j].children, depth);
    }
}

/// Nodes that have the shape of an expression and hold at most `depth`
/// levels are read as one.
pub proof fn lemma_expr_is_read(s: Seq<NodeView>, depth: nat)
    requires
        expr_conforms(s),
        height(s) <= depth,
    ensures
        parsed_expr(s, depth) is Ok,
{
    lemma_conforming_expr_is_read(s, depth);
    lemma_shallow_expr(s, depth);
}

/// Nodes that each wrap the shape of a statement and hold at most `depth`
/// levels are read as a block.
pub proof fn lemma_block_is_read(s: Seq<NodeView>, depth: nat)
    requires
        block_conforms(s),
        height(s) <= depth,
    ensures
        parsed_block(s, depth) is Ok,
{
    lemma_conforming_block_is_read(s, depth);
    lemma_shallow_block(s, depth);
}

/// Nodes that start with the shape of a statement and hold at most `depth`
/// levels are read as one.
pub proof fn lemma_stmt_is_read(s: Seq<NodeView>, depth: nat)
    requires
        stmt_conforms(s),
        height(s) <= depth,
    ensures
        parsed_stmt(s, depth) is Ok,
{
    lemma_conforming_stmt_is_read(s, depth);
    lemma_shallow_stmt(s, depth);
}

/// Nodes that start with the shape of a top-level declaration and hold at
/// most `depth` levels are read as one.
pub proof fn lemma_top_level_is_read(s: Seq<NodeView>, depth: nat)
    requires
        top_level_conforms(s),
        height(s) <= depth,
    ensures
        parsed_top_level(s, depth) is Ok,
{
    lemma_conforming_top_level_is_read(s, depth);
    lemma_shallow_top_level(s, depth);
}

/// Nodes that start with the shape of a translation unit and hold at most
/// `depth` levels are read as one.
pub proof fn lemma_unit_is_read(s: Seq<NodeView>, depth: nat)
    requires
        unit_conforms(s),
        height(s) <= depth,
    ensures
        parsed_trans_unit(s, depth) is Ok,
{
    lemma_conforming_unit_is_read(s, depth);
    lemma_shallow_trans_unit(s, depth);
}

} // verus!
