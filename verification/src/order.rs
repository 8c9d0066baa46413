//! What the trees keep of their input: the order in which things were
//! written, and each optional part exactly when it was written.
use crate::error::{lemma_collect_all_ok, lemma_collect_ok, ParseError};
use crate::expr::{arg_results, parsed_args, parsed_expr, parsed_primary, ExprView};
use crate::stmt::{
    parsed_block, parsed_if, parsed_stmt, parsed_var_decl, parsed_var_def, stmt_results,
    BlockView, StmtView, VarDeclView,
};
use crate::syntax::{NodeView, Rule};
use crate::top_level::{
    param_results, parsed_fn_def, parsed_top_level, TopLevelView,
};
use crate::trans_unit::{
    declarations, entry_results, holds_declaration, parsed_trans_unit, TransUnitView,
};
use vstd::prelude::*;

verus! {

/// A call keeps its name and as many arguments as were written, each read
/// from its own node, in the order written.
pub proof fn lemma_call_keeps_arguments(n: NodeView, depth: nat)
    requires
        n.rule == Rule::FnCall,
        parsed_primary(n, depth) is Ok,
    ensures
        n.children.len() >= 2,
        depth > 0,
        parsed_primary(n, depth) matches Ok(ExprView::FnCall { id, args }) && {
            &&& id == n.children[0].text
            &&& args.len() == n.children[1].children.len()
            &&& forall|i: int|
                0 <= i < args.len() ==> parsed_expr(
                    n.children[1].children[i].children,
                    (depth - 1) as nat,
                ) == Ok::<ExprView, ParseError>(#[trigger] args[i])
        },
{
    let wrapped = n.children[1].children;
    let inner = (depth - 1) as nat;
    let results = arg_results(wrapped, inner);
    lemma_collect_ok(results);
    assert(parsed_args(wrapped, inner) is Ok);
    let args = parsed_args(wrapped, inner)->Ok_0;
    assert forall|i: int| 0 <= i < args.len() implies parsed_expr(wrapped[i].children, inner)
        == Ok::<ExprView, ParseError>(#[trigger] args[i]) by {
        assert(results[i] == Ok::<ExprView, ParseError>(args[i]));
    }
}

/// A block keeps as many statements as were written, each read from its
/// own node, in the order written.
pub proof fn lemma_block_keeps_statements(s: Seq<NodeView>, depth: nat)
    requires
        parsed_block(s, depth) is Ok,
    ensures
        parsed_block(s, depth) matches Ok(block) && {
            &&& block.block.len() == s.len()
            &&& s.len() > 0 ==> depth > 0
            &&& forall|i: int|
                0 <= i < s.len() ==> parsed_stmt(s[i].children, (depth - 1) as nat) == Ok::<
                    StmtView,
                    ParseError,
                >(#[trigger] block.block[i])
        },
{
    let results = stmt_results(s, depth);
    lemma_collect_ok(results);
    let block = parsed_block(s, depth)->Ok_0;
    if s.len() > 0 {
        assert(results[0] == Ok::<StmtView, ParseError>(block.block[0]));
    }
    assert forall|i: int| 0 <= i < s.len() implies parsed_stmt(
        s[i].children,
        (depth - 1) as nat,
    ) == Ok::<StmtView, ParseError>(#[trigger] block.block[i]) by {
        assert(results[i] == Ok::<StmtView, ParseError>(block.block[i]));
    }
}

/// A conditional has an alternative exactly when one was written, and
/// both of its blocks are read from their own nodes.
pub proof fn lemma_else_iff_written(c: Seq<NodeView>, depth: nat)
    requires
        parsed_if(c, depth) is Ok,
    ensures
        c.len() >= 2,
        parsed_if(c, depth) matches Ok(StmtView::IfElse { cond, ifb, elseb }) && {
            &&& parsed_expr(c[0].children, depth) == Ok::<ExprView, ParseError>(cond)
            &&& parsed_block(c[1].children, depth) == Ok::<BlockView, ParseError>(ifb)
            &&& elseb is Some <==> c.len() >= 3
            &&& elseb matches Some(block) ==> parsed_block(c[2].children, depth) == Ok::<
                BlockView,
                ParseError,
            >(block)
        },
{
}

/// A variable definition has an initializer exactly when one was written.
pub proof fn lemma_initializer_iff_written(c: Seq<NodeView>, depth: nat)
    requires
        parsed_var_def(c, depth) is Ok,
    ensures
        c.len() >= 1,
        parsed_var_def(c, depth) matches Ok(StmtView::VarDef { decl, assign }) && {
            &&& assign is Some <==> c.len() >= 2
            &&& assign matches Some(init) ==> parsed_expr(c[1].children, depth) == Ok::<
                ExprView,
                ParseError,
            >(init)
        },
{
}

/// A function definition keeps its name and as many parameters as were
/// written, in the order written, and has a return type exactly when its
/// return-type slot is not empty.
pub proof fn lemma_fn_def_keeps_parts(s: Seq<NodeView>, depth: nat)
    requires
        parsed_top_level(s, depth) is Ok,
    ensures
        s.len() >= 1,
        s[0].rule == Rule::FnDefTop,
        s[0].children.len() >= 4,
        parsed_top_level(s, depth) matches Ok(TopLevelView::FnDef { id, args, ret, block }) && {
            &&& id == s[0].children[0].text
            &&& args.len() == s[0].children[1].children.len()
            &&& forall|i: int|
                0 <= i < args.len() ==> parsed_var_decl(s[0].children[1].children[i].children)
                    == Ok::<VarDeclView, ParseError>(#[trigger] args[i])
            &&& ret is Some <==> s[0].children[2].children.len() > 0
            &&& parsed_block(s[0].children[3].children, depth) == Ok::<BlockView, ParseError>(
                block,
            )
        },
{
    let c = s[0].children;
    let results = param_results(c[1].children);
    assert(parsed_top_level(s, depth) == parsed_fn_def(c, depth));
    lemma_collect_ok(results);
    let args = parsed_top_level(s, depth)->Ok_0->args;
    assert forall|i: int| 0 <= i < args.len() implies parsed_var_decl(
        c[1].children[i].children,
    ) == Ok::<VarDeclView, ParseError>(#[trigger] args[i]) by {
        assert(results[i] == Ok::<VarDeclView, ParseError>(args[i]));
    }
}

/// A translation unit keeps one declaration for each entry that holds
/// one, in the order written, and none for the others.
pub proof fn lemma_unit_keeps_declarations(s: Seq<NodeView>, depth: nat)
    requires
        parsed_trans_unit(s, depth) is Ok,
    ensures
        s.len() >= 1,
        s[0].rule == Rule::TransUnit,
        parsed_trans_unit(s, depth) matches Ok(TransUnitView::Defs { list }) && {
            &&& list.len() == declarations(s[0].children).len()
            &&& forall|i: int|
                0 <= i < list.len() ==> parsed_top_level(
                    declarations(s[0].children)[i].children,
                    depth,
                ) == Ok::<TopLevelView, ParseError>(#[trigger] list[i])
        },
{
    let results = entry_results(s[0].children, depth);
    lemma_collect_ok(results);
    let list = parsed_trans_unit(s, depth)->Ok_0->list;
    assert forall|i: int| 0 <= i < list.len() implies parsed_top_level(
        declarations(s[0].children)[i].children,
        depth,
    ) == Ok::<TopLevelView, ParseError>(#[trigger] list[i]) by {
        assert(results[i] == Ok::<TopLevelView, ParseError>(list[i]));
    }
}

/// Entries that hold nothing give no declarations.
pub proof fn lemma_empty_entries_declare_nothing(entries: Seq<NodeView>)
    requires
        forall|j: int| 0 <= j < entries.len() ==> !holds_declaration(#[trigger] entries[j]),
    ensures
        declarations(entries) == Seq::<NodeView>::empty(),
    decreases entries.len(),
{
    if entries.len() > 0 {
        assert(!holds_declaration(entries[entries.len() - 1]));
        lemma_empty_entries_declare_nothing(entries.drop_last());
    }
}

/// A translation unit none of whose entries holds anything is read as
/// the unit without declarations, whatever the nesting allowance.
pub proof fn lemma_empty_unit(s: Seq<NodeView>, depth: nat)
    requires
        s.len() >= 1,
        s[0].rule == Rule::TransUnit,
        forall|j: int|
            0 <= j < s[0].children.len() ==> !holds_declaration(#[trigger] s[0].children[j]),
    ensures
        parsed_trans_unit(s, depth) == Ok::<TransUnitView, ParseError>(
            TransUnitView::Defs { list: Seq::empty() },
        ),
{
    lemma_empty_entries_declare_nothing(s[0].children);
    let results = entry_results(s[0].children, depth);
    lemma_collect_all_ok(results, Seq::<TopLevelView>::empty());
}

} // verus!
