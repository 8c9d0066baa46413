//! The translation unit: everything declared in one source input.
use crate::depth::lemma_shallow_trans_unit;
use crate::error::{
    collect, lemma_collect_fails, lemma_collect_step, outcome, Expected, ParseError,
};
use crate::shape::{lemma_read_unit_conforms, lemma_unit_is_read, unit_conforms};
use crate::syntax::{height, lemma_views_index, views, NodeView, Rule, SyntaxNode};
use crate::top_level::{parsed_top_level, top_level_views, TopLevel, TopLevelView};
use vstd::prelude::*;

verus! {

/// A translation unit.
#[derive(Debug, PartialEq, Eq)]
pub enum TransUnit {
    /// The declarations in source order.
    Defs { list: Vec<TopLevel> },
}

/// The mathematical value of a [`TransUnit`].
pub enum TransUnitView {
    Defs { list: Seq<TopLevelView> },
}

impl View for TransUnit {
    type V = TransUnitView;

    open spec fn view(&self) -> TransUnitView {
        match *self {
            TransUnit::Defs { list } => TransUnitView::Defs { list: top_level_views(list@) },
        }
    }
}

/// Whether an entry of a translation unit holds a declaration. The entry
/// that marks the end of the input holds nothing.
pub open spec fn holds_declaration(entry: NodeView) -> bool {
    entry.children.len() > 0
}

/// The entries that hold a declaration, in source order.
pub open spec fn declarations(entries: Seq<NodeView>) -> Seq<NodeView>
    decreases entries.len(),
{
    if entries.len() == 0 {
        Seq::empty()
    } else if holds_declaration(entries.last()) {
        declarations(entries.drop_last()).push(entries.last())
    } else {
        declarations(entries.drop_last())
    }
}

/// What each entry that holds a declaration yields by itself.
pub open spec fn entry_results(entries: Seq<NodeView>, depth: nat) -> Seq<
    Result<TopLevelView, ParseError>,
> {
    Seq::new(
        declarations(entries).len(),
        |i: int| parsed_top_level(declarations(entries)[i].children, depth),
    )
}

/// The translation unit that the first node of `s` stands for: the
/// declarations of its entries in source order, the empty entries left
/// out.
pub open spec fn parsed_trans_unit(s: Seq<NodeView>, depth: nat) -> Result<
    TransUnitView,
    ParseError,
> {
    if s.len() == 0 {
        Err(ParseError::Missing { expected: Expected::TransUnit })
    } else {
        match s[0].rule {
            Rule::TransUnit => match collect(entry_results(s[0].children, depth)) {
                Err(e) => Err(e),
                Ok(list) => Ok(TransUnitView::Defs { list }),
            },
            found => Err(ParseError::Unexpected { found, expected: Expected::TransUnit }),
        }
    }
}

/// The declarations among the first `n` entries are the first of the
/// declarations among all of them.
pub proof fn lemma_declarations_prefix(entries: Seq<NodeView>, n: int)
    requires
        0 <= n <= entries.len(),
    ensures
        declarations(entries.take(n)).len() <= declarations(entries).len(),
        declarations(entries.take(n)) == declarations(entries).take(
            declarations(entries.take(n)).len() as int,
        ),
    decreases entries.len() - n,
{
    if n < entries.len() {
        lemma_declarations_prefix(entries, n + 1);
        assert(entries.take(n + 1).drop_last() =~= entries.take(n));
        let more = declarations(entries.take(n + 1));
        let fewer = declarations(entries.take(n));
        assert(fewer =~= more.take(fewer.len() as int));
        assert(fewer =~= declarations(entries).take(fewer.len() as int));
    } else {
        assert(entries.take(n) =~= entries);
        assert(declarations(entries) =~= declarations(entries).take(
            declarations(entries).len() as int,
        ));
    }
}

/// Every entry that holds a declaration is one of the entries.
pub proof fn lemma_declarations_are_entries(entries: Seq<NodeView>, i: int)
    requires
        0 <= i < declarations(entries).len(),
    ensures
        holds_declaration(declarations(entries)[i]),
        exists|j: int| 0 <= j < entries.len() && #[trigger] entries[j] == declarations(entries)[i],
    decreases entries.len(),
{
    let front = entries.drop_last();
    if holds_declaration(entries.last()) && i == declarations(front).len() {
        assert(entries[entries.len() - 1] == declarations(entries)[i]);
    } else {
        lemma_declarations_are_entries(front, i);
        let j = choose|j: int| 0 <= j < front.len() && #[trigger] front[j] == declarations(front)[i];
        assert(entries[j] == declarations(entries)[i]);
    }
}

/// Every entry that holds a declaration is among the declarations.
pub proof fn lemma_entries_are_declarations(entries: Seq<NodeView>, j: int)
    requires
        0 <= j < entries.len(),
        holds_declaration(entries[j]),
    ensures
        exists|i: int|
            0 <= i < declarations(entries).len() && #[trigger] declarations(entries)[i]
                == entries[j],
    decreases entries.len(),
{
    let front = entries.drop_last();
    if j == entries.len() - 1 {
        let i = declarations(front).len() as int;
        assert(declarations(entries)[i] == entries[j]);
    } else {
        lemma_entries_are_declarations(front, j);
        let i = choose|i: int|
            0 <= i < declarations(front).len() && #[trigger] declarations(front)[i] == front[j];
        assert(declarations(entries)[i] == entries[j]);
    }
}

/// What the entries among the first `n` yield is the start of what all of
/// them yield.
pub proof fn lemma_entry_results_prefix(entries: Seq<NodeView>, n: int, depth: nat)
    requires
        0 <= n <= entries.len(),
    ensures
        entry_results(entries.take(n), depth).len() <= entry_results(entries, depth).len(),
        entry_results(entries.take(n), depth) == entry_results(entries, depth).take(
            entry_results(entries.take(n), depth).len() as int,
        ),
{
    lemma_declarations_prefix(entries, n);
    let some = entry_results(entries.take(n), depth);
    let all = entry_results(entries, depth);
    assert forall|i: int| 0 <= i < some.len() implies some[i] == all[i] by {
        assert(declarations(entries.take(n))[i] == declarations(entries).take(
            declarations(entries.take(n)).len() as int,
        )[i]);
    }
    assert(some =~= all.take(some.len() as int));
}

impl TransUnit {
    /// Reads the translation unit that the first of `nodes` stands for;
    /// what follows it is not looked at.
    ///
    /// Each entry of the unit wraps one top-level declaration. An entry
    /// that wraps nothing, as the one that marks the end of the input
    /// does, gives no declaration; the others give theirs in source order.
    /// The first declaration from the left that is refused is the error,
    /// as is a first node that is no translation unit.
    ///
    /// Nodes of that shape which hold no more than `depth` levels are
    /// always read, and none is given up as too deep.
    pub fn parse(nodes: &[SyntaxNode], depth: usize) -> (r: Result<TransUnit, ParseError>)
        ensures
            outcome(r) == parsed_trans_unit(views(nodes@), depth as nat),
            r is Ok ==> unit_conforms(views(nodes@)),
            unit_conforms(views(nodes@)) && height(views(nodes@)) <= depth ==> r is Ok,
            r == Err::<TransUnit, ParseError>(ParseError::TooDeep) ==> height(views(nodes@)) > depth,
    {
        proof {
            let s = views(nodes@);
            if parsed_trans_unit(s, depth as nat) is Ok {
                lemma_read_unit_conforms(s, depth as nat);
            }
            if height(s) <= depth {
                lemma_shallow_trans_unit(s, depth as nat);
            }
            if unit_conforms(s) && height(s) <= depth {
                lemma_unit_is_read(s, depth as nat);
            }
        }
        if nodes.len() == 0 {
            return Err(ParseError::Missing { expected: Expected::TransUnit });
        }
        proof {
            lemma_views_index(nodes@, 0);
        }
        match nodes[0].rule {
            Rule::TransUnit => match entries(nodes[0].children.as_slice(), depth) {
                Err(e) => Err(e),
                Ok(list) => Ok(TransUnit::Defs { list }),
            },
            found => Err(ParseError::Unexpected { found, expected: Expected::TransUnit }),
        }
    }
}

/// Reads the declarations of the entries that hold one.
fn entries(nodes: &[SyntaxNode], depth: usize) -> (r: Result<Vec<TopLevel>, ParseError>)
    ensures
        match r {
            Ok(list) => collect(entry_results(views(nodes@), depth as nat)) == Ok::<
                Seq<TopLevelView>,
                ParseError,
            >(top_level_views(list@)),
            Err(e) => collect(entry_results(views(nodes@), depth as nat)) == Err::<
                Seq<TopLevelView>,
                ParseError,
            >(e),
        },
{
    let ghost all = views(nodes@);
    let mut list: Vec<TopLevel> = Vec::new();
    let mut i: usize = 0;
    assert(top_level_views(list@) =~= Seq::empty());
    assert(entry_results(all.take(0), depth as nat) =~= Seq::empty());
    while i < nodes.len()
        invariant
            i <= nodes@.len(),
            all == views(nodes@),
            all.len() == nodes@.len(),
            collect(entry_results(all.take(i as int), depth as nat)) == Ok::<
                Seq<TopLevelView>,
                ParseError,
            >(top_level_views(list@)),
        decreases nodes@.len() - i,
    {
        let ghost before = entry_results(all.take(i as int), depth as nat);
        let ghost after = entry_results(all.take(i + 1), depth as nat);
        proof {
            lemma_views_index(nodes@, i as int);
            assert(all.take(i + 1).drop_last() =~= all.take(i as int));
        }
        if nodes[i].children.len() > 0 {
            proof {
                assert(after.len() == before.len() + 1);
                assert(after.take(before.len() as int) =~= before);
                lemma_collect_step(after, before.len() as int);
                assert(after.take(after.len() as int) =~= after);
            }
            match TopLevel::parse(nodes[i].children.as_slice(), depth) {
                Err(e) => {
                    proof {
                        lemma_entry_results_prefix(all, i + 1, depth as nat);
                        lemma_collect_fails(
                            entry_results(all, depth as nat),
                            after.len() as int,
                            e,
                        );
                    }
                    return Err(e);
                },
                Ok(decl) => {
                    let ghost listed = list@;
                    list.push(decl);
                    assert(top_level_views(list@) =~= top_level_views(listed).push(decl@));
                },
            }
        } else {
            assert(after =~= before);
        }
        i = i + 1;
    }
    assert(all.take(i as int) =~= all);
    Ok(list)
}

} // verus!
