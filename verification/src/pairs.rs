//! Input from pest: the pairs that a grammar over [`Rule`] matched, turned
//! into the nodes that the builder reads.
//!
//! What pest does is not verified here. The declarations and the four
//! small functions below that call it state what is taken on trust; all
//! else in this module is proved from that.
use crate::error::{outcome, ParseError};
use crate::shape::unit_conforms;
use crate::syntax::{
    height, lemma_children_views, lemma_height_child, lemma_height_push, views, NodeView, Rule,
    SyntaxNode,
};
use crate::trans_unit::{parsed_trans_unit, TransUnit};
use vstd::prelude::*;

verus! {

/// `pest::iterators::Pairs`: what is left of a run of matched pairs. Known
/// only through [`held`].
#[verifier::external_type_specification]
#[verifier::external_body]
#[verifier::reject_recursive_types(R)]
pub struct ExPairs<'i, R>(pest::iterators::Pairs<'i, R>);

/// `pest::iterators::Pair`: one matched pair with all that was matched
/// inside it. Known only through [`node_of`].
#[verifier::external_type_specification]
#[verifier::external_body]
#[verifier::reject_recursive_types(R)]
pub struct ExPair<'i, R>(pest::iterators::Pair<'i, R>);

/// The nodes that `pairs` has yet to hand out, in order.
pub uninterp spec fn held(pairs: pest::iterators::Pairs<'_, Rule>) -> Seq<NodeView>;

/// The node that `pair` stands for: its rule, the text it spans, and the
/// nodes that the pairs inside it hold.
pub uninterp spec fn node_of(pair: pest::iterators::Pair<'_, Rule>) -> NodeView;

/// `Iterator::next` of `Pairs`: hands out the first pair that is left and
/// keeps the others; hands out nothing, and changes nothing, when none is
/// left.
#[verifier::external_body]
fn next_pair<'i>(pairs: &mut pest::iterators::Pairs<'i, Rule>) -> (pair: Option<
    pest::iterators::Pair<'i, Rule>,
>)
    ensures
        match pair {
            Some(first) => {
                &&& held(*old(pairs)).len() > 0
                &&& node_of(first) == held(*old(pairs))[0]
                &&& held(*final(pairs)) == held(*old(pairs)).skip(1)
            },
            None => held(*old(pairs)).len() == 0 && held(*final(pairs)) == held(*old(pairs)),
        },
{
    pairs.next()
}

/// `Pair::as_rule`: the rule that the pair matched.
#[verifier::external_body]
fn rule_of(pair: &pest::iterators::Pair<'_, Rule>) -> (rule: Rule)
    ensures
        rule == node_of(*pair).rule,
{
    pair.as_rule()
}

/// `Pair::as_str`: the part of the input that the pair spans, here copied
/// into a string of its own.
#[verifier::external_body]
fn text_of(pair: &pest::iterators::Pair<'_, Rule>) -> (text: String)
    ensures
        text@ == node_of(*pair).text,
{
    pair.as_str().to_owned()
}

/// `Pair::into_inner`: the pairs matched inside the pair.
#[verifier::external_body]
fn inner_of<'i>(pair: pest::iterators::Pair<'i, Rule>) -> (inner: pest::iterators::Pairs<'i, Rule>)
    ensures
        held(inner) == node_of(pair).children,
{
    pair.into_inner()
}

/// Turns what `pairs` has left into nodes, kinds and texts and order
/// kept, as long as it holds at most `depth` levels; gives it up as too
/// deep when it holds more. The calls this makes to itself never nest
/// deeper than `depth`.
pub fn nodes_of(pairs: pest::iterators::Pairs<'_, Rule>, depth: usize) -> (r: Result<
    Vec<SyntaxNode>,
    ParseError,
>)
    ensures
        match r {
            Ok(nodes) => views(nodes@) == held(pairs) && height(held(pairs)) <= depth,
            Err(e) => e == ParseError::TooDeep && height(held(pairs)) > depth,
        },
    decreases depth,
{
    let ghost all = held(pairs);
    let mut rest = pairs;
    let mut nodes: Vec<SyntaxNode> = Vec::new();
    assert(views(nodes@) + held(rest) =~= all);
    loop
        invariant
            all == held(pairs),
            views(nodes@) + held(rest) == all,
            height(views(nodes@)) <= depth,
        decreases held(rest).len(),
    {
        let ghost before = held(rest);
        let ghost done = views(nodes@);
        match next_pair(&mut rest) {
            None => {
                assert(views(nodes@) =~= all);
                return Ok(nodes);
            },
            Some(pair) => {
                assert(all[done.len() as int] == before[0]);
                proof {
                    lemma_height_child(all, done.len() as int);
                }
                if depth == 0 {
                    return Err(ParseError::TooDeep);
                }
                let rule = rule_of(&pair);
                let text = text_of(&pair);
                match nodes_of(inner_of(pair), depth - 1) {
                    Err(e) => {
                        return Err(e);
                    },
                    Ok(children) => {
                        let node = SyntaxNode { rule, text, children };
                        proof {
                            lemma_children_views(node);
                            lemma_height_push(done, node@);
                        }
                        nodes.push(node);
                        assert(views(nodes@) =~= done.push(before[0]));
                        assert(views(nodes@) + held(rest) =~= all);
                    },
                }
            },
        }
    }
}

impl TransUnit {
    /// Builds the translation unit that the first of `pairs` stands for.
    ///
    /// What `pairs` holds is read exactly if it has the shape of a
    /// translation unit and is no more than `depth` levels deep; deeper
    /// input is given up as too deep before anything else is looked at.
    pub fn from_pairs(pairs: pest::iterators::Pairs<'_, Rule>, depth: usize) -> (r: Result<
        TransUnit,
        ParseError,
    >)
        ensures
            outcome(r) == if height(held(pairs)) > depth {
                Err(ParseError::TooDeep)
            } else {
                parsed_trans_unit(held(pairs), depth as nat)
            },
            r is Ok <==> unit_conforms(held(pairs)) && height(held(pairs)) <= depth,
    {
        match nodes_of(pairs, depth) {
            Err(e) => Err(e),
            Ok(nodes) => TransUnit::parse(nodes.as_slice(), depth),
        }
    }
}

} // verus!
