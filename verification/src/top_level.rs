//! Top-level declarations.
use crate::depth::lemma_shallow_top_level;
use crate::error::{
    collect, lemma_collect_fails, lemma_collect_step, outcome, Expected, ParseError,
};
use crate::shape::{
    lemma_read_top_level_conforms, lemma_top_level_is_read, top_level_conforms,
};
use crate::stmt::{
    decl_views, parsed_block, parsed_type, parsed_var_decl, Block, BlockView, Ty, VarDecl,
    VarDeclView,
};
use crate::syntax::{height, lemma_views_index, views, NodeView, Rule, SyntaxNode};
use vstd::prelude::*;

verus! {

/// A declaration at the top of a translation unit.
#[derive(Debug, PartialEq, Eq)]
pub enum TopLevel {
    /// A function: its name, its parameters in order, its return type if it
    /// has one, and its body.
    FnDef { id: String, args: Vec<VarDecl>, ret: Option<Ty>, block: Block },
}

/// The mathematical value of a [`TopLevel`].
pub enum TopLevelView {
    FnDef { id: Seq<char>, args: Seq<VarDeclView>, ret: Option<Ty>, block: BlockView },
}

impl View for TopLevel {
    type V = TopLevelView;

    open spec fn view(&self) -> TopLevelView {
        match *self {
            TopLevel::FnDef { id, args, ret, block } => TopLevelView::FnDef {
                id: id@,
                args: decl_views(args@),
                ret,
                block: block@,
            },
        }
    }
}

/// The values of a sequence of top-level declarations, in order.
pub open spec fn top_level_views(decls: Seq<TopLevel>) -> Seq<TopLevelView> {
    Seq::new(decls.len(), |i: int| decls[i]@)
}

/// What each parameter yields by itself: every node of `params` wraps one
/// declaration.
pub open spec fn param_results(params: Seq<NodeView>) -> Seq<Result<VarDeclView, ParseError>> {
    Seq::new(params.len(), |i: int| parsed_var_decl(params[i].children))
}

/// The return type in a return-type slot with the content `s`: none when
/// the slot is empty.
pub open spec fn parsed_return_type(s: Seq<NodeView>) -> Result<Option<Ty>, ParseError> {
    if s.len() == 0 {
        Ok(None)
    } else {
        match parsed_type(s) {
            Err(e) => Err(e),
            Ok(ty) => Ok(Some(ty)),
        }
    }
}

/// The function definition whose parts are `c`: the name, then nodes that
/// wrap the parameters, the return-type slot and the body.
pub open spec fn parsed_fn_def(c: Seq<NodeView>, depth: nat) -> Result<TopLevelView, ParseError> {
    if c.len() < 1 {
        Err(ParseError::Missing { expected: Expected::Name })
    } else if c.len() < 2 {
        Err(ParseError::Missing { expected: Expected::Parameters })
    } else {
        match collect(param_results(c[1].children)) {
            Err(e) => Err(e),
            Ok(args) => if c.len() < 3 {
                Err(ParseError::Missing { expected: Expected::ReturnType })
            } else {
                match parsed_return_type(c[2].children) {
                    Err(e) => Err(e),
                    Ok(ret) => if c.len() < 4 {
                        Err(ParseError::Missing { expected: Expected::Block })
                    } else {
                        match parsed_block(c[3].children, depth) {
                            Err(e) => Err(e),
                            Ok(block) => Ok(
                                TopLevelView::FnDef { id: c[0].text, args, ret, block },
                            ),
                        }
                    },
                }
            },
        }
    }
}

/// The top-level declaration that the first node of `s` stands for.
pub open spec fn parsed_top_level(s: Seq<NodeView>, depth: nat) -> Result<
    TopLevelView,
    ParseError,
> {
    if s.len() == 0 {
        Err(ParseError::Missing { expected: Expected::TopLevel })
    } else {
        match s[0].rule {
            Rule::FnDefTop => parsed_fn_def(s[0].children, depth),
            found => Err(ParseError::Unexpected { found, expected: Expected::TopLevel }),
        }
    }
}

impl TopLevel {
    /// Reads the top-level declaration that the first of `nodes` stands
    /// for; what follows it is not looked at.
    ///
    /// A function definition holds its name, its parameters in source
    /// order, its return type exactly when the return-type slot is not
    /// empty, and its body. Any other kind of node is refused, as is a
    /// definition that lacks one of its four parts; the parts are read in
    /// the order written, and the first that is refused is the error.
    ///
    /// Nodes of that shape which hold no more than `depth` levels are
    /// always read, and none is given up as too deep.
    pub fn parse(nodes: &[SyntaxNode], depth: usize) -> (r: Result<TopLevel, ParseError>)
        ensures
            outcome(r) == parsed_top_level(views(nodes@), depth as nat),
            r is Ok ==> top_level_conforms(views(nodes@)),
            top_level_conforms(views(nodes@)) && height(views(nodes@)) <= depth ==> r is Ok,
            r == Err::<TopLevel, ParseError>(ParseError::TooDeep) ==> height(views(nodes@)) > depth,
    {
        proof {
            let s = views(nodes@);
            if parsed_top_level(s, depth as nat) is Ok {
                lemma_read_top_level_conforms(s, depth as nat);
            }
            if height(s) <= depth {
                lemma_shallow_top_level(s, depth as nat);
            }
            if top_level_conforms(s) && height(s) <= depth {
                lemma_top_level_is_read(s, depth as nat);
            }
        }
        if nodes.len() == 0 {
            return Err(ParseError::Missing { expected: Expected::TopLevel });
        }
        proof {
            lemma_views_index(nodes@, 0);
        }
        match nodes[0].rule {
            Rule::FnDefTop => fn_def(nodes[0].children.as_slice(), depth),
            found => Err(ParseError::Unexpected { found, expected: Expected::TopLevel }),
        }
    }
}

/// Reads a function definition from its parts.
fn fn_def(parts: &[SyntaxNode], depth: usize) -> (r: Result<TopLevel, ParseError>)
    ensures
        outcome(r) == parsed_fn_def(views(parts@), depth as nat),
{
    if parts.len() < 1 {
        return Err(ParseError::Missing { expected: Expected::Name });
    }
    if parts.len() < 2 {
        return Err(ParseError::Missing { expected: Expected::Parameters });
    }
    proof {
        lemma_views_index(parts@, 0);
        lemma_views_index(parts@, 1);
    }
    let id = parts[0].text.clone();
    let args = match params(parts[1].children.as_slice()) {
        Ok(args) => args,
        Err(e) => {
            return Err(e);
        },
    };
    if parts.len() < 3 {
        return Err(ParseError::Missing { expected: Expected::ReturnType });
    }
    proof {
        lemma_views_index(parts@, 2);
    }
    let ret = if parts[2].children.len() == 0 {
        None
    } else {
        match Ty::parse(parts[2].children.as_slice()) {
            Ok(ty) => Some(ty),
            Err(e) => {
                return Err(e);
            },
        }
    };
    if parts.len() < 4 {
        return Err(ParseError::Missing { expected: Expected::Block });
    }
    proof {
        lemma_views_index(parts@, 3);
    }
    match Block::parse(parts[3].children.as_slice(), depth) {
        Err(e) => Err(e),
        Ok(block) => Ok(TopLevel::FnDef { id, args, ret, block }),
    }
}

/// Reads the parameters of a function, one declaration from inside each
/// node.
fn params(nodes: &[SyntaxNode]) -> (r: Result<Vec<VarDecl>, ParseError>)
    ensures
        match r {
            Ok(decls) => collect(param_results(views(nodes@))) == Ok::<
                Seq<VarDeclView>,
                ParseError,
            >(decl_views(decls@)),
            Err(e) => collect(param_results(views(nodes@))) == Err::<Seq<VarDeclView>, ParseError>(
                e,
            ),
        },
{
    let ghost results = param_results(views(nodes@));
    let mut decls: Vec<VarDecl> = Vec::new();
    let mut i: usize = 0;
    assert(decl_views(decls@) =~= Seq::empty());
    proof {
        if nodes@.len() > 0 {
            lemma_collect_step(results, 0);
        } else {
            assert(results.take(0) =~= results);
        }
    }
    while i < nodes.len()
        invariant
            i <= nodes@.len(),
            results == param_results(views(nodes@)),
            results.len() == nodes@.len(),
            collect(results.take(i as int)) == Ok::<Seq<VarDeclView>, ParseError>(
                decl_views(decls@),
            ),
        decreases nodes@.len() - i,
    {
        proof {
            lemma_views_index(nodes@, i as int);
            lemma_collect_step(results, i as int);
        }
        match VarDecl::parse(nodes[i].children.as_slice()) {
            Err(e) => {
                proof {
                    lemma_collect_fails(results, i + 1, e);
                }
                return Err(e);
            },
            Ok(decl) => {
                let ghost before = decls@;
                decls.push(decl);
                assert(decl_views(decls@) =~= decl_views(before).push(decl@));
            },
        }
        i = i + 1;
    }
    assert(results.take(i as int) =~= results);
    Ok(decls)
}

} // verus!
