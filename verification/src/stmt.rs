//! Types, variable declarations, statements and blocks.
use crate::depth::{lemma_shallow_block, lemma_shallow_stmt};
use crate::error::{
    collect, lemma_collect_fails, lemma_collect_step, outcome, Expected, ParseError,
};
use crate::expr::{parsed_expr, Expr, ExprView};
use crate::shape::{
    block_conforms, decl_conforms, lemma_block_is_read, lemma_decl_read_iff_conforms,
    lemma_read_block_conforms, lemma_read_stmt_conforms, lemma_stmt_is_read,
    lemma_type_read_iff_conforms, stmt_conforms, type_conforms,
};
use crate::syntax::{height, lemma_views_index, views, NodeView, Rule, SyntaxNode};
use vstd::prelude::*;

verus! {

/// A built-in type.
#[derive(Clone, Copy, Debug, PartialEq, Eq, Structural)]
pub enum Ty {
    U8,
    U16,
    U32,
    I8,
    I16,
    I32,
    Bool,
}

/// A name and its type.
#[derive(Debug, PartialEq, Eq)]
pub struct VarDecl {
    pub id: String,
    pub ty: Ty,
}

/// The mathematical value of a [`VarDecl`].
pub struct VarDeclView {
    pub id: Seq<char>,
    pub ty: Ty,
}

impl View for VarDecl {
    type V = VarDeclView;

    open spec fn view(&self) -> VarDeclView {
        VarDeclView { id: self.id@, ty: self.ty }
    }
}

/// The values of a sequence of declarations, in order.
pub open spec fn decl_views(decls: Seq<VarDecl>) -> Seq<VarDeclView> {
    Seq::new(decls.len(), |i: int| decls[i]@)
}

/// Statements in source order.
#[derive(Debug, PartialEq, Eq)]
pub struct Block {
    pub block: Vec<Stmt>,
}

/// The mathematical value of a [`Block`].
pub struct BlockView {
    pub block: Seq<StmtView>,
}

/// A statement.
#[derive(Debug, PartialEq, Eq)]
#[allow(inconsistent_fields)]
pub enum Stmt {
    Expr { expr: Expr },
    VarDef { decl: VarDecl, assign: Option<Expr> },
    Block { block: Block },
    Return { expr: Expr },
    IfElse { cond: Expr, ifb: Block, elseb: Option<Block> },
}

/// The mathematical value of a [`Stmt`].
#[allow(inconsistent_fields)]
pub enum StmtView {
    Expr { expr: ExprView },
    VarDef { decl: VarDeclView, assign: Option<ExprView> },
    Block { block: BlockView },
    Return { expr: ExprView },
    IfElse { cond: ExprView, ifb: BlockView, elseb: Option<BlockView> },
}

impl Block {
    /// The value of this block.
    pub open spec fn value(self) -> BlockView
        decreases self,
    {
        BlockView {
            block: Seq::new(
                self.block@.len(),
                |i: int|
                    if 0 <= i < self.block@.len() {
                        self.block@[i].value()
                    } else {
                        arbitrary()
                    },
            ),
        }
    }
}

impl Stmt {
    /// The value of this statement.
    pub open spec fn value(self) -> StmtView
        decreases self,
    {
        match self {
            Stmt::Expr { expr } => StmtView::Expr { expr: expr@ },
            Stmt::VarDef { decl, assign } => StmtView::VarDef {
                decl: decl@,
                assign: match assign {
                    Some(init) => Some(init@),
                    None => None,
                },
            },
            Stmt::Block { block } => StmtView::Block { block: block.value() },
            Stmt::Return { expr } => StmtView::Return { expr: expr@ },
            Stmt::IfElse { cond, ifb, elseb } => StmtView::IfElse {
                cond: cond@,
                ifb: ifb.value(),
                elseb: match elseb {
                    Some(block) => Some(block.value()),
                    None => None,
                },
            },
        }
    }
}

impl View for Block {
    type V = BlockView;

    open spec fn view(&self) -> BlockView {
        self.value()
    }
}

impl View for Stmt {
    type V = StmtView;

    open spec fn view(&self) -> StmtView {
        self.value()
    }
}

/// The values of a sequence of statements, in order.
pub open spec fn stmt_views(stmts: Seq<Stmt>) -> Seq<StmtView> {
    Seq::new(stmts.len(), |i: int| stmts[i]@)
}

/// The type that the first node of `s` names.
pub open spec fn parsed_type(s: Seq<NodeView>) -> Result<Ty, ParseError> {
    if s.len() == 0 {
        Err(ParseError::Missing { expected: Expected::Type })
    } else {
        match s[0].rule {
            Rule::TyI8 => Ok(Ty::I8),
            Rule::TyI16 => Ok(Ty::I16),
            Rule::TyI32 => Ok(Ty::I32),
            Rule::TyU8 => Ok(Ty::U8),
            Rule::TyU16 => Ok(Ty::U16),
            Rule::TyU32 => Ok(Ty::U32),
            Rule::TyBool => Ok(Ty::Bool),
            found => Err(ParseError::Unexpected { found, expected: Expected::Type }),
        }
    }
}

/// The declaration that `s` spells: the text of the first node is the
/// name, the node after it names the type.
pub open spec fn parsed_var_decl(s: Seq<NodeView>) -> Result<VarDeclView, ParseError> {
    if s.len() == 0 {
        Err(ParseError::Missing { expected: Expected::Name })
    } else {
        match parsed_type(s.skip(1)) {
            Err(e) => Err(e),
            Ok(ty) => Ok(VarDeclView { id: s[0].text, ty }),
        }
    }
}

/// The variable definition whose parts are `c`: a node that wraps the
/// declaration and, if an initializer was written, a node that wraps it.
pub open spec fn parsed_var_def(c: Seq<NodeView>, depth: nat) -> Result<StmtView, ParseError> {
    if c.len() == 0 {
        Err(ParseError::Missing { expected: Expected::Declaration })
    } else {
        match parsed_var_decl(c[0].children) {
            Err(e) => Err(e),
            Ok(decl) => if c.len() < 2 {
                Ok(StmtView::VarDef { decl, assign: None })
            } else {
                match parsed_expr(c[1].children, depth) {
                    Err(e) => Err(e),
                    Ok(init) => Ok(StmtView::VarDef { decl, assign: Some(init) }),
                }
            },
        }
    }
}

/// What each statement of a block yields by itself: every node of `s` wraps
/// one statement, which lies one level deeper than the block.
pub open spec fn stmt_results(s: Seq<NodeView>, depth: nat) -> Seq<Result<StmtView, ParseError>>
    decreases depth, 1int,
{
    Seq::new(
        s.len(),
        |i: int|
            if depth == 0 {
                Err(ParseError::TooDeep)
            } else {
                parsed_stmt(s[i].children, (depth - 1) as nat)
            },
    )
}

/// The block whose statements the nodes `s` wrap, in source order, or the
/// first failure among them.
pub open spec fn parsed_block(s: Seq<NodeView>, depth: nat) -> Result<BlockView, ParseError>
    decreases depth, 2int,
{
    match collect(stmt_results(s, depth)) {
        Err(e) => Err(e),
        Ok(block) => Ok(BlockView { block }),
    }
}

/// The conditional whose parts are `c`: nodes that wrap the condition, the
/// block to run when it holds and, if one was written, the block to run
/// otherwise.
pub open spec fn parsed_if(c: Seq<NodeView>, depth: nat) -> Result<StmtView, ParseError>
    decreases depth, 3int,
{
    if c.len() == 0 {
        Err(ParseError::Missing { expected: Expected::Condition })
    } else {
        match parsed_expr(c[0].children, depth) {
            Err(e) => Err(e),
            Ok(cond) => if c.len() < 2 {
                Err(ParseError::Missing { expected: Expected::Block })
            } else {
                match parsed_block(c[1].children, depth) {
                    Err(e) => Err(e),
                    Ok(ifb) => if c.len() < 3 {
                        Ok(StmtView::IfElse { cond, ifb, elseb: None })
                    } else {
                        match parsed_block(c[2].children, depth) {
                            Err(e) => Err(e),
                            Ok(elseb) => Ok(StmtView::IfElse { cond, ifb, elseb: Some(elseb) }),
                        }
                    },
                }
            },
        }
    }
}

/// The statement that the first node of `s` stands for, chosen by its
/// kind.
pub open spec fn parsed_stmt(s: Seq<NodeView>, depth: nat) -> Result<StmtView, ParseError>
    decreases depth, 4int,
{
    if s.len() == 0 {
        Err(ParseError::Missing { expected: Expected::Statement })
    } else {
        match s[0].rule {
            Rule::BlockStmt => match parsed_block(s[0].children, depth) {
                Err(e) => Err(e),
                Ok(block) => Ok(StmtView::Block { block }),
            },
            Rule::Expr => match parsed_expr(s[0].children, depth) {
                Err(e) => Err(e),
                Ok(expr) => Ok(StmtView::Expr { expr }),
            },
            Rule::VarDeclStmt => parsed_var_def(s[0].children, depth),
            Rule::RetStmt => match parsed_expr(s[0].children, depth) {
                Err(e) => Err(e),
                Ok(expr) => Ok(StmtView::Return { expr }),
            },
            Rule::IfStmt => parsed_if(s[0].children, depth),
            found => Err(ParseError::Unexpected { found, expected: Expected::Statement }),
        }
    }
}

/// The value of a block is made of the values of its statements.
pub proof fn lemma_block_view(stmts: Vec<Stmt>)
    ensures
        (Block { block: stmts })@ == (BlockView { block: stmt_views(stmts@) }),
{
    assert((Block { block: stmts })@.block =~= stmt_views(stmts@));
}

/// Reads the type that the node at `at` names.
fn type_at(nodes: &[SyntaxNode], at: usize) -> (r: Result<Ty, ParseError>)
    requires
        at <= nodes@.len(),
    ensures
        r == parsed_type(views(nodes@).skip(at as int)),
{
    if at >= nodes.len() {
        return Err(ParseError::Missing { expected: Expected::Type });
    }
    proof {
        lemma_views_index(nodes@, at as int);
    }
    match nodes[at].rule {
        Rule::TyI8 => Ok(Ty::I8),
        Rule::TyI16 => Ok(Ty::I16),
        Rule::TyI32 => Ok(Ty::I32),
        Rule::TyU8 => Ok(Ty::U8),
        Rule::TyU16 => Ok(Ty::U16),
        Rule::TyU32 => Ok(Ty::U32),
        Rule::TyBool => Ok(Ty::Bool),
        found => Err(ParseError::Unexpected { found, expected: Expected::Type }),
    }
}

impl Ty {
    /// Reads the type that the first of `nodes` names; what follows it is
    /// not looked at. Nodes that do not start with a type are refused:
    /// none as [`ParseError::Missing`], any other as
    /// [`ParseError::Unexpected`].
    pub fn parse(nodes: &[SyntaxNode]) -> (r: Result<Ty, ParseError>)
        ensures
            r == parsed_type(views(nodes@)),
            r is Ok <==> type_conforms(views(nodes@)),
    {
        assert(views(nodes@).skip(0) =~= views(nodes@));
        proof {
            lemma_type_read_iff_conforms(views(nodes@));
        }
        type_at(nodes, 0)
    }
}

impl VarDecl {
    /// Reads a declaration: the first of `nodes` gives the name by its
    /// text, whatever its kind; the second names the type. Nodes without
    /// a first are refused for the missing name, others as their type is.
    pub fn parse(nodes: &[SyntaxNode]) -> (r: Result<VarDecl, ParseError>)
        ensures
            outcome(r) == parsed_var_decl(views(nodes@)),
            r is Ok <==> decl_conforms(views(nodes@)),
    {
        proof {
            lemma_decl_read_iff_conforms(views(nodes@));
        }
        if nodes.len() == 0 {
            return Err(ParseError::Missing { expected: Expected::Name });
        }
        proof {
            lemma_views_index(nodes@, 0);
        }
        let id = nodes[0].text.clone();
        match type_at(nodes, 1) {
            Err(e) => Err(e),
            Ok(ty) => Ok(VarDecl { id, ty }),
        }
    }
}

impl Block {
    /// Reads a block: each of `nodes` wraps one statement. The statements
    /// keep their order, and lie one level of `depth` below the block, so
    /// that with `depth` used up only the empty block is read. The first
    /// statement from the left that is refused is the error.
    ///
    /// Nodes of that shape which hold no more than `depth` levels are
    /// always read, and none is given up as too deep. The calls this makes
    /// to itself never nest deeper than `depth`.
    pub fn parse(nodes: &[SyntaxNode], depth: usize) -> (r: Result<Block, ParseError>)
        ensures
            outcome(r) == parsed_block(views(nodes@), depth as nat),
            r is Ok ==> block_conforms(views(nodes@)),
            block_conforms(views(nodes@)) && height(views(nodes@)) <= depth ==> r is Ok,
            r == Err::<Block, ParseError>(ParseError::TooDeep) ==> height(views(nodes@)) > depth,
        decreases depth, 2int,
    {
        proof {
            let s = views(nodes@);
            if parsed_block(s, depth as nat) is Ok {
                lemma_read_block_conforms(s, depth as nat);
            }
            if height(s) <= depth {
                lemma_shallow_block(s, depth as nat);
            }
            if block_conforms(s) && height(s) <= depth {
                lemma_block_is_read(s, depth as nat);
            }
        }
        let ghost results = stmt_results(views(nodes@), depth as nat);
        let mut stmts: Vec<Stmt> = Vec::new();
        let mut i: usize = 0;
        assert(stmt_views(stmts@) =~= Seq::empty());
        proof {
            if nodes@.len() > 0 {
                lemma_collect_step(results, 0);
            } else {
                assert(results.take(0) =~= results);
            }
        }
        while i < nodes.len()
            invariant
                i <= nodes@.len(),
                results == stmt_results(views(nodes@), depth as nat),
                results.len() == nodes@.len(),
                collect(results.take(i as int)) == Ok::<Seq<StmtView>, ParseError>(
                    stmt_views(stmts@),
                ),
                block_conforms(views(nodes@)) && height(views(nodes@)) <= depth ==> parsed_block(
                    views(nodes@),
                    depth as nat,
                ) is Ok,
                height(views(nodes@)) <= depth ==> parsed_block(views(nodes@), depth as nat)
                    != Err::<BlockView, ParseError>(ParseError::TooDeep),
            decreases nodes@.len() - i,
        {
            proof {
                lemma_views_index(nodes@, i as int);
                lemma_collect_step(results, i as int);
            }
            if depth == 0 {
                proof {
                    lemma_collect_fails(results, i + 1, ParseError::TooDeep);
                }
                return Err(ParseError::TooDeep);
            }
            match Stmt::parse(nodes[i].children.as_slice(), depth - 1) {
                Err(e) => {
                    proof {
                        lemma_collect_fails(results, i + 1, e);
                    }
                    return Err(e);
                },
                Ok(stmt) => {
                    let ghost before = stmts@;
                    stmts.push(stmt);
                    assert(stmt_views(stmts@) =~= stmt_views(before).push(stmt@));
                },
            }
            i = i + 1;
        }
        assert(results.take(i as int) =~= results);
        proof {
            lemma_block_view(stmts);
        }
        Ok(Block { block: stmts })
    }
}

impl Stmt {
    /// Reads the statement that the first of `nodes` stands for; what
    /// follows it is not looked at.
    ///
    /// A block statement holds its statements; an expression statement and
    /// a return hold the expression that their nodes spell; a variable
    /// definition holds its declaration and, if present, its initializer; a
    /// conditional holds its condition, its block and, if present, its
    /// alternative. Any other kind of node is refused, as is a statement
    /// that lacks a part it must have; the parts are read in the order
    /// written, and the first that is refused is the error.
    ///
    /// Nodes of that shape which hold no more than `depth` levels are
    /// always read, and none is given up as too deep. The calls this makes
    /// to itself never nest deeper than `depth`.
    pub fn parse(nodes: &[SyntaxNode], depth: usize) -> (r: Result<Stmt, ParseError>)
        ensures
            outcome(r) == parsed_stmt(views(nodes@), depth as nat),
            r is Ok ==> stmt_conforms(views(nodes@)),
            stmt_conforms(views(nodes@)) && height(views(nodes@)) <= depth ==> r is Ok,
            r == Err::<Stmt, ParseError>(ParseError::TooDeep) ==> height(views(nodes@)) > depth,
        decreases depth, 4int,
    {
        proof {
            let s = views(nodes@);
            if parsed_stmt(s, depth as nat) is Ok {
                lemma_read_stmt_conforms(s, depth as nat);
            }
            if height(s) <= depth {
                lemma_shallow_stmt(s, depth as nat);
            }
            if stmt_conforms(s) && height(s) <= depth {
                lemma_stmt_is_read(s, depth as nat);
            }
        }
        if nodes.len() == 0 {
            return Err(ParseError::Missing { expected: Expected::Statement });
        }
        let node = &nodes[0];
        proof {
            lemma_views_index(nodes@, 0);
        }
        match node.rule {
            Rule::BlockStmt => match Block::parse(node.children.as_slice(), depth) {
                Err(e) => Err(e),
                Ok(block) => Ok(Stmt::Block { block }),
            },
            Rule::Expr => match Expr::parse(node.children.as_slice(), depth) {
                Err(e) => Err(e),
                Ok(expr) => Ok(Stmt::Expr { expr }),
            },
            Rule::VarDeclStmt => var_def(node.children.as_slice(), depth),
            Rule::RetStmt => match Expr::parse(node.children.as_slice(), depth) {
                Err(e) => Err(e),
                Ok(expr) => Ok(Stmt::Return { expr }),
            },
            Rule::IfStmt => if_else(node.children.as_slice(), depth),
            found => Err(ParseError::Unexpected { found, expected: Expected::Statement }),
        }
    }
}

/// Reads a variable definition from its parts.
fn var_def(parts: &[SyntaxNode], depth: usize) -> (r: Result<Stmt, ParseError>)
    ensures
        outcome(r) == parsed_var_def(views(parts@), depth as nat),
{
    if parts.len() == 0 {
        return Err(ParseError::Missing { expected: Expected::Declaration });
    }
    proof {
        lemma_views_index(parts@, 0);
    }
    let decl = match VarDecl::parse(parts[0].children.as_slice()) {
        Ok(decl) => decl,
        Err(e) => {
            return Err(e);
        },
    };
    if parts.len() < 2 {
        return Ok(Stmt::VarDef { decl, assign: None });
    }
    proof {
        lemma_views_index(parts@, 1);
    }
    match Expr::parse(parts[1].children.as_slice(), depth) {
        Err(e) => Err(e),
        Ok(init) => Ok(Stmt::VarDef { decl, assign: Some(init) }),
    }
}

/// Reads a conditional from its parts.
fn if_else(parts: &[SyntaxNode], depth: usize) -> (r: Result<Stmt, ParseError>)
    ensures
        outcome(r) == parsed_if(views(parts@), depth as nat),
    decreases depth, 3int,
{
    if parts.len() == 0 {
        return Err(ParseError::Missing { expected: Expected::Condition });
    }
    proof {
        lemma_views_index(parts@, 0);
    }
    let cond = match Expr::parse(parts[0].children.as_slice(), depth) {
        Ok(cond) => cond,
        Err(e) => {
            return Err(e);
        },
    };
    if parts.len() < 2 {
        return Err(ParseError::Missing { expected: Expected::Block });
    }
    proof {
        lemma_views_index(parts@, 1);
    }
    let ifb = match Block::parse(parts[1].children.as_slice(), depth) {
        Ok(block) => block,
        Err(e) => {
            return Err(e);
        },
    };
    if parts.len() < 3 {
        return Ok(Stmt::IfElse { cond, ifb, elseb: None });
    }
    proof {
        lemma_views_index(parts@, 2);
    }
    match Block::parse(parts[2].children.as_slice(), depth) {
        Err(e) => Err(e),
        Ok(elseb) => Ok(Stmt::IfElse { cond, ifb, elseb: Some(elseb) }),
    }
}

} // verus!
