//! Expressions, and the precedence climbing that builds them from a flat
//! run of operands and operators.
use crate::depth::lemma_shallow_expr;
use crate::error::{
    collect, lemma_collect_fails, lemma_collect_step, outcome, Expected, ParseError,
};
use crate::shape::{expr_conforms, lemma_expr_is_read, lemma_read_expr_conforms};
use crate::syntax::{
    height, lemma_children_views, lemma_views_index, views, NodeView, Rule, SyntaxNode,
};
use vstd::prelude::*;

verus! {

/// A prefix operator.
#[derive(Clone, Copy, Debug, PartialEq, Eq, Structural)]
pub enum UnaryOpTy {
    /// Arithmetic negation.
    Minus,
    /// Logical not.
    Neg,
}

/// A binary operator.
#[derive(Clone, Copy, Debug, PartialEq, Eq, Structural)]
pub enum BinOpTy {
    Add,
    Subtract,
    Multiply,
    Divide,
    Modulo,
    EqEq,
}

/// An expression. Names and literals keep the source text as it stood.
#[derive(Debug, PartialEq, Eq)]
#[allow(inconsistent_fields)]
pub enum Expr {
    Ident(String),
    Integer(String),
    FnCall { id: String, args: Vec<Expr> },
    UnaryOp { op: UnaryOpTy, ex: Box<Expr> },
    BinOp { lhs: Box<Expr>, op: BinOpTy, rhs: Box<Expr> },
}

/// The mathematical value of an [`Expr`].
#[allow(inconsistent_fields)]
pub enum ExprView {
    Ident(Seq<char>),
    Integer(Seq<char>),
    FnCall { id: Seq<char>, args: Seq<ExprView> },
    UnaryOp { op: UnaryOpTy, ex: Box<ExprView> },
    BinOp { lhs: Box<ExprView>, op: BinOpTy, rhs: Box<ExprView> },
}

impl Expr {
    /// The value of this expression.
    pub open spec fn value(self) -> ExprView
        decreases self,
    {
        match self {
            Expr::Ident(text) => ExprView::Ident(text@),
            Expr::Integer(text) => ExprView::Integer(text@),
            Expr::FnCall { id, args } => ExprView::FnCall {
                id: id@,
                args: Seq::new(
                    args@.len(),
                    |i: int|
                        if 0 <= i < args@.len() {
                            args@[i].value()
                        } else {
                            arbitrary()
                        },
                ),
            },
            Expr::UnaryOp { op, ex } => ExprView::UnaryOp { op, ex: Box::new((*ex).value()) },
            Expr::BinOp { lhs, op, rhs } => ExprView::BinOp {
                lhs: Box::new((*lhs).value()),
                op,
                rhs: Box::new((*rhs).value()),
            },
        }
    }
}

impl View for Expr {
    type V = ExprView;

    open spec fn view(&self) -> ExprView {
        self.value()
    }
}

/// The values of a sequence of expressions, in order.
pub open spec fn expr_views(exprs: Seq<Expr>) -> Seq<ExprView> {
    Seq::new(exprs.len(), |i: int| exprs[i]@)
}

/// The prefix operator that a node of kind `rule` stands for, if any.
pub open spec fn prefix_operator(rule: Rule) -> Option<UnaryOpTy> {
    match rule {
        Rule::UnaryMinus => Some(UnaryOpTy::Minus),
        Rule::UnaryNot => Some(UnaryOpTy::Neg),
        _ => None,
    }
}

/// The binary operator that a node of kind `rule` stands for, if any.
pub open spec fn infix_operator(rule: Rule) -> Option<BinOpTy> {
    match rule {
        Rule::Add => Some(BinOpTy::Add),
        Rule::Subtract => Some(BinOpTy::Subtract),
        Rule::Multiply => Some(BinOpTy::Multiply),
        Rule::Divide => Some(BinOpTy::Divide),
        Rule::Modulo => Some(BinOpTy::Modulo),
        Rule::EqEq => Some(BinOpTy::EqEq),
        _ => None,
    }
}

/// How tightly a binary operator binds: equality least, then the additive
/// operators, then the multiplicative ones.
pub open spec fn precedence(op: BinOpTy) -> nat {
    match op {
        BinOpTy::EqEq => 1,
        BinOpTy::Add | BinOpTy::Subtract => 2,
        BinOpTy::Multiply | BinOpTy::Divide | BinOpTy::Modulo => 3,
    }
}

/// Whether `rule` is a binary operator that binds at least as tightly as
/// `min`.
pub open spec fn binds_at_least(rule: Rule, min: nat) -> bool {
    match infix_operator(rule) {
        Some(op) => precedence(op) >= min,
        None => false,
    }
}

/// The lowest binding power, at which a whole expression is read.
pub const LOWEST: u8 = 1;

/// One past the highest binding power of any binary operator.
pub const ABOVE_ALL: u8 = 4;

/// The index just after the operand that starts at `i`: a run of prefix
/// operators and the one node they apply to.
pub open spec fn operand_end(s: Seq<NodeView>, i: int) -> int
    decreases s.len() - i,
{
    if 0 <= i < s.len() && prefix_operator(s[i].rule) is Some {
        operand_end(s, i + 1)
    } else {
        i + 1
    }
}

/// Where reading stops when it resumes just after an operand, at `i`, with
/// minimum binding power `min`: at the first following operator position
/// that holds no binary operator binding at least that tightly.
pub open spec fn climb_end(s: Seq<NodeView>, i: int, min: nat) -> int
    decreases s.len() + 1 - i,
{
    if 0 <= i < s.len() && binds_at_least(s[i].rule, min) {
        proof {
            lemma_operand_end_bounds(s, i + 1);
        }
        climb_end(s, operand_end(s, i + 1), min)
    } else {
        i
    }
}

/// An operand is never empty.
pub proof fn lemma_operand_end_bounds(s: Seq<NodeView>, i: int)
    ensures
        operand_end(s, i) > i,
        0 <= i <= s.len() ==> operand_end(s, i) <= s.len() + 1,
    decreases s.len() - i,
{
    if 0 <= i < s.len() && prefix_operator(s[i].rule) is Some {
        lemma_operand_end_bounds(s, i + 1);
    }
}

/// Reading never moves backwards.
pub proof fn lemma_climb_end_bounds(s: Seq<NodeView>, i: int, min: nat)
    ensures
        climb_end(s, i, min) >= i,
        0 <= i <= s.len() + 1 ==> climb_end(s, i, min) <= s.len() + 1,
    decreases s.len() + 1 - i,
{
    if 0 <= i < s.len() && binds_at_least(s[i].rule, min) {
        lemma_operand_end_bounds(s, i + 1);
        lemma_climb_end_bounds(s, operand_end(s, i + 1), min);
    }
}

/// The expression that the nodes `s` spell, read with nesting allowance
/// `depth`: operands joined by binary operators, grouped by precedence and
/// to the left among equals.
pub open spec fn parsed_expr(s: Seq<NodeView>, depth: nat) -> Result<ExprView, ParseError>
    decreases depth, 7int, 0int, 0int,
{
    climbed(s, 0, LOWEST as nat, depth)
}

/// What each argument of a call yields by itself: every node of `args`
/// wraps one expression.
pub open spec fn arg_results(args: Seq<NodeView>, depth: nat) -> Seq<Result<ExprView, ParseError>>
    decreases depth, 8int, 0int, 0int,
{
    Seq::new(args.len(), |i: int| parsed_expr(args[i].children, depth))
}

/// The arguments of a call, in source order, or the first failure among
/// them.
pub open spec fn parsed_args(args: Seq<NodeView>, depth: nat) -> Result<Seq<ExprView>, ParseError>
    decreases depth, 9int, 0int, 0int,
{
    collect(arg_results(args, depth))
}

/// The expression read from position `i` on while operators bind at least
/// as tightly as `min`.
pub open spec fn climbed(s: Seq<NodeView>, i: int, min: nat, depth: nat) -> Result<
    ExprView,
    ParseError,
>
    decreases depth, 5int, ABOVE_ALL + 1 - min, s.len() + 2 - i,
{
    if !(0 <= i < s.len()) {
        Err(ParseError::Missing { expected: Expected::Atom })
    } else {
        match parsed_operand(s, i, depth) {
            Err(e) => Err(e),
            Ok(lhs) => {
                proof {
                    lemma_operand_end_bounds(s, i);
                }
                climbed_on(s, lhs, operand_end(s, i), min, depth)
            },
        }
    }
}

/// The expression that grows from `lhs`, already read, when reading goes on
/// at position `i` with minimum binding power `min`.
pub open spec fn climbed_on(s: Seq<NodeView>, lhs: ExprView, i: int, min: nat, depth: nat) -> Result<
    ExprView,
    ParseError,
>
    decreases depth, 5int, ABOVE_ALL + 1 - min, s.len() + 1 - i,
{
    if !(0 <= i < s.len()) {
        Ok(lhs)
    } else {
        match infix_operator(s[i].rule) {
            None => Err(
                ParseError::Unexpected { found: s[i].rule, expected: Expected::InfixOperator },
            ),
            Some(op) => if precedence(op) < min {
                Ok(lhs)
            } else {
                match climbed(s, i + 1, precedence(op) + 1, depth) {
                    Err(e) => Err(e),
                    Ok(rhs) => {
                        proof {
                            lemma_operand_end_bounds(s, i + 1);
                            lemma_climb_end_bounds(s, operand_end(s, i + 1), precedence(op) + 1);
                        }
                        climbed_on(
                            s,
                            ExprView::BinOp { lhs: Box::new(lhs), op, rhs: Box::new(rhs) },
                            climb_end(s, operand_end(s, i + 1), precedence(op) + 1),
                            min,
                            depth,
                        )
                    },
                }
            },
        }
    }
}

/// The operand that starts at position `i`: prefix operators applied,
/// innermost last, to the atom that follows them.
pub open spec fn parsed_operand(s: Seq<NodeView>, i: int, depth: nat) -> Result<ExprView, ParseError>
    decreases depth, 4int, s.len() - i, 0int,
{
    if !(0 <= i < s.len()) {
        Err(ParseError::Missing { expected: Expected::Atom })
    } else {
        match prefix_operator(s[i].rule) {
            Some(op) => match parsed_operand(s, i + 1, depth) {
                Err(e) => Err(e),
                Ok(ex) => Ok(ExprView::UnaryOp { op, ex: Box::new(ex) }),
            },
            None => parsed_primary(s[i], depth),
        }
    }
}

/// The atom that one node stands for: a name, a literal, a call with its
/// arguments, or a nested expression read afresh.
pub open spec fn parsed_primary(n: NodeView, depth: nat) -> Result<ExprView, ParseError>
    decreases depth, 3int, 0int, 0int,
{
    match n.rule {
        Rule::Ident => Ok(ExprView::Ident(n.text)),
        Rule::Integer => Ok(ExprView::Integer(n.text)),
        Rule::Expr => if depth == 0 {
            Err(ParseError::TooDeep)
        } else {
            parsed_expr(n.children, (depth - 1) as nat)
        },
        Rule::FnCall => if n.children.len() < 1 {
            Err(ParseError::Missing { expected: Expected::Name })
        } else if n.children.len() < 2 {
            Err(ParseError::Missing { expected: Expected::Arguments })
        } else if depth == 0 {
            Err(ParseError::TooDeep)
        } else {
            match parsed_args(n.children[1].children, (depth - 1) as nat) {
                Err(e) => Err(e),
                Ok(args) => Ok(ExprView::FnCall { id: n.children[0].text, args }),
            }
        },
        found => Err(ParseError::Unexpected { found, expected: Expected::Atom }),
    }
}

/// Reading on with a lower binding power from where a higher one stopped
/// ends where reading with the lower one all along would have.
pub proof fn lemma_climb_end_resume(s: Seq<NodeView>, i: int, high: nat, low: nat)
    requires
        low <= high,
    ensures
        climb_end(s, climb_end(s, i, high), low) == climb_end(s, i, low),
    decreases s.len() + 1 - i,
{
    if 0 <= i < s.len() && binds_at_least(s[i].rule, high) {
        lemma_operand_end_bounds(s, i + 1);
        lemma_climb_end_resume(s, operand_end(s, i + 1), high, low);
    }
}

/// A failure behind a run of prefix operators is the failure of the whole
/// operand.
pub proof fn lemma_operand_fails(s: Seq<NodeView>, from: int, to: int, depth: nat)
    requires
        0 <= from <= to <= s.len(),
        forall|k: int| from <= k < to ==> prefix_operator(#[trigger] s[k].rule) is Some,
        parsed_operand(s, to, depth) is Err,
    ensures
        parsed_operand(s, from, depth) == parsed_operand(s, to, depth),
    decreases to - from,
{
    if from < to {
        lemma_operand_fails(s, from + 1, to, depth);
    }
}

/// The value of a call is made of the values of its parts.
pub proof fn lemma_call_view(id: String, args: Vec<Expr>)
    ensures
        (Expr::FnCall { id, args })@ == (ExprView::FnCall { id: id@, args: expr_views(args@) }),
{
    assert((Expr::FnCall { id, args })@->FnCall_args =~= expr_views(args@));
}

impl UnaryOpTy {
    /// The prefix operator that a node of kind `rule` stands for, if any.
    pub fn from_rule(rule: Rule) -> (r: Option<UnaryOpTy>)
        ensures
            r == prefix_operator(rule),
    {
        match rule {
            Rule::UnaryMinus => Some(UnaryOpTy::Minus),
            Rule::UnaryNot => Some(UnaryOpTy::Neg),
            _ => None,
        }
    }
}

impl BinOpTy {
    /// The binary operator that a node of kind `rule` stands for, if any.
    pub fn from_rule(rule: Rule) -> (r: Option<BinOpTy>)
        ensures
            r == infix_operator(rule),
    {
        match rule {
            Rule::Add => Some(BinOpTy::Add),
            Rule::Subtract => Some(BinOpTy::Subtract),
            Rule::Multiply => Some(BinOpTy::Multiply),
            Rule::Divide => Some(BinOpTy::Divide),
            Rule::Modulo => Some(BinOpTy::Modulo),
            Rule::EqEq => Some(BinOpTy::EqEq),
            _ => None,
        }
    }

    /// How tightly this operator binds, between [`LOWEST`] and
    /// [`ABOVE_ALL`]` - 1`.
    pub fn precedence(self) -> (p: u8)
        ensures
            p == precedence(self),
            LOWEST <= p < ABOVE_ALL,
    {
        match self {
            BinOpTy::EqEq => 1,
            BinOpTy::Add | BinOpTy::Subtract => 2,
            BinOpTy::Multiply | BinOpTy::Divide | BinOpTy::Modulo => 3,
        }
    }
}

impl Expr {
    /// Builds the expression that `nodes` spell: operands, each an atom
    /// behind any number of prefix operators, with one binary operator
    /// between every two.
    ///
    /// Binary operators group by precedence and, among equals, to the
    /// left; a prefix operator binds tighter than any of them. A nested
    /// expression and the arguments of a call are read in the same way
    /// from the children of their nodes, with one level of `depth` less.
    ///
    /// The first fault from the left is the error: a node that is neither
    /// atom nor prefix operator where an operand must start, a node that
    /// is no binary operator where one must stand, the end of the nodes
    /// where an operand must start, a call that lacks its name or its
    /// argument list, or, with `depth` used up, a nested expression or a
    /// call.
    ///
    /// Nodes of that shape which hold no more than `depth` levels are
    /// always read, and none is given up as too deep.
    ///
    /// The calls this makes to itself are for nested input only, each with
    /// `depth` lowered by one, so they never nest deeper than `depth`.
    pub fn parse(nodes: &[SyntaxNode], depth: usize) -> (r: Result<Expr, ParseError>)
        ensures
            outcome(r) == parsed_expr(views(nodes@), depth as nat),
            r is Ok ==> expr_conforms(views(nodes@)),
            expr_conforms(views(nodes@)) && height(views(nodes@)) <= depth ==> r is Ok,
            r == Err::<Expr, ParseError>(ParseError::TooDeep) ==> height(views(nodes@)) > depth,
        decreases depth, 7int, 0int, 0int,
    {
        proof {
            let s = views(nodes@);
            if parsed_expr(s, depth as nat) is Ok {
                lemma_read_expr_conforms(s, depth as nat);
            }
            if height(s) <= depth {
                lemma_shallow_expr(s, depth as nat);
            }
            if expr_conforms(s) && height(s) <= depth {
                lemma_expr_is_read(s, depth as nat);
            }
        }
        match climb(nodes, 0, LOWEST, depth) {
            Ok((expr, _)) => Ok(expr),
            Err(e) => Err(e),
        }
    }
}

/// Reads from `start` on while operators bind at least as tightly as `min`;
/// returns the expression and the index where reading stopped.
fn climb(nodes: &[SyntaxNode], start: usize, min: u8, depth: usize) -> (r: Result<
    (Expr, usize),
    ParseError,
>)
    requires
        start <= nodes@.len(),
        LOWEST <= min <= ABOVE_ALL,
    ensures
        match r {
            Ok((expr, end)) => {
                &&& climbed(views(nodes@), start as int, min as nat, depth as nat) == Ok::<
                    ExprView,
                    ParseError,
                >(expr@)
                &&& end == climb_end(
                    views(nodes@),
                    operand_end(views(nodes@), start as int),
                    min as nat,
                )
                &&& start < end <= nodes@.len()
            },
            Err(e) => climbed(views(nodes@), start as int, min as nat, depth as nat) == Err::<
                ExprView,
                ParseError,
            >(e),
        },
    decreases depth, 5int, ABOVE_ALL + 1 - min, 0int,
{
    let ghost s = views(nodes@);
    if start >= nodes.len() {
        return Err(ParseError::Missing { expected: Expected::Atom });
    }
    let (first, after) = match operand(nodes, start, depth) {
        Ok(read) => read,
        Err(e) => {
            return Err(e);
        },
    };
    let mut lhs = first;
    let mut pos: usize = after;
    loop
        invariant
            s == views(nodes@),
            s.len() == nodes@.len(),
            LOWEST <= min <= ABOVE_ALL,
            start < pos <= nodes@.len(),
            climbed(s, start as int, min as nat, depth as nat) == climbed_on(
                s,
                lhs@,
                pos as int,
                min as nat,
                depth as nat,
            ),
            climb_end(s, operand_end(s, start as int), min as nat) == climb_end(
                s,
                pos as int,
                min as nat,
            ),
        decreases nodes@.len() - pos,
    {
        if pos >= nodes.len() {
            return Ok((lhs, pos));
        }
        let rule = nodes[pos].rule;
        proof {
            lemma_views_index(nodes@, pos as int);
        }
        match BinOpTy::from_rule(rule) {
            None => {
                return Err(
                    ParseError::Unexpected { found: rule, expected: Expected::InfixOperator },
                );
            },
            Some(op) => {
                let p = op.precedence();
                if p < min {
                    return Ok((lhs, pos));
                }
                match climb(nodes, pos + 1, p + 1, depth) {
                    Err(e) => {
                        return Err(e);
                    },
                    Ok((rhs, end)) => {
                        proof {
                            lemma_climb_end_resume(
                                s,
                                operand_end(s, pos + 1),
                                (p + 1) as nat,
                                min as nat,
                            );
                        }
                        lhs = Expr::BinOp { lhs: Box::new(lhs), op, rhs: Box::new(rhs) };
                        pos = end;
                    },
                }
            },
        }
    }
}

/// Reads the operand that starts at `start`; returns it and the index just
/// after it.
fn operand(nodes: &[SyntaxNode], start: usize, depth: usize) -> (r: Result<
    (Expr, usize),
    ParseError,
>)
    requires
        start < nodes@.len(),
    ensures
        match r {
            Ok((expr, end)) => {
                &&& parsed_operand(views(nodes@), start as int, depth as nat) == Ok::<
                    ExprView,
                    ParseError,
                >(expr@)
                &&& end == operand_end(views(nodes@), start as int)
                &&& start < end <= nodes@.len()
            },
            Err(e) => parsed_operand(views(nodes@), start as int, depth as nat) == Err::<
                ExprView,
                ParseError,
            >(e),
        },
    decreases depth, 4int, 0int, 0int,
{
    let ghost s = views(nodes@);
    let mut ops: Vec<UnaryOpTy> = Vec::new();
    let mut at: usize = start;
    loop
        invariant
            s == views(nodes@),
            s.len() == nodes@.len(),
            start <= at <= nodes@.len(),
            ops@.len() == at - start,
            forall|k: int|
                start <= k < at ==> prefix_operator(#[trigger] s[k].rule) == Some(ops@[k - start]),
            operand_end(s, start as int) == operand_end(s, at as int),
        ensures
            at < nodes@.len() ==> prefix_operator(s[at as int].rule) is None,
        decreases nodes@.len() - at,
    {
        if at >= nodes.len() {
            break ;
        }
        proof {
            lemma_views_index(nodes@, at as int);
        }
        match UnaryOpTy::from_rule(nodes[at].rule) {
            None => {
                break ;
            },
            Some(op) => {
                ops.push(op);
                at = at + 1;
            },
        }
    }
    if at >= nodes.len() {
        proof {
            lemma_operand_fails(s, start as int, at as int, depth as nat);
        }
        return Err(ParseError::Missing { expected: Expected::Atom });
    }
    proof {
        lemma_views_index(nodes@, at as int);
    }
    let mut expr = match primary(&nodes[at], depth) {
        Ok(atom) => atom,
        Err(e) => {
            proof {
                lemma_operand_fails(s, start as int, at as int, depth as nat);
            }
            return Err(e);
        },
    };
    while ops.len() > 0
        invariant
            s == views(nodes@),
            start + ops@.len() <= at < s.len(),
            forall|k: int|
                start <= k < start + ops@.len() ==> prefix_operator(#[trigger] s[k].rule) == Some(
                    ops@[k - start],
                ),
            parsed_operand(s, start + ops@.len(), depth as nat) == Ok::<ExprView, ParseError>(
                expr@,
            ),
        decreases ops@.len(),
    {
        let ghost k = start + ops@.len() - 1;
        assert(prefix_operator(s[k].rule) == Some(ops@[k - start]));
        let op = ops.pop().unwrap();
        expr = Expr::UnaryOp { op, ex: Box::new(expr) };
    }
    Ok((expr, at + 1))
}

/// Reads the atom that one node stands for.
fn primary(node: &SyntaxNode, depth: usize) -> (r: Result<Expr, ParseError>)
    ensures
        outcome(r) == parsed_primary(node@, depth as nat),
    decreases depth, 3int, 0int, 0int,
{
    proof {
        lemma_children_views(*node);
    }
    match node.rule {
        Rule::Ident => Ok(Expr::Ident(node.text.clone())),
        Rule::Integer => Ok(Expr::Integer(node.text.clone())),
        Rule::Expr => {
            if depth == 0 {
                Err(ParseError::TooDeep)
            } else {
                Expr::parse(node.children.as_slice(), depth - 1)
            }
        },
        Rule::FnCall => {
            if node.children.len() < 1 {
                return Err(ParseError::Missing { expected: Expected::Name });
            }
            if node.children.len() < 2 {
                return Err(ParseError::Missing { expected: Expected::Arguments });
            }
            if depth == 0 {
                return Err(ParseError::TooDeep);
            }
            proof {
                lemma_views_index(node.children@, 0);
                lemma_views_index(node.children@, 1);
            }
            match call_args(node.children[1].children.as_slice(), depth - 1) {
                Err(e) => Err(e),
                Ok(args) => {
                    let id = node.children[0].text.clone();
                    proof {
                        lemma_call_view(id, args);
                    }
                    Ok(Expr::FnCall { id, args })
                },
            }
        },
        found => Err(ParseError::Unexpected { found, expected: Expected::Atom }),
    }
}

/// Reads the arguments of a call, one expression from inside each node.
fn call_args(args: &[SyntaxNode], depth: usize) -> (r: Result<Vec<Expr>, ParseError>)
    ensures
        match r {
            Ok(exprs) => parsed_args(views(args@), depth as nat) == Ok::<
                Seq<ExprView>,
                ParseError,
            >(expr_views(exprs@)),
            Err(e) => parsed_args(views(args@), depth as nat) == Err::<Seq<ExprView>, ParseError>(
                e,
            ),
        },
    decreases depth, 9int, 0int, 0int,
{
    let ghost results = arg_results(views(args@), depth as nat);
    let mut exprs: Vec<Expr> = Vec::new();
    let mut i: usize = 0;
    assert(expr_views(exprs@) =~= Seq::empty());
    proof {
        if args@.len() > 0 {
            lemma_collect_step(results, 0);
        } else {
            assert(results.take(0) =~= results);
        }
    }
    while i < args.len()
        invariant
            i <= args@.len(),
            results == arg_results(views(args@), depth as nat),
            results.len() == args@.len(),
            collect(results.take(i as int)) == Ok::<Seq<ExprView>, ParseError>(expr_views(exprs@)),
        decreases args@.len() - i,
    {
        proof {
            lemma_views_index(args@, i as int);
            lemma_collect_step(results, i as int);
        }
        match Expr::parse(args[i].children.as_slice(), depth) {
            Err(e) => {
                proof {
                    lemma_collect_fails(results, i + 1, e);
                }
                return Err(e);
            },
            Ok(expr) => {
                let ghost before = exprs@;
                exprs.push(expr);
                assert(expr_views(exprs@) =~= expr_views(before).push(expr@));
            },
        }
        i = i + 1;
    }
    assert(results.take(i as int) =~= results);
    Ok(exprs)
}

} // verus!
