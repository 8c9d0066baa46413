//! The nodes that the grammar engine hands to the tree builder.
use vstd::prelude::*;

verus! {

/// The grammatical construct that a syntax node stands for.
///
/// The builder tells nodes apart by this tag alone. Where a variant names
/// the children of its node, that is the shape the builder relies on; the
/// kinds of nodes that only wrap others are never looked at.
#[derive(Clone, Copy, Debug, PartialEq, Eq, PartialOrd, Ord, Hash, Structural)]
pub enum Rule {
    /// A translation unit. Children: its entries.
    TransUnit,
    /// An entry of a translation unit. Children: one top-level declaration.
    TopLevel,
    /// The entry that marks the end of the input. No children.
    EndOfInput,
    /// A function definition. Children: the name, the parameter list, the
    /// return-type slot and the body.
    FnDefTop,
    /// A parameter list. Children: one declaration wrapper for each
    /// parameter.
    FnParams,
    /// A return-type slot. Children: a type, or none.
    FnRet,
    /// The statements between a pair of braces. Children: one statement
    /// wrapper for each statement.
    Block,
    /// A statement wrapper. Children: the statement.
    Stmt,
    /// A block used as a statement. Children: one statement wrapper for
    /// each statement.
    BlockStmt,
    /// A variable definition. Children: a declaration wrapper and, if
    /// written, a wrapper of the initializer.
    VarDeclStmt,
    /// A declaration wrapper. Children: the name and the type.
    VarDecl,
    /// A return. Children: the nodes that spell the returned expression.
    RetStmt,
    /// A conditional. Children: wrappers of the condition, of the block
    /// and, if written, of the alternative.
    IfStmt,
    /// An expression, as a statement, in parentheses, or as a wrapper.
    /// Children: the nodes that spell it.
    Expr,
    /// A call. Children: the name and the argument list.
    FnCall,
    /// An argument list. Children: one expression wrapper for each
    /// argument.
    FnArgs,
    /// A name. Its text is the name.
    Ident,
    /// An integer literal. Its text is the literal.
    Integer,
    /// The binary operator `+`.
    Add,
    /// The binary operator `-`.
    Subtract,
    /// The binary operator `*`.
    Multiply,
    /// The binary operator `/`.
    Divide,
    /// The binary operator `%`.
    Modulo,
    /// The binary operator `==`.
    EqEq,
    /// The prefix operator `-`.
    UnaryMinus,
    /// The prefix operator `!`.
    UnaryNot,
    /// The type `i8`.
    TyI8,
    /// The type `i16`.
    TyI16,
    /// The type `i32`.
    TyI32,
    /// The type `u8`.
    TyU8,
    /// The type `u16`.
    TyU16,
    /// The type `u32`.
    TyU32,
    /// The type `bool`.
    TyBool,
}

/// One node of the matched input: its kind, the source text it covers and
/// the nodes matched inside it, in source order.
#[derive(Debug, PartialEq, Eq)]
pub struct SyntaxNode {
    pub rule: Rule,
    pub text: String,
    pub children: Vec<SyntaxNode>,
}

/// The mathematical value of a [`SyntaxNode`].
pub struct NodeView {
    pub rule: Rule,
    pub text: Seq<char>,
    pub children: Seq<NodeView>,
}

impl SyntaxNode {
    /// The value of this node: its kind, its text and its children's values.
    pub open spec fn value(self) -> NodeView
        decreases self,
    {
        NodeView {
            rule: self.rule,
            text: self.text@,
            children: Seq::new(
                self.children@.len(),
                |i: int|
                    if 0 <= i < self.children@.len() {
                        self.children@[i].value()
                    } else {
                        arbitrary()
                    },
            ),
        }
    }
}

impl View for SyntaxNode {
    type V = NodeView;

    open spec fn view(&self) -> NodeView {
        self.value()
    }
}

/// The values of a sequence of nodes, in order.
pub open spec fn views(nodes: Seq<SyntaxNode>) -> Seq<NodeView> {
    Seq::new(nodes.len(), |i: int| nodes[i]@)
}

/// The value of a node's children is the sequence of its children's values.
pub proof fn lemma_children_views(node: SyntaxNode)
    ensures
        node@.children == views(node.children@),
        node@.rule == node.rule,
        node@.text == node.text@,
{
    assert(node@.children.len() == node.children@.len());
    assert forall|i: int| 0 <= i < node.children@.len() implies node@.children[i] == views(
        node.children@,
    )[i] by {
        assert(node@.children[i] == node.children@[i]@);
    }
    assert(node@.children =~= views(node.children@));
}

/// Taking a value commutes with indexing.
pub proof fn lemma_views_index(nodes: Seq<SyntaxNode>, i: int)
    requires
        0 <= i < nodes.len(),
    ensures
        views(nodes).len() == nodes.len(),
        views(nodes)[i] == nodes[i]@,
        views(nodes)[i].rule == nodes[i].rule,
        views(nodes)[i].text == nodes[i].text@,
        views(nodes)[i].children == views(nodes[i].children@),
{
    lemma_children_views(nodes[i]);
}

/// How many levels of nodes `nodes` holds: none when it is empty, else one
/// more than the most that the children of any one node hold.
pub open spec fn height(nodes: Seq<NodeView>) -> nat
    decreases nodes,
{
    if nodes.len() == 0 {
        0
    } else {
        let front = height(nodes.drop_last());
        let last = 1 + height(nodes.last().children);
        if front >= last {
            front
        } else {
            last
        }
    }
}

/// The children of any node lie at least one level below the node.
pub proof fn lemma_height_child(nodes: Seq<NodeView>, i: int)
    requires
        0 <= i < nodes.len(),
    ensures
        1 + height(nodes[i].children) <= height(nodes),
    decreases nodes.len(),
{
    if i < nodes.len() - 1 {
        lemma_height_child(nodes.drop_last(), i);
    }
}

/// One more node adds its own level and those of its children.
pub proof fn lemma_height_push(nodes: Seq<NodeView>, node: NodeView)
    ensures
        height(nodes.push(node)) == if height(nodes) >= 1 + height(node.children) {
            height(nodes)
        } else {
            1 + height(node.children)
        },
{
    assert(nodes.push(node).drop_last() =~= nodes);
}

} // verus!
