//! Builds the syntax tree of one translation unit from the nodes that a
//! grammar engine has matched.
//!
//! The engine hands over [`syntax::SyntaxNode`]s: a kind, a text and
//! children each. [`trans_unit::TransUnit::parse`] reads a whole unit from
//! them; [`top_level`], [`stmt`] and [`expr`] read its parts, and
//! [`pairs`] takes the same input from pest. Every builder is given a
//! nesting allowance, calls itself no deeper than that, and reports input
//! that nests deeper, or that has not the promised shape, as an
//! [`error::ParseError`].
//!
//! What a builder returns is stated by a function of the same input in
//! the mathematical sense (`parsed_expr`, `parsed_stmt` and so on). The
//! other modules prove what follows from those: [`grouping`] how
//! operators group, [`canonical`] that a tree spelled out with all its
//! parentheses is read back unchanged, [`order`] that order and optional
//! parts are kept, [`shape`] which input is read at all, and [`depth`]
//! what the nesting allowance changes.
pub mod canonical;
pub mod depth;
pub mod error;
pub mod expr;
pub mod grouping;
pub mod order;
pub mod pairs;
pub mod shape;
pub mod stmt;
pub mod syntax;
pub mod top_level;
pub mod trans_unit;
