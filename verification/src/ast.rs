//! The node model: parsed expression fragments and their priority weights.
//!
//! A `Number` keeps its literal text until evaluation; an `Operator` is a
//! marker not yet bound to operands; a `Group` is a parenthesized or
//! top-level span awaiting resolution; a `BinaryNode` is a resolved
//! two-operand operation.  Priority weights pick which operator binds first:
//! numbers, resolved groups and function calls weigh 0, `+` weighs 1, `-`
//! weighs 2, `*` weighs 3 and `/` weighs 4, and a higher weight binds
//! earlier.

use vstd::prelude::*;

verus! {

/// The operator kinds that may stand at the center of a resolved
/// `BinaryNode`: the four basic binary operators and nothing else.
/// Function-style operators are self-contained leaves and never become
/// centers.
#[derive(Debug, Clone, Copy, PartialEq, Eq, Structural)]
pub enum BinKind {
    Add,
    Subtract,
    Multiply,
    Divide,
}

/// An operator marker as the tree builder classifies it: one of the four
/// binary symbols, or a self-contained function call carrying the literal
/// text of its one or two operands.
#[derive(Debug, PartialEq)]
pub enum Op {
    Add,
    Subtract,
    Multiply,
    Divide,
    Sqrt(String),
    Pow(String, String),
    Root(String, String),
    Cos(String),
    Sine(String),
    Tan(String),
}

/// A parsed expression fragment.
#[derive(Debug, PartialEq)]
pub enum Expr {
    /// A numeric literal, kept as its original text; it is parsed to a
    /// number only at evaluation time.
    Number(String),
    /// An operator marker prior to resolution, with no operands attached.
    Operator(Op),
    /// An ordered sequence of `(node, priority)` pairs representing one
    /// parenthesized or top-level expression awaiting resolution.
    Group(Vec<(Expr, u32)>),
    /// A resolved binary operation.
    BinaryNode(Box<Expr>, BinKind, Box<Expr>),
    /// A non-value placeholder for a parse-tree node without semantic
    /// content.
    Empty,
}

/// The kinds of outcome a calculation can fail or end with.  The first
/// three are faults; `UndefinedResult` is a normal outcome of a well-formed
/// computation with no finite answer (the tangent at a discontinuity), which
/// callers must handle distinctly from both a numeric value and an error.
#[derive(Debug, Clone, Copy, PartialEq, Eq, Structural)]
pub enum CalcError {
    /// The input does not conform to the grammar; raised by the tokenizer
    /// collaborator and propagated unchanged.
    SyntaxError,
    /// A literal's text cannot be converted to a number; raised at
    /// evaluation time.
    ParseError,
    /// The priority-sequence reduction found an operator with a missing or
    /// invalid neighbor, or nothing to reduce at all.
    ResolutionError,
    /// A well-formed computation with no finite answer.
    UndefinedResult,
}

/// The mathematical model of `Op`: the same shape over sequences of
/// characters.
pub enum SpecOp {
    Add,
    Subtract,
    Multiply,
    Divide,
    Sqrt(Seq<char>),
    Pow(Seq<char>, Seq<char>),
    Root(Seq<char>, Seq<char>),
    Cos(Seq<char>),
    Sine(Seq<char>),
    Tan(Seq<char>),
}

/// The mathematical model of `Expr`.  A `Group` has no counterpart here:
/// the builder resolves every group before it escapes upward, so a group is
/// modeled only through the sequence of its members, and a stray unresolved
/// group node is modeled as `Empty`.
#[verifier::ext_equal]
pub enum SpecExpr {
    Number(Seq<char>),
    Operator(SpecOp),
    Binary(Box<SpecExpr>, BinKind, Box<SpecExpr>),
    Empty,
}

impl View for Op {
    type V = SpecOp;

    open spec fn view(&self) -> SpecOp {
        match self {
            Op::Add => SpecOp::Add,
            Op::Subtract => SpecOp::Subtract,
            Op::Multiply => SpecOp::Multiply,
            Op::Divide => SpecOp::Divide,
            Op::Sqrt(x) => SpecOp::Sqrt(x@),
            Op::Pow(b, e) => SpecOp::Pow(b@, e@),
            Op::Root(x, n) => SpecOp::Root(x@, n@),
            Op::Cos(x) => SpecOp::Cos(x@),
            Op::Sine(x) => SpecOp::Sine(x@),
            Op::Tan(x) => SpecOp::Tan(x@),
        }
    }
}

/// The model of one expression fragment.
pub open spec fn expr_view(e: Expr) -> SpecExpr
    decreases e,
{
    match e {
        Expr::Number(t) => SpecExpr::Number(t@),
        Expr::Operator(op) => SpecExpr::Operator(op@),
        Expr::Group(_) => SpecExpr::Empty,
        Expr::BinaryNode(l, k, r) => SpecExpr::Binary(
            Box::new(expr_view(*l)),
            k,
            Box::new(expr_view(*r)),
        ),
        Expr::Empty => SpecExpr::Empty,
    }
}

impl View for Expr {
    type V = SpecExpr;

    open spec fn view(&self) -> SpecExpr {
        expr_view(*self)
    }
}

/// The model of a priority sequence: each pair of a node and its stored
/// weight, element by element.
pub open spec fn pairs_view(v: Seq<(Expr, u32)>) -> Seq<(SpecExpr, int)> {
    Seq::new(v.len(), |i: int| (v[i].0@, v[i].1 as int))
}

/// A shorthand for a resolved binary node in the model.
pub open spec fn binary(l: SpecExpr, k: BinKind, r: SpecExpr) -> SpecExpr {
    SpecExpr::Binary(Box::new(l), k, Box::new(r))
}

/// The binary-operator kind of an operator marker, if it has one; function
/// markers have none and may never stand at the center of a `BinaryNode`.
pub open spec fn spec_bin_kind(op: SpecOp) -> Option<BinKind> {
    match op {
        SpecOp::Add => Some(BinKind::Add),
        SpecOp::Subtract => Some(BinKind::Subtract),
        SpecOp::Multiply => Some(BinKind::Multiply),
        SpecOp::Divide => Some(BinKind::Divide),
        _ => None,
    }
}

/// The binary-operator kind of a node, if the node is an operator marker
/// with one.
pub open spec fn node_bin_kind(e: SpecExpr) -> Option<BinKind> {
    match e {
        SpecExpr::Operator(op) => spec_bin_kind(op),
        _ => None,
    }
}

/// The priority weight of a binary operator kind.
pub open spec fn kind_priority(k: BinKind) -> int {
    match k {
        BinKind::Add => 1,
        BinKind::Subtract => 2,
        BinKind::Multiply => 3,
        BinKind::Divide => 4,
    }
}

impl Op {
    /// The binary-operator kind of this marker, if it has one.
    pub fn bin_kind(&self) -> (r: Option<BinKind>)
        ensures
            r == spec_bin_kind(self@),
    {
        match self {
            Op::Add => Some(BinKind::Add),
            Op::Subtract => Some(BinKind::Subtract),
            Op::Multiply => Some(BinKind::Multiply),
            Op::Divide => Some(BinKind::Divide),
            _ => None,
        }
    }
}

} // verus!
