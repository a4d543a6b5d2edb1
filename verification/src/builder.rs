//! The tree builder: from an external parse tree to classified nodes.
//!
//! The tokenizer collaborator hands the core a generic parse tree whose
//! nodes are already classified as numeric literals, operator symbols,
//! self-contained function calls (their operands are raw numeric literals),
//! nested groups for parenthesized content, or unrecognized nodes.
//! `build_ast` turns one such node into an expression node, classifying
//! every group member with its priority weight and resolving every group
//! eagerly, so that a group escapes upward only as its resolved single
//! node, an atomic operand of priority 0 in the enclosing group.

use vstd::prelude::*;

use crate::ast::{pairs_view, CalcError, Expr, Op, SpecExpr, SpecOp};
use crate::resolver::{build_bin_op, reduce_spec};

verus! {

/// One node of the external parse tree, as the tokenizer collaborator
/// reports it: a literal, an operator symbol, a function call carrying the
/// literal text of its operands, a parenthesized group of further nodes, or
/// a node the grammar does not recognize.
#[derive(Debug, PartialEq)]
pub enum ParseNode {
    Num(String),
    AddSym,
    SubtractSym,
    MultiplySym,
    DivideSym,
    SqrtCall(String),
    PowCall(String, String),
    RootCall(String, String),
    SinCall(String),
    CosCall(String),
    TanCall(String),
    Group(Vec<ParseNode>),
    Unknown,
}

/// The mathematical model of `ParseNode`.
#[verifier::ext_equal]
pub enum SpecParseNode {
    Num(Seq<char>),
    AddSym,
    SubtractSym,
    MultiplySym,
    DivideSym,
    SqrtCall(Seq<char>),
    PowCall(Seq<char>, Seq<char>),
    RootCall(Seq<char>, Seq<char>),
    SinCall(Seq<char>),
    CosCall(Seq<char>),
    TanCall(Seq<char>),
    Group(Seq<SpecParseNode>),
    Unknown,
}

/// The model of a group's member list, member by member.
pub open spec fn group_view(v: Vec<ParseNode>) -> Seq<SpecParseNode>
    decreases v,
{
    // the range guard keeps the recursion inside the group, where it
    // terminates; out-of-range positions are never observable
    Seq::new(
        v@.len(),
        |i: int|
            if 0 <= i < v@.len() {
                parse_node_view(v[i])
            } else {
                SpecParseNode::Unknown
            },
    )
}

/// The model of one parse-tree node.
pub open spec fn parse_node_view(pn: ParseNode) -> SpecParseNode
    decreases pn,
{
    match pn {
        ParseNode::Num(t) => SpecParseNode::Num(t@),
        ParseNode::AddSym => SpecParseNode::AddSym,
        ParseNode::SubtractSym => SpecParseNode::SubtractSym,
        ParseNode::MultiplySym => SpecParseNode::MultiplySym,
        ParseNode::DivideSym => SpecParseNode::DivideSym,
        ParseNode::SqrtCall(x) => SpecParseNode::SqrtCall(x@),
        ParseNode::PowCall(b, e) => SpecParseNode::PowCall(b@, e@),
        ParseNode::RootCall(x, n) => SpecParseNode::RootCall(x@, n@),
        ParseNode::SinCall(x) => SpecParseNode::SinCall(x@),
        ParseNode::CosCall(x) => SpecParseNode::CosCall(x@),
        ParseNode::TanCall(x) => SpecParseNode::TanCall(x@),
        ParseNode::Group(cs) => SpecParseNode::Group(group_view(cs)),
        ParseNode::Unknown => SpecParseNode::Unknown,
    }
}

impl View for ParseNode {
    type V = SpecParseNode;

    open spec fn view(&self) -> SpecParseNode {
        parse_node_view(*self)
    }
}

/// The priority weight a group member is classified with, by its
/// parse-node kind: 1 for `+`, 2 for `-`, 3 for `*`, 4 for `/`, and 0 for
/// numbers, function calls and resolved groups.
pub open spec fn parse_priority(pn: SpecParseNode) -> int {
    match pn {
        SpecParseNode::AddSym => 1,
        SpecParseNode::SubtractSym => 2,
        SpecParseNode::MultiplySym => 3,
        SpecParseNode::DivideSym => 4,
        _ => 0,
    }
}

/// What building one parse-tree node yields: the classified leaf for a
/// literal, symbol or call, `Empty` for an unrecognized node, and for a
/// group the fully resolved single node, or `None` where resolution fails.
pub open spec fn build_spec(pn: SpecParseNode) -> Option<SpecExpr>
    decreases pn, 0int,
{
    match pn {
        SpecParseNode::Num(t) => Some(SpecExpr::Number(t)),
        SpecParseNode::AddSym => Some(SpecExpr::Operator(SpecOp::Add)),
        SpecParseNode::SubtractSym => Some(SpecExpr::Operator(SpecOp::Subtract)),
        SpecParseNode::MultiplySym => Some(SpecExpr::Operator(SpecOp::Multiply)),
        SpecParseNode::DivideSym => Some(SpecExpr::Operator(SpecOp::Divide)),
        SpecParseNode::SqrtCall(x) => Some(SpecExpr::Operator(SpecOp::Sqrt(x))),
        SpecParseNode::PowCall(b, e) => Some(SpecExpr::Operator(SpecOp::Pow(b, e))),
        SpecParseNode::RootCall(x, n) => Some(SpecExpr::Operator(SpecOp::Root(x, n))),
        SpecParseNode::SinCall(x) => Some(SpecExpr::Operator(SpecOp::Sine(x))),
        SpecParseNode::CosCall(x) => Some(SpecExpr::Operator(SpecOp::Cos(x))),
        SpecParseNode::TanCall(x) => Some(SpecExpr::Operator(SpecOp::Tan(x))),
        SpecParseNode::Group(cs) => match build_pairs_spec(cs, cs.len() as int) {
            Some(ps) => reduce_spec(ps),
            None => None,
        },
        SpecParseNode::Unknown => Some(SpecExpr::Empty),
    }
}

/// The priority sequence assembled from the first `n` members of a group:
/// each member built and paired with its weight, unrecognized members
/// skipped, and any member that fails to build failing the whole group.
pub open spec fn build_pairs_spec(cs: Seq<SpecParseNode>, n: int) -> Option<
    Seq<(SpecExpr, int)>,
>
    decreases cs, n,
{
    if n <= 0 || cs.len() < n {
        Some(Seq::empty())
    } else {
        match build_pairs_spec(cs, n - 1) {
            Some(ps) => {
                let c = cs[n - 1];
                if c is Unknown {
                    Some(ps)
                } else {
                    match build_spec(c) {
                        Some(e) => Some(ps.push((e, parse_priority(c)))),
                        None => None,
                    }
                }
            },
            None => None,
        }
    }
}

/// Once a prefix of a group fails to build, every longer prefix fails too.
proof fn lemma_pairs_none_persists(cs: Seq<SpecParseNode>, k: int, n: int)
    requires
        build_pairs_spec(cs, k) is None,
        k <= n <= cs.len(),
    ensures
        build_pairs_spec(cs, n) is None,
    decreases n - k,
{
    if k < n {
        lemma_pairs_none_persists(cs, k, n - 1);
    }
}

impl ParseNode {
    /// The priority weight this node is classified with as a group member.
    pub fn priority(&self) -> (r: u32)
        ensures
            r as int == parse_priority(self@),
    {
        match self {
            ParseNode::AddSym => 1,
            ParseNode::SubtractSym => 2,
            ParseNode::MultiplySym => 3,
            ParseNode::DivideSym => 4,
            _ => 0,
        }
    }
}

/// Builds the expression node for one parse-tree node.
///
/// A numeric leaf becomes a `Number`, an operator symbol an unattached
/// `Operator`, a function call the corresponding self-contained operator
/// leaf, and an unrecognized node `Empty`.  A group has each member built
/// and classified, unrecognized members skipped, and is resolved eagerly;
/// a group whose sequence is empty or malformed is a resolution error.
pub fn build_ast(pn: &ParseNode) -> (r: Result<Expr, CalcError>)
    ensures
        match build_spec(pn@) {
            Some(t) => r matches Ok(e) && e@ == t,
            None => r matches Err(c) && c == CalcError::ResolutionError,
        },
    decreases pn,
{
    match pn {
        ParseNode::Num(t) => Ok(Expr::Number(t.clone())),
        ParseNode::AddSym => Ok(Expr::Operator(Op::Add)),
        ParseNode::SubtractSym => Ok(Expr::Operator(Op::Subtract)),
        ParseNode::MultiplySym => Ok(Expr::Operator(Op::Multiply)),
        ParseNode::DivideSym => Ok(Expr::Operator(Op::Divide)),
        ParseNode::SqrtCall(x) => Ok(Expr::Operator(Op::Sqrt(x.clone()))),
        ParseNode::PowCall(b, e) => Ok(Expr::Operator(Op::Pow(b.clone(), e.clone()))),
        ParseNode::RootCall(x, n) => Ok(Expr::Operator(Op::Root(x.clone(), n.clone()))),
        ParseNode::SinCall(x) => Ok(Expr::Operator(Op::Sine(x.clone()))),
        ParseNode::CosCall(x) => Ok(Expr::Operator(Op::Cos(x.clone()))),
        ParseNode::TanCall(x) => Ok(Expr::Operator(Op::Tan(x.clone()))),
        ParseNode::Unknown => Ok(Expr::Empty),
        ParseNode::Group(cs) => build_group(cs),
    }
}

/// Builds and resolves one group: each member built and classified with
/// its priority weight, unrecognized members skipped, and the assembled
/// priority sequence resolved eagerly to a single node.
pub fn build_group(cs: &Vec<ParseNode>) -> (r: Result<Expr, CalcError>)
    ensures
        match build_spec(SpecParseNode::Group(group_view(*cs))) {
            Some(t) => r matches Ok(e) && e@ == t,
            None => r matches Err(c) && c == CalcError::ResolutionError,
        },
    decreases cs,
{
    let ghost cv: Seq<SpecParseNode> = group_view(*cs);
    proof {
        assert(cv.len() == cs@.len());
        assert(forall|j: int| 0 <= j < cv.len() ==> #[trigger] cv[j] == cs@[j]@);
    }
    let mut pairs: Vec<(Expr, u32)> = Vec::new();
    let mut i: usize = 0;
    while i < cs.len()
        invariant
            i <= cs.len(),
            cv == group_view(*cs),
            cv.len() == cs@.len(),
            forall|j: int| 0 <= j < cv.len() ==> #[trigger] cv[j] == cs@[j]@,
            build_pairs_spec(cv, i as int) == Some(pairs_view(pairs@)),
        decreases cs.len() - i,
    {
        let child = &cs[i];
        let ghost old_pairs = pairs@;
        if !(matches!(child, ParseNode::Unknown)) {
            let e = match build_ast(child) {
                Ok(e) => e,
                Err(err) => {
                    proof {
                        assert(build_spec(cv[i as int]) is None);
                        assert(build_pairs_spec(cv, i as int + 1) is None);
                        lemma_pairs_none_persists(cv, i as int + 1, cv.len() as int);
                    }
                    return Err(err);
                },
            };
            let pr = child.priority();
            pairs.push((e, pr));
            proof {
                assert(pairs_view(pairs@) =~= pairs_view(old_pairs).push((e@, pr as int)));
            }
        } else {
            proof {
                assert(cv[i as int] is Unknown);
            }
        }
        i += 1;
    }
    match build_bin_op(Expr::Group(pairs)) {
        Some(e) => Ok(e),
        None => Err(CalcError::ResolutionError),
    }
}

} // verus!
