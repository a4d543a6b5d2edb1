//! Equivalence of the iterative reduction with conventional precedence.
//!
//! The resolver reduces a flat sequence by repeatedly binding the leftmost
//! highest-priority operator first.  A conventional recursive-descent
//! precedence parser instead splits the sequence at the operator that binds
//! last: the rightmost one with the lowest priority weight.  On well-formed
//! operand/operator sequences the two agree: every reduction pass leaves
//! the recursive-descent parse of the sequence unchanged, so the resolved
//! tree is exactly the conventional precedence tree for this system's
//! priority ordering.

use vstd::prelude::*;

use crate::ast::{binary, kind_priority, node_bin_kind, BinKind, SpecExpr};
use crate::builder::{build_pairs_spec, build_spec, parse_priority, SpecParseNode};
use crate::resolver::{
    is_pivot, lemma_pivot_exists, lemma_pivot_unique, pivot_of, reduce_spec, reduce_step,
    seq_has_op,
};

verus! {

/// An atomic operand: a numeric literal or an already-resolved subtree.
pub open spec fn is_operand(e: SpecExpr) -> bool {
    e is Number || e is Binary
}

/// A well-formed operator sequence: operands of weight 0 at the even
/// positions alternate with binary operator markers, each stored with its
/// own priority weight, so the sequence begins and ends with an operand.
pub open spec fn wf_pairs(s: Seq<(SpecExpr, int)>) -> bool {
    &&& s.len() % 2 == 1
    &&& forall|i: int|
        0 <= i < s.len() && i % 2 == 0 ==> (#[trigger] s[i]).1 == 0 && is_operand(s[i].0)
    &&& forall|i: int|
        0 <= i < s.len() && i % 2 == 1 ==> match node_bin_kind((#[trigger] s[i]).0) {
            Some(k) => s[i].1 == kind_priority(k),
            None => false,
        }
}

/// Whether `r` is the split point for a conventional precedence parse of
/// `s`: the rightmost operator position whose priority weight is lowest.
/// That operator binds last and stands at the root of the tree.
pub open spec fn is_root(s: Seq<(SpecExpr, int)>, r: int) -> bool {
    &&& 0 <= r < s.len()
    &&& r % 2 == 1
    &&& forall|j: int| 0 <= j < s.len() && j % 2 == 1 ==> (#[trigger] s[j]).1 >= s[r].1
    &&& forall|j: int| r < j < s.len() && j % 2 == 1 ==> (#[trigger] s[j]).1 > s[r].1
}

/// The split point of `s`, where one exists.
pub open spec fn root_of(s: Seq<(SpecExpr, int)>) -> int {
    choose|r: int| is_root(s, r)
}

/// Every well-formed sequence with at least one operator has a split point.
pub proof fn lemma_root_exists(s: Seq<(SpecExpr, int)>)
    requires
        wf_pairs(s),
        s.len() >= 3,
    ensures
        exists|r: int| is_root(s, r),
    decreases s.len(),
{
    if s.len() == 3 {
        assert(is_root(s, 1));
    } else {
        let t = s.subrange(0, s.len() - 2);
        assert forall|j: int| 0 <= j < t.len() implies (#[trigger] t[j]) == s[j] by {}
        assert(wf_pairs(t));
        lemma_root_exists(t);
        let r = choose|r: int| is_root(t, r);
        let last_op = s.len() - 2;
        if s[last_op].1 <= s[r].1 {
            assert forall|j: int| 0 <= j < s.len() && j % 2 == 1 implies (#[trigger] s[j]).1
                >= s[last_op].1 by {
                if j < last_op {
                    assert(t[j].1 >= t[r].1);
                }
            }
            assert(is_root(s, last_op));
        } else {
            assert forall|j: int| 0 <= j < s.len() && j % 2 == 1 implies (#[trigger] s[j]).1
                >= s[r].1 by {
                if j < last_op {
                    assert(t[j].1 >= t[r].1);
                }
            }
            assert forall|j: int| r < j < s.len() && j % 2 == 1 implies (#[trigger] s[j]).1
                > s[r].1 by {
                if j < last_op {
                    assert(t[j].1 > t[r].1);
                }
            }
            assert(is_root(s, r));
        }
    }
}

/// A sequence has at most one split point.
pub proof fn lemma_root_unique(s: Seq<(SpecExpr, int)>, r1: int, r2: int)
    requires
        is_root(s, r1),
        is_root(s, r2),
    ensures
        r1 == r2,
{
    if r1 < r2 {
        assert(s[r2].1 > s[r1].1);
        assert(s[r1].1 >= s[r2].1);
    }
    if r2 < r1 {
        assert(s[r1].1 > s[r2].1);
        assert(s[r2].1 >= s[r1].1);
    }
}

/// The tree a conventional recursive-descent precedence parse builds: the
/// sequence splits at its root operator and each side parses recursively;
/// a single operand parses to itself.
pub open spec fn rd_parse(s: Seq<(SpecExpr, int)>) -> SpecExpr
    decreases s.len(),
{
    if s.len() <= 1 {
        s[0].0
    } else {
        let r0 = root_of(s);
        // the clamp keeps the split inside the sequence; a well-formed
        // sequence always has its root there
        let r = if 1 <= r0 < s.len() - 1 {
            r0
        } else {
            1
        };
        let k = match node_bin_kind(s[r].0) {
            Some(k) => k,
            None => BinKind::Add,
        };
        binary(rd_parse(s.subrange(0, r)), k, rd_parse(s.subrange(r + 1, s.len() as int)))
    }
}

/// The sequence one reduction pass at the pivot leaves behind.
pub open spec fn step_of(s: Seq<(SpecExpr, int)>) -> Seq<(SpecExpr, int)> {
    reduce_step(s, pivot_of(s))->Some_0
}

/// The node a reduction pass builds at the pivot.
pub open spec fn mid_of(s: Seq<(SpecExpr, int)>) -> (SpecExpr, int) {
    let p = pivot_of(s);
    (binary(s[p - 1].0, node_bin_kind(s[p].0)->Some_0, s[p + 1].0), 0int)
}

/// Basic shape of one reduction pass on a well-formed sequence: the pivot
/// is an interior operator position, the pass succeeds, positions left of
/// the bound span are kept, positions right of it shift down by two, and
/// the result is well-formed again.
proof fn lemma_step_basic(s: Seq<(SpecExpr, int)>)
    requires
        wf_pairs(s),
        s.len() >= 3,
    ensures
        is_pivot(s, pivot_of(s)),
        pivot_of(s) % 2 == 1,
        1 <= pivot_of(s) < s.len() - 1,
        node_bin_kind(s[pivot_of(s)].0) is Some,
        reduce_step(s, pivot_of(s)) is Some,
        step_of(s).len() == s.len() - 2,
        forall|j: int| 0 <= j < pivot_of(s) - 1 ==> (#[trigger] step_of(s)[j]) == s[j],
        step_of(s)[pivot_of(s) - 1] == mid_of(s),
        forall|j: int|
            pivot_of(s) - 1 < j < s.len() - 2 ==> (#[trigger] step_of(s)[j]) == s[j + 2],
        wf_pairs(step_of(s)),
{
    let len = s.len() as int;
    // position 1 is an operator, so a pivot exists
    assert(s[1].1 >= 1) by {
        assert(match node_bin_kind(s[1].0) {
            Some(k) => s[1].1 == kind_priority(k),
            None => false,
        });
    }
    assert(seq_has_op(s));
    lemma_pivot_exists(s);
    let p = pivot_of(s);
    assert(is_pivot(s, p));
    assert(p % 2 == 1) by {
        if p % 2 == 0 {
            assert(s[p].1 == 0);
        }
    }
    let k = node_bin_kind(s[p].0)->Some_0;
    assert(node_bin_kind(s[p].0) == Some(k));
    assert(p + 1 < len);
    let s2 = step_of(s);
    assert(s2 == s.subrange(0, p - 1) + seq![mid_of(s)] + s.subrange(p + 2, len));
    assert(s2.len() == len - 2);
    assert forall|j: int| 0 <= j < p - 1 implies (#[trigger] s2[j]) == s[j] by {}
    assert(s2[p - 1] == mid_of(s));
    assert forall|j: int| p - 1 < j < len - 2 implies (#[trigger] s2[j]) == s[j + 2] by {}
    assert forall|i: int| 0 <= i < s2.len() && i % 2 == 0 implies (#[trigger] s2[i]).1 == 0
        && is_operand(s2[i].0) by {
        if i < p - 1 {
            assert(s2[i] == s[i]);
        } else if i > p - 1 {
            assert(s2[i] == s[i + 2]);
        }
    }
    assert forall|i: int| 0 <= i < s2.len() && i % 2 == 1 implies match node_bin_kind(
        (#[trigger] s2[i]).0,
    ) {
        Some(k2) => s2[i].1 == kind_priority(k2),
        None => false,
    } by {
        if i < p - 1 {
            assert(s2[i] == s[i]);
        } else {
            assert(s2[i] == s[i + 2]);
        }
    }
}

/// A prefix of a well-formed sequence that ends before an operator
/// position is well-formed.
proof fn lemma_wf_prefix(s: Seq<(SpecExpr, int)>, e: int)
    requires
        wf_pairs(s),
        0 <= e < s.len(),
        e % 2 == 1,
    ensures
        wf_pairs(s.subrange(0, e)),
{
    let t = s.subrange(0, e);
    assert forall|j: int| 0 <= j < t.len() implies (#[trigger] t[j]) == s[j] by {}
}

/// A suffix of a well-formed sequence that starts right after an operator
/// position is well-formed.
proof fn lemma_wf_suffix(s: Seq<(SpecExpr, int)>, e: int)
    requires
        wf_pairs(s),
        0 <= e < s.len(),
        e % 2 == 1,
    ensures
        wf_pairs(s.subrange(e + 1, s.len() as int)),
{
    let t = s.subrange(e + 1, s.len() as int);
    assert forall|j: int| 0 <= j < t.len() implies (#[trigger] t[j]) == s[e + 1 + j] by {}
}

/// How a well-formed sequence of three or more elements parses: at its
/// split point, which is interior, with each side parsed recursively.
proof fn lemma_rd_unfold(s: Seq<(SpecExpr, int)>)
    requires
        wf_pairs(s),
        s.len() >= 3,
    ensures
        is_root(s, root_of(s)),
        root_of(s) % 2 == 1,
        1 <= root_of(s) < s.len() - 1,
        node_bin_kind(s[root_of(s)].0) is Some,
        rd_parse(s) == binary(
            rd_parse(s.subrange(0, root_of(s))),
            node_bin_kind(s[root_of(s)].0)->Some_0,
            rd_parse(s.subrange(root_of(s) + 1, s.len() as int)),
        ),
{
    lemma_root_exists(s);
    let r = root_of(s);
    assert(is_root(s, r));
    assert(1 <= r < s.len() - 1);
    assert(match node_bin_kind(s[r].0) {
        Some(k) => s[r].1 == kind_priority(k),
        None => false,
    });
}

/// When the pivot lies left of the split point, a reduction pass leaves
/// the parse unchanged: it happens inside the left side of the split.
proof fn lemma_step_left(s: Seq<(SpecExpr, int)>)
    requires
        wf_pairs(s),
        s.len() >= 3,
        is_root(s, root_of(s)),
        pivot_of(s) < root_of(s),
    ensures
        rd_parse(step_of(s)) == rd_parse(s),
    decreases s.len(), 0int,
{
    lemma_step_basic(s);
    lemma_rd_unfold(s);
    let len = s.len() as int;
    let p = pivot_of(s);
    let r = root_of(s);
    let k = node_bin_kind(s[p].0)->Some_0;
    let kr = node_bin_kind(s[r].0)->Some_0;
    let s2 = step_of(s);
    let a = s.subrange(0, r);
    let b = s.subrange(r + 1, len);
    assert(p + 2 <= r);
    lemma_wf_prefix(s, r);
    assert forall|j: int| 0 <= j < a.len() implies (#[trigger] a[j]) == s[j] by {}
    assert(is_pivot(a, p)) by {
        assert forall|j: int| 0 <= j < a.len() implies (#[trigger] a[j]).1 <= a[p].1 by {
            assert(s[j].1 <= s[p].1);
        }
        assert forall|j: int| 0 <= j < p implies (#[trigger] a[j]).1 < a[p].1 by {
            assert(s[j].1 < s[p].1);
        }
    }
    assert(seq_has_op(a));
    lemma_pivot_exists(a);
    assert(is_pivot(a, pivot_of(a)));
    lemma_pivot_unique(a, p, pivot_of(a));
    lemma_step_basic(a);
    lemma_step_preserves_rd(a);
    let a2 = step_of(a);
    assert(mid_of(a) == mid_of(s)) by {
        assert(a[p - 1] == s[p - 1]);
        assert(a[p + 1] == s[p + 1]);
    }
    // the split point shifts left by the two spliced-out positions
    assert(s2[r - 2] == s[r]);
    assert(is_root(s2, r - 2)) by {
        assert forall|j: int| 0 <= j < s2.len() && j % 2 == 1 implies (#[trigger] s2[j]).1
            >= s2[r - 2].1 by {
            if j < p - 1 {
                assert(s2[j] == s[j]);
                assert(s[j].1 >= s[r].1);
            } else {
                assert(s2[j] == s[j + 2]);
                assert(s[j + 2].1 >= s[r].1);
            }
        }
        assert forall|j: int| r - 2 < j < s2.len() && j % 2 == 1 implies (#[trigger] s2[j]).1
            > s2[r - 2].1 by {
            assert(s2[j] == s[j + 2]);
            assert(s[j + 2].1 > s[r].1);
        }
    }
    assert(exists|x: int| is_root(s2, x));
    assert(is_root(s2, root_of(s2)));
    lemma_root_unique(s2, r - 2, root_of(s2));
    assert(s2.len() >= 3);
    lemma_rd_unfold(s2);
    let a2p = s2.subrange(0, r - 2);
    let b2 = s2.subrange(r - 1, s2.len() as int);
    assert(node_bin_kind(s2[r - 2].0)->Some_0 == kr);
    assert(rd_parse(s2) == binary(rd_parse(a2p), kr, rd_parse(b2)));
    assert(a2p =~= a2) by {
        assert forall|j: int| 0 <= j < a2.len() implies a2p[j] == a2[j] by {
            assert(a2p[j] == s2[j]);
            if j < p - 1 {
                assert(s2[j] == s[j]);
                assert(a2[j] == a[j]);
            } else if j == p - 1 {
                assert(s2[j] == mid_of(s));
                assert(a2[j] == mid_of(a));
            } else {
                assert(s2[j] == s[j + 2]);
                assert(a2[j] == a[j + 2]);
            }
        }
    }
    assert(b2 =~= b) by {
        assert forall|j: int| 0 <= j < b.len() implies b2[j] == b[j] by {
            assert(b2[j] == s2[r - 2 + 1 + j]);
            assert(s2[r - 2 + 1 + j] == s[r + 1 + j]);
        }
    }
    assert(rd_parse(s2) == binary(rd_parse(a2), kr, rd_parse(b)));
    assert(rd_parse(s2) == rd_parse(s));
}

/// When the pivot lies right of the split point, a reduction pass leaves
/// the parse unchanged: it happens inside the right side of the split.
proof fn lemma_step_right(s: Seq<(SpecExpr, int)>)
    requires
        wf_pairs(s),
        s.len() >= 3,
        is_root(s, root_of(s)),
        root_of(s) < pivot_of(s),
    ensures
        rd_parse(step_of(s)) == rd_parse(s),
    decreases s.len(), 0int,
{
    lemma_step_basic(s);
    lemma_rd_unfold(s);
    let len = s.len() as int;
    let p = pivot_of(s);
    let r = root_of(s);
    let k = node_bin_kind(s[p].0)->Some_0;
    let kr = node_bin_kind(s[r].0)->Some_0;
    let s2 = step_of(s);
    let a = s.subrange(0, r);
    let b = s.subrange(r + 1, len);
    assert(r + 2 <= p);
    let q = p - r - 1;
    lemma_wf_suffix(s, r);
    assert forall|j: int| 0 <= j < b.len() implies (#[trigger] b[j]) == s[r + 1 + j] by {}
    assert(b[q] == s[p]);
    assert(is_pivot(b, q)) by {
        assert forall|j: int| 0 <= j < b.len() implies (#[trigger] b[j]).1 <= b[q].1 by {
            assert(s[r + 1 + j].1 <= s[p].1);
        }
        assert forall|j: int| 0 <= j < q implies (#[trigger] b[j]).1 < b[q].1 by {
            assert(s[r + 1 + j].1 < s[p].1);
        }
    }
    assert(seq_has_op(b));
    lemma_pivot_exists(b);
    assert(is_pivot(b, pivot_of(b)));
    lemma_pivot_unique(b, q, pivot_of(b));
    lemma_step_basic(b);
    lemma_step_preserves_rd(b);
    let b2 = step_of(b);
    assert(mid_of(b) == mid_of(s)) by {
        assert(b[q - 1] == s[p - 1]);
        assert(b[q + 1] == s[p + 1]);
    }
    // the split point stays in place left of the pivot
    assert(s2[r] == s[r]);
    assert(is_root(s2, r)) by {
        assert forall|j: int| 0 <= j < s2.len() && j % 2 == 1 implies (#[trigger] s2[j]).1
            >= s2[r].1 by {
            if j < p - 1 {
                assert(s2[j] == s[j]);
                assert(s[j].1 >= s[r].1);
            } else {
                assert(s2[j] == s[j + 2]);
                assert(s[j + 2].1 >= s[r].1);
            }
        }
        assert forall|j: int| r < j < s2.len() && j % 2 == 1 implies (#[trigger] s2[j]).1
            > s2[r].1 by {
            if j < p - 1 {
                assert(s2[j] == s[j]);
                assert(s[j].1 > s[r].1);
            } else {
                assert(s2[j] == s[j + 2]);
                assert(s[j + 2].1 > s[r].1);
            }
        }
    }
    assert(exists|x: int| is_root(s2, x));
    assert(is_root(s2, root_of(s2)));
    lemma_root_unique(s2, r, root_of(s2));
    assert(s2.len() >= 3);
    lemma_rd_unfold(s2);
    let ap = s2.subrange(0, r);
    let b2p = s2.subrange(r + 1, s2.len() as int);
    assert(node_bin_kind(s2[r].0)->Some_0 == kr);
    assert(rd_parse(s2) == binary(rd_parse(ap), kr, rd_parse(b2p)));
    assert(ap =~= a) by {
        assert forall|j: int| 0 <= j < a.len() implies ap[j] == a[j] by {
            assert(ap[j] == s2[j]);
            assert(s2[j] == s[j]);
        }
    }
    assert(b2p =~= b2) by {
        assert forall|j: int| 0 <= j < b2.len() implies b2p[j] == b2[j] by {
            assert(b2p[j] == s2[r + 1 + j]);
            if j < q - 1 {
                assert(s2[r + 1 + j] == s[r + 1 + j]);
                assert(b2[j] == b[j]);
            } else if j == q - 1 {
                assert(s2[r + 1 + j] == mid_of(s));
                assert(b2[j] == mid_of(b));
            } else {
                assert(s2[r + 1 + j] == s[r + 3 + j]);
                assert(b2[j] == b[j + 2]);
                assert(b[j + 2] == s[r + 3 + j]);
            }
        }
    }
    assert(rd_parse(s2) == binary(rd_parse(a), kr, rd_parse(b2)));
    assert(rd_parse(s2) == rd_parse(s));
}

/// One reduction pass at the pivot of a well-formed sequence binds an
/// operator position, keeps the sequence well-formed, and leaves its
/// recursive-descent parse unchanged.
pub proof fn lemma_step_preserves_rd(s: Seq<(SpecExpr, int)>)
    requires
        wf_pairs(s),
        s.len() >= 3,
    ensures
        is_pivot(s, pivot_of(s)),
        pivot_of(s) % 2 == 1,
        reduce_step(s, pivot_of(s)) is Some,
        wf_pairs(step_of(s)),
        step_of(s).len() == s.len() - 2,
        rd_parse(step_of(s)) == rd_parse(s),
    decreases s.len(), 1int,
{
    lemma_step_basic(s);
    lemma_rd_unfold(s);
    let len = s.len() as int;
    let p = pivot_of(s);
    let r = root_of(s);
    let s2 = step_of(s);
    if p == r {
        // pivot and split point coincide only when one operator is left
        assert(len == 3) by {
            if len >= 5 {
                if p >= 3 {
                    assert(s[p - 2].1 < s[p].1);
                    assert(s[p - 2].1 >= s[r].1);
                } else {
                    assert(s[p + 2].1 > s[r].1);
                    assert(s[p + 2].1 <= s[p].1);
                }
            }
        }
        let a = s.subrange(0, 1);
        let b = s.subrange(2, 3);
        assert(rd_parse(a) == a[0].0);
        assert(rd_parse(b) == b[0].0);
        assert(s2.len() == 1);
        assert(rd_parse(s2) == s2[0].0);
        assert(s2[0] == mid_of(s));
        assert(rd_parse(s2) == rd_parse(s));
    } else if p < r {
        lemma_step_left(s);
    } else {
        lemma_step_right(s);
    }
}

/// Law: on a well-formed alternating operand/operator sequence, the
/// iterative highest-priority reduction succeeds and builds exactly the
/// tree that a conventional recursive-descent precedence parse of the same
/// sequence builds, under this system's priority ordering.
pub proof fn lemma_resolution_matches_precedence(s: Seq<(SpecExpr, int)>)
    requires
        wf_pairs(s),
    ensures
        reduce_spec(s) == Some(rd_parse(s)),
    decreases s.len(),
{
    if s.len() == 1 {
        assert(rd_parse(s) == s[0].0);
    } else {
        assert(s.len() >= 3);
        lemma_step_preserves_rd(s);
        let p = pivot_of(s);
        let s2 = reduce_step(s, p)->Some_0;
        lemma_resolution_matches_precedence(s2);
        assert(0 <= p < s.len());
        assert(s2.len() < s.len());
        assert(reduce_spec(s) == reduce_spec(s2));
    }
}

/// A member list that alternates numeric literals with the four operator
/// symbols, beginning and ending with a literal: the shape of a
/// syntactically valid expression without function calls or parentheses.
pub open spec fn alternating_members(cs: Seq<SpecParseNode>) -> bool {
    &&& cs.len() % 2 == 1
    &&& forall|i: int| 0 <= i < cs.len() && i % 2 == 0 ==> (#[trigger] cs[i]) is Num
    &&& forall|i: int|
        0 <= i < cs.len() && i % 2 == 1 ==> ((#[trigger] cs[i]) is AddSym || cs[i] is SubtractSym
            || cs[i] is MultiplySym || cs[i] is DivideSym)
}

/// The priority pair one group member assembles into.
pub open spec fn member_pair(c: SpecParseNode) -> (SpecExpr, int) {
    (build_spec(c)->Some_0, parse_priority(c))
}

/// Assembling an alternating member list succeeds and keeps every member,
/// in order, as its classified pair.
proof fn lemma_assemble_alternating(cs: Seq<SpecParseNode>, n: int)
    requires
        alternating_members(cs),
        0 <= n <= cs.len(),
    ensures
        build_pairs_spec(cs, n) is Some,
        build_pairs_spec(cs, n)->Some_0.len() == n,
        forall|i: int|
            0 <= i < n ==> (#[trigger] build_pairs_spec(cs, n)->Some_0[i]) == member_pair(cs[i]),
    decreases n,
{
    if n > 0 {
        lemma_assemble_alternating(cs, n - 1);
        let c = cs[n - 1];
        if (n - 1) % 2 == 0 {
            assert(c is Num);
        } else {
            assert(c is AddSym || c is SubtractSym || c is MultiplySym || c is DivideSym);
        }
        assert(build_spec(c) is Some);
        assert(!(c is Unknown));
    }
}

/// Law: a group whose members alternate numeric literals with the four
/// operator symbols assembles into a well-formed priority sequence, its
/// resolution succeeds, and the tree the builder yields for the group is
/// exactly the conventional recursive-descent precedence parse of that
/// sequence.
pub proof fn lemma_valid_group_builds_precedence_tree(cs: Seq<SpecParseNode>)
    requires
        alternating_members(cs),
    ensures
        build_pairs_spec(cs, cs.len() as int) is Some,
        wf_pairs(build_pairs_spec(cs, cs.len() as int)->Some_0),
        build_spec(SpecParseNode::Group(cs)) == Some(
            rd_parse(build_pairs_spec(cs, cs.len() as int)->Some_0),
        ),
{
    lemma_assemble_alternating(cs, cs.len() as int);
    let ps = build_pairs_spec(cs, cs.len() as int)->Some_0;
    assert forall|i: int| 0 <= i < ps.len() && i % 2 == 0 implies (#[trigger] ps[i]).1 == 0
        && is_operand(ps[i].0) by {
        assert(ps[i] == member_pair(cs[i]));
        assert(cs[i] is Num);
    }
    assert forall|i: int| 0 <= i < ps.len() && i % 2 == 1 implies match node_bin_kind(
        (#[trigger] ps[i]).0,
    ) {
        Some(k) => ps[i].1 == kind_priority(k),
        None => false,
    } by {
        assert(ps[i] == member_pair(cs[i]));
        assert(cs[i] is AddSym || cs[i] is SubtractSym || cs[i] is MultiplySym
            || cs[i] is DivideSym);
    }
    assert(wf_pairs(ps));
    lemma_resolution_matches_precedence(ps);
}

} // verus!
