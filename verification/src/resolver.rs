//! The precedence resolver: iterative reduction of a flat priority sequence.
//!
//! Given one group's sequence of `(node, priority)` pairs, the resolver
//! repeatedly picks the leftmost element with the strictly highest priority,
//! binds it to its immediate left and right neighbors as a `BinaryNode`,
//! splices the new node (priority 0) back in at the left neighbor's
//! position, and repeats until a single node remains.  A sequence that is
//! empty, has a non-operator pivot, or has an operator without a right
//! neighbor is malformed and fails to resolve.
//!
//! An expression that begins with a binary operator has no left neighbor
//! for its pivot.  A leading `-` is read as a true unary minus: `-x` is
//! bound as `0 - x`.  Any other leading operator fails to resolve.

use vstd::prelude::*;

use crate::ast::{binary, expr_view, node_bin_kind, pairs_view, BinKind, Expr, SpecExpr};

verus! {

/// Whether the sequence holds at least one element with an operator
/// priority (weight 1 or more).
pub open spec fn seq_has_op(s: Seq<(SpecExpr, int)>) -> bool {
    exists|j: int| 0 <= j < s.len() && s[j].1 >= 1
}

/// Whether `p` is the pivot of `s`: the leftmost position whose priority is
/// highest, among sequences that hold an operator priority at all.
pub open spec fn is_pivot(s: Seq<(SpecExpr, int)>, p: int) -> bool {
    &&& 0 <= p < s.len()
    &&& s[p].1 >= 1
    &&& forall|j: int| 0 <= j < s.len() ==> (#[trigger] s[j]).1 <= s[p].1
    &&& forall|j: int| 0 <= j < p ==> (#[trigger] s[j]).1 < s[p].1
}

/// The position the resolver's scan selects: the pivot where one exists,
/// and position 0 of an all-priority-0 sequence otherwise.
pub open spec fn pivot_of(s: Seq<(SpecExpr, int)>) -> int {
    if seq_has_op(s) {
        choose|p: int| is_pivot(s, p)
    } else {
        0
    }
}

/// Every sequence with an operator priority has a pivot.
pub proof fn lemma_pivot_exists(s: Seq<(SpecExpr, int)>)
    requires
        seq_has_op(s),
    ensures
        exists|p: int| is_pivot(s, p),
    decreases s.len(),
{
    let w = choose|j: int| 0 <= j < s.len() && s[j].1 >= 1;
    if s.len() == 1 {
        assert(is_pivot(s, 0));
    } else {
        let t = s.drop_last();
        let last = s.len() - 1;
        assert forall|j: int| 0 <= j < last implies (#[trigger] t[j]) == s[j] by {}
        if seq_has_op(t) {
            lemma_pivot_exists(t);
            let p = choose|p: int| is_pivot(t, p);
            if s[last].1 > s[p].1 {
                assert forall|j: int| 0 <= j < s.len() implies (#[trigger] s[j]).1 <= s[last].1
                    by {
                    if j < last {
                        assert(t[j].1 <= t[p].1);
                    }
                }
                assert forall|j: int| 0 <= j < last implies (#[trigger] s[j]).1 < s[last].1 by {
                    if j < last {
                        assert(t[j].1 <= t[p].1);
                    }
                }
                assert(is_pivot(s, last));
            } else {
                assert forall|j: int| 0 <= j < s.len() implies (#[trigger] s[j]).1 <= s[p].1 by {
                    if j < last {
                        assert(t[j].1 <= t[p].1);
                    }
                }
                assert forall|j: int| 0 <= j < p implies (#[trigger] s[j]).1 < s[p].1 by {
                    assert(t[j].1 < t[p].1);
                }
                assert(is_pivot(s, p));
            }
        } else {
            // the only operator priority sits at the end
            assert forall|j: int| 0 <= j < last implies (#[trigger] s[j]).1 < 1 by {
                assert(!(0 <= j < t.len() && t[j].1 >= 1));
            }
            assert(s[w].1 >= 1);
            assert(w == last);
            assert(is_pivot(s, last));
        }
    }
}

/// A sequence has at most one pivot.
pub proof fn lemma_pivot_unique(s: Seq<(SpecExpr, int)>, p1: int, p2: int)
    requires
        is_pivot(s, p1),
        is_pivot(s, p2),
    ensures
        p1 == p2,
{
    if p1 < p2 {
        assert(s[p1].1 < s[p2].1);
        assert(s[p2].1 <= s[p1].1);
    }
    if p2 < p1 {
        assert(s[p2].1 < s[p1].1);
        assert(s[p1].1 <= s[p2].1);
    }
}

/// One reduction pass at pivot position `p`: bind the pivot to its
/// neighbors and splice the resolved node back in, or fail on a
/// non-operator pivot, a missing right neighbor, or a leading operator
/// other than a unary minus.
pub open spec fn reduce_step(s: Seq<(SpecExpr, int)>, p: int) -> Option<Seq<(SpecExpr, int)>>
    recommends
        0 <= p < s.len(),
{
    match node_bin_kind(s[p].0) {
        Some(k) => {
            if p + 1 >= s.len() {
                None
            } else if p == 0 {
                if k == BinKind::Subtract {
                    Some(
                        s.subrange(2, s.len() as int).insert(
                            0,
                            (binary(SpecExpr::Number(seq!['0']), BinKind::Subtract, s[1].0), 0),
                        ),
                    )
                } else {
                    None
                }
            } else {
                Some(
                    s.subrange(0, p - 1) + seq![(binary(s[p - 1].0, k, s[p + 1].0), 0int)]
                        + s.subrange(p + 2, s.len() as int),
                )
            }
        },
        None => None,
    }
}

/// Full resolution of a priority sequence: pass after pass at the pivot
/// until one node remains.  The empty sequence and every malformed pass
/// fail.
pub open spec fn reduce_spec(s: Seq<(SpecExpr, int)>) -> Option<SpecExpr>
    decreases s.len(),
{
    if s.len() == 0 {
        None
    } else if s.len() == 1 {
        Some(s[0].0)
    } else {
        let p = pivot_of(s);
        if 0 <= p < s.len() {
            match reduce_step(s, p) {
                Some(s2) => if s2.len() < s.len() {
                    reduce_spec(s2)
                } else {
                    None
                },
                None => None,
            }
        } else {
            None
        }
    }
}

/// Resolves one group node to a single expression tree, consuming it.
///
/// For a `Group`, the result is exactly what pass-by-pass reduction of the
/// sequence yields: `Some` of the resolved tree, or `None` when the
/// sequence is empty or malformed.  Every other node kind yields `None`.
#[verifier::rlimit(50)]
pub fn build_bin_op(exp: Expr) -> (r: Option<Expr>)
    ensures
        match exp {
            Expr::Group(v) => match reduce_spec(pairs_view(v@)) {
                Some(t) => r matches Some(e) && e@ == t,
                None => r is None,
            },
            _ => r is None,
        },
{
    let mut v: Vec<(Expr, u32)> = match exp {
        Expr::Group(v) => v,
        _ => {
            return None;
        },
    };
    let ghost v0 = v;
    proof {
        assert(exp == Expr::Group(v0));
    }
    let ghost orig: Seq<(SpecExpr, int)> = pairs_view(v@);
    if v.len() == 0 {
        return None;
    }
    while v.len() > 1
        invariant
            v.len() >= 1,
            exp == Expr::Group(v0),
            orig == pairs_view(v0@),
            reduce_spec(pairs_view(v@)) == reduce_spec(orig),
        decreases v.len(),
    {
        let ghost s = pairs_view(v@);
        // scan for the leftmost strictly-highest priority
        let mut max_pr: u32 = 0;
        let mut max_idx: usize = 0;
        let mut i: usize = 0;
        while i < v.len()
            invariant
                i <= v.len(),
                v.len() >= 2,
                s == pairs_view(v@),
                max_pr == 0 ==> max_idx == 0 && forall|j: int|
                    0 <= j < i ==> (#[trigger] s[j]).1 == 0,
                max_pr >= 1 ==> (max_idx as int) < i && s[max_idx as int].1 == max_pr as int
                    && (forall|j: int| 0 <= j < i ==> (#[trigger] s[j]).1 <= max_pr as int)
                    && (forall|j: int| 0 <= j < max_idx as int ==> (#[trigger] s[j]).1 < max_pr
                    as int),
            decreases v.len() - i,
        {
            if v[i].1 > max_pr {
                max_pr = v[i].1;
                max_idx = i;
            }
            i += 1;
        }
        let p = max_idx;
        proof {
            if max_pr == 0 {
                assert(!seq_has_op(s));
                assert(pivot_of(s) == 0);
            } else {
                assert(is_pivot(s, p as int));
                assert(seq_has_op(s));
                lemma_pivot_exists(s);
                lemma_pivot_unique(s, p as int, choose|q: int| is_pivot(s, q));
            }
            assert(pivot_of(s) == p as int);
        }
        let ghost vs = v@;
        // the pivot must be a binary operator marker
        let k_opt = match &v[p].0 {
            Expr::Operator(op) => op.bin_kind(),
            _ => None,
        };
        proof {
            assert(s[p as int].0 == expr_view(vs[p as int].0));
            assert(k_opt == node_bin_kind(s[p as int].0));
        }
        let k = match k_opt {
            Some(k) => k,
            None => {
                proof {
                    assert(reduce_step(s, p as int) is None);
                    assert(reduce_spec(s) is None);
                }
                return None;
            },
        };
        if p + 1 >= v.len() {
            // trailing operator: no right neighbor
            proof {
                assert(p as int + 1 >= s.len());
                assert(reduce_step(s, p as int) is None);
                assert(reduce_spec(s) is None);
            }
            return None;
        }
        if p == 0 {
            if !matches!(k, BinKind::Subtract) {
                // a leading +, * or / has no left operand
                proof {
                    assert(reduce_step(s, 0) is None);
                    assert(reduce_spec(s) is None);
                }
                return None;
            }
            // unary minus: read "-x" as "0 - x"
            let _marker = v.remove(0);
            let right_pair = v.remove(0);
            let node = Expr::BinaryNode(
                Box::new(Expr::Number(String::from_str("0"))),
                BinKind::Subtract,
                Box::new(right_pair.0),
            );
            v.insert(0, (node, 0));
            proof {
                reveal_strlit("0");
                reveal_with_fuel(expr_view, 3);
                assert("0"@ =~= seq!['0']);
                assert(right_pair == vs[1]);
                let s2 = reduce_step(s, 0)->Some_0;
                assert(s2 == s.subrange(2, s.len() as int).insert(
                    0,
                    (binary(SpecExpr::Number(seq!['0']), BinKind::Subtract, s[1].0), 0int),
                ));
                assert(v@ == vs.remove(0).remove(0).insert(0, (node, 0u32)));
                assert(v@.len() == s2.len());
                assert(expr_view(node) == binary(
                    SpecExpr::Number(seq!['0']),
                    BinKind::Subtract,
                    s[1].0,
                ));
                assert forall|j: int| 0 <= j < v@.len() implies pairs_view(v@)[j] == s2[j] by {
                    if j == 0 {
                        assert(v@[0] == (node, 0u32));
                        assert(s2[0] == (binary(
                            SpecExpr::Number(seq!['0']),
                            BinKind::Subtract,
                            s[1].0,
                        ), 0int));
                    } else {
                        assert(v@[j] == vs[j + 1]);
                        assert(s2[j] == s[j + 1]);
                    }
                }
                assert(pairs_view(v@) =~= s2);
                assert(s2.len() < s.len());
                assert(reduce_spec(s) == reduce_spec(s2));
            }
        } else {
            let left_pair = v.remove(p - 1);
            let _marker = v.remove(p - 1);
            let right_pair = v.remove(p - 1);
            let node = Expr::BinaryNode(Box::new(left_pair.0), k, Box::new(right_pair.0));
            v.insert(p - 1, (node, 0));
            proof {
                let pi = p as int;
                let s2 = reduce_step(s, pi)->Some_0;
                assert(s2 == s.subrange(0, pi - 1) + seq![
                    (binary(s[pi - 1].0, k, s[pi + 1].0), 0int),
                ] + s.subrange(pi + 2, s.len() as int));
                assert(v@ == vs.remove(pi - 1).remove(pi - 1).remove(pi - 1).insert(
                    pi - 1,
                    (node, 0u32),
                ));
                assert(v@.len() == s2.len());
                assert(left_pair == vs[pi - 1]);
                assert(right_pair == vs[pi + 1]);
                assert(expr_view(node) == binary(s[pi - 1].0, k, s[pi + 1].0));
                assert forall|j: int| 0 <= j < v@.len() implies pairs_view(v@)[j] == s2[j] by {
                    if j < pi - 1 {
                        assert(v@[j] == vs[j]);
                        assert(s2[j] == s[j]);
                    } else if j == pi - 1 {
                        assert(v@[j] == (node, 0u32));
                        assert(s2[j] == (binary(s[pi - 1].0, k, s[pi + 1].0), 0int));
                    } else {
                        assert(v@[j] == vs[j + 2]);
                        assert(s2[j] == s[j + 2]);
                    }
                }
                assert(pairs_view(v@) =~= s2);
                assert(s2.len() < s.len());
                assert(reduce_spec(s) == reduce_spec(s2));
            }
        }
    }
    let first = v.remove(0);
    Some(first.0)
}

} // verus!
