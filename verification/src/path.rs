//! Edit-operation paths: the predicate tying a path to the two sequences it
//! aligns, and the traceback that reconstructs one optimal path.

use vstd::prelude::*;

use crate::levenshtein::{lemma_lev_empty_query, lemma_lev_empty_target, lemma_lev_le_sum,
    lemma_lev_step, lev, lev_col};

verus! {

/// Edit operations, as they appear in an alignment path.
///
/// In the encoded path (`EdlibAlignResultRs::alignment`) they are written as
/// the bytes 0 (match), 1 (insertion to target, consuming one query symbol),
/// 2 (insertion to query, consuming one target symbol) and 3 (mismatch).
#[allow(non_camel_case_types)]
#[derive(Debug, Copy, Clone)]
pub enum EdlibEdopRs {
    /// Match: one query symbol aligned to one equal target symbol.
    EDLIB_EDOP_MATCH,
    /// Insertion to target: one query symbol with no target counterpart.
    EDLIB_EDOP_INSERT,
    /// Insertion to query: one target symbol with no query counterpart.
    EDLIB_EDOP_DELETE,
    /// Mismatch: one query symbol aligned to one different target symbol.
    EDLIB_EDOP_MISMATCH,
}

/// Does the operation sequence `ops` align all of `q` against all of `t`?
/// Operations read in query order: a match (0) or mismatch (3) consumes one
/// symbol of each and demands equal (respectively different) symbols, an
/// insertion to target (1) consumes one query symbol, an insertion to query
/// (2) consumes one target symbol; any other byte is not an operation.
pub open spec fn aligns(ops: Seq<u8>, q: Seq<u8>, t: Seq<u8>) -> bool
    decreases ops.len(),
{
    if ops.len() == 0 {
        q.len() == 0 && t.len() == 0
    } else {
        let op = ops[0];
        if op == 0 {
            q.len() > 0 && t.len() > 0 && q[0] == t[0] && aligns(
                ops.drop_first(),
                q.drop_first(),
                t.drop_first(),
            )
        } else if op == 1 {
            q.len() > 0 && aligns(ops.drop_first(), q.drop_first(), t)
        } else if op == 2 {
            t.len() > 0 && aligns(ops.drop_first(), q, t.drop_first())
        } else if op == 3 {
            q.len() > 0 && t.len() > 0 && q[0] != t[0] && aligns(
                ops.drop_first(),
                q.drop_first(),
                t.drop_first(),
            )
        } else {
            false
        }
    }
}

/// The cost an operation contributes to the edit distance: matches are free,
/// everything else costs one edit.
pub open spec fn op_cost(op: u8) -> nat {
    if op == 0 {
        0
    } else {
        1
    }
}

/// The number of edits a path spends.
pub open spec fn path_cost(ops: Seq<u8>) -> nat
    decreases ops.len(),
{
    if ops.len() == 0 {
        0
    } else {
        op_cost(ops[0]) + path_cost(ops.drop_first())
    }
}

/// The number of operations in the path that consume a query symbol.
pub open spec fn query_ops(ops: Seq<u8>) -> nat
    decreases ops.len(),
{
    if ops.len() == 0 {
        0
    } else {
        (if ops[0] == 0 || ops[0] == 1 || ops[0] == 3 {
            1nat
        } else {
            0nat
        }) + query_ops(ops.drop_first())
    }
}

/// The number of operations in the path that consume a target symbol.
pub open spec fn target_ops(ops: Seq<u8>) -> nat
    decreases ops.len(),
{
    if ops.len() == 0 {
        0
    } else {
        (if ops[0] == 0 || ops[0] == 2 || ops[0] == 3 {
            1nat
        } else {
            0nat
        }) + target_ops(ops.drop_first())
    }
}

/// A path that aligns `q` against `t` consumes the query and the target
/// exactly: its query-consuming operations (all but insertions to query)
/// number `q.len()`, its target-consuming ones `t.len()`, and every one of
/// its bytes is a valid operation code.
pub proof fn lemma_path_consumption(ops: Seq<u8>, q: Seq<u8>, t: Seq<u8>)
    requires
        aligns(ops, q, t),
    ensures
        query_ops(ops) == q.len(),
        target_ops(ops) == t.len(),
        forall|i: int| 0 <= i < ops.len() ==> ops[i] <= 3,
    decreases ops.len(),
{
    if ops.len() == 0 {
    } else {
        let op = ops[0];
        if op == 0 || op == 3 {
            lemma_path_consumption(ops.drop_first(), q.drop_first(), t.drop_first());
        } else if op == 1 {
            lemma_path_consumption(ops.drop_first(), q.drop_first(), t);
        } else {
            lemma_path_consumption(ops.drop_first(), q, t.drop_first());
        }
        assert forall|i: int| 0 <= i < ops.len() implies ops[i] <= 3 by {
            if i >= 1 {
                assert(ops.drop_first()[i - 1] <= 3);
                assert(ops[i] == ops.drop_first()[i - 1]);
            }
        }
    }
}

/// The one path the traceback reconstructs for the query prefix of length
/// `i` against the target prefix of length `j`, read off the edit-distance
/// table with a fixed tie-break: diagonal (match or mismatch) over the
/// query-consuming insertion over the target-consuming insertion.
pub open spec fn trace_spec(q: Seq<u8>, t: Seq<u8>, i: int, j: int) -> Seq<u8>
    decreases i + j,
    when i >= 0 && j >= 0
{
    if i <= 0 && j <= 0 {
        Seq::empty()
    } else if j <= 0 {
        trace_spec(q, t, i - 1, j).push(1)
    } else if i <= 0 {
        trace_spec(q, t, i, j - 1).push(2)
    } else {
        let delta: nat = if q[i - 1] == t[j - 1] {
            0
        } else {
            1
        };
        if lev(q.take(i - 1), t.take(j - 1)) + delta == lev(q.take(i), t.take(j)) {
            trace_spec(q, t, i - 1, j - 1).push(if delta == 0 {
                0
            } else {
                3
            })
        } else if lev(q.take(i - 1), t.take(j)) + 1 == lev(q.take(i), t.take(j)) {
            trace_spec(q, t, i - 1, j).push(1)
        } else {
            trace_spec(q, t, i, j - 1).push(2)
        }
    }
}

/// The deterministic optimal path aligning all of `q` against all of `t`.
pub open spec fn path_of(q: Seq<u8>, t: Seq<u8>) -> Seq<u8> {
    trace_spec(q, t, q.len() as int, t.len() as int)
}

/// Reconstructs one optimal edit path aligning the whole query against the
/// target window `t[s..e]`: the returned operations align the two exactly and
/// spend precisely the edit distance between them.  Ties are broken by fixed
/// preference: diagonal (match/mismatch) over query-consuming insertion over
/// target-consuming insertion.
#[verifier::rlimit(80)]
pub fn trace_path(q: &Vec<u8>, t: &Vec<u8>, s: usize, e: usize) -> (ops: Vec<u8>)
    requires
        s <= e <= t@.len(),
        q@.len() + t@.len() < usize::MAX,
    ensures
        aligns(ops@, q@, t@.subrange(s as int, e as int)),
        path_cost(ops@) == lev(q@, t@.subrange(s as int, e as int)),
        ops@ == path_of(q@, t@.subrange(s as int, e as int)),
{
    let m = q.len();
    let w = e - s;
    let mut i = m;
    let mut j = w;
    let mut ops: Vec<u8> = Vec::new();
    let mut colj = lev_col(q, t, s, e);
    let ghost span = t@.subrange(s as int, e as int);
    proof {
        assert(q@.subrange(m as int, m as int) =~= Seq::<u8>::empty());
        assert(t@.subrange(s as int + w, e as int) =~= Seq::<u8>::empty());
        assert(q@.take(m as int) =~= q@);
        assert(trace_spec(q@, span, m as int, w as int) == trace_spec(q@, span, m as int, w as int)
            + ops@);
    }
    while i > 0 || j > 0
        invariant
            i <= m,
            j <= w,
            m == q@.len(),
            w == e - s,
            s <= e <= t@.len(),
            q@.len() + t@.len() < usize::MAX,
            colj@.len() == m + 1,
            forall|i2: int|
                0 <= i2 <= m ==> colj@[i2] == lev(q@.take(i2), t@.subrange(s as int, s as int + j)),
            aligns(ops@, q@.subrange(i as int, m as int), t@.subrange(s as int + j, e as int)),
            path_cost(ops@) + lev(q@.take(i as int), t@.subrange(s as int, s as int + j)) == lev(
                q@,
                t@.subrange(s as int, e as int),
            ),
            span == t@.subrange(s as int, e as int),
            trace_spec(q@, span, m as int, w as int) == trace_spec(q@, span, i as int, j as int)
                + ops@,
        decreases i + j,
    {
        let ghost ops0 = ops@;
        let ghost qrem = q@.subrange(i as int, m as int);
        let ghost trem = t@.subrange(s as int + j, e as int);
        let ghost oi = i as int;
        let ghost oj = j as int;
        proof {
            assert(span.len() == w);
            assert(span.take(oj) =~= t@.subrange(s as int, s as int + oj));
            if oj > 0 {
                assert(span.take(oj - 1) =~= t@.subrange(s as int, s as int + oj - 1));
                assert(span[oj - 1] == t@[s as int + oj - 1]);
            }
        }
        if j == 0 {
            // only query symbols remain: each costs one insertion to target
            proof {
                lemma_lev_empty_target(q@, i as int, t@, s as int);
                lemma_lev_empty_target(q@, i as int - 1, t@, s as int);
            }
            ops.insert(0, 1u8);
            i -= 1;
            proof {
                assert(ops@ =~= seq![1u8] + ops0);
                assert(q@.subrange(i as int, m as int)[0] == q@[i as int]);
                assert(q@.subrange(i as int, m as int).drop_first() =~= qrem);
                assert(ops@.drop_first() =~= ops0);
                assert(trace_spec(q@, span, oi, 0) == trace_spec(q@, span, oi - 1, 0).push(1u8));
                assert(trace_spec(q@, span, oi - 1, 0).push(1u8) + ops0 =~= trace_spec(
                    q@,
                    span,
                    oi - 1,
                    0,
                ) + (seq![1u8] + ops0));
            }
        } else if i == 0 {
            // only target symbols remain: each costs one insertion to query
            proof {
                lemma_lev_empty_query(q@, t@, s as int, s as int + j);
                lemma_lev_empty_query(q@, t@, s as int, s as int + j - 1);
            }
            let colp = lev_col(q, t, s, s + j - 1);
            ops.insert(0, 2u8);
            j -= 1;
            colj = colp;
            proof {
                assert(ops@ =~= seq![2u8] + ops0);
                assert(t@.subrange(s as int + j, e as int)[0] == t@[s as int + j]);
                assert(t@.subrange(s as int + j, e as int).drop_first() =~= trem);
                assert(ops@.drop_first() =~= ops0);
                assert(trace_spec(q@, span, 0, oj) == trace_spec(q@, span, 0, oj - 1).push(2u8));
                assert(trace_spec(q@, span, 0, oj - 1).push(2u8) + ops0 =~= trace_spec(
                    q@,
                    span,
                    0,
                    oj - 1,
                ) + (seq![2u8] + ops0));
            }
        } else {
            let colp = lev_col(q, t, s, s + j - 1);
            let cur = colj[i];
            let diag = colp[i - 1];
            let vert = colj[i - 1];
            let qc = q[i - 1];
            let tc = t[s + j - 1];
            let dcost: usize = if qc == tc {
                0
            } else {
                1
            };
            proof {
                lemma_lev_step(q@, i as int, t@, s as int, s as int + j);
                lemma_lev_le_sum(q@.take(i as int - 1), t@.subrange(s as int, s as int + j - 1));
                lemma_lev_le_sum(q@.take(i as int - 1), t@.subrange(s as int, s as int + j));
                lemma_lev_le_sum(q@.take(i as int), t@.subrange(s as int, s as int + j - 1));
            }
            if diag + dcost == cur {
                let op: u8 = if qc == tc {
                    0
                } else {
                    3
                };
                ops.insert(0, op);
                i -= 1;
                j -= 1;
                colj = colp;
                proof {
                    assert(ops@ =~= seq![op] + ops0);
                    assert(q@.subrange(i as int, m as int)[0] == q@[i as int]);
                    assert(t@.subrange(s as int + j, e as int)[0] == t@[s as int + j]);
                    assert(q@.subrange(i as int, m as int).drop_first() =~= qrem);
                    assert(t@.subrange(s as int + j, e as int).drop_first() =~= trem);
                    assert(ops@.drop_first() =~= ops0);
                    assert(lev(q@.take(oi - 1), span.take(oj - 1)) + dcost == lev(
                        q@.take(oi),
                        span.take(oj),
                    ));
                    assert(trace_spec(q@, span, oi, oj) == trace_spec(
                        q@,
                        span,
                        oi - 1,
                        oj - 1,
                    ).push(op));
                    assert(trace_spec(q@, span, oi - 1, oj - 1).push(op) + ops0 =~= trace_spec(
                        q@,
                        span,
                        oi - 1,
                        oj - 1,
                    ) + (seq![op] + ops0));
                }
            } else if vert + 1 == cur {
                ops.insert(0, 1u8);
                i -= 1;
                proof {
                    assert(ops@ =~= seq![1u8] + ops0);
                    assert(q@.subrange(i as int, m as int)[0] == q@[i as int]);
                    assert(q@.subrange(i as int, m as int).drop_first() =~= qrem);
                    assert(ops@.drop_first() =~= ops0);
                    assert(lev(q@.take(oi - 1), span.take(oj - 1)) + dcost != lev(
                        q@.take(oi),
                        span.take(oj),
                    ));
                    assert(lev(q@.take(oi - 1), span.take(oj)) + 1 == lev(
                        q@.take(oi),
                        span.take(oj),
                    ));
                    assert(trace_spec(q@, span, oi, oj) == trace_spec(q@, span, oi - 1, oj).push(
                        1u8,
                    ));
                    assert(trace_spec(q@, span, oi - 1, oj).push(1u8) + ops0 =~= trace_spec(
                        q@,
                        span,
                        oi - 1,
                        oj,
                    ) + (seq![1u8] + ops0));
                }
            } else {
                // by the recurrence, the horizontal predecessor must match
                ops.insert(0, 2u8);
                j -= 1;
                colj = colp;
                proof {
                    assert(ops@ =~= seq![2u8] + ops0);
                    assert(t@.subrange(s as int + j, e as int)[0] == t@[s as int + j]);
                    assert(t@.subrange(s as int + j, e as int).drop_first() =~= trem);
                    assert(ops@.drop_first() =~= ops0);
                    assert(lev(q@.take(oi - 1), span.take(oj - 1)) + dcost != lev(
                        q@.take(oi),
                        span.take(oj),
                    ));
                    assert(lev(q@.take(oi - 1), span.take(oj)) + 1 != lev(
                        q@.take(oi),
                        span.take(oj),
                    ));
                    assert(trace_spec(q@, span, oi, oj) == trace_spec(q@, span, oi, oj - 1).push(
                        2u8,
                    ));
                    assert(trace_spec(q@, span, oi, oj - 1).push(2u8) + ops0 =~= trace_spec(
                        q@,
                        span,
                        oi,
                        oj - 1,
                    ) + (seq![2u8] + ops0));
                }
            }
        }
    }
    proof {
        assert(q@.subrange(0, m as int) =~= q@);
        assert(q@.take(0).len() == 0);
        assert(t@.subrange(s as int, s as int).len() == 0);
        assert(trace_spec(q@, span, 0, 0) =~= Seq::<u8>::empty());
        assert(Seq::<u8>::empty() + ops@ =~= ops@);
        assert(span.len() == e - s);
        assert(ops@ == path_of(q@, span));
    }
    ops
}

} // verus!
