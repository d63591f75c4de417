//! The alignment engine: mode-dependent best scores, end and start
//! locations, and the top-level alignment entry point.
//!
//! The distance bound `k` is a filter on the report, not on the
//! computation: the engine always evaluates the full dynamic program and
//! compares the optimal score against a non-negative `k` afterwards, so a
//! negative `k` needs no stepwise widening of the bound.  This choice
//! affects running time only; the reported values are the ones the
//! contracts state.

use vstd::prelude::*;

use crate::alphabet::{build_class_table, cls_seq, count_appearing, count_distinct, map_classes,
    EdlibEqualityPairRs};
use crate::levenshtein::{lemma_lev_le_sum, lev, lev_dist, min2};
use crate::path::{aligns, path_cost, path_of, trace_path};

verus! {

/// Status value reported on every successful alignment.
pub const EDLIB_RS_STATUS_OK: u32 = 0;

/// Status value reserved for failed alignments.
pub const EDLIB_RS_STATUS_ERROR: u32 = 1;

/// Alignment methods: how gaps before and after the query are charged.
#[allow(non_camel_case_types)]
#[derive(Debug, Copy, Clone)]
pub enum EdlibAlignModeRs {
    /// Global method: the query must span the whole target, and gaps at
    /// either end are charged.
    EDLIB_MODE_NW,
    /// Prefix method: a gap after the query's end is free, so trailing
    /// target symbols cost nothing.
    EDLIB_MODE_SHW,
    /// Infix method: gaps before the query's start and after its end are
    /// free, so the query is matched against any target substring.
    EDLIB_MODE_HW,
}

/// Alignment tasks: how much of the result is computed.
#[allow(non_camel_case_types)]
#[derive(Debug, Copy, Clone)]
pub enum EdlibAlignTaskRs {
    /// Find the edit distance and the end locations.
    EDLIB_TASK_DISTANCE,
    /// Find the edit distance, end locations and start locations.
    EDLIB_TASK_LOC,
    /// Find the edit distance, end and start locations, and an alignment path.
    EDLIB_TASK_PATH,
}

/// Configuration for the [`edlibAlignRs`] function.
#[allow(non_snake_case)]
#[derive(Debug, Copy, Clone)]
pub struct EdlibAlignConfigRs<'a> {
    /// Non-negative: report -1 instead of any distance above `k`.
    /// Negative: no bound, the exact distance is always reported.
    pub k: i32,
    /// Alignment method (global, prefix or infix).
    pub mode: EdlibAlignModeRs,
    /// Alignment task (distance, locations or full path).
    pub task: EdlibAlignTaskRs,
    /// Pairs of bytes that the alignment treats as equal, extending the
    /// default equality of each byte with itself.
    pub additionalequalities: &'a [EdlibEqualityPairRs],
}

impl<'a> EdlibAlignConfigRs<'a> {
    /// Builds a configuration from the given parameters.
    pub fn new(
        k: i32,
        mode: EdlibAlignModeRs,
        task: EdlibAlignTaskRs,
        additionalequalities: &'a [EdlibEqualityPairRs],
    ) -> (c: Self)
        ensures
            c.k == k,
            c.mode == mode,
            c.task == task,
            c.additionalequalities == additionalequalities,
    {
        EdlibAlignConfigRs { k, mode, task, additionalequalities }
    }
}

impl<'a> Default for EdlibAlignConfigRs<'a> {
    /// The default configuration: unbounded global alignment, distance
    /// only, no additional equalities.
    fn default() -> (c: Self)
        ensures
            c.k == -1,
            c.mode is EDLIB_MODE_NW,
            c.task is EDLIB_TASK_DISTANCE,
            c.additionalequalities@.len() == 0,
    {
        EdlibAlignConfigRs {
            k: -1,
            mode: EdlibAlignModeRs::EDLIB_MODE_NW,
            task: EdlibAlignTaskRs::EDLIB_TASK_DISTANCE,
            additionalequalities: &[],
        }
    }
}

/// The best score reachable when the alignment may end after any number
/// `j <= t.len()` of consumed target symbols (prefix mode): the least edit
/// distance between the query and any prefix of the target.
pub open spec fn shw_best(q: Seq<u8>, t: Seq<u8>) -> nat
    decreases t.len(),
{
    if t.len() == 0 {
        q.len()
    } else {
        min2(shw_best(q, t.drop_last()), lev(q, t))
    }
}

/// The best score of an alignment ending exactly at the end of `u` but free
/// to start after any number of leading target symbols (infix mode): the
/// least edit distance between the query and any suffix of `u`.
pub open spec fn hw_end_score(q: Seq<u8>, u: Seq<u8>) -> nat
    decreases u.len(),
{
    if u.len() == 0 {
        q.len()
    } else {
        min2(lev(q, u), hw_end_score(q, u.drop_first()))
    }
}

/// The best infix score over all end positions: the least edit distance
/// between the query and any substring of the target.
pub open spec fn hw_best(q: Seq<u8>, t: Seq<u8>) -> nat
    decreases t.len(),
{
    if t.len() == 0 {
        q.len()
    } else {
        min2(hw_best(q, t.drop_last()), hw_end_score(q, t))
    }
}

/// The optimal score of the alignment under the given mode, over the
/// class-mapped query and target.
pub open spec fn mode_best(mode: EdlibAlignModeRs, q: Seq<u8>, t: Seq<u8>) -> nat {
    match mode {
        EdlibAlignModeRs::EDLIB_MODE_NW => lev(q, t),
        EdlibAlignModeRs::EDLIB_MODE_SHW => shw_best(q, t),
        EdlibAlignModeRs::EDLIB_MODE_HW => hw_best(q, t),
    }
}

/// Does an optimal alignment end after exactly `j` consumed target symbols?
/// In global mode the whole target must be consumed; in prefix and infix
/// modes, `j` qualifies exactly when its end score reaches the optimum.
pub open spec fn is_end(mode: EdlibAlignModeRs, q: Seq<u8>, t: Seq<u8>, j: int) -> bool {
    match mode {
        EdlibAlignModeRs::EDLIB_MODE_NW => j == t.len(),
        EdlibAlignModeRs::EDLIB_MODE_SHW => lev(q, t.take(j)) == shw_best(q, t),
        EdlibAlignModeRs::EDLIB_MODE_HW => hw_end_score(q, t.take(j)) == hw_best(q, t),
    }
}

/// Is the distance `d` reportable under the bound `k`?  A negative `k`
/// means unbounded.
pub open spec fn within_bound(k: int, d: nat) -> bool {
    k < 0 || d <= k
}

/// The reported end locations are exactly the qualifying end positions,
/// each written as the zero-based target index `j - 1` of its last consumed
/// symbol (so an alignment consuming no target symbols ends at -1), in
/// strictly ascending order.
pub open spec fn ends_ok(mode: EdlibAlignModeRs, q: Seq<u8>, t: Seq<u8>, ends: Seq<i32>) -> bool {
    &&& forall|j: int| 0 <= j <= t.len() ==> (is_end(mode, q, t, j) <==> ends.contains((j - 1) as i32))
    &&& forall|x: int| 0 <= x < ends.len() ==> -1 <= #[trigger] ends[x] < t.len()
    &&& forall|x: int, y: int| 0 <= x < y < ends.len() ==> ends[x] < ends[y]
}

/// `s` is the start location paired with the end position `j`: the smallest
/// start (longest span) whose window realizes the reported distance `d`.
pub open spec fn start_min(q: Seq<u8>, t: Seq<u8>, d: nat, j: int, s: int) -> bool {
    &&& 0 <= s <= j
    &&& lev(q, t.subrange(s, j)) == d
    &&& forall|s2: int| 0 <= s2 < s ==> lev(q, t.subrange(s2, j)) != d
}

/// The reported start locations pair with the end locations: in global and
/// prefix mode every alignment starts at the beginning of the target; in
/// infix mode each end gets the smallest qualifying start.
pub open spec fn starts_ok(
    mode: EdlibAlignModeRs,
    q: Seq<u8>,
    t: Seq<u8>,
    d: nat,
    ends: Seq<i32>,
    starts: Seq<i32>,
) -> bool {
    &&& starts.len() == ends.len()
    &&& match mode {
        EdlibAlignModeRs::EDLIB_MODE_HW => forall|x: int|
            0 <= x < starts.len() ==> start_min(q, t, d, ends[x] + 1, starts[x] as int),
        _ => forall|x: int| 0 <= x < starts.len() ==> starts[x] == 0,
    }
}

/// The prefix best is a lower bound for every prefix score.
pub proof fn lemma_shw_le_prefix(q: Seq<u8>, t: Seq<u8>, j: int)
    requires
        0 <= j <= t.len(),
    ensures
        shw_best(q, t) <= lev(q, t.take(j)),
    decreases t.len(),
{
    if t.len() == 0 {
        assert(t.take(j).len() == 0);
    } else if j == t.len() {
        assert(t.take(j) =~= t);
    } else {
        lemma_shw_le_prefix(q, t.drop_last(), j);
        assert(t.drop_last().take(j) =~= t.take(j));
    }
}

/// Some prefix attains the prefix best.
pub proof fn lemma_shw_attained(q: Seq<u8>, t: Seq<u8>)
    ensures
        exists|j: int| 0 <= j <= t.len() && lev(q, #[trigger] t.take(j)) == shw_best(q, t),
    decreases t.len(),
{
    if t.len() == 0 {
        assert(t.take(0).len() == 0);
        assert(lev(q, t.take(0)) == shw_best(q, t));
    } else if lev(q, t) <= shw_best(q, t.drop_last()) {
        assert(t.take(t.len() as int) =~= t);
        assert(lev(q, t.take(t.len() as int)) == shw_best(q, t));
    } else {
        lemma_shw_attained(q, t.drop_last());
        let j = choose|j: int|
            0 <= j <= t.drop_last().len() && lev(q, #[trigger] t.drop_last().take(j)) == shw_best(
                q,
                t.drop_last(),
            );
        assert(t.drop_last().take(j) =~= t.take(j));
        assert(lev(q, t.take(j)) == shw_best(q, t));
    }
}

/// The infix end score never exceeds the query length.
pub proof fn lemma_hw_end_le(q: Seq<u8>, u: Seq<u8>)
    ensures
        hw_end_score(q, u) <= q.len(),
    decreases u.len(),
{
    if u.len() == 0 {
    } else {
        lemma_hw_end_le(q, u.drop_first());
    }
}

/// The infix best is a lower bound for every end score.
pub proof fn lemma_hw_le_end(q: Seq<u8>, t: Seq<u8>, j: int)
    requires
        0 <= j <= t.len(),
    ensures
        hw_best(q, t) <= hw_end_score(q, t.take(j)),
    decreases t.len(),
{
    if t.len() == 0 {
        assert(t.take(j).len() == 0);
    } else if j == t.len() {
        assert(t.take(j) =~= t);
    } else {
        lemma_hw_le_end(q, t.drop_last(), j);
        assert(t.drop_last().take(j) =~= t.take(j));
    }
}

/// Some end position attains the infix best.
pub proof fn lemma_hw_attained(q: Seq<u8>, t: Seq<u8>)
    ensures
        exists|j: int|
            0 <= j <= t.len() && hw_end_score(q, #[trigger] t.take(j)) == hw_best(q, t),
    decreases t.len(),
{
    if t.len() == 0 {
        assert(t.take(0).len() == 0);
        assert(hw_end_score(q, t.take(0)) == hw_best(q, t));
    } else if hw_end_score(q, t) <= hw_best(q, t.drop_last()) {
        assert(t.take(t.len() as int) =~= t);
        assert(hw_end_score(q, t.take(t.len() as int)) == hw_best(q, t));
    } else {
        lemma_hw_attained(q, t.drop_last());
        let j = choose|j: int|
            0 <= j <= t.drop_last().len() && hw_end_score(
                q,
                #[trigger] t.drop_last().take(j),
            ) == hw_best(q, t.drop_last());
        assert(t.drop_last().take(j) =~= t.take(j));
        assert(hw_end_score(q, t.take(j)) == hw_best(q, t));
    }
}

/// Some suffix of `u` attains the infix end score of `u`.
pub proof fn lemma_hw_start_attained(q: Seq<u8>, u: Seq<u8>)
    ensures
        exists|s: int|
            0 <= s <= u.len() && lev(q, #[trigger] u.subrange(s, u.len() as int)) == hw_end_score(
                q,
                u,
            ),
    decreases u.len(),
{
    if u.len() == 0 {
        assert(u.subrange(0, 0) =~= u);
        assert(lev(q, u.subrange(0, 0)) == hw_end_score(q, u));
    } else if lev(q, u) <= hw_end_score(q, u.drop_first()) {
        assert(u.subrange(0, u.len() as int) =~= u);
        assert(lev(q, u.subrange(0, u.len() as int)) == hw_end_score(q, u));
    } else {
        lemma_hw_start_attained(q, u.drop_first());
        let s = choose|s: int|
            0 <= s <= u.drop_first().len() && lev(
                q,
                #[trigger] u.drop_first().subrange(s, u.drop_first().len() as int),
            ) == hw_end_score(q, u.drop_first());
        assert(u.drop_first().subrange(s, u.drop_first().len() as int) =~= u.subrange(
            s + 1,
            u.len() as int,
        ));
        assert(lev(q, u.subrange(s + 1, u.len() as int)) == hw_end_score(q, u));
    }
}

/// Pushing onto a sequence extends what it contains by exactly the pushed
/// value.
proof fn lemma_push_contains(s: Seq<i32>, v: i32)
    ensures
        forall|x: i32| s.push(v).contains(x) <==> (s.contains(x) || x == v),
{
    assert forall|x: i32| s.push(v).contains(x) <==> (s.contains(x) || x == v) by {
        if s.contains(x) {
            let w = choose|w: int| 0 <= w < s.len() && #[trigger] s[w] == x;
            assert(s.push(v)[w] == x);
        }
        if x == v {
            assert(s.push(v)[s.len() as int] == x);
        }
        if s.push(v).contains(x) {
            let w = choose|w: int| 0 <= w < s.push(v).len() && #[trigger] s.push(v)[w] == x;
            if w < s.len() {
                assert(s[w] == x);
            }
        }
    }
}

/// The scores of all prefix-mode end positions: entry `j` is the edit
/// distance between the query and the target prefix of length `j`.
fn shw_scores(q: &Vec<u8>, t: &Vec<u8>) -> (v: Vec<usize>)
    requires
        q@.len() + t@.len() < usize::MAX,
    ensures
        v@.len() == t@.len() + 1,
        forall|j: int| 0 <= j <= t@.len() ==> v@[j] == lev(q@, t@.take(j)),
{
    let n = t.len();
    let mut v: Vec<usize> = Vec::new();
    let mut j: usize = 0;
    while j <= n
        invariant
            j <= n + 1,
            n == t@.len(),
            q@.len() + t@.len() < usize::MAX,
            v@.len() == j,
            forall|j2: int| 0 <= j2 < j ==> v@[j2] == lev(q@, t@.take(j2)),
        decreases n + 1 - j,
    {
        let d = lev_dist(q, t, 0, j);
        proof {
            assert(t@.subrange(0, j as int) =~= t@.take(j as int));
        }
        v.push(d);
        j += 1;
    }
    v
}

/// The scores of all infix-mode end positions: entry `j` is the least edit
/// distance between the query and any suffix of the target prefix of
/// length `j`.
fn hw_scores(q: &Vec<u8>, t: &Vec<u8>) -> (v: Vec<usize>)
    requires
        q@.len() + t@.len() < usize::MAX,
    ensures
        v@.len() == t@.len() + 1,
        forall|j: int| 0 <= j <= t@.len() ==> v@[j] == hw_end_score(q@, t@.take(j)),
{
    let n = t.len();
    let m = q.len();
    let mut v: Vec<usize> = Vec::new();
    let mut j: usize = 0;
    while j <= n
        invariant
            j <= n + 1,
            n == t@.len(),
            m == q@.len(),
            q@.len() + t@.len() < usize::MAX,
            v@.len() == j,
            forall|j2: int| 0 <= j2 < j ==> v@[j2] == hw_end_score(q@, t@.take(j2)),
        decreases n + 1 - j,
    {
        let mut cur: usize = m;
        proof {
            assert(t@.subrange(j as int, j as int).len() == 0);
            assert(hw_end_score(q@, t@.subrange(j as int, j as int)) == m);
            lemma_hw_end_le(q@, t@.subrange(0, j as int));
        }
        let mut s: usize = 0;
        while s < j
            invariant
                s <= j <= n,
                n == t@.len(),
                m == q@.len(),
                q@.len() + t@.len() < usize::MAX,
                cur <= m,
                min2(cur as nat, hw_end_score(q@, t@.subrange(s as int, j as int))) == hw_end_score(
                    q@,
                    t@.subrange(0, j as int),
                ),
            decreases j - s,
        {
            let d = lev_dist(q, t, s, j);
            proof {
                assert(t@.subrange(s as int, j as int).drop_first() =~= t@.subrange(
                    s as int + 1,
                    j as int,
                ));
            }
            if d < cur {
                cur = d;
            }
            s += 1;
        }
        proof {
            assert(t@.subrange(j as int, j as int).len() == 0);
            assert(hw_end_score(q@, t@.subrange(j as int, j as int)) == m);
            assert(t@.subrange(0, j as int) =~= t@.take(j as int));
        }
        v.push(cur);
        j += 1;
    }
    v
}

/// The least entry of the prefix-mode score table is the prefix best.
fn shw_best_exec(q: &Vec<u8>, t: &Vec<u8>, scores: &Vec<usize>) -> (b: usize)
    requires
        scores@.len() == t@.len() + 1,
        forall|j: int| 0 <= j <= t@.len() ==> scores@[j] == lev(q@, t@.take(j)),
    ensures
        b == shw_best(q@, t@),
{
    let mut b = scores[0];
    proof {
        assert(t@.take(0).len() == 0);
        assert(shw_best(q@, t@.take(0)) == q@.len());
        assert(lev(q@, t@.take(0)) == q@.len());
    }
    let mut j: usize = 1;
    while j < scores.len()
        invariant
            1 <= j <= scores@.len(),
            scores@.len() == t@.len() + 1,
            forall|j2: int| 0 <= j2 <= t@.len() ==> scores@[j2] == lev(q@, t@.take(j2)),
            b == shw_best(q@, t@.take(j as int - 1)),
        decreases scores@.len() - j,
    {
        let d = scores[j];
        proof {
            assert(t@.take(j as int).drop_last() =~= t@.take(j as int - 1));
            assert(lev(q@, t@.take(j as int).take(j as int)) == lev(q@, t@.take(j as int))) by {
                assert(t@.take(j as int).take(j as int) =~= t@.take(j as int));
            }
            assert(shw_best(q@, t@.take(j as int)) == min2(
                shw_best(q@, t@.take(j as int - 1)),
                lev(q@, t@.take(j as int)),
            ));
        }
        if d < b {
            b = d;
        }
        j += 1;
    }
    proof {
        assert(t@.take(t@.len() as int) =~= t@);
    }
    b
}

/// The least entry of the infix-mode score table is the infix best.
fn hw_best_exec(q: &Vec<u8>, t: &Vec<u8>, scores: &Vec<usize>) -> (b: usize)
    requires
        scores@.len() == t@.len() + 1,
        forall|j: int| 0 <= j <= t@.len() ==> scores@[j] == hw_end_score(q@, t@.take(j)),
    ensures
        b == hw_best(q@, t@),
{
    let mut b = scores[0];
    proof {
        assert(t@.take(0).len() == 0);
        assert(hw_best(q@, t@.take(0)) == q@.len());
        assert(hw_end_score(q@, t@.take(0)) == q@.len());
    }
    let mut j: usize = 1;
    while j < scores.len()
        invariant
            1 <= j <= scores@.len(),
            scores@.len() == t@.len() + 1,
            forall|j2: int| 0 <= j2 <= t@.len() ==> scores@[j2] == hw_end_score(q@, t@.take(j2)),
            b == hw_best(q@, t@.take(j as int - 1)),
        decreases scores@.len() - j,
    {
        let d = scores[j];
        proof {
            assert(t@.take(j as int).drop_last() =~= t@.take(j as int - 1));
            assert(hw_end_score(q@, t@.take(j as int).take(j as int)) == hw_end_score(
                q@,
                t@.take(j as int),
            )) by {
                assert(t@.take(j as int).take(j as int) =~= t@.take(j as int));
            }
            assert(hw_best(q@, t@.take(j as int)) == min2(
                hw_best(q@, t@.take(j as int - 1)),
                hw_end_score(q@, t@.take(j as int)),
            ));
        }
        if d < b {
            b = d;
        }
        j += 1;
    }
    proof {
        assert(t@.take(t@.len() as int) =~= t@);
    }
    b
}

/// Collects the end locations: position `j - 1` for every entry `j` of the
/// score table that equals the best score, in ascending order.
fn collect_ends(scores: &Vec<usize>, best: usize) -> (ends: Vec<i32>)
    requires
        1 <= scores@.len() <= 0x8000_0000,
    ensures
        forall|j: int|
            0 <= j < scores@.len() ==> ((scores@[j] == best) <==> ends@.contains((j - 1) as i32)),
        forall|x: int| 0 <= x < ends@.len() ==> -1 <= #[trigger] ends@[x] < scores@.len() - 1,
        forall|x: int, y: int| 0 <= x < y < ends@.len() ==> ends@[x] < ends@[y],
{
    let mut ends: Vec<i32> = Vec::new();
    let mut j: usize = 0;
    while j < scores.len()
        invariant
            j <= scores@.len() <= 0x8000_0000,
            forall|j2: int|
                0 <= j2 < j ==> ((scores@[j2] == best) <==> ends@.contains((j2 - 1) as i32)),
            forall|x: int| 0 <= x < ends@.len() ==> -1 <= #[trigger] ends@[x] && ends@[x] < j as int - 1,
            forall|x: int, y: int| 0 <= x < y < ends@.len() ==> ends@[x] < ends@[y],
        decreases scores@.len() - j,
    {
        let ghost ends0 = ends@;
        if scores[j] == best {
            let p: i32 = (j as i32) - 1;
            ends.push(p);
            proof {
                lemma_push_contains(ends0, p);
                assert(ends@ == ends0.push(p));
                assert(p == j as int - 1);
                assert forall|j2: int|
                    0 <= j2 <= j implies ((scores@[j2] == best) <==> ends@.contains(
                    (j2 - 1) as i32,
                )) by {
                    assert((j2 - 1) as i32 == j2 - 1);
                    if j2 == j {
                        assert(ends@.contains(p)) by {
                            assert(ends@[ends0.len() as int] == p);
                        }
                    } else {
                        assert((j2 - 1) as i32 != p);
                    }
                }
            }
        } else {
            proof {
                assert((j as int - 1) as i32 == j as int - 1);
                assert(!ends@.contains((j as int - 1) as i32)) by {
                    if ends@.contains((j as int - 1) as i32) {
                        let w = choose|w: int|
                            0 <= w < ends@.len() && #[trigger] ends@[w] == (j as int - 1) as i32;
                        assert(ends@[w] < j as int - 1);
                    }
                }
            }
        }
        j += 1;
    }
    ends
}

/// A vector of `len` zeros: the start locations for the modes in which
/// every alignment starts at the beginning of the target.
fn zero_starts(len: usize) -> (v: Vec<i32>)
    ensures
        v@.len() == len,
        forall|x: int| 0 <= x < len ==> v@[x] == 0,
{
    let mut v: Vec<i32> = Vec::new();
    let mut i: usize = 0;
    while i < len
        invariant
            i <= len,
            v@.len() == i,
            forall|x: int| 0 <= x < i ==> v@[x] == 0,
        decreases len - i,
    {
        v.push(0);
        i += 1;
    }
    v
}

/// Finds the start location paired with the end position `j` in infix mode:
/// the smallest start whose window realizes the end's score `d`, i.e. the
/// longest qualifying span.
fn find_start(q: &Vec<u8>, t: &Vec<u8>, j: usize, d: usize) -> (s: usize)
    requires
        j <= t@.len(),
        q@.len() + t@.len() < usize::MAX,
        hw_end_score(q@, t@.take(j as int)) == d,
    ensures
        start_min(q@, t@, d as nat, j as int, s as int),
{
    let mut s: usize = 0;
    while s <= j
        invariant
            s <= j + 1,
            j <= t@.len(),
            q@.len() + t@.len() < usize::MAX,
            hw_end_score(q@, t@.take(j as int)) == d,
            forall|s2: int| 0 <= s2 < s ==> lev(q@, t@.subrange(s2, j as int)) != d,
        decreases j + 1 - s,
    {
        let v = lev_dist(q, t, s, j);
        if v == d {
            return s;
        }
        s += 1;
    }
    proof {
        lemma_hw_start_attained(q@, t@.take(j as int));
        let s0 = choose|s0: int|
            0 <= s0 <= t@.take(j as int).len() && lev(
                q@,
                #[trigger] t@.take(j as int).subrange(s0, t@.take(j as int).len() as int),
            ) == hw_end_score(q@, t@.take(j as int));
        assert(t@.take(j as int).subrange(s0, j as int) =~= t@.subrange(s0, j as int));
        assert(false);
    }
    0
}

/// Aligns `query` against `target` under the given configuration.
///
/// The reported edit distance is the optimal score of the configured mode
/// over the class-mapped sequences, or -1 exactly when a non-negative bound
/// `k` is exceeded.  End locations are reported whenever the distance is,
/// start locations additionally for the location and path tasks, and an
/// alignment path for the path task; the path aligns the query against the
/// first reported target span at a cost equal to the reported distance.
#[allow(non_snake_case)]
pub fn edlibAlignRs(query: &[u8], target: &[u8], config_rs: &EdlibAlignConfigRs) -> (r:
    EdlibAlignResultRs)
    requires
        query@.len() + target@.len() < 0x8000_0000,
    ensures
        r.status == EDLIB_RS_STATUS_OK,
        r.alphabetLength == count_appearing(
            cls_seq(config_rs.additionalequalities@, query@) + cls_seq(
                config_rs.additionalequalities@,
                target@,
            ),
        ),
        (r.editDistance != -1) <==> within_bound(
            config_rs.k as int,
            mode_best(
                config_rs.mode,
                cls_seq(config_rs.additionalequalities@, query@),
                cls_seq(config_rs.additionalequalities@, target@),
            ),
        ),
        r.editDistance != -1 ==> r.editDistance == mode_best(
            config_rs.mode,
            cls_seq(config_rs.additionalequalities@, query@),
            cls_seq(config_rs.additionalequalities@, target@),
        ),
        (r.endLocations is Some) <==> r.editDistance != -1,
        r.editDistance != -1 ==> ends_ok(
            config_rs.mode,
            cls_seq(config_rs.additionalequalities@, query@),
            cls_seq(config_rs.additionalequalities@, target@),
            r.endLocations.unwrap()@,
        ) && r.endLocations.unwrap()@.len() >= 1,
        r.numLocations == (if r.endLocations is Some {
            r.endLocations.unwrap()@.len()
        } else {
            0
        }),
        (r.startLocations is Some) <==> (r.editDistance != -1 && !(config_rs.task
            is EDLIB_TASK_DISTANCE)),
        r.startLocations is Some ==> starts_ok(
            config_rs.mode,
            cls_seq(config_rs.additionalequalities@, query@),
            cls_seq(config_rs.additionalequalities@, target@),
            r.editDistance as nat,
            r.endLocations.unwrap()@,
            r.startLocations.unwrap()@,
        ),
        (r.alignment is Some) <==> (r.editDistance != -1 && config_rs.task is EDLIB_TASK_PATH),
        r.alignment is Some ==> aligns(
            r.alignment.unwrap()@,
            cls_seq(config_rs.additionalequalities@, query@),
            cls_seq(config_rs.additionalequalities@, target@).subrange(
                r.startLocations.unwrap()@[0] as int,
                r.endLocations.unwrap()@[0] + 1,
            ),
        ) && path_cost(r.alignment.unwrap()@) == r.editDistance,
        r.alignment is Some ==> r.alignment.unwrap()@ == path_of(
            cls_seq(config_rs.additionalequalities@, query@),
            cls_seq(config_rs.additionalequalities@, target@).subrange(
                r.startLocations.unwrap()@[0] as int,
                r.endLocations.unwrap()@[0] + 1,
            ),
        ),
{
    let ghost pairs = config_rs.additionalequalities@;
    let tab = build_class_table(config_rs.additionalequalities);
    let cq = map_classes(&tab, query);
    let ct = map_classes(&tab, target);
    proof {
        assert(cq@ =~= cls_seq(pairs, query@));
        assert(ct@ =~= cls_seq(pairs, target@));
    }
    let alphabet_len = count_distinct(&cq, &ct);
    let m = cq.len();
    let n = ct.len();

    // best score and per-end scores for the configured mode
    let mut scores: Vec<usize> = Vec::new();
    let best: usize;
    match config_rs.mode {
        EdlibAlignModeRs::EDLIB_MODE_NW => {
            best = lev_dist(&cq, &ct, 0, n);
            proof {
                assert(ct@.subrange(0, n as int) =~= ct@);
                lemma_lev_le_sum(cq@, ct@);
            }
        },
        EdlibAlignModeRs::EDLIB_MODE_SHW => {
            scores = shw_scores(&cq, &ct);
            best = shw_best_exec(&cq, &ct, &scores);
            proof {
                lemma_shw_le_prefix(cq@, ct@, 0);
                assert(ct@.take(0).len() == 0);
                assert(lev(cq@, ct@.take(0)) == cq@.len());
            }
        },
        EdlibAlignModeRs::EDLIB_MODE_HW => {
            scores = hw_scores(&cq, &ct);
            best = hw_best_exec(&cq, &ct, &scores);
            proof {
                lemma_hw_le_end(cq@, ct@, 0);
                assert(ct@.take(0).len() == 0);
                assert(hw_end_score(cq@, ct@.take(0)) == cq@.len());
            }
        },
    }
    assert(best == mode_best(config_rs.mode, cq@, ct@));
    assert(best < 0x8000_0000);

    let mut r = EdlibAlignResultRs {
        status: EDLIB_RS_STATUS_OK,
        editDistance: -1,
        endLocations: None,
        startLocations: None,
        numLocations: 0,
        alignment: None,
        alphabetLength: alphabet_len,
    };
    if config_rs.k >= 0 && best > config_rs.k as usize {
        return r;
    }
    r.editDistance = best as i32;

    // end locations
    let ends: Vec<i32>;
    match config_rs.mode {
        EdlibAlignModeRs::EDLIB_MODE_NW => {
            let mut ev: Vec<i32> = Vec::new();
            ev.push((n as i32) - 1);
            ends = ev;
            proof {
                assert(ends@ =~= seq![(n as int - 1) as i32]);
                assert forall|j: int|
                    0 <= j <= ct@.len() implies (is_end(config_rs.mode, cq@, ct@, j)
                    <==> ends@.contains((j - 1) as i32)) by {
                    assert((j - 1) as i32 == j - 1);
                    if is_end(config_rs.mode, cq@, ct@, j) {
                        assert(ends@[0] == (j - 1) as i32);
                    }
                    if ends@.contains((j - 1) as i32) {
                        let w = choose|w: int|
                            0 <= w < ends@.len() && #[trigger] ends@[w] == (j - 1) as i32;
                        assert(w == 0);
                        assert((n as int - 1) as i32 == n as int - 1);
                        assert(j == n);
                    }
                }
                assert(ends@.len() >= 1);
                assert(ends_ok(config_rs.mode, cq@, ct@, ends@));
            }
        },
        EdlibAlignModeRs::EDLIB_MODE_SHW => {
            ends = collect_ends(&scores, best);
            proof {
                assert forall|j: int|
                    0 <= j <= ct@.len() implies (is_end(config_rs.mode, cq@, ct@, j)
                    <==> ends@.contains((j - 1) as i32)) by {
                    assert(scores@[j] == lev(cq@, ct@.take(j)));
                }
                assert(ends_ok(config_rs.mode, cq@, ct@, ends@));
                lemma_shw_attained(cq@, ct@);
                let j = choose|j: int|
                    0 <= j <= ct@.len() && lev(cq@, #[trigger] ct@.take(j)) == shw_best(cq@, ct@);
                assert(is_end(config_rs.mode, cq@, ct@, j));
                assert(ends@.contains((j - 1) as i32));
                assert(ends@.len() >= 1);
            }
        },
        EdlibAlignModeRs::EDLIB_MODE_HW => {
            ends = collect_ends(&scores, best);
            proof {
                assert forall|j: int|
                    0 <= j <= ct@.len() implies (is_end(config_rs.mode, cq@, ct@, j)
                    <==> ends@.contains((j - 1) as i32)) by {
                    assert(scores@[j] == hw_end_score(cq@, ct@.take(j)));
                }
                assert(ends_ok(config_rs.mode, cq@, ct@, ends@));
                lemma_hw_attained(cq@, ct@);
                let j = choose|j: int|
                    0 <= j <= ct@.len() && hw_end_score(cq@, #[trigger] ct@.take(j)) == hw_best(
                        cq@,
                        ct@,
                    );
                assert(is_end(config_rs.mode, cq@, ct@, j));
                assert(ends@.contains((j - 1) as i32));
                assert(ends@.len() >= 1);
            }
        },
    }
    proof {
        assert(ends_ok(config_rs.mode, cq@, ct@, ends@));
        assert(ends@.len() >= 1);
    }
    r.numLocations = ends.len();

    // start locations
    let want_starts = match config_rs.task {
        EdlibAlignTaskRs::EDLIB_TASK_DISTANCE => false,
        EdlibAlignTaskRs::EDLIB_TASK_LOC => true,
        EdlibAlignTaskRs::EDLIB_TASK_PATH => true,
    };
    let want_path = match config_rs.task {
        EdlibAlignTaskRs::EDLIB_TASK_PATH => true,
        _ => false,
    };
    if want_starts {
        let starts: Vec<i32>;
        match config_rs.mode {
            EdlibAlignModeRs::EDLIB_MODE_HW => {
                let mut sv: Vec<i32> = Vec::new();
                let mut x: usize = 0;
                while x < ends.len()
                    invariant
                        x <= ends@.len(),
                        sv@.len() == x,
                        m == cq@.len(),
                        n == ct@.len(),
                        cq@.len() + ct@.len() < 0x8000_0000,
                        best == hw_best(cq@, ct@),
                        config_rs.mode is EDLIB_MODE_HW,
                        ends_ok(config_rs.mode, cq@, ct@, ends@),
                        forall|x2: int|
                            0 <= x2 < x ==> start_min(
                                cq@,
                                ct@,
                                best as nat,
                                ends@[x2] + 1,
                                sv@[x2] as int,
                            ),
                    decreases ends@.len() - x,
                {
                    let p = ends[x];
                    proof {
                        assert(ends@.contains(ends@[x as int]));
                        assert(-1 <= p < ct@.len());
                        assert(is_end(config_rs.mode, cq@, ct@, p as int + 1)) by {
                            assert(ends@.contains(((p as int + 1) - 1) as i32));
                        }
                    }
                    let j = (p + 1) as usize;
                    let s0 = find_start(&cq, &ct, j, best);
                    sv.push(s0 as i32);
                    x += 1;
                }
                starts = sv;
            },
            _ => {
                starts = zero_starts(ends.len());
            },
        }
        r.startLocations = Some(starts);
    }
    r.endLocations = Some(ends);

    // alignment path
    if want_path {
        let ends_ref = r.endLocations.as_ref().unwrap();
        let starts_ref = r.startLocations.as_ref().unwrap();
        let e0 = ends_ref[0];
        let s0 = starts_ref[0];
        proof {
            assert(ends_ok(config_rs.mode, cq@, ct@, r.endLocations.unwrap()@));
            assert(-1 <= e0 < ct@.len());
            match config_rs.mode {
                EdlibAlignModeRs::EDLIB_MODE_NW => {
                    assert(s0 == 0);
                    assert(e0 == (n as i32) - 1);
                    assert(ct@.subrange(0, n as int) =~= ct@);
                },
                EdlibAlignModeRs::EDLIB_MODE_SHW => {
                    assert(s0 == 0);
                    assert(is_end(config_rs.mode, cq@, ct@, e0 as int + 1)) by {
                        assert(r.endLocations.unwrap()@.contains(((e0 as int + 1) - 1) as i32));
                    }
                    assert(ct@.subrange(0, e0 as int + 1) =~= ct@.take(e0 as int + 1));
                },
                EdlibAlignModeRs::EDLIB_MODE_HW => {
                    assert(start_min(cq@, ct@, best as nat, e0 as int + 1, s0 as int));
                },
            }
        }
        let su = s0 as usize;
        let ju = (e0 + 1) as usize;
        let ops = trace_path(&cq, &ct, su, ju);
        r.alignment = Some(ops);
    }
    r
}

/// The result of an alignment.
#[allow(non_snake_case)]
#[derive(Debug, Clone)]
pub struct EdlibAlignResultRs {
    /// `EDLIB_RS_STATUS_OK` on every completed alignment.
    pub status: u32,
    /// The optimal edit distance, or -1 if it exceeds a non-negative bound `k`.
    pub editDistance: i32,
    /// Zero-based positions in the target where optimal alignments end,
    /// ascending; `None` exactly when the distance is -1.
    pub endLocations: Option<Vec<i32>>,
    /// Zero-based positions in the target where the optimal alignments
    /// start, pairwise with `endLocations`; `None` unless requested by the
    /// task (or when the distance is -1).
    pub startLocations: Option<Vec<i32>>,
    /// The number of end (and start) locations.
    pub numLocations: usize,
    /// One optimal alignment path for the first location pair, as operation
    /// bytes (0 match, 1 insertion to target, 2 insertion to query,
    /// 3 mismatch); `None` unless the path task was requested (or when the
    /// distance is -1).
    pub alignment: Option<Vec<u8>>,
    /// The number of distinct symbol classes appearing in the two sequences.
    pub alphabetLength: u32,
}

#[allow(non_snake_case)]
impl EdlibAlignResultRs {
    /// The computed edit distance (-1 when a non-negative bound was exceeded).
    pub fn getDistance(&self) -> (d: i32)
        ensures
            d == self.editDistance,
    {
        self.editDistance
    }

    /// The end locations of the optimal alignments, if present.
    pub fn getEndLocations(&self) -> (e: Option<&Vec<i32>>)
        ensures
            e is Some <==> self.endLocations is Some,
            e is Some ==> e.unwrap()@ == self.endLocations.unwrap()@,
    {
        self.endLocations.as_ref()
    }

    /// The start locations of the optimal alignments, if present.
    pub fn getStartLocations(&self) -> (s: Option<&Vec<i32>>)
        ensures
            s is Some <==> self.startLocations is Some,
            s is Some ==> s.unwrap()@ == self.startLocations.unwrap()@,
    {
        self.startLocations.as_ref()
    }

    /// The alignment path, if present.
    pub fn getAlignment(&self) -> (a: Option<&Vec<u8>>)
        ensures
            a is Some <==> self.alignment is Some,
            a is Some ==> a.unwrap()@ == self.alignment.unwrap()@,
    {
        self.alignment.as_ref()
    }
}

impl Default for EdlibAlignResultRs {
    /// An empty successful result: distance 0 and nothing else computed.
    fn default() -> (r: Self)
        ensures
            r.status == EDLIB_RS_STATUS_OK,
            r.editDistance == 0,
            r.endLocations is None,
            r.startLocations is None,
            r.numLocations == 0,
            r.alignment is None,
            r.alphabetLength == 0,
    {
        EdlibAlignResultRs {
            status: EDLIB_RS_STATUS_OK,
            editDistance: 0,
            endLocations: None,
            startLocations: None,
            numLocations: 0,
            alignment: None,
            alphabetLength: 0,
        }
    }
}

/// Aligning any sequence against itself in global mode costs nothing: the
/// edit distance of a sequence to itself is zero.
pub proof fn lemma_self_distance_zero(s: Seq<u8>)
    ensures
        lev(s, s) == 0,
        mode_best(EdlibAlignModeRs::EDLIB_MODE_NW, s, s) == 0,
    decreases s.len(),
{
    if s.len() == 0 {
    } else {
        lemma_self_distance_zero(s.drop_last());
    }
}

/// With no declared equalities, class mapping leaves a sequence unchanged,
/// so the contract of [`edlibAlignRs`] speaks of the raw bytes themselves.
pub proof fn lemma_cls_seq_identity(pairs: Seq<EdlibEqualityPairRs>, s: Seq<u8>)
    requires
        pairs.len() == 0,
    ensures
        cls_seq(pairs, s) == s,
{
    assert forall|i: int| 0 <= i < s.len() implies cls_seq(pairs, s)[i] == s[i] by {
        crate::alphabet::lemma_cls_identity(pairs, s[i]);
    }
    assert(cls_seq(pairs, s) =~= s);
}

/// The global-mode edit distance is symmetric: aligning the query against
/// the target costs exactly as much as aligning the target against the
/// query.
pub proof fn lemma_global_symmetric(q: Seq<u8>, t: Seq<u8>)
    ensures
        mode_best(EdlibAlignModeRs::EDLIB_MODE_NW, q, t) == mode_best(
            EdlibAlignModeRs::EDLIB_MODE_NW,
            t,
            q,
        ),
        lev(q, t) == lev(t, q),
    decreases q.len(), t.len(),
{
    if q.len() == 0 {
    } else if t.len() == 0 {
    } else {
        lemma_global_symmetric(q.drop_last(), t.drop_last());
        lemma_global_symmetric(q.drop_last(), t);
        lemma_global_symmetric(q, t.drop_last());
    }
}

/// Raising the bound never changes a reported distance: if the optimal
/// score is reportable under `k1`, it is reportable unchanged under any
/// larger bound `k2` (the reported value being the optimal score in both
/// cases, by the contract of [`edlibAlignRs`]).
pub proof fn lemma_bound_monotonic(k1: int, k2: int, d: nat)
    requires
        0 <= k1 < k2,
        within_bound(k1, d),
    ensures
        within_bound(k2, d),
{
}

} // verus!
