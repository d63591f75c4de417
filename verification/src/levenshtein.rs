//! Unit-cost edit distance: the mathematical definition and a verified
//! dynamic-programming evaluator for it.

use vstd::prelude::*;

verus! {

/// The smaller of two natural numbers.
pub open spec fn min2(a: nat, b: nat) -> nat {
    if a <= b {
        a
    } else {
        b
    }
}

/// Unit-cost edit distance (Levenshtein distance) between two sequences of
/// symbol-class ids: the least number of single-symbol insertions, deletions
/// and substitutions transforming `q` into `t`.
pub open spec fn lev(q: Seq<u8>, t: Seq<u8>) -> nat
    decreases q.len(), t.len(),
{
    if q.len() == 0 {
        t.len()
    } else if t.len() == 0 {
        q.len()
    } else {
        let diag = (lev(q.drop_last(), t.drop_last()) + (if q.last() == t.last() {
            0nat
        } else {
            1nat
        })) as nat;
        let from_q = (lev(q.drop_last(), t) + 1) as nat;
        let from_t = (lev(q, t.drop_last()) + 1) as nat;
        min2(diag, min2(from_q, from_t))
    }
}

/// The edit distance never exceeds the summed lengths of the two sequences.
pub proof fn lemma_lev_le_sum(q: Seq<u8>, t: Seq<u8>)
    ensures
        lev(q, t) <= q.len() + t.len(),
    decreases q.len(), t.len(),
{
    if q.len() == 0 {
    } else if t.len() == 0 {
    } else {
        lemma_lev_le_sum(q.drop_last(), t.drop_last());
        lemma_lev_le_sum(q.drop_last(), t);
        lemma_lev_le_sum(q, t.drop_last());
    }
}

/// The recurrence of `lev`, restated over a query prefix `q.take(i)` and a
/// target window `t.subrange(s, j)`, as the DP evaluator walks them.
pub proof fn lemma_lev_step(q: Seq<u8>, i: int, t: Seq<u8>, s: int, j: int)
    requires
        0 < i <= q.len(),
        0 <= s < j <= t.len(),
    ensures
        lev(q.take(i), t.subrange(s, j)) == min2(
            (lev(q.take(i - 1), t.subrange(s, j - 1)) + (if q[i - 1] == t[j - 1] {
                0nat
            } else {
                1nat
            })) as nat,
            min2(
                (lev(q.take(i - 1), t.subrange(s, j)) + 1) as nat,
                (lev(q.take(i), t.subrange(s, j - 1)) + 1) as nat,
            ),
        ),
{
    let qq = q.take(i);
    let tt = t.subrange(s, j);
    assert(qq.drop_last() =~= q.take(i - 1));
    assert(tt.drop_last() =~= t.subrange(s, j - 1));
    assert(qq.last() == q[i - 1]);
    assert(tt.last() == t[j - 1]);
}

/// Against an empty target window, the distance is the query prefix length.
pub proof fn lemma_lev_empty_target(q: Seq<u8>, i: int, t: Seq<u8>, s: int)
    requires
        0 <= i <= q.len(),
        0 <= s <= t.len(),
    ensures
        lev(q.take(i), t.subrange(s, s)) == i,
{
    assert(t.subrange(s, s).len() == 0);
    assert(q.take(i).len() == i);
}

/// From an empty query prefix, the distance is the target window length.
pub proof fn lemma_lev_empty_query(q: Seq<u8>, t: Seq<u8>, s: int, j: int)
    requires
        0 <= s <= j <= t.len(),
    ensures
        lev(q.take(0), t.subrange(s, j)) == j - s,
{
    assert(q.take(0).len() == 0);
    assert(t.subrange(s, j).len() == j - s);
}

/// Computes the final column of the edit-distance DP table for the query
/// against the target window `t[s..e]`: entry `i` is the distance between
/// the query prefix of length `i` and the whole window.
pub fn lev_col(q: &Vec<u8>, t: &Vec<u8>, s: usize, e: usize) -> (col: Vec<usize>)
    requires
        s <= e <= t@.len(),
        q@.len() + t@.len() < usize::MAX,
    ensures
        col@.len() == q@.len() + 1,
        forall|i: int|
            0 <= i <= q@.len() ==> col@[i] == lev(q@.take(i), t@.subrange(s as int, e as int)),
{
    let m = q.len();
    let mut col: Vec<usize> = Vec::new();
    let mut i: usize = 0;
    while i <= m
        invariant
            i <= m + 1,
            m == q@.len(),
            q@.len() + t@.len() < usize::MAX,
            s <= e <= t@.len(),
            col@.len() == i,
            forall|i2: int|
                0 <= i2 < i ==> col@[i2] == lev(q@.take(i2), t@.subrange(s as int, s as int)),
        decreases m + 1 - i,
    {
        col.push(i);
        proof {
            lemma_lev_empty_target(q@, i as int, t@, s as int);
        }
        i += 1;
    }
    let mut j: usize = s;
    while j < e
        invariant
            s <= j <= e <= t@.len(),
            m == q@.len(),
            q@.len() + t@.len() < usize::MAX,
            col@.len() == m + 1,
            forall|i2: int|
                0 <= i2 <= m ==> col@[i2] == lev(q@.take(i2), t@.subrange(s as int, j as int)),
        decreases e - j,
    {
        let c = t[j];
        let mut prev_diag = col[0];
        col[0] = j + 1 - s;
        proof {
            lemma_lev_empty_query(q@, t@, s as int, j as int);
            lemma_lev_empty_query(q@, t@, s as int, j as int + 1);
        }
        let mut i: usize = 1;
        while i <= m
            invariant
                1 <= i <= m + 1,
                m == q@.len(),
                s <= j < e <= t@.len(),
                q@.len() + t@.len() < usize::MAX,
                c == t@[j as int],
                col@.len() == m + 1,
                prev_diag == lev(q@.take(i - 1), t@.subrange(s as int, j as int)),
                forall|i2: int|
                    0 <= i2 < i ==> col@[i2] == lev(q@.take(i2), t@.subrange(s as int, j as int + 1)),
                forall|i2: int|
                    i <= i2 <= m ==> col@[i2] == lev(q@.take(i2), t@.subrange(s as int, j as int)),
            decreases m + 1 - i,
        {
            let tmp = col[i];
            proof {
                lemma_lev_le_sum(q@.take(i as int), t@.subrange(s as int, j as int));
                lemma_lev_le_sum(q@.take(i as int - 1), t@.subrange(s as int, j as int + 1));
                lemma_lev_le_sum(q@.take(i as int - 1), t@.subrange(s as int, j as int));
                lemma_lev_step(q@, i as int, t@, s as int, j as int + 1);
            }
            let sub_cost: usize = if q[i - 1] == c {
                0
            } else {
                1
            };
            let diag = prev_diag + sub_cost;
            let up = col[i - 1] + 1;
            let left = tmp + 1;
            let v = if diag <= up {
                if diag <= left {
                    diag
                } else {
                    left
                }
            } else if up <= left {
                up
            } else {
                left
            };
            col[i] = v;
            prev_diag = tmp;
            i += 1;
        }
        j += 1;
    }
    col
}

/// The edit distance between the query and the target window `t[s..e]`.
pub fn lev_dist(q: &Vec<u8>, t: &Vec<u8>, s: usize, e: usize) -> (d: usize)
    requires
        s <= e <= t@.len(),
        q@.len() + t@.len() < usize::MAX,
    ensures
        d == lev(q@, t@.subrange(s as int, e as int)),
{
    let col = lev_col(q, t, s, e);
    proof {
        assert(q@.take(q@.len() as int) =~= q@);
    }
    col[q.len()]
}

} // verus!
