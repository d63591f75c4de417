//! Symbol alphabet construction: declared byte equalities are resolved into
//! equivalence classes, and each byte is mapped to its class id.

use vstd::prelude::*;

verus! {

/// Declares two byte values equal for alignment purposes.
#[derive(Debug, Copy, Clone)]
pub struct EdlibEqualityPairRs {
    pub first: u8,
    pub second: u8,
}

/// Applies one declared equality to a class table: every byte whose class
/// equals the class of `p.second` is relabelled with the class of `p.first`,
/// merging the two classes.
pub open spec fn apply_pair(tab: Seq<u8>, p: EdlibEqualityPairRs) -> Seq<u8> {
    Seq::new(
        256,
        |i: int|
            if tab[i] == tab[p.second as int] {
                tab[p.first as int]
            } else {
                tab[i]
            },
    )
}

/// The symbol-class table induced by a sequence of declared equalities:
/// starting from the identity (each byte its own class), each pair in turn
/// merges the classes of its two members, so the induced relation is the
/// equivalence closure of the declared pairs.
pub open spec fn class_table(pairs: Seq<EdlibEqualityPairRs>) -> Seq<u8>
    decreases pairs.len(),
{
    if pairs.len() == 0 {
        Seq::new(256, |i: int| i as u8)
    } else {
        apply_pair(class_table(pairs.drop_last()), pairs.last())
    }
}

/// The symbol class of byte `b` under the declared equalities.
pub open spec fn cls(pairs: Seq<EdlibEqualityPairRs>, b: u8) -> u8 {
    class_table(pairs)[b as int]
}

/// The bytes of `s` mapped to their symbol classes.
pub open spec fn cls_seq(pairs: Seq<EdlibEqualityPairRs>, s: Seq<u8>) -> Seq<u8> {
    s.map_values(|b: u8| cls(pairs, b))
}

/// With no declared equalities, each byte is its own class, so two bytes
/// share a class exactly when they are the same byte.
pub proof fn lemma_cls_identity(pairs: Seq<EdlibEqualityPairRs>, b: u8)
    requires
        pairs.len() == 0,
    ensures
        cls(pairs, b) == b,
{
}

/// Each declared equality is honoured: the two members of every declared
/// pair receive the same symbol class (and by transitivity through later
/// merges, chains of declared pairs end up in one class).
pub proof fn lemma_pairs_respected(pairs: Seq<EdlibEqualityPairRs>, k: int)
    requires
        0 <= k < pairs.len(),
    ensures
        cls(pairs, pairs[k].first) == cls(pairs, pairs[k].second),
    decreases pairs.len(),
{
    let prev = class_table(pairs.drop_last());
    let p = pairs.last();
    if k == pairs.len() - 1 {
        assert(cls(pairs, p.first) == cls(pairs, p.second));
    } else {
        lemma_pairs_respected(pairs.drop_last(), k);
        assert(pairs.drop_last()[k] == pairs[k]);
        let a = pairs[k].first;
        let b = pairs[k].second;
        assert(prev[a as int] == prev[b as int]);
        assert(cls(pairs, a) == cls(pairs, b));
    }
}

/// Is the byte `b` a member of any declared pair?
pub open spec fn mentions(pairs: Seq<EdlibEqualityPairRs>, b: u8) -> bool {
    exists|k: int| 0 <= k < pairs.len() && (#[trigger] pairs[k].first == b || pairs[k].second == b)
}

/// Merging never over-reaches: a byte that no declared pair mentions keeps
/// its own class, and no other byte is drawn into it.
pub proof fn lemma_unmentioned_isolated(pairs: Seq<EdlibEqualityPairRs>, b: u8)
    requires
        !mentions(pairs, b),
    ensures
        cls(pairs, b) == b,
        forall|x: u8| x != b ==> cls(pairs, x) != b,
    decreases pairs.len(),
{
    if pairs.len() == 0 {
    } else {
        assert(!mentions(pairs.drop_last(), b)) by {
            if mentions(pairs.drop_last(), b) {
                let k = choose|k: int|
                    0 <= k < pairs.drop_last().len() && (#[trigger] pairs.drop_last()[k].first == b
                        || pairs.drop_last()[k].second == b);
                assert(pairs[k] == pairs.drop_last()[k]);
                assert(pairs[k].first == b || pairs[k].second == b);
            }
        }
        lemma_unmentioned_isolated(pairs.drop_last(), b);
        let p = pairs.last();
        assert(p == pairs[pairs.len() - 1]);
        assert(p.first != b && p.second != b);
        let prev = class_table(pairs.drop_last());
        assert(prev[p.second as int] == cls(pairs.drop_last(), p.second));
        assert(prev[p.second as int] != b);
        assert(prev[p.first as int] == cls(pairs.drop_last(), p.first));
        assert(prev[p.first as int] != b);
        assert(cls(pairs, b) == b);
        assert forall|x: u8| x != b implies cls(pairs, x) != b by {
            assert(prev[x as int] == cls(pairs.drop_last(), x));
        }
    }
}

/// Builds the symbol-class table for the declared equalities: a 256-entry
/// table taking each byte value to its class id.
pub fn build_class_table(pairs: &[EdlibEqualityPairRs]) -> (tab: Vec<u8>)
    ensures
        tab@ == class_table(pairs@),
        tab@.len() == 256,
{
    let mut tab: Vec<u8> = Vec::new();
    let mut i: usize = 0;
    while i < 256
        invariant
            i <= 256,
            tab@.len() == i,
            forall|i2: int| 0 <= i2 < i ==> tab@[i2] == i2 as u8,
        decreases 256 - i,
    {
        tab.push(i as u8);
        i += 1;
    }
    proof {
        assert(tab@ =~= class_table(pairs@.take(0)));
    }
    let mut k: usize = 0;
    while k < pairs.len()
        invariant
            k <= pairs@.len(),
            tab@.len() == 256,
            tab@ == class_table(pairs@.take(k as int)),
        decreases pairs@.len() - k,
    {
        let p = pairs[k];
        let ra = tab[p.first as usize];
        let rb = tab[p.second as usize];
        let ghost t0 = tab@;
        let mut idx: usize = 0;
        while idx < 256
            invariant
                idx <= 256,
                tab@.len() == 256,
                t0.len() == 256,
                ra == t0[p.first as int],
                rb == t0[p.second as int],
                forall|i2: int| 0 <= i2 < idx ==> tab@[i2] == apply_pair(t0, p)[i2],
                forall|i2: int| idx <= i2 < 256 ==> tab@[i2] == t0[i2],
            decreases 256 - idx,
        {
            if tab[idx] == rb {
                tab[idx] = ra;
            }
            idx += 1;
        }
        proof {
            assert(tab@ =~= apply_pair(t0, p));
            assert(pairs@.take(k as int + 1).drop_last() =~= pairs@.take(k as int));
            assert(pairs@.take(k as int + 1).last() == p);
        }
        k += 1;
    }
    proof {
        assert(pairs@.take(pairs@.len() as int) =~= pairs@);
    }
    tab
}

/// Maps the bytes of `s` through the symbol-class table.
pub fn map_classes(tab: &Vec<u8>, s: &[u8]) -> (r: Vec<u8>)
    requires
        tab@.len() == 256,
    ensures
        r@.len() == s@.len(),
        forall|i: int| 0 <= i < s@.len() ==> r@[i] == tab@[s@[i] as int],
{
    let mut r: Vec<u8> = Vec::new();
    let mut i: usize = 0;
    while i < s.len()
        invariant
            i <= s@.len(),
            tab@.len() == 256,
            r@.len() == i,
            forall|i2: int| 0 <= i2 < i ==> r@[i2] == tab@[s@[i2] as int],
        decreases s@.len() - i,
    {
        r.push(tab[s[i] as usize]);
        i += 1;
    }
    r
}

/// The number of distinct byte values at positions at or above class id `c`
/// that appear in `s`.
pub open spec fn count_appearing_from(s: Seq<u8>, c: int) -> nat
    decreases 256 - c,
{
    if c < 0 || c >= 256 {
        0
    } else {
        (count_appearing_from(s, c + 1) + if s.contains(c as u8) {
            1nat
        } else {
            0nat
        }) as nat
    }
}

/// The number of distinct byte values appearing in `s`.
pub open spec fn count_appearing(s: Seq<u8>) -> nat {
    count_appearing_from(s, 0)
}

/// Counts the distinct symbol values appearing in the two mapped sequences
/// together: the size of the symbol alphabet actually in use.
pub fn count_distinct(a: &Vec<u8>, b: &Vec<u8>) -> (n: u32)
    ensures
        n == count_appearing(a@ + b@),
{
    let ghost full = a@ + b@;
    let mut seen: Vec<bool> = Vec::new();
    let mut i: usize = 0;
    while i < 256
        invariant
            i <= 256,
            seen@.len() == i,
            forall|i2: int| 0 <= i2 < i ==> !seen@[i2],
        decreases 256 - i,
    {
        seen.push(false);
        i += 1;
    }
    let mut i: usize = 0;
    while i < a.len()
        invariant
            i <= a@.len(),
            seen@.len() == 256,
            full == a@ + b@,
            forall|c: u8| seen@[c as int] <==> full.take(i as int).contains(c),
        decreases a@.len() - i,
    {
        proof {
            assert(full.take(i as int + 1).drop_last() =~= full.take(i as int));
            assert(full.take(i as int + 1).last() == a@[i as int]);
            lemma_contains_step(full, i as int);
        }
        let x = a[i];
        if !seen[x as usize] {
            seen[x as usize] = true;
        }
        i += 1;
    }
    let mut j: usize = 0;
    while j < b.len()
        invariant
            j <= b@.len(),
            seen@.len() == 256,
            full == a@ + b@,
            forall|c: u8| seen@[c as int] <==> full.take(a@.len() + j).contains(c),
        decreases b@.len() - j,
    {
        proof {
            assert(full.take(a@.len() + j + 1).drop_last() =~= full.take(a@.len() + j));
            assert(full.take(a@.len() + j + 1).last() == b@[j as int]);
            lemma_contains_step(full, a@.len() + j);
        }
        let x = b[j];
        if !seen[x as usize] {
            seen[x as usize] = true;
        }
        j += 1;
    }
    proof {
        assert(full.take(full.len() as int) =~= full);
    }
    let mut n: u32 = 0;
    let mut c: usize = 256;
    while c > 0
        invariant
            c <= 256,
            seen@.len() == 256,
            full == a@ + b@,
            forall|c2: u8| seen@[c2 as int] <==> full.contains(c2),
            n == count_appearing_from(full, c as int),
            n <= 256 - c,
        decreases c,
    {
        c -= 1;
        if seen[c] {
            n += 1;
        }
    }
    n
}

/// Extending a prefix by one element extends what it contains by exactly
/// that element.
proof fn lemma_contains_step(full: Seq<u8>, i: int)
    requires
        0 <= i < full.len(),
    ensures
        forall|c: u8|
            full.take(i + 1).contains(c) <==> (full.take(i).contains(c) || c == full[i]),
{
    assert forall|c: u8|
        full.take(i + 1).contains(c) <==> (full.take(i).contains(c) || c == full[i]) by {
        if full.take(i).contains(c) {
            let w = choose|w: int| 0 <= w < i && #[trigger] full.take(i)[w] == c;
            assert(full.take(i + 1)[w] == c);
        }
        if c == full[i] {
            assert(full.take(i + 1)[i] == c);
        }
        if full.take(i + 1).contains(c) {
            let w = choose|w: int| 0 <= w < i + 1 && #[trigger] full.take(i + 1)[w] == c;
            if w < i {
                assert(full.take(i)[w] == c);
            }
        }
    }
}

} // verus!
