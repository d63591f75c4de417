//! CIGAR rendering: run-length encoding of an edit-operation path, and the
//! decoder that reads such a rendering back.

use vstd::prelude::*;

verus! {

/// The two CIGAR notations.
#[allow(non_camel_case_types)]
#[derive(Debug, Copy, Clone)]
pub enum EdlibCigarFormatRs {
    /// Match and mismatch both written 'M'; insertion to target 'I';
    /// insertion to query 'D'.
    EDLIB_CIGAR_STANDARD,
    /// Match '='; mismatch 'X'; insertion to target 'I'; insertion to
    /// query 'D'.
    EDLIB_CIGAR_EXTENDED,
}

/// Why a CIGAR request was rejected.
#[derive(Debug, Copy, Clone, PartialEq, Eq, Structural)]
pub enum EdlibCigarErrorRs {
    /// The operation sequence was empty.
    EmptyAlignment,
    /// A byte of the operation sequence is not one of the four operations,
    /// or a character is not a valid token of the notation.
    InvalidOperation,
}

/// The letter the notation assigns to an operation byte.
pub open spec fn op_letter(fmt: EdlibCigarFormatRs, op: u8) -> char {
    match fmt {
        EdlibCigarFormatRs::EDLIB_CIGAR_STANDARD => {
            if op == 1 {
                'I'
            } else if op == 2 {
                'D'
            } else {
                'M'
            }
        },
        EdlibCigarFormatRs::EDLIB_CIGAR_EXTENDED => {
            if op == 0 {
                '='
            } else if op == 1 {
                'I'
            } else if op == 2 {
                'D'
            } else {
                'X'
            }
        },
    }
}

/// The letters of a path under a notation.
pub open spec fn letters_of(fmt: EdlibCigarFormatRs, ops: Seq<u8>) -> Seq<char> {
    ops.map_values(|op: u8| op_letter(fmt, op))
}

/// The maximal runs of equal letters, in order: each run is its length and
/// its letter.
pub open spec fn runs_of(lets: Seq<char>) -> Seq<(nat, char)>
    decreases lets.len(),
{
    if lets.len() == 0 {
        Seq::empty()
    } else {
        let r = runs_of(lets.drop_last());
        if r.len() > 0 && r.last().1 == lets.last() {
            r.update(r.len() - 1, ((r.last().0 + 1) as nat, lets.last()))
        } else {
            r.push((1nat, lets.last()))
        }
    }
}

/// The character of digit `d`.
pub open spec fn digit_char(d: nat) -> char {
    if d == 0 {
        '0'
    } else if d == 1 {
        '1'
    } else if d == 2 {
        '2'
    } else if d == 3 {
        '3'
    } else if d == 4 {
        '4'
    } else if d == 5 {
        '5'
    } else if d == 6 {
        '6'
    } else if d == 7 {
        '7'
    } else if d == 8 {
        '8'
    } else {
        '9'
    }
}

/// The character of digit `d`.
fn digit_char_exec(d: usize) -> (c: char)
    requires
        d < 10,
    ensures
        c == digit_char(d as nat),
{
    if d == 0 {
        '0'
    } else if d == 1 {
        '1'
    } else if d == 2 {
        '2'
    } else if d == 3 {
        '3'
    } else if d == 4 {
        '4'
    } else if d == 5 {
        '5'
    } else if d == 6 {
        '6'
    } else if d == 7 {
        '7'
    } else if d == 8 {
        '8'
    } else {
        '9'
    }
}

/// The digit a character stands for, if any.
fn digit_val(c: char) -> (r: Option<u8>)
    ensures
        (r is Some) <==> is_digit(c),
        r is Some ==> r.unwrap() < 10 && c == digit_char(r.unwrap() as nat),
{
    if c == '0' {
        Some(0)
    } else if c == '1' {
        Some(1)
    } else if c == '2' {
        Some(2)
    } else if c == '3' {
        Some(3)
    } else if c == '4' {
        Some(4)
    } else if c == '5' {
        Some(5)
    } else if c == '6' {
        Some(6)
    } else if c == '7' {
        Some(7)
    } else if c == '8' {
        Some(8)
    } else if c == '9' {
        Some(9)
    } else {
        None
    }
}

/// The decimal rendering of `n`, without leading zeros.
pub open spec fn dec_digits(n: nat) -> Seq<char>
    decreases n,
{
    if n < 10 {
        seq![digit_char(n)]
    } else {
        dec_digits(n / 10).push(digit_char(n % 10))
    }
}

/// The rendering of a run list: each run as its decimal length followed by
/// its letter, concatenated without separators.
pub open spec fn render_runs(rs: Seq<(nat, char)>) -> Seq<char>
    decreases rs.len(),
{
    if rs.len() == 0 {
        Seq::empty()
    } else {
        render_runs(rs.drop_last()) + dec_digits(rs.last().0) + seq![rs.last().1]
    }
}

/// The CIGAR rendering of a path under a notation.
pub open spec fn cigar_of(fmt: EdlibCigarFormatRs, ops: Seq<u8>) -> Seq<char> {
    render_runs(runs_of(letters_of(fmt, ops)))
}

/// Relies on String::push: appends exactly the given character.
#[verifier::external_body]
fn string_push_char(s: &mut String, c: char)
    ensures
        final(s)@ == old(s)@.push(c),
{
    s.push(c)
}

/// Appends the decimal rendering of `n` to `out`.
fn push_decimal(out: &mut Vec<char>, n: usize)
    ensures
        final(out)@ == old(out)@ + dec_digits(n as nat),
{
    let mut ds: Vec<char> = Vec::new();
    let mut cur = n;
    let d0 = cur % 10;
    let ch0 = digit_char_exec(d0);
    ds.insert(0, ch0);
    cur = cur / 10;
    proof {
        assert(ds@ =~= seq![digit_char(n as nat % 10)]);
        if n < 10 {
            assert(dec_digits(n as nat) == ds@);
        } else {
            assert(dec_digits(n as nat) =~= dec_digits(cur as nat) + ds@);
        }
    }
    while cur > 0
        invariant
            cur > 0 ==> dec_digits(n as nat) == dec_digits(cur as nat) + ds@,
            cur == 0 ==> dec_digits(n as nat) == ds@,
        decreases cur,
    {
        let ghost ds0 = ds@;
        let d = cur % 10;
        let ch = digit_char_exec(d);
        ds.insert(0, ch);
        let prev = cur;
        cur = cur / 10;
        proof {
            assert(ds@ =~= seq![digit_char(prev as nat % 10)] + ds0);
            if prev >= 10 {
                assert(dec_digits(prev as nat) == dec_digits(prev as nat / 10).push(
                    digit_char(prev as nat % 10),
                ));
                assert(dec_digits(prev as nat) =~= dec_digits(cur as nat) + seq![
                    digit_char(prev as nat % 10),
                ]);
                assert(dec_digits(n as nat) =~= dec_digits(cur as nat) + ds@);
            } else {
                assert(cur == 0);
                assert(dec_digits(prev as nat) =~= seq![digit_char(prev as nat % 10)]);
                assert(dec_digits(n as nat) =~= ds@);
            }
        }
    }
    let ghost out0 = out@;
    out.append(&mut ds);
    proof {
        assert(out@ == out0 + dec_digits(n as nat));
    }
}

/// The letter the notation assigns to an operation byte.
fn op_letter_exec(fmt: &EdlibCigarFormatRs, op: u8) -> (c: char)
    requires
        op <= 3,
    ensures
        c == op_letter(*fmt, op),
{
    match fmt {
        EdlibCigarFormatRs::EDLIB_CIGAR_STANDARD => {
            if op == 1 {
                'I'
            } else if op == 2 {
                'D'
            } else {
                'M'
            }
        },
        EdlibCigarFormatRs::EDLIB_CIGAR_EXTENDED => {
            if op == 0 {
                '='
            } else if op == 1 {
                'I'
            } else if op == 2 {
                'D'
            } else {
                'X'
            }
        },
    }
}

/// Collects the maximal runs of equal letters of the path.
fn build_runs(alignment: &[u8], fmt: &EdlibCigarFormatRs) -> (rs: Vec<(usize, char)>)
    requires
        forall|i: int| 0 <= i < alignment@.len() ==> alignment@[i] <= 3,
    ensures
        rs@.map_values(|r: (usize, char)| (r.0 as nat, r.1)) == runs_of(
            letters_of(*fmt, alignment@),
        ),
{
    let mut rs: Vec<(usize, char)> = Vec::new();
    let mut i: usize = 0;
    while i < alignment.len()
        invariant
            i <= alignment@.len(),
            forall|i2: int| 0 <= i2 < alignment@.len() ==> alignment@[i2] <= 3,
            rs@.map_values(|r: (usize, char)| (r.0 as nat, r.1)) == runs_of(
                letters_of(*fmt, alignment@.take(i as int)),
            ),
            forall|x: int| 0 <= x < rs@.len() ==> #[trigger] rs@[x].0 <= i,
        decreases alignment@.len() - i,
    {
        let ghost rs0 = rs@;
        let ghost lets0 = letters_of(*fmt, alignment@.take(i as int));
        let c = op_letter_exec(fmt, alignment[i]);
        proof {
            assert(letters_of(*fmt, alignment@.take(i as int + 1)).drop_last() =~= lets0);
            assert(letters_of(*fmt, alignment@.take(i as int + 1)).last() == c);
        }
        let rl = rs.len();
        if rl > 0 {
            let (cnt, lc) = rs[rl - 1];
            if lc == c {
                rs[rl - 1] = (cnt + 1, c);
                proof {
                    assert(rs0.map_values(|r: (usize, char)| (r.0 as nat, r.1)).last()
                        == (cnt as nat, lc));
                    assert(rs@.map_values(|r: (usize, char)| (r.0 as nat, r.1)) =~= runs_of(
                        letters_of(*fmt, alignment@.take(i as int + 1)),
                    ));
                }
            } else {
                rs.push((1, c));
                proof {
                    assert(rs@.map_values(|r: (usize, char)| (r.0 as nat, r.1)) =~= runs_of(
                        letters_of(*fmt, alignment@.take(i as int + 1)),
                    ));
                }
            }
        } else {
            rs.push((1, c));
            proof {
                assert(rs@.map_values(|r: (usize, char)| (r.0 as nat, r.1)) =~= runs_of(
                    letters_of(*fmt, alignment@.take(i as int + 1)),
                ));
            }
        }
        i += 1;
    }
    proof {
        assert(alignment@.take(alignment@.len() as int) =~= alignment@);
    }
    rs
}

/// Renders a run list as characters.
fn render_runs_exec(rs: &Vec<(usize, char)>) -> (out: Vec<char>)
    ensures
        out@ == render_runs(rs@.map_values(|r: (usize, char)| (r.0 as nat, r.1))),
{
    let mut out: Vec<char> = Vec::new();
    let mut x: usize = 0;
    while x < rs.len()
        invariant
            x <= rs@.len(),
            out@ == render_runs(rs@.take(x as int).map_values(|r: (usize, char)| (r.0 as nat, r.1))),
        decreases rs@.len() - x,
    {
        let ghost mapped = rs@.take(x as int + 1).map_values(
            |r: (usize, char)| (r.0 as nat, r.1),
        );
        proof {
            assert(mapped.drop_last() =~= rs@.take(x as int).map_values(
                |r: (usize, char)| (r.0 as nat, r.1),
            ));
            assert(mapped.last() == (rs@[x as int].0 as nat, rs@[x as int].1));
        }
        let (cnt, c) = rs[x];
        push_decimal(&mut out, cnt);
        out.push(c);
        proof {
            assert(out@ =~= render_runs(mapped));
        }
        x += 1;
    }
    proof {
        assert(rs@.take(rs@.len() as int) =~= rs@);
    }
    out
}

/// Renders the alignment path as a CIGAR string in the requested notation.
///
/// Fails on an empty path, and on any byte that is not one of the four
/// operations; otherwise the returned string is exactly the run-length
/// rendering of the path's letters.
#[allow(non_snake_case)]
pub fn edlibAlignmentToCigarRs(alignment: &[u8], cigarFormat: &EdlibCigarFormatRs) -> (res: Result<
    String,
    EdlibCigarErrorRs,
>)
    ensures
        (res is Ok) <==> (alignment@.len() > 0 && (forall|i: int|
            0 <= i < alignment@.len() ==> alignment@[i] <= 3)),
        res is Ok ==> res.unwrap()@ == cigar_of(*cigarFormat, alignment@),
        alignment@.len() == 0 ==> res == Result::<String, EdlibCigarErrorRs>::Err(
            EdlibCigarErrorRs::EmptyAlignment,
        ),
        res is Err && alignment@.len() > 0 ==> res == Result::<String, EdlibCigarErrorRs>::Err(
            EdlibCigarErrorRs::InvalidOperation,
        ),
{
    if alignment.len() == 0 {
        return Err(EdlibCigarErrorRs::EmptyAlignment);
    }
    let mut i: usize = 0;
    while i < alignment.len()
        invariant
            i <= alignment@.len(),
            forall|i2: int| 0 <= i2 < i ==> alignment@[i2] <= 3,
        decreases alignment@.len() - i,
    {
        if alignment[i] > 3 {
            return Err(EdlibCigarErrorRs::InvalidOperation);
        }
        i += 1;
    }
    let rs = build_runs(alignment, cigarFormat);
    let chars = render_runs_exec(&rs);
    let mut s = String::new();
    let mut x: usize = 0;
    while x < chars.len()
        invariant
            x <= chars@.len(),
            s@ == chars@.take(x as int),
        decreases chars@.len() - x,
    {
        string_push_char(&mut s, chars[x]);
        proof {
            assert(chars@.take(x as int).push(chars@[x as int]) =~= chars@.take(x as int + 1));
        }
        x += 1;
    }
    proof {
        assert(chars@.take(chars@.len() as int) =~= chars@);
    }
    Ok(s)
}

/// A run of `k` copies of the letter `c`.
pub open spec fn run_rep(c: char, k: nat) -> Seq<char> {
    Seq::new(k, |x: int| c)
}

/// The last run of a non-empty letter sequence carries its last letter.
pub proof fn lemma_runs_last(lets: Seq<char>)
    requires
        lets.len() > 0,
    ensures
        runs_of(lets).len() > 0,
        runs_of(lets).last().1 == lets.last(),
    decreases lets.len(),
{
    if lets.len() == 1 {
    } else {
        lemma_runs_last(lets.drop_last());
    }
}

/// Appending a fresh run of `k` copies of `c` (a letter different from the
/// current last one) appends exactly one run to the run list.
pub proof fn lemma_runs_append_run(lets: Seq<char>, c: char, k: nat)
    requires
        k >= 1,
        lets.len() == 0 || lets.last() != c,
    ensures
        runs_of(lets + run_rep(c, k)) == runs_of(lets).push((k, c)),
    decreases k,
{
    let full = lets + run_rep(c, k);
    assert(full.len() == lets.len() + k);
    assert(full.last() == c);
    if k == 1 {
        assert(full.drop_last() =~= lets);
        if lets.len() == 0 {
            assert(runs_of(full) == runs_of(lets).push((1nat, c)));
        } else {
            lemma_runs_last(lets);
            assert(runs_of(full) == runs_of(lets).push((1nat, c)));
        }
    } else {
        lemma_runs_append_run(lets, c, (k - 1) as nat);
        assert(full.drop_last() =~= lets + run_rep(c, (k - 1) as nat));
        let r = runs_of(lets).push((((k - 1) as nat), c));
        assert(runs_of(full.drop_last()) == r);
        assert(r.last().1 == c);
        assert(runs_of(full) == r.update(r.len() - 1, (k, c)));
        assert(r.update(r.len() - 1, (k, c)) =~= runs_of(lets).push((k, c)));
    }
}

/// The letters a run list stands for: each run expanded to its letter
/// repeated its length.
pub open spec fn expand_runs(rs: Seq<(nat, char)>) -> Seq<char>
    decreases rs.len(),
{
    if rs.len() == 0 {
        Seq::empty()
    } else {
        expand_runs(rs.drop_last()) + run_rep(rs.last().1, rs.last().0)
    }
}

/// Run-length encoding loses nothing: expanding the runs of a letter
/// sequence yields that sequence back.
pub proof fn lemma_runs_lossless(lets: Seq<char>)
    ensures
        expand_runs(runs_of(lets)) == lets,
    decreases lets.len(),
{
    if lets.len() == 0 {
        assert(expand_runs(runs_of(lets)) =~= lets);
    } else {
        lemma_runs_lossless(lets.drop_last());
        let r = runs_of(lets.drop_last());
        let c = lets.last();
        if r.len() > 0 && r.last().1 == c {
            let k = r.last().0;
            let r2 = r.update(r.len() - 1, ((k + 1) as nat, c));
            assert(runs_of(lets) == r2);
            assert(r2.drop_last() =~= r.drop_last());
            assert(r2.last() == ((k + 1) as nat, c));
            assert(run_rep(c, (k + 1) as nat) =~= run_rep(c, k).push(c));
            assert(expand_runs(r2) == expand_runs(r.drop_last()) + run_rep(c, (k + 1) as nat));
            assert(expand_runs(r) == expand_runs(r.drop_last()) + run_rep(c, k));
            assert(expand_runs(r2) =~= expand_runs(r).push(c));
            assert(lets.drop_last().push(c) =~= lets);
        } else {
            let r2 = r.push((1nat, c));
            assert(runs_of(lets) == r2);
            assert(r2.drop_last() =~= r);
            assert(run_rep(c, 1) =~= seq![c]);
            assert(expand_runs(r2) =~= expand_runs(r).push(c));
            assert(lets.drop_last().push(c) =~= lets);
        }
    }
}

/// Is `c` a decimal digit?
pub open spec fn is_digit(c: char) -> bool {
    digit_of(c) < 10
}

/// The digit a character stands for; ten for any non-digit.
pub open spec fn digit_of(c: char) -> nat {
    if c == '0' {
        0
    } else if c == '1' {
        1
    } else if c == '2' {
        2
    } else if c == '3' {
        3
    } else if c == '4' {
        4
    } else if c == '5' {
        5
    } else if c == '6' {
        6
    } else if c == '7' {
        7
    } else if c == '8' {
        8
    } else if c == '9' {
        9
    } else {
        10
    }
}

/// The number a digit sequence spells in decimal.
pub open spec fn digits_val(ds: Seq<char>) -> nat
    decreases ds.len(),
{
    if ds.len() == 0 {
        0
    } else {
        10 * digits_val(ds.drop_last()) + digit_of(ds.last())
    }
}

/// Is `c` a letter of the notation?
pub open spec fn is_letter(fmt: EdlibCigarFormatRs, c: char) -> bool {
    ||| c == op_letter(fmt, 0)
    ||| c == op_letter(fmt, 1)
    ||| c == op_letter(fmt, 2)
    ||| c == op_letter(fmt, 3)
}

/// Is `s` the CIGAR rendering of some alignment path?
pub open spec fn valid_cigar(fmt: EdlibCigarFormatRs, s: Seq<char>) -> bool {
    exists|ops: Seq<u8>|
        0 < ops.len() <= usize::MAX && (forall|i: int| 0 <= i < ops.len() ==> ops[i] <= 3)
            && #[trigger] cigar_of(fmt, ops) == s
}

/// A well-formed run list: each run at least one long and no longer than a
/// vector can be, each letter one of the notation's, and neighbouring runs
/// carrying different letters.
pub open spec fn wf_runs(fmt: EdlibCigarFormatRs, rs: Seq<(nat, char)>) -> bool {
    &&& forall|x: int| 0 <= x < rs.len() ==> 1 <= #[trigger] rs[x].0 <= usize::MAX
    &&& forall|x: int| 0 <= x < rs.len() ==> is_letter(fmt, #[trigger] rs[x].1)
    &&& forall|x: int| 0 <= x < rs.len() - 1 ==> rs[x].1 != #[trigger] rs[x + 1].1
}

/// What remains to be decoded at position `i`: a well-formed run list that
/// renders to exactly the rest of the input, present exactly while input
/// remains, and opening with a letter other than the last one consumed.
pub open spec fn rest_ok(
    fmt: EdlibCigarFormatRs,
    s: Seq<char>,
    i: int,
    prev: char,
    rr: Seq<(nat, char)>,
) -> bool {
    &&& wf_runs(fmt, rr)
    &&& render_runs(rr) == s.subrange(i, s.len() as int)
    &&& (rr.len() > 0 <==> i < s.len())
    &&& (i > 0 && rr.len() > 0 ==> rr[0].1 != prev)
}

/// Reading a digit character back gives the digit it was made from.
pub proof fn lemma_digit_char_of(d: nat)
    requires
        d < 10,
    ensures
        digit_of(digit_char(d)) == d,
        is_digit(digit_char(d)),
{
}

/// A decimal rendering is a non-empty string of digits, and does not start
/// with a zero unless it is the number zero.
pub proof fn lemma_dec_digits_shape(k: nat)
    ensures
        dec_digits(k).len() >= 1,
        forall|x: int| 0 <= x < dec_digits(k).len() ==> is_digit(#[trigger] dec_digits(k)[x]),
        k >= 1 ==> dec_digits(k)[0] != '0',
    decreases k,
{
    if k < 10 {
        lemma_digit_char_of(k);
    } else {
        lemma_dec_digits_shape(k / 10);
        lemma_digit_char_of(k % 10);
        assert forall|x: int|
            0 <= x < dec_digits(k).len() implies is_digit(#[trigger] dec_digits(k)[x]) by {
            if x < dec_digits(k / 10).len() {
                assert(dec_digits(k)[x] == dec_digits(k / 10)[x]);
            } else {
                assert(dec_digits(k)[x] == digit_char(k % 10));
            }
        }
        assert(dec_digits(k)[0] == dec_digits(k / 10)[0]);
    }
}

/// A decimal rendering spells the number it was made from.
pub proof fn lemma_digits_val_dec(k: nat)
    ensures
        digits_val(dec_digits(k)) == k,
    decreases k,
{
    if k < 10 {
        lemma_digit_char_of(k);
        assert(dec_digits(k) == seq![digit_char(k)]);
        assert(dec_digits(k).drop_last() =~= Seq::<char>::empty());
        assert(dec_digits(k).last() == digit_char(k));
        assert(digits_val(dec_digits(k)) == 10 * digits_val(Seq::<char>::empty()) + digit_of(
            digit_char(k),
        ));
        assert(digits_val(Seq::<char>::empty()) == 0);
    } else {
        lemma_digits_val_dec(k / 10);
        lemma_digit_char_of(k % 10);
        assert(dec_digits(k) == dec_digits(k / 10).push(digit_char(k % 10)));
        assert(dec_digits(k).drop_last() =~= dec_digits(k / 10));
        assert(dec_digits(k).last() == digit_char(k % 10));
        assert(dec_digits(k).len() > 0);
        assert(digits_val(dec_digits(k)) == 10 * digits_val(dec_digits(k).drop_last()) + digit_of(
            dec_digits(k).last(),
        ));
        assert(10 * (k / 10) + k % 10 == k);
    }
}

/// Extending a digit string can only grow the number it spells.
pub proof fn lemma_digits_val_prefix(ds: Seq<char>, p: int)
    requires
        0 <= p <= ds.len(),
    ensures
        digits_val(ds.take(p)) <= digits_val(ds),
    decreases ds.len() - p,
{
    if p == ds.len() {
        assert(ds.take(p) =~= ds);
    } else {
        lemma_digits_val_prefix(ds, p + 1);
        assert(ds.take(p + 1).drop_last() =~= ds.take(p));
        assert(ds.take(p + 1).last() == ds[p]);
    }
}

/// No letter of either notation is a digit.
pub proof fn lemma_letter_not_digit(fmt: EdlibCigarFormatRs, c: char)
    requires
        is_letter(fmt, c),
    ensures
        !is_digit(c),
{
}

/// A rendering can be read off the front as well: the first run's count and
/// letter followed by the rendering of the remaining runs; and it is never
/// shorter than two characters.
pub proof fn lemma_render_front(rs: Seq<(nat, char)>)
    requires
        rs.len() > 0,
    ensures
        render_runs(rs) == dec_digits(rs[0].0) + seq![rs[0].1] + render_runs(rs.drop_first()),
        render_runs(rs).len() >= 2,
    decreases rs.len(),
{
    lemma_dec_digits_shape(rs[0].0);
    if rs.len() == 1 {
        assert(rs.drop_last() =~= Seq::<(nat, char)>::empty());
        assert(rs.drop_first() =~= Seq::<(nat, char)>::empty());
        assert(rs.last() == rs[0]);
        assert(render_runs(rs) =~= dec_digits(rs[0].0) + seq![rs[0].1] + render_runs(
            rs.drop_first(),
        ));
    } else {
        lemma_render_front(rs.drop_last());
        assert(rs.drop_last()[0] == rs[0]);
        assert(rs.drop_last().drop_first() =~= rs.drop_first().drop_last());
        assert(rs.drop_first().last() == rs.last());
        assert(render_runs(rs.drop_first()) == render_runs(rs.drop_first().drop_last())
            + dec_digits(rs.last().0) + seq![rs.last().1]);
        assert(render_runs(rs) =~= dec_digits(rs[0].0) + seq![rs[0].1] + render_runs(
            rs.drop_first(),
        ));
    }
}

/// The runs of a sequence of notation letters are well formed, with no run
/// longer than the sequence itself.
pub proof fn lemma_runs_wf(fmt: EdlibCigarFormatRs, lets: Seq<char>)
    requires
        forall|x: int| 0 <= x < lets.len() ==> is_letter(fmt, #[trigger] lets[x]),
        lets.len() <= usize::MAX,
    ensures
        wf_runs(fmt, runs_of(lets)),
        forall|x: int| 0 <= x < runs_of(lets).len() ==> #[trigger] runs_of(lets)[x].0 <= lets.len(),
    decreases lets.len(),
{
    if lets.len() == 0 {
    } else {
        assert forall|x: int|
            0 <= x < lets.drop_last().len() implies is_letter(
            fmt,
            #[trigger] lets.drop_last()[x],
        ) by {
            assert(lets.drop_last()[x] == lets[x]);
        }
        lemma_runs_wf(fmt, lets.drop_last());
        let r0 = runs_of(lets.drop_last());
        let rr = runs_of(lets);
        assert(is_letter(fmt, lets.last()));
        if r0.len() > 0 && r0.last().1 == lets.last() {
            assert(rr == r0.update(r0.len() - 1, ((r0.last().0 + 1) as nat, lets.last())));
            assert forall|x: int| 0 <= x < rr.len() implies 1 <= #[trigger] rr[x].0 <= usize::MAX
                && rr[x].0 <= lets.len() && is_letter(fmt, rr[x].1) by {
                if x == r0.len() - 1 {
                    assert(r0[x].0 <= lets.drop_last().len());
                } else {
                    assert(rr[x] == r0[x]);
                }
            }
            assert forall|x: int| 0 <= x < rr.len() - 1 implies rr[x].1 != #[trigger] rr[x
                + 1].1 by {
                assert(rr[x].1 == r0[x].1 && rr[x + 1].1 == r0[x + 1].1);
            }
        } else {
            assert(rr == r0.push((1nat, lets.last())));
            assert forall|x: int| 0 <= x < rr.len() implies 1 <= #[trigger] rr[x].0 <= usize::MAX
                && rr[x].0 <= lets.len() && is_letter(fmt, rr[x].1) by {
                if x < r0.len() {
                    assert(rr[x] == r0[x]);
                    assert(r0[x].0 <= lets.drop_last().len());
                }
            }
            assert forall|x: int| 0 <= x < rr.len() - 1 implies rr[x].1 != #[trigger] rr[x
                + 1].1 by {
                if x < r0.len() - 1 {
                    assert(rr[x].1 == r0[x].1 && rr[x + 1].1 == r0[x + 1].1);
                } else {
                    lemma_runs_last(lets.drop_last());
                }
            }
        }
    }
}

/// A valid CIGAR string leaves a well-formed run list to decode from its
/// first position.
pub proof fn lemma_valid_gives_runs(fmt: EdlibCigarFormatRs, s: Seq<char>)
    requires
        valid_cigar(fmt, s),
    ensures
        exists|rr: Seq<(nat, char)>| #[trigger] rest_ok(fmt, s, 0, ' ', rr),
        s.len() >= 2,
{
    let ops = choose|ops: Seq<u8>|
        0 < ops.len() <= usize::MAX && (forall|i: int| 0 <= i < ops.len() ==> ops[i] <= 3)
            && #[trigger] cigar_of(fmt, ops) == s;
    let lets = letters_of(fmt, ops);
    assert forall|x: int| 0 <= x < lets.len() implies is_letter(fmt, #[trigger] lets[x]) by {
        assert(ops[x] <= 3);
        assert(lets[x] == op_letter(fmt, ops[x]));
        if ops[x] == 0 || ops[x] == 1 || ops[x] == 2 || ops[x] == 3 {
        }
    }
    lemma_runs_wf(fmt, lets);
    let rr = runs_of(lets);
    assert(lets.len() == ops.len());
    lemma_runs_last(lets);
    lemma_render_front(rr);
    assert(render_runs(rr) == s);
    assert(s.subrange(0, s.len() as int) =~= s);
    assert(rest_ok(fmt, s, 0, ' ', rr));
}

/// Reads a CIGAR string back into an alignment path.
///
/// Exactly the canonical renderings are accepted: decimal counts of at
/// least 1 with no leading zeros, each followed by a letter of the
/// requested notation, with consecutive tokens carrying different letters.
/// Decoding therefore inverts rendering both ways: every rendering of a
/// path is accepted, and re-encoding the returned path with
/// [`edlibAlignmentToCigarRs`] reproduces the input exactly.
#[allow(non_snake_case)]
#[verifier::rlimit(80)]
pub fn edlibCigarToAlignmentRs(cigar: &[char], cigarFormat: &EdlibCigarFormatRs) -> (res: Result<
    Vec<u8>,
    EdlibCigarErrorRs,
>)
    ensures
        res is Ok ==> res.unwrap()@.len() > 0,
        res is Ok ==> (forall|x: int| 0 <= x < res.unwrap()@.len() ==> res.unwrap()@[x] <= 3),
        res is Ok ==> cigar_of(*cigarFormat, res.unwrap()@) == cigar@,
        valid_cigar(*cigarFormat, cigar@) ==> res is Ok,
        cigar@.len() == 0 ==> res == Result::<Vec<u8>, EdlibCigarErrorRs>::Err(
            EdlibCigarErrorRs::EmptyAlignment,
        ),
        res is Err && cigar@.len() > 0 ==> res == Result::<Vec<u8>, EdlibCigarErrorRs>::Err(
            EdlibCigarErrorRs::InvalidOperation,
        ),
{
    let n = cigar.len();
    if n == 0 {
        proof {
            if valid_cigar(*cigarFormat, cigar@) {
                lemma_valid_gives_runs(*cigarFormat, cigar@);
            }
        }
        return Err(EdlibCigarErrorRs::EmptyAlignment);
    }
    let mut ops: Vec<u8> = Vec::new();
    let mut prev: char = ' ';
    let mut i: usize = 0;
    proof {
        if valid_cigar(*cigarFormat, cigar@) {
            lemma_valid_gives_runs(*cigarFormat, cigar@);
        }
    }
    while i < n
        invariant
            i <= n,
            n == cigar@.len(),
            cigar_of(*cigarFormat, ops@) == cigar@.take(i as int),
            (ops@.len() == 0) <==> (i == 0),
            forall|x: int| 0 <= x < ops@.len() ==> ops@[x] <= 3,
            ops@.len() > 0 ==> op_letter(*cigarFormat, ops@.last()) == prev,
            valid_cigar(*cigarFormat, cigar@) ==> exists|rr: Seq<(nat, char)>|
                #[trigger] rest_ok(*cigarFormat, cigar@, i as int, prev, rr),
        decreases n - i,
    {
        let ghost tok_start = i as int;
        let ghost vc = valid_cigar(*cigarFormat, cigar@);
        let ghost rr = choose|rr: Seq<(nat, char)>|
            rest_ok(*cigarFormat, cigar@, i as int, prev, rr);
        let ghost k0 = rr[0].0;
        let ghost c0l = rr[0].1;
        let ghost dlen = dec_digits(k0).len() as int;
        proof {
            if vc {
                assert(rest_ok(*cigarFormat, cigar@, tok_start, prev, rr));
                assert(rr.len() > 0);
                lemma_render_front(rr);
                lemma_dec_digits_shape(k0);
                assert(is_letter(*cigarFormat, rr[0].1));
                assert(1 <= rr[0].0 <= usize::MAX);
                assert(cigar@.subrange(tok_start, n as int) == dec_digits(k0) + seq![c0l]
                    + render_runs(rr.drop_first()));
                assert(n - tok_start == dlen + 1 + render_runs(rr.drop_first()).len());
                assert forall|x: int|
                    0 <= x < dlen implies cigar@[tok_start + x] == dec_digits(k0)[x] by {
                    assert(cigar@.subrange(tok_start, n as int)[x] == dec_digits(k0)[x]);
                }
                assert(cigar@[tok_start + dlen] == c0l) by {
                    assert(cigar@.subrange(tok_start, n as int)[dlen] == c0l);
                }
            }
        }
        let c0 = cigar[i];
        let d0 = match digit_val(c0) {
            Some(d) => d,
            None => {
                proof {
                    if vc {
                        assert(c0 == dec_digits(k0)[0]);
                        assert(is_digit(c0));
                        assert(false);
                    }
                }
                return Err(EdlibCigarErrorRs::InvalidOperation);
            },
        };
        if d0 == 0 {
            proof {
                if vc {
                    assert(c0 == dec_digits(k0)[0]);
                    assert(c0 == digit_char(0));
                    assert(dec_digits(k0)[0] != '0');
                    assert(false);
                }
            }
            return Err(EdlibCigarErrorRs::InvalidOperation);
        }
        let mut v: usize = d0 as usize;
        i += 1;
        proof {
            assert(c0 == digit_char(v as nat));
            assert(cigar@.subrange(tok_start, i as int) =~= seq![digit_char(v as nat)]);
            assert(dec_digits(v as nat) == cigar@.subrange(tok_start, i as int));
            if vc {
                assert(cigar@.subrange(tok_start, i as int) =~= dec_digits(k0).take(1));
            }
        }
        while i < n
            invariant_except_break
                i <= n,
                n == cigar@.len(),
                1 <= v,
                0 <= tok_start < i,
                dec_digits(v as nat) == cigar@.subrange(tok_start, i as int),
                vc == valid_cigar(*cigarFormat, cigar@),
                vc ==> rest_ok(*cigarFormat, cigar@, tok_start, prev, rr),
                vc ==> rr.len() > 0 && k0 == rr[0].0 && c0l == rr[0].1 && dlen == dec_digits(
                    k0,
                ).len() && 1 <= k0 <= usize::MAX && is_letter(*cigarFormat, c0l),
                vc ==> n - tok_start == dlen + 1 + render_runs(rr.drop_first()).len(),
                vc ==> (forall|x: int|
                    0 <= x < dlen ==> cigar@[tok_start + x] == dec_digits(k0)[x]),
                vc ==> cigar@[tok_start + dlen] == c0l,
                vc ==> i - tok_start <= dlen,
                vc ==> cigar@.subrange(tok_start, i as int) == dec_digits(k0).take(i - tok_start),
            ensures
                i <= n,
                n == cigar@.len(),
                1 <= v,
                0 <= tok_start < i,
                dec_digits(v as nat) == cigar@.subrange(tok_start, i as int),
                vc == valid_cigar(*cigarFormat, cigar@),
                vc ==> rest_ok(*cigarFormat, cigar@, tok_start, prev, rr),
                vc ==> rr.len() > 0 && k0 == rr[0].0 && c0l == rr[0].1 && dlen == dec_digits(
                    k0,
                ).len() && 1 <= k0 <= usize::MAX && is_letter(*cigarFormat, c0l),
                vc ==> n - tok_start == dlen + 1 + render_runs(rr.drop_first()).len(),
                vc ==> (forall|x: int|
                    0 <= x < dlen ==> cigar@[tok_start + x] == dec_digits(k0)[x]),
                vc ==> cigar@[tok_start + dlen] == c0l,
                vc ==> i - tok_start <= dlen,
                vc ==> cigar@.subrange(tok_start, i as int) == dec_digits(k0).take(i - tok_start),
                i < n ==> !is_digit(cigar@[i as int]),
            decreases n - i,
        {
            let cc = cigar[i];
            let d = match digit_val(cc) {
                Some(dd) => dd as usize,
                None => {
                    break;
                },
            };
            proof {
                if vc {
                    lemma_dec_digits_shape(k0);
                    if i - tok_start == dlen {
                        assert(cc == c0l);
                        lemma_letter_not_digit(*cigarFormat, c0l);
                        assert(false);
                    }
                    assert(i - tok_start < dlen);
                }
            }
            if v > usize::MAX / 10 || (v == usize::MAX / 10 && d > usize::MAX % 10) {
                proof {
                    assert(10 * (v as int) + d > usize::MAX);
                    if vc {
                        let p = i - tok_start;
                        lemma_digits_val_dec(v as nat);
                        lemma_digits_val_dec(k0);
                        lemma_digits_val_prefix(dec_digits(k0), p + 1);
                        assert(dec_digits(k0).take(p + 1).drop_last() =~= dec_digits(k0).take(p));
                        assert(dec_digits(k0).take(p + 1).last() == dec_digits(k0)[p]);
                        assert(cigar@[i as int] == dec_digits(k0)[p]);
                        assert(cc == digit_char(d as nat));
                        lemma_digit_char_of(d as nat);
                        assert(digits_val(dec_digits(k0).take(p)) == v) by {
                            assert(dec_digits(k0).take(p) == dec_digits(v as nat));
                        }
                        assert(digits_val(dec_digits(k0).take(p + 1)) == 10 * (v as nat) + d);
                        assert(10 * (v as nat) + d <= k0);
                        assert(false);
                    }
                }
                return Err(EdlibCigarErrorRs::InvalidOperation);
            }
            proof {
                assert(10 * (v as int) + d <= usize::MAX);
            }
            let ghost v0 = v as nat;
            v = v * 10 + d;
            i += 1;
            proof {
                assert(v as nat / 10 == v0 && v as nat % 10 == d);
                assert(cc == digit_char(d as nat));
                assert(dec_digits(v as nat) == dec_digits(v0).push(digit_char(d as nat)));
                assert(cigar@.subrange(tok_start, i as int) =~= cigar@.subrange(
                    tok_start,
                    i as int - 1,
                ).push(cc));
                if vc {
                    assert(cigar@[i as int - 1] == dec_digits(k0)[i - 1 - tok_start]);
                    assert(cigar@.subrange(tok_start, i as int) =~= dec_digits(k0).take(
                        i - tok_start,
                    ));
                }
            }
        }
        if i >= n {
            proof {
                if vc {
                    assert(false);
                }
            }
            return Err(EdlibCigarErrorRs::InvalidOperation);
        }
        proof {
            if vc {
                lemma_dec_digits_shape(k0);
                if i - tok_start < dlen {
                    assert(cigar@[i as int] == dec_digits(k0)[i - tok_start]);
                    assert(is_digit(cigar@[i as int]));
                    assert(false);
                }
                assert(i - tok_start == dlen);
                assert(cigar@[i as int] == c0l);
                assert(dec_digits(k0).take(dlen) =~= dec_digits(k0));
                assert(dec_digits(v as nat) == dec_digits(k0));
                lemma_digits_val_dec(v as nat);
                lemma_digits_val_dec(k0);
                assert(v as nat == k0);
            }
        }
        let lc = cigar[i];
        let op: u8 = match cigarFormat {
            EdlibCigarFormatRs::EDLIB_CIGAR_STANDARD => {
                if lc == 'M' {
                    0
                } else if lc == 'I' {
                    1
                } else if lc == 'D' {
                    2
                } else {
                    proof {
                        if vc {
                            assert(is_letter(*cigarFormat, lc));
                            assert(false);
                        }
                    }
                    return Err(EdlibCigarErrorRs::InvalidOperation);
                }
            },
            EdlibCigarFormatRs::EDLIB_CIGAR_EXTENDED => {
                if lc == '=' {
                    0
                } else if lc == 'I' {
                    1
                } else if lc == 'D' {
                    2
                } else if lc == 'X' {
                    3
                } else {
                    proof {
                        if vc {
                            assert(is_letter(*cigarFormat, lc));
                            assert(false);
                        }
                    }
                    return Err(EdlibCigarErrorRs::InvalidOperation);
                }
            },
        };
        assert(op_letter(*cigarFormat, op) == lc);
        if !ops.is_empty() && lc == prev {
            proof {
                if vc {
                    assert(tok_start > 0);
                    assert(rr[0].1 != prev);
                    assert(false);
                }
            }
            return Err(EdlibCigarErrorRs::InvalidOperation);
        }
        i += 1;
        let ghost ops0 = ops@;
        let ghost lets0 = letters_of(*cigarFormat, ops0);
        let ghost digits_end = i as int - 1;
        let mut kk: usize = 0;
        while kk < v
            invariant
                kk <= v,
                ops@ =~= ops0 + Seq::new(kk as nat, |x: int| op),
            decreases v - kk,
        {
            ops.push(op);
            proof {
                assert(ops@ =~= ops0 + Seq::new(kk as nat + 1, |x: int| op));
            }
            kk += 1;
        }
        prev = lc;
        proof {
            assert(letters_of(*cigarFormat, ops@) =~= lets0 + run_rep(lc, v as nat));
            if ops0.len() > 0 {
                assert(lets0.last() == op_letter(*cigarFormat, ops0.last()));
                assert(lets0.last() != lc);
            }
            lemma_runs_append_run(lets0, lc, v as nat);
            let rs = runs_of(lets0);
            let rs2 = rs.push((v as nat, lc));
            assert(rs2.drop_last() =~= rs);
            assert(rs2.last() == (v as nat, lc));
            assert(render_runs(rs2) == render_runs(rs) + dec_digits(v as nat) + seq![lc]);
            assert(cigar@.take(i as int) =~= cigar@.take(tok_start) + cigar@.subrange(
                tok_start,
                digits_end,
            ) + seq![cigar@[digits_end]]);
            assert(cigar_of(*cigarFormat, ops@) == cigar@.take(i as int));
            assert(ops@.last() == op);
            if vc {
                let rr2 = rr.drop_first();
                assert(wf_runs(*cigarFormat, rr2)) by {
                    assert forall|x: int|
                        0 <= x < rr2.len() implies 1 <= #[trigger] rr2[x].0 <= usize::MAX
                        && is_letter(*cigarFormat, rr2[x].1) by {
                        assert(rr2[x] == rr[x + 1]);
                        assert(1 <= rr[x + 1].0 <= usize::MAX);
                        assert(is_letter(*cigarFormat, rr[x + 1].1));
                    }
                    assert forall|x: int|
                        0 <= x < rr2.len() - 1 implies rr2[x].1 != #[trigger] rr2[x + 1].1 by {
                        assert(rr2[x] == rr[x + 1] && rr2[x + 1] == rr[x + 2]);
                        assert(rr[x + 1].1 != rr[x + 2].1);
                    }
                }
                assert(i == tok_start + dlen + 1);
                assert(render_runs(rr2) =~= cigar@.subrange(i as int, n as int)) by {
                    assert forall|x: int|
                        0 <= x < render_runs(rr2).len() implies render_runs(rr2)[x] == cigar@[i
                        + x] by {
                        assert(cigar@.subrange(tok_start, n as int)[dlen + 1 + x] == render_runs(
                            rr2,
                        )[x]);
                    }
                }
                if rr2.len() > 0 {
                    lemma_render_front(rr2);
                    assert(i < n);
                    assert(rr2[0] == rr[1]);
                    assert(rr[0].1 != rr[1].1);
                } else {
                    assert(render_runs(rr2).len() == 0);
                    assert(i == n);
                }
                assert(rest_ok(*cigarFormat, cigar@, i as int, prev, rr2));
            }
        }
    }
    proof {
        assert(cigar@.take(n as int) =~= cigar@);
    }
    Ok(ops)
}

} // verus!
