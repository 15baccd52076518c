//! Verified helpers over byte strings. Identifiers, names, paths and the two
//! persisted text formats are all carried as UTF-8 bytes, so the whole crate
//! reduces text handling to a handful of byte-sequence primitives: equality,
//! concatenation, newline scanning, trailing-whitespace trimming, and a
//! decimal codec for `u64` values.

use vstd::prelude::*;

verus! {

pub const NL: u8 = 10;
pub const COLON: u8 = 58;

/// Trailing whitespace that line parsers ignore: space, tab, carriage return.
pub open spec fn is_space(b: u8) -> bool {
    b == 32 || b == 9 || b == 13
}

pub open spec fn is_digit(b: u8) -> bool {
    48 <= b <= 57
}

pub open spec fn all_digits(s: Seq<u8>) -> bool {
    forall|i: int| 0 <= i < s.len() ==> is_digit(s[i])
}

pub open spec fn has_no_newline(s: Seq<u8>) -> bool {
    forall|i: int| 0 <= i < s.len() ==> s[i] != NL
}

/// A line with its trailing whitespace removed.
pub open spec fn trim_right_spec(s: Seq<u8>) -> Seq<u8>
    decreases s.len(),
{
    if s.len() > 0 && is_space(s.last()) {
        trim_right_spec(s.drop_last())
    } else {
        s
    }
}

/// Index of the first newline in `s`, or `s.len()` if there is none.
pub open spec fn first_nl(s: Seq<u8>) -> int
    decreases s.len(),
{
    if s.len() == 0 {
        0
    } else if s[0] == NL {
        0
    } else {
        1 + first_nl(s.drop_first())
    }
}

pub proof fn lemma_first_nl(s: Seq<u8>)
    ensures
        0 <= first_nl(s) <= s.len(),
        first_nl(s) < s.len() ==> s[first_nl(s)] == NL,
        forall|i: int| 0 <= i < first_nl(s) ==> s[i] != NL,
    decreases s.len(),
{
    if s.len() > 0 && s[0] != NL {
        lemma_first_nl(s.drop_first());
        assert forall|i: int| 0 <= i < first_nl(s) implies s[i] != NL by {
            if i > 0 {
                assert(s.drop_first()[i - 1] == s[i]);
            }
        }
    }
}

/// `first_nl` is the unique index with the scanning properties, so an exec
/// scan that establishes them has found it.
pub proof fn lemma_first_nl_char(s: Seq<u8>, n: int)
    requires
        0 <= n <= s.len(),
        forall|i: int| 0 <= i < n ==> s[i] != NL,
        n < s.len() ==> s[n] == NL,
    ensures
        first_nl(s) == n,
    decreases s.len(),
{
    if s.len() > 0 && s[0] != NL {
        assert forall|i: int| 0 <= i < n - 1 implies s.drop_first()[i] != NL by {
            assert(s.drop_first()[i] == s[i + 1]);
        }
        lemma_first_nl_char(s.drop_first(), n - 1);
    }
}

/// Index of the first colon in `s`, or `s.len()` if there is none.
pub open spec fn first_colon(s: Seq<u8>) -> int
    decreases s.len(),
{
    if s.len() == 0 {
        0
    } else if s[0] == COLON {
        0
    } else {
        1 + first_colon(s.drop_first())
    }
}

/// `first_colon` is the unique index with the scanning properties.
pub proof fn lemma_first_colon_char(s: Seq<u8>, n: int)
    requires
        0 <= n <= s.len(),
        forall|i: int| 0 <= i < n ==> s[i] != COLON,
        n < s.len() ==> s[n] == COLON,
    ensures
        first_colon(s) == n,
    decreases s.len(),
{
    if s.len() > 0 && s[0] != COLON {
        assert forall|i: int| 0 <= i < n - 1 implies s.drop_first()[i] != COLON by {
            assert(s.drop_first()[i] == s[i + 1]);
        }
        lemma_first_colon_char(s.drop_first(), n - 1);
    }
}

/// Index of the first colon in `s[start..end]`, or `end` if there is none.
pub fn find_colon(s: &[u8], start: usize, end: usize) -> (r: usize)
    requires
        start <= end <= s@.len(),
    ensures
        start <= r <= end,
        r - start == first_colon(s@.subrange(start as int, end as int)),
        r < end ==> s@[r as int] == COLON,
        forall|i: int| start <= i < r ==> s@[i] != COLON,
{
    let mut i: usize = start;
    while i < end && s[i] != COLON
        invariant
            start <= i <= end <= s@.len(),
            forall|j: int| start <= j < i ==> s@[j] != COLON,
        decreases end - i,
    {
        i += 1;
    }
    proof {
        let field = s@.subrange(start as int, end as int);
        assert forall|j: int| 0 <= j < i - start implies field[j] != COLON by {
            assert(field[j] == s@[start + j]);
        }
        lemma_first_colon_char(field, i - start);
    }
    i
}

/// The first newline of `line + "\n" + rest` is the one just after `line`.
pub proof fn lemma_first_nl_concat(a: Seq<u8>, b: Seq<u8>)
    requires
        has_no_newline(a),
    ensures
        first_nl(a + seq![NL] + b) == a.len(),
    decreases a.len(),
{
    let s = a + seq![NL] + b;
    if a.len() == 0 {
        assert(s[0] == NL);
    } else {
        assert(s[0] == a[0]);
        assert(s[0] != NL);
        assert(a.drop_first() + seq![NL] + b =~= s.drop_first());
        assert(has_no_newline(a.drop_first())) by {
            assert(forall|i: int|
                0 <= i < a.drop_first().len() ==> a.drop_first()[i] == a[i + 1]);
        }
        lemma_first_nl_concat(a.drop_first(), b);
    }
}

/// Decimal digits of a non-negative integer, most significant first.
pub open spec fn dec_digits(n: int) -> Seq<u8>
    recommends
        n >= 0,
    decreases n,
{
    if n < 10 {
        seq![(48 + if n >= 0 { n } else { 0 }) as u8]
    } else {
        dec_digits(n / 10).push((48 + n % 10) as u8)
    }
}

/// Value of a string of decimal digits, most significant first.
pub open spec fn dec_val(s: Seq<u8>) -> int
    decreases s.len(),
{
    if s.len() == 0 {
        0
    } else {
        dec_val(s.drop_last()) * 10 + (s.last() - 48)
    }
}

/// What a decimal field of a persisted file denotes: `None` on an empty or
/// non-digit field and on a value that does not fit in `u64`.
pub open spec fn parse_u64_spec(s: Seq<u8>) -> Option<u64> {
    if s.len() == 0 || !all_digits(s) {
        None
    } else if dec_val(s) > u64::MAX {
        None
    } else {
        Some(dec_val(s) as u64)
    }
}

pub proof fn lemma_dec_val_nonneg(s: Seq<u8>)
    requires
        all_digits(s),
    ensures
        dec_val(s) >= 0,
    decreases s.len(),
{
    if s.len() > 0 {
        assert(all_digits(s.drop_last()));
        lemma_dec_val_nonneg(s.drop_last());
    }
}

/// Prefixes of a digit string never exceed its value.
pub proof fn lemma_dec_val_prefix(s: Seq<u8>, k: int)
    requires
        all_digits(s),
        0 <= k <= s.len(),
    ensures
        dec_val(s.take(k)) <= dec_val(s),
    decreases s.len() - k,
{
    if k < s.len() {
        lemma_dec_val_prefix(s, k + 1);
        let t = s.take(k + 1);
        assert(t.drop_last() =~= s.take(k));
        assert(all_digits(s.take(k)));
        lemma_dec_val_nonneg(s.take(k));
        assert(t.last() == s[k]);
        assert(is_digit(s[k]));
        assert(dec_val(t) == dec_val(s.take(k)) * 10 + (t.last() - 48));
        assert(dec_val(s.take(k)) <= dec_val(s.take(k)) * 10);
        assert(dec_val(s.take(k)) <= dec_val(t));
    } else {
        assert(s.take(k) =~= s);
    }
}

/// The digits of `n` read back as `n`; they are genuinely digits and at least
/// one of them is printed.
pub proof fn lemma_dec_digits_val(n: int)
    requires
        n >= 0,
    ensures
        all_digits(dec_digits(n)),
        dec_val(dec_digits(n)) == n,
        dec_digits(n).len() >= 1,
    decreases n,
{
    if n < 10 {
        let d = dec_digits(n);
        assert(d =~= seq![(48 + n) as u8]);
        assert(d.drop_last() =~= Seq::<u8>::empty());
        assert(dec_val(d) == dec_val(d.drop_last()) * 10 + (d.last() - 48));
        assert(dec_val(d) == n);
    } else {
        assert(n / 10 < n && n / 10 >= 0 && 0 <= n % 10 < 10) by (nonlinear_arith)
            requires n >= 10;
        lemma_dec_digits_val(n / 10);
        let d = dec_digits(n);
        assert(d.drop_last() =~= dec_digits(n / 10));
        assert(dec_val(d) == (n / 10) * 10 + n % 10);
        assert((n / 10) * 10 + n % 10 == n) by (nonlinear_arith);
    }
}

/// Byte-for-byte equality of two byte strings.
pub fn bytes_eq(a: &[u8], b: &[u8]) -> (r: bool)
    ensures
        r == (a@ == b@),
{
    if a.len() != b.len() {
        assert(a@ != b@);
        return false;
    }
    let mut i: usize = 0;
    while i < a.len()
        invariant
            i <= a.len(),
            a.len() == b.len(),
            forall|j: int| 0 <= j < i ==> a@[j] == b@[j],
        decreases a.len() - i,
    {
        if a[i] != b[i] {
            assert(a@ != b@);
            return false;
        }
        i += 1;
    }
    assert(a@ =~= b@);
    true
}

/// Whether `pat` occurs at `start` within `s[start..end]`.
pub fn starts_with_at(s: &[u8], start: usize, end: usize, pat: &[u8]) -> (r: bool)
    requires
        start <= end <= s@.len(),
    ensures
        r == (start + pat@.len() <= end && s@.subrange(start as int, start + pat@.len()) == pat@),
{
    if pat.len() > end - start {
        return false;
    }
    let mut i: usize = 0;
    while i < pat.len()
        invariant
            i <= pat@.len(),
            start + pat@.len() <= end <= s@.len(),
            forall|j: int| 0 <= j < i ==> s@[start + j] == pat@[j],
        decreases pat.len() - i,
    {
        if s[start + i] != pat[i] {
            assert(s@.subrange(start as int, start + pat@.len())[i as int] != pat@[i as int]);
            return false;
        }
        i += 1;
    }
    assert(s@.subrange(start as int, start + pat@.len()) =~= pat@);
    true
}

/// Equality of `s[start..end]` with `pat`.
pub fn range_eq(s: &[u8], start: usize, end: usize, pat: &[u8]) -> (r: bool)
    requires
        start <= end <= s@.len(),
    ensures
        r == (s@.subrange(start as int, end as int) == pat@),
{
    if end - start != pat.len() {
        assert(s@.subrange(start as int, end as int).len() != pat@.len());
        return false;
    }
    starts_with_at(s, start, end, pat)
}

/// Appends every byte of `src` to `dst`.
pub fn push_all(dst: &mut Vec<u8>, src: &[u8])
    ensures
        final(dst)@ == old(dst)@ + src@,
{
    let mut i: usize = 0;
    while i < src.len()
        invariant
            i <= src.len(),
            dst@ == old(dst)@ + src@.subrange(0, i as int),
        decreases src.len() - i,
    {
        dst.push(src[i]);
        assert(dst@ =~= old(dst)@ + src@.subrange(0, i + 1));
        i += 1;
    }
    assert(dst@ =~= old(dst)@ + src@);
}

/// Appends a subrange of `src` to `dst`.
pub fn push_range(dst: &mut Vec<u8>, src: &[u8], start: usize, end: usize)
    requires
        start <= end <= src@.len(),
    ensures
        final(dst)@ == old(dst)@ + src@.subrange(start as int, end as int),
{
    let mut i: usize = start;
    while i < end
        invariant
            start <= i <= end <= src@.len(),
            dst@ == old(dst)@ + src@.subrange(start as int, i as int),
        decreases end - i,
    {
        dst.push(src[i]);
        assert(dst@ =~= old(dst)@ + src@.subrange(start as int, i + 1));
        i += 1;
    }
}

/// Copies a subrange of `src` into a fresh vector.
pub fn copy_range(src: &[u8], start: usize, end: usize) -> (r: Vec<u8>)
    requires
        start <= end <= src@.len(),
    ensures
        r@ == src@.subrange(start as int, end as int),
{
    let mut out: Vec<u8> = Vec::new();
    push_range(&mut out, src, start, end);
    out
}

/// Index of the first newline in `s[start..]`, or `s.len()` if there is none.
pub fn find_nl(s: &[u8], start: usize) -> (r: usize)
    requires
        start <= s@.len(),
    ensures
        start <= r <= s@.len(),
        r - start == first_nl(s@.skip(start as int)),
        r < s@.len() ==> s@[r as int] == NL,
        forall|i: int| start <= i < r ==> s@[i] != NL,
{
    let mut i: usize = start;
    while i < s.len() && s[i] != NL
        invariant
            start <= i <= s@.len(),
            forall|j: int| start <= j < i ==> s@[j] != NL,
        decreases s.len() - i,
    {
        i += 1;
    }
    proof {
        let tail = s@.skip(start as int);
        assert forall|j: int| 0 <= j < i - start implies tail[j] != NL by {
            assert(tail[j] == s@[start + j]);
        }
        lemma_first_nl_char(tail, i - start);
    }
    i
}

/// End of `s[start..end]` once trailing whitespace is dropped.
pub fn trim_right(s: &[u8], start: usize, end: usize) -> (r: usize)
    requires
        start <= end <= s@.len(),
    ensures
        start <= r <= end,
        s@.subrange(start as int, r as int) == trim_right_spec(s@.subrange(start as int, end as int)),
{
    let mut e: usize = end;
    while e > start && is_space_exec(s[e - 1])
        invariant
            start <= e <= end <= s@.len(),
            trim_right_spec(s@.subrange(start as int, e as int))
                == trim_right_spec(s@.subrange(start as int, end as int)),
        decreases e,
    {
        proof {
            let cur = s@.subrange(start as int, e as int);
            assert(cur.drop_last() =~= s@.subrange(start as int, e - 1));
        }
        e -= 1;
    }
    proof {
        let cur = s@.subrange(start as int, e as int);
        assert(cur.len() == 0 || !is_space(cur.last()));
        assert(trim_right_spec(cur) == cur);
    }
    e
}

/// Executable form of [`is_space`].
pub fn is_space_exec(b: u8) -> (r: bool)
    ensures
        r == is_space(b),
{
    b == 32 || b == 9 || b == 13
}

/// Prints `n` in decimal, most significant digit first.
pub fn u64_to_dec(n: u64) -> (r: Vec<u8>)
    ensures
        r@ == dec_digits(n as int),
    decreases n,
{
    if n < 10 {
        let mut v: Vec<u8> = Vec::new();
        v.push(48 + n as u8);
        assert(v@ =~= dec_digits(n as int));
        v
    } else {
        proof {
            assert(n as int / 10 < n as int) by (nonlinear_arith)
                requires n >= 10;
        }
        let mut v = u64_to_dec(n / 10);
        v.push(48 + (n % 10) as u8);
        v
    }
}

/// Reads the decimal field `s[start..end]`; `None` exactly where
/// [`parse_u64_spec`] says so.
pub fn parse_u64(s: &[u8], start: usize, end: usize) -> (r: Option<u64>)
    requires
        start <= end <= s@.len(),
    ensures
        r == parse_u64_spec(s@.subrange(start as int, end as int)),
{
    let ghost field = s@.subrange(start as int, end as int);
    if start == end {
        return None;
    }
    let mut acc: u64 = 0;
    let mut i: usize = start;
    while i < end
        invariant
            start <= i <= end <= s@.len(),
            all_digits(field.take(i - start)),
            acc as int == dec_val(field.take(i - start)),
            field == s@.subrange(start as int, end as int),
        decreases end - i,
    {
        let b = s[i];
        if b < 48 || b > 57 {
            assert(!is_digit(field[i - start]));
            return None;
        }
        let step = match acc.checked_mul(10) {
            Some(m) => m.checked_add((b - 48) as u64),
            None => None,
        };
        proof {
            let t = field.take(i - start + 1);
            assert(t.drop_last() =~= field.take(i - start));
            assert(t.last() == field[i - start]);
            assert(dec_val(t) == acc as int * 10 + (b - 48));
        }
        match step {
            Some(next) => {
                acc = next;
            },
            None => {
                proof {
                    if all_digits(field) {
                        lemma_dec_val_prefix(field, i - start + 1);
                        assert(dec_val(field) > u64::MAX);
                    }
                }
                return None;
            },
        }
        i += 1;
    }
    assert(field.take(end - start) =~= field);
    Some(acc)
}


} // verus!
