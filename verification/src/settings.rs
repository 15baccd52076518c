//! Settings bootstrap helpers: the one piece of launcher settings logic that
//! computes rather than stores, namely guessing the Steam user id from the
//! login manifest's text. The shell reads the file; the extraction — the
//! first run of digits, accepted only if it fits a `u64` — is verified here.

use vstd::prelude::*;

use crate::text::{copy_range, is_digit, parse_u64, parse_u64_spec};

verus! {

/// Index of the first digit in `s`, or `s.len()` if there is none.
pub open spec fn first_digit_at(s: Seq<u8>) -> int
    decreases s.len(),
{
    if s.len() == 0 {
        0
    } else if is_digit(s[0]) {
        0
    } else {
        1 + first_digit_at(s.drop_first())
    }
}

/// Index of the first non-digit in `s`, or `s.len()` if all are digits.
pub open spec fn first_nondigit_at(s: Seq<u8>) -> int
    decreases s.len(),
{
    if s.len() == 0 {
        0
    } else if !is_digit(s[0]) {
        0
    } else {
        1 + first_nondigit_at(s.drop_first())
    }
}

/// The first maximal digit run of `s`, if it parses as a `u64`; the empty
/// string otherwise.
pub open spec fn steam_user_id_spec(s: Seq<u8>) -> Seq<u8> {
    let a = first_digit_at(s);
    if a >= s.len() {
        Seq::empty()
    } else {
        let run = s.skip(a).take(first_nondigit_at(s.skip(a)));
        if parse_u64_spec(run) is Some {
            run
        } else {
            Seq::empty()
        }
    }
}

/// `first_digit_at` is the unique index with the scanning properties.
pub proof fn lemma_first_digit_char(s: Seq<u8>, n: int)
    requires
        0 <= n <= s.len(),
        forall|i: int| 0 <= i < n ==> !is_digit(s[i]),
        n < s.len() ==> is_digit(s[n]),
    ensures
        first_digit_at(s) == n,
    decreases s.len(),
{
    if s.len() > 0 && !is_digit(s[0]) {
        assert forall|i: int| 0 <= i < n - 1 implies !is_digit(s.drop_first()[i]) by {
            assert(s.drop_first()[i] == s[i + 1]);
        }
        lemma_first_digit_char(s.drop_first(), n - 1);
    }
}

/// `first_nondigit_at` is the unique index with the scanning properties.
pub proof fn lemma_first_nondigit_char(s: Seq<u8>, n: int)
    requires
        0 <= n <= s.len(),
        forall|i: int| 0 <= i < n ==> is_digit(s[i]),
        n < s.len() ==> !is_digit(s[n]),
    ensures
        first_nondigit_at(s) == n,
    decreases s.len(),
{
    if s.len() > 0 && is_digit(s[0]) {
        assert forall|i: int| 0 <= i < n - 1 implies is_digit(s.drop_first()[i]) by {
            assert(s.drop_first()[i] == s[i + 1]);
        }
        lemma_first_nondigit_char(s.drop_first(), n - 1);
    }
}

/// Extracts the default Steam user id from the login manifest's bytes: the
/// first run of decimal digits, kept only when it fits a `u64`, else empty.
pub fn detect_steam_user_id(data: &[u8]) -> (r: Vec<u8>)
    ensures
        r@ == steam_user_id_spec(data@),
{
    let mut a: usize = 0;
    while a < data.len() && !(48 <= data[a] && data[a] <= 57)
        invariant
            a <= data@.len(),
            forall|i: int| 0 <= i < a ==> !is_digit(data@[i]),
        decreases data.len() - a,
    {
        a += 1;
    }
    proof {
        lemma_first_digit_char(data@, a as int);
    }
    if a == data.len() {
        return Vec::new();
    }
    let mut b: usize = a;
    while b < data.len() && 48 <= data[b] && data[b] <= 57
        invariant
            a <= b <= data@.len(),
            forall|i: int| a <= i < b ==> is_digit(data@[i]),
        decreases data.len() - b,
    {
        b += 1;
    }
    proof {
        let tail = data@.skip(a as int);
        assert forall|i: int| 0 <= i < b - a implies is_digit(tail[i]) by {
            assert(tail[i] == data@[a + i]);
        }
        assert(b - a < tail.len() ==> !is_digit(tail[b - a]));
        lemma_first_nondigit_char(tail, b - a);
        assert(tail.take(b - a) =~= data@.subrange(a as int, b as int));
    }
    match parse_u64(data, a, b) {
        Some(_) => copy_range(data, a, b),
        None => Vec::new(),
    }
}

} // verus!
