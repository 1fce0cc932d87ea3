//! Character-level text helpers: equality, ASCII case folding, and
//! signed decimal integers.

use vstd::prelude::*;

verus! {

use vstd::string::{StrSliceExecFns, StringSliceAdditionalSpecFns};
use vstd::utf8::encode_utf8;

/// Whether two characters are equal up to ASCII case: they are the same,
/// or one is the ASCII uppercase of the other.
pub open spec fn char_ci_eq(x: char, y: char) -> bool {
    ||| x == y
    ||| ('A' <= x <= 'Z' && y as u32 == x as u32 + 32)
    ||| ('A' <= y <= 'Z' && x as u32 == y as u32 + 32)
}

/// Whether two character sequences are equal up to ASCII case.
pub open spec fn chars_ci_eq(a: Seq<char>, b: Seq<char>) -> bool {
    a.len() == b.len() && forall|i: int| 0 <= i < a.len() ==> char_ci_eq(a[i], b[i])
}

/// String contents determine the UTF-8 encoding and vice versa.
proof fn lemma_encode_utf8_injective(a: Seq<char>, b: Seq<char>)
    requires
        encode_utf8(a) == encode_utf8(b),
    ensures
        a == b,
{
    vstd::utf8::encode_utf8_decode_utf8(a);
    vstd::utf8::encode_utf8_decode_utf8(b);
}

/// Whether two string slices hold the same characters.
pub fn str_eq(a: &str, b: &str) -> (r: bool)
    ensures
        r == (a@ == b@),
{
    let ab = a.as_bytes();
    let bb = b.as_bytes();
    if ab.len() != bb.len() {
        return false;
    }
    let n = ab.len();
    let mut i: usize = 0;
    while i < n
        invariant
            n == ab@.len() == bb@.len(),
            0 <= i <= n,
            ab@ == a.spec_bytes(),
            bb@ == b.spec_bytes(),
            forall|j: int| 0 <= j < i ==> ab@[j] == bb@[j],
        decreases n - i,
    {
        if ab[i] != bb[i] {
            return false;
        }
        i += 1;
    }
    proof {
        assert(a.spec_bytes() =~= b.spec_bytes());
        lemma_encode_utf8_injective(a@, b@);
    }
    true
}

/// Whether two strings are equal up to ASCII case.
pub fn eq_ignore_case(a: &str, b: &str) -> (r: bool)
    ensures
        r == chars_ci_eq(a@, b@),
{
    let alen = a.unicode_len();
    let blen = b.unicode_len();
    if alen != blen {
        return false;
    }
    let mut i: usize = 0;
    while i < alen
        invariant
            alen == a@.len() == b@.len(),
            0 <= i <= alen,
            forall|j: int| 0 <= j < i ==> char_ci_eq(a@[j], b@[j]),
        decreases alen - i,
    {
        let ca = a.get_char(i);
        let cb = b.get_char(i);
        let same = if ca == cb {
            true
        } else if ca >= 'A' && ca <= 'Z' {
            (ca as u32) + 32 == (cb as u32)
        } else if cb >= 'A' && cb <= 'Z' {
            (cb as u32) + 32 == (ca as u32)
        } else {
            false
        };
        if !same {
            return false;
        }
        i += 1;
    }
    true
}

/// Whether `c` is an ASCII decimal digit.
pub open spec fn is_dec_digit(c: char) -> bool {
    '0' <= c && c <= '9'
}

/// The numeric value of an ASCII decimal digit.
pub open spec fn digit_val(c: char) -> int
    recommends
        is_dec_digit(c),
{
    (c as u32) - ('0' as u32)
}

/// Whether every character of `s` is an ASCII decimal digit.
pub open spec fn all_digits(s: Seq<char>) -> bool {
    forall|i: int| 0 <= i < s.len() ==> is_dec_digit(s[i])
}

/// The number a digit string denotes, read in base ten.
pub open spec fn dec_chars_value(s: Seq<char>) -> int
    decreases s.len(),
{
    if s.len() == 0 {
        0
    } else {
        dec_chars_value(s.drop_last()) * 10 + digit_val(s.last())
    }
}

/// The signed 64-bit integer a string denotes: an optional sign, then one
/// or more decimal digits, the value within bounds.  Mirrors how the
/// standard library reads an `i64` from a string.
pub open spec fn parse_i64_spec(s: Seq<char>) -> Option<int> {
    let digits = if s.len() > 0 && (s[0] == '-' || s[0] == '+') {
        s.drop_first()
    } else {
        s
    };
    let neg = s.len() > 0 && s[0] == '-';
    if digits.len() == 0 || !all_digits(digits) {
        None
    } else {
        let v = if neg {
            -dec_chars_value(digits)
        } else {
            dec_chars_value(digits)
        };
        if i64::MIN <= v <= i64::MAX {
            Some(v)
        } else {
            None
        }
    }
}

/// A digit string denotes a non-negative number.
proof fn lemma_dec_value_nonneg(s: Seq<char>)
    requires
        all_digits(s),
    ensures
        dec_chars_value(s) >= 0,
    decreases s.len(),
{
    if s.len() > 0 {
        lemma_dec_value_nonneg(s.drop_last());
    }
}

/// Extending a digit string can only increase its value.
proof fn lemma_dec_value_prefix(s: Seq<char>, k: int)
    requires
        all_digits(s),
        0 <= k <= s.len(),
    ensures
        dec_chars_value(s) >= dec_chars_value(s.take(k)),
    decreases s.len(),
{
    if k < s.len() {
        assert(s.drop_last().take(k) =~= s.take(k));
        lemma_dec_value_prefix(s.drop_last(), k);
        lemma_dec_value_nonneg(s.drop_last());
    } else {
        assert(s.take(k) =~= s);
    }
}

/// Read a signed 64-bit integer from a string, exactly as
/// [`parse_i64_spec`] describes.
pub fn parse_i64(s: &str) -> (r: Option<i64>)
    ensures
        match r {
            Some(v) => parse_i64_spec(s@) == Some(v as int),
            None => parse_i64_spec(s@) is None,
        },
{
    let n = s.unicode_len();
    if n == 0 {
        return None;
    }
    let c0 = s.get_char(0);
    let neg = c0 == '-';
    let start: usize = if c0 == '-' || c0 == '+' {
        1
    } else {
        0
    };
    let ghost digits = s@.skip(start as int);
    proof {
        assert(s@.drop_first() =~= s@.skip(1));
        assert(s@.skip(0) =~= s@);
    }
    if start >= n {
        return None;
    }
    let mut mag: u64 = 0;
    let mut i: usize = start;
    while i < n
        invariant
            n == s@.len(),
            start <= i <= n,
            start == 0 || start == 1,
            (start == 1) == (s@[0] == '-' || s@[0] == '+'),
            digits == s@.skip(start as int),
            digits == (if s@[0] == '-' || s@[0] == '+' { s@.drop_first() } else { s@ }),
            all_digits(s@.subrange(start as int, i as int)),
            mag == dec_chars_value(s@.subrange(start as int, i as int)),
        decreases n - i,
    {
        let c = s.get_char(i);
        if !(c >= '0' && c <= '9') {
            proof {
                assert(digits[i - start] == s@[i as int]);
                assert(!all_digits(digits));
            }
            return None;
        }
        let d = (c as u32) - ('0' as u32);
        let ghost sofar = s@.subrange(start as int, i as int);
        let ghost next = s@.subrange(start as int, i + 1);
        proof {
            assert(next.drop_last() =~= sofar);
        }
        let stepped = match mag.checked_mul(10) {
            None => None,
            Some(m) => m.checked_add(d as u64),
        };
        match stepped {
            None => {
                proof {
                    lemma_parse_overflow(s@, start as int, i as int);
                }
                return None;
            },
            Some(m2) => {
                mag = m2;
            },
        }
        i += 1;
    }
    proof {
        assert(s@.subrange(start as int, n as int) =~= digits);
        lemma_dec_value_nonneg(digits);
    }
    if neg {
        if mag > 9223372036854775808u64 {
            return None;
        }
        if mag == 9223372036854775808u64 {
            return Some(i64::MIN);
        }
        Some(-(mag as i64))
    } else {
        if mag > 9223372036854775807u64 {
            return None;
        }
        Some(mag as i64)
    }
}

/// When one more digit would carry the running value past `u64::MAX`, the
/// full string denotes no 64-bit integer.
proof fn lemma_parse_overflow(s: Seq<char>, start: int, i: int)
    requires
        0 <= start <= i < s.len(),
        all_digits(s.subrange(start, i)),
        is_dec_digit(s[i]),
        dec_chars_value(s.subrange(start, i)) * 10 + digit_val(s[i]) > u64::MAX,
        start == 0 || start == 1,
        (start == 1) == (s[0] == '-' || s[0] == '+'),
    ensures
        parse_i64_spec(s) is None,
{
    let digits = s.skip(start);
    assert(s.drop_first() =~= s.skip(1));
    assert(s.skip(0) =~= s);
    if all_digits(digits) {
        assert(digits.take(i + 1 - start) =~= s.subrange(start, i + 1));
        assert(s.subrange(start, i + 1).drop_last() =~= s.subrange(start, i));
        lemma_dec_value_prefix(digits, i + 1 - start);
        assert(dec_chars_value(digits) > u64::MAX);
    }
}

} // verus!
