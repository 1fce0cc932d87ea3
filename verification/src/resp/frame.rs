//! The incremental command-frame decoder: bytes in, whole frames of
//! bulk strings out, never consuming a frame's bytes before the frame
//! is complete.

use vstd::prelude::*;

verus! {

use vstd::utf8::{encode_utf8, decode_utf8};
use crate::resp::RespError;
use crate::resp::types::{
    RespType,
    RespVal,
    resp_vals_of,
    lemma_resp_vals_of,
    encoding,
    encodings,
    crlf,
    dec_digits,
    digits_value,
    all_digit_bytes,
    is_digit_byte,
    canonical_digits,
    lemma_canonical_digits,
    lemma_dec_digits,
    lemma_digits_value_prefix,
    lemma_digits_min_value,
    lemma_dec_digits_len_usize,
    lemma_pow10_pos,
    pow10,
    resp_wf,
};

/// Whether `p` is an initial run of `s`.
pub open spec fn is_prefix(p: Seq<u8>, s: Seq<u8>) -> bool {
    p.len() <= s.len() && forall|t: int| 0 <= t < p.len() ==> p[t] == s[t]
}

/// A prefix of a concatenation is resolved against its first half.
proof fn lemma_prefix_split(a: Seq<u8>, b: Seq<u8>, c: Seq<u8>)
    requires
        is_prefix(a, b + c),
    ensures
        a.len() <= b.len() ==> is_prefix(a, b),
        a.len() > b.len() ==> is_prefix(b, a),
{
}

/// A concatenation as a prefix makes its first half a prefix.
proof fn lemma_prefix_head(a: Seq<u8>, b: Seq<u8>, s: Seq<u8>)
    requires
        is_prefix(a + b, s),
    ensures
        is_prefix(a, s),
{
}

/// Two CRLF-terminated lines without carriage returns, one stream a
/// prefix of the other, carry the same line.
proof fn lemma_line_inj(mk: u8, p: Seq<u8>, q: Seq<u8>, r1: Seq<u8>, r2: Seq<u8>)
    requires
        forall|t: int| 0 <= t < p.len() ==> p[t] != 13,
        forall|t: int| 0 <= t < q.len() ==> q[t] != 13,
        is_prefix(seq![mk] + p + crlf() + r1, seq![mk] + q + crlf() + r2),
    ensures
        p == q,
        is_prefix(r1, r2),
{
    let a = seq![mk] + p + crlf() + r1;
    let b = seq![mk] + q + crlf() + r2;
    if p.len() < q.len() {
        assert(a[1 + p.len() as int] == 13);
        assert(b[1 + p.len() as int] == q[p.len() as int]);
        assert(false);
    }
    if p.len() > q.len() {
        assert(b[1 + q.len() as int] == 13);
        assert(a[1 + q.len() as int] == p[q.len() as int]);
        assert(false);
    }
    assert forall|t: int| 0 <= t < p.len() implies p[t] == q[t] by {
        assert(a[1 + t] == p[t]);
        assert(b[1 + t] == q[t]);
    }
    assert(p =~= q);
    assert forall|t: int| 0 <= t < r1.len() implies r1[t] == r2[t] by {
        assert(a[3 + p.len() + t] == r1[t]);
        assert(b[3 + p.len() + t] == r2[t]);
    }
}

/// The wire header announcing `m` parts behind `mk`.
pub open spec fn len_header(mk: u8, m: int) -> Seq<u8> {
    seq![mk] + dec_digits(m) + crlf()
}

/// Shape facts about a wire header.
proof fn lemma_len_header(mk: u8, m: int)
    requires
        0 <= m,
    ensures
        len_header(mk, m).len() == dec_digits(m).len() + 3,
        1 <= dec_digits(m).len(),
        m <= usize::MAX ==> dec_digits(m).len() <= 20,
        len_header(mk, m)[0] == mk,
        forall|t: int|
            0 <= t < dec_digits(m).len() ==> len_header(mk, m)[1 + t] == dec_digits(m)[t]
                && is_digit_byte(#[trigger] dec_digits(m)[t]),
        len_header(mk, m)[1 + dec_digits(m).len() as int] == 13,
        len_header(mk, m)[2 + dec_digits(m).len() as int] == 10,
        digits_value(dec_digits(m)) == m,
        dec_digits(m)[0] == 0x30 <==> m == 0,
{
    lemma_dec_digits(m);
    if m <= usize::MAX {
        lemma_dec_digits_len_usize(m);
    }
}

/// Whether the stream could be the beginning of the header announcing
/// `m` parts.
pub open spec fn header_viable(b: Seq<u8>, mk: u8, m: int) -> bool {
    0 <= m <= usize::MAX && is_prefix(b, len_header(mk, m))
}

/// A longer continuation keeps a prefix a prefix.
proof fn lemma_prefix_extend(a: Seq<u8>, b: Seq<u8>, c: Seq<u8>)
    requires
        is_prefix(a, b),
    ensures
        is_prefix(a, b + c),
{
}

/// Prefixes survive a common front.
proof fn lemma_prefix_under_concat(a: Seq<u8>, b: Seq<u8>, c: Seq<u8>)
    requires
        is_prefix(b, c),
    ensures
        is_prefix(a + b, a + c),
{
    assert forall|t: int| 0 <= t < (a + b).len() implies (a + b)[t] == (a + c)[t] by {
        if t >= a.len() {
            assert((a + b)[t] == b[t - a.len()]);
            assert((a + c)[t] == c[t - a.len()]);
        }
    }
}

/// The outcome of scanning for one length header.
enum LineScan {
    /// The bytes so far are consistent with a header but do not finish one.
    More,
    /// The bytes can never be a header.
    Bad,
    /// A complete header: its value and the bytes it occupies.
    Line(usize, usize),
}

/// Scan for a canonical length header `mk` digits CRLF at the front of
/// the buffer, reading at most the bytes such a header can occupy.
fn scan_len_line(buf: &[u8], mk: u8) -> (r: LineScan)
    requires
        !is_digit_byte(mk),
        mk != 13,
    ensures
        match r {
            LineScan::Line(n, c) => {
                &&& 4 <= c <= buf@.len()
                &&& buf@.subrange(0, c as int) == len_header(mk, n as int)
            },
            LineScan::More => {
                &&& forall|m: int|
                    0 <= m <= usize::MAX ==> !is_prefix(#[trigger] len_header(mk, m), buf@)
                &&& exists|m: int| #[trigger] header_viable(buf@, mk, m)
            },
            LineScan::Bad => forall|m: int|
                0 <= m <= usize::MAX ==> !is_prefix(#[trigger] len_header(mk, m), buf@)
                    && !is_prefix(buf@, len_header(mk, m)),
        },
{
    let n = buf.len();
    if n == 0 {
        proof {
            assert forall|m: int| 0 <= m <= usize::MAX implies !is_prefix(
                #[trigger] len_header(mk, m),
                buf@,
            ) by {
                lemma_len_header(mk, m);
            }
            assert(header_viable(buf@, mk, 0));
        }
        return LineScan::More;
    }
    if buf[0] != mk {
        proof {
            assert forall|m: int| 0 <= m <= usize::MAX implies !is_prefix(
                #[trigger] len_header(mk, m),
                buf@,
            ) && !is_prefix(buf@, len_header(mk, m)) by {
                lemma_len_header(mk, m);
                assert(len_header(mk, m)[0] == mk);
            }
        }
        return LineScan::Bad;
    }
    let mut i: usize = 1;
    let mut val: usize = 0;
    while i < n && i <= 21
        invariant
            n == buf@.len(),
            n >= 1,
            buf@[0] == mk,
            !is_digit_byte(mk),
            mk != 13,
            1 <= i <= 22,
            i <= n,
            all_digit_bytes(buf@.subrange(1, i as int)),
            val == digits_value(buf@.subrange(1, i as int)),
            i > 2 ==> buf@[1] != 0x30,
        decreases n - i,
    {
        let b = buf[i];
        if b >= 0x30 && b <= 0x39 {
            if i == 2 && buf[1] == 0x30 {
                proof {
                    lemma_scan_bad_leading_zero(buf@, mk);
                }
                return LineScan::Bad;
            }
            let ghost sofar = buf@.subrange(1, i as int);
            proof {
                assert(buf@.subrange(1, i + 1).drop_last() =~= sofar);
            }
            let stepped = match val.checked_mul(10) {
                None => None,
                Some(m) => m.checked_add((b - 0x30) as usize),
            };
            match stepped {
                None => {
                    proof {
                        lemma_scan_bad_too_big(buf@, mk, i + 1);
                    }
                    return LineScan::Bad;
                },
                Some(m2) => {
                    val = m2;
                },
            }
            i += 1;
        } else if b == 13 {
            if i == 1 {
                proof {
                    lemma_scan_bad_empty_digits(buf@, mk);
                }
                return LineScan::Bad;
            }
            if i + 1 >= n {
                proof {
                    lemma_scan_more(buf@, mk, i as int);
                    let d = buf@.subrange(1, i as int);
                    assert(canonical_digits(d));
                    lemma_canonical_digits(d);
                    lemma_len_header(mk, val as int);
                    assert forall|t: int|
                        0 <= t < buf@.len() implies buf@[t] == len_header(mk, val as int)[t] by {
                        if 1 <= t < i {
                            assert(buf@[t] == d[t - 1]);
                        }
                    }
                    assert(header_viable(buf@, mk, val as int));
                }
                return LineScan::More;
            }
            if buf[i + 1] != 10 {
                proof {
                    lemma_scan_bad_no_lf(buf@, mk, i as int);
                }
                return LineScan::Bad;
            }
            proof {
                let d = buf@.subrange(1, i as int);
                assert(canonical_digits(d));
                lemma_canonical_digits(d);
                assert(buf@.subrange(0, i + 2) =~= len_header(mk, val as int));
            }
            return LineScan::Line(val, i + 2);
        } else {
            proof {
                lemma_scan_bad_at(buf@, mk, i as int);
            }
            return LineScan::Bad;
        }
    }
    if i > 21 {
        proof {
            lemma_scan_bad_too_long(buf@, mk);
        }
        return LineScan::Bad;
    }
    proof {
        lemma_scan_more_all_digits(buf@, mk);
        if n == 1 {
            lemma_len_header(mk, 0);
            assert(header_viable(buf@, mk, 0));
        } else {
            let d = buf@.subrange(1, n as int);
            assert(canonical_digits(d));
            lemma_canonical_digits(d);
            lemma_len_header(mk, val as int);
            assert forall|t: int|
                0 <= t < buf@.len() implies buf@[t] == len_header(mk, val as int)[t] by {
                if 1 <= t < n {
                    assert(buf@[t] == d[t - 1]);
                }
            }
            assert(header_viable(buf@, mk, val as int));
        }
    }
    LineScan::More
}

/// A second digit after a leading zero fits no canonical header.
proof fn lemma_scan_bad_leading_zero(buf: Seq<u8>, mk: u8)
    requires
        buf.len() >= 3,
        buf[0] == mk,
        !is_digit_byte(mk),
        buf[1] == 0x30,
        is_digit_byte(buf[2]),
    ensures
        forall|m: int|
            0 <= m <= usize::MAX ==> !is_prefix(#[trigger] len_header(mk, m), buf)
                && !is_prefix(buf, len_header(mk, m)),
{
    assert forall|m: int|
        0 <= m <= usize::MAX implies !is_prefix(#[trigger] len_header(mk, m), buf) && !is_prefix(
        buf,
        len_header(mk, m),
    ) by {
        lemma_len_header(mk, m);
        let h = len_header(mk, m);
        if m == 0 {
            assert(h[2] == 13);
            assert(h.len() == 4);
        } else {
            assert(h[1] == dec_digits(m)[0]);
            assert(dec_digits(m)[0] != 0x30);
        }
    }
}

/// A CR immediately after the marker fits no header: every header
/// carries at least one digit.
proof fn lemma_scan_bad_empty_digits(buf: Seq<u8>, mk: u8)
    requires
        buf.len() >= 2,
        buf[0] == mk,
        !is_digit_byte(mk),
        buf[1] == 13,
    ensures
        forall|m: int|
            0 <= m <= usize::MAX ==> !is_prefix(#[trigger] len_header(mk, m), buf) && !is_prefix(
                buf,
                len_header(mk, m),
            ),
{
    assert forall|m: int|
        0 <= m <= usize::MAX implies !is_prefix(#[trigger] len_header(mk, m), buf) && !is_prefix(
        buf,
        len_header(mk, m),
    ) by {
        lemma_len_header(mk, m);
        assert(len_header(mk, m)[1] == dec_digits(m)[0]);
    }
}

/// A too-large value in the digit run fits no header in range.
proof fn lemma_scan_bad_too_big(buf: Seq<u8>, mk: u8, k: int)
    requires
        2 <= k,
        k <= buf.len(),
        buf[0] == mk,
        !is_digit_byte(mk),
        all_digit_bytes(buf.subrange(1, k)),
        k > 3 ==> buf[1] != 0x30,
        digits_value(buf.subrange(1, k)) > usize::MAX,
    ensures
        forall|m: int|
            0 <= m <= usize::MAX ==> !is_prefix(#[trigger] len_header(mk, m), buf) && !is_prefix(
                buf,
                len_header(mk, m),
            ),
{
    let d = buf.subrange(1, k);
    assert forall|m: int|
        0 <= m <= usize::MAX implies !is_prefix(#[trigger] len_header(mk, m), buf) && !is_prefix(
        buf,
        len_header(mk, m),
    ) by {
        lemma_len_header(mk, m);
        let h = len_header(mk, m);
        let dm = dec_digits(m);
        if is_prefix(h, buf) || is_prefix(buf, h) {
            if dm.len() < d.len() {
                // the header's CR would sit where the stream holds a digit
                assert(h[1 + dm.len() as int] == 13);
                assert(buf[1 + dm.len() as int] == d[dm.len() as int]);
                assert(is_digit_byte(d[dm.len() as int]));
                assert(false);
            } else {
                // the stream's digits are a prefix of the header's digits
                assert forall|t: int| 0 <= t < d.len() implies d[t] == dm[t] by {
                    assert(buf[1 + t] == d[t]);
                    assert(h[1 + t] == dm[t]);
                }
                assert(d =~= dm.take(d.len() as int));
                lemma_digits_value_prefix(dm, d.len() as int);
                assert(m >= digits_value(d));
                assert(false);
            }
        }
    }
}

/// A non-digit, non-CR byte in the digit run fits no header.
proof fn lemma_scan_bad_at(buf: Seq<u8>, mk: u8, k: int)
    requires
        1 <= k < buf.len(),
        buf[0] == mk,
        !is_digit_byte(mk),
        all_digit_bytes(buf.subrange(1, k)),
        !is_digit_byte(buf[k]),
        buf[k] != 13,
    ensures
        forall|m: int|
            0 <= m <= usize::MAX ==> !is_prefix(#[trigger] len_header(mk, m), buf) && !is_prefix(
                buf,
                len_header(mk, m),
            ),
{
    assert forall|m: int|
        0 <= m <= usize::MAX implies !is_prefix(#[trigger] len_header(mk, m), buf) && !is_prefix(
        buf,
        len_header(mk, m),
    ) by {
        lemma_len_header(mk, m);
        let h = len_header(mk, m);
        let dm = dec_digits(m);
        if is_prefix(h, buf) || is_prefix(buf, h) {
            if dm.len() > k - 1 {
                // the header holds a digit where the stream does not
                assert(h[k] == dm[k - 1]);
                assert(false);
            } else if dm.len() == k - 1 {
                // the header's CR sits exactly at the offending byte
                assert(h[k] == 13);
                assert(false);
            } else {
                // the header's CR would sit where the stream holds a digit
                assert(h[1 + dm.len() as int] == 13);
                assert(buf[1 + dm.len() as int] == buf.subrange(1, k)[dm.len() as int]);
                assert(false);
            }
        }
    }
}

/// A CR not followed by LF fits no header.
proof fn lemma_scan_bad_no_lf(buf: Seq<u8>, mk: u8, k: int)
    requires
        2 <= k,
        k + 1 < buf.len(),
        buf[0] == mk,
        !is_digit_byte(mk),
        all_digit_bytes(buf.subrange(1, k)),
        buf[k] == 13,
        buf[k + 1] != 10,
    ensures
        forall|m: int|
            0 <= m <= usize::MAX ==> !is_prefix(#[trigger] len_header(mk, m), buf) && !is_prefix(
                buf,
                len_header(mk, m),
            ),
{
    assert forall|m: int|
        0 <= m <= usize::MAX implies !is_prefix(#[trigger] len_header(mk, m), buf) && !is_prefix(
        buf,
        len_header(mk, m),
    ) by {
        lemma_len_header(mk, m);
        let h = len_header(mk, m);
        let dm = dec_digits(m);
        if is_prefix(h, buf) || is_prefix(buf, h) {
            if dm.len() > k - 1 {
                assert(h[k] == dm[k - 1]);
                assert(false);
            } else if dm.len() == k - 1 {
                assert(h[k + 1] == 10);
                assert(false);
            } else {
                assert(h[1 + dm.len() as int] == 13);
                assert(buf[1 + dm.len() as int] == buf.subrange(1, k)[dm.len() as int]);
                assert(false);
            }
        }
    }
}

/// Twenty-one digits exceed every header in range.
proof fn lemma_scan_bad_too_long(buf: Seq<u8>, mk: u8)
    requires
        buf.len() >= 22,
        buf[0] == mk,
        !is_digit_byte(mk),
        all_digit_bytes(buf.subrange(1, 22)),
        buf[1] != 0x30,
    ensures
        forall|m: int|
            0 <= m <= usize::MAX ==> !is_prefix(#[trigger] len_header(mk, m), buf) && !is_prefix(
                buf,
                len_header(mk, m),
            ),
{
    let d = buf.subrange(1, 22);
    lemma_digits_min_value(d);
    lemma_pow10_pos(20);
    assert(pow10(21) == 10 * pow10(20));
    assert(pow10(20) > usize::MAX) by {
        reveal_with_fuel(pow10, 21);
    }
    assert(digits_value(d) >= pow10(20));
    lemma_scan_bad_too_big(buf, mk, 22);
}

/// A header cannot finish inside an unbroken digit run.
proof fn lemma_scan_more(buf: Seq<u8>, mk: u8, k: int)
    requires
        1 <= k,
        k < buf.len(),
        buf[0] == mk,
        !is_digit_byte(mk),
        all_digit_bytes(buf.subrange(1, k)),
        k + 1 >= buf.len(),
    ensures
        forall|m: int| 0 <= m <= usize::MAX ==> !is_prefix(#[trigger] len_header(mk, m), buf),
{
    assert forall|m: int| 0 <= m <= usize::MAX implies !is_prefix(
        #[trigger] len_header(mk, m),
        buf,
    ) by {
        lemma_len_header(mk, m);
        let h = len_header(mk, m);
        let dm = dec_digits(m);
        if is_prefix(h, buf) {
            // h.len() == dm.len() + 3 <= buf.len() == k + 1, so dm.len() <= k - 2
            assert(h[1 + dm.len() as int] == 13);
            assert(buf[1 + dm.len() as int] == buf.subrange(1, k)[dm.len() as int]);
            assert(false);
        }
    }
}

/// Digits to the end of the buffer leave every header unfinished.
proof fn lemma_scan_more_all_digits(buf: Seq<u8>, mk: u8)
    requires
        buf.len() >= 1,
        buf[0] == mk,
        !is_digit_byte(mk),
        all_digit_bytes(buf.subrange(1, buf.len() as int)),
    ensures
        forall|m: int| 0 <= m <= usize::MAX ==> !is_prefix(#[trigger] len_header(mk, m), buf),
{
    assert forall|m: int| 0 <= m <= usize::MAX implies !is_prefix(
        #[trigger] len_header(mk, m),
        buf,
    ) by {
        lemma_len_header(mk, m);
        let h = len_header(mk, m);
        let dm = dec_digits(m);
        if is_prefix(h, buf) {
            assert(h[1 + dm.len() as int] == 13);
            assert(buf[1 + dm.len() as int] == buf.subrange(1, buf.len() as int)[dm.len() as int]);
            assert(false);
        }
    }
}

/// Whether a value may stand as one part of a command frame: a bulk
/// string whose payload fits a word, or the null marker.
pub open spec fn part_wf(v: RespVal) -> bool {
    (v is BulkString && resp_wf(v)) || v is NullBulkString
}

/// One part as the decoder images it before reading its text: the null
/// marker, or a run of raw payload bytes behind its length header.
pub open spec fn chunk_encoding(c: Option<Seq<u8>>) -> Seq<u8> {
    match c {
        None => encoding(RespVal::NullBulkString),
        Some(p) => len_header(0x24, p.len() as int) + p + crlf(),
    }
}

/// The concatenated images of a run of parts.
pub open spec fn chunks_encoding(cs: Seq<Option<Seq<u8>>>) -> Seq<u8>
    decreases cs.len(),
{
    if cs.len() == 0 {
        Seq::empty()
    } else {
        chunk_encoding(cs.first()) + chunks_encoding(cs.drop_first())
    }
}

/// Whether every imaged payload fits a word.
pub open spec fn chunks_wf(cs: Seq<Option<Seq<u8>>>) -> bool {
    forall|i: int|
        0 <= i < cs.len() ==> ((#[trigger] cs[i]) matches Some(p) ==> p.len() <= usize::MAX)
}

/// Whether the stream could be the beginning of one part's image.
pub open spec fn chunk_viable(b: Seq<u8>, c: Option<Seq<u8>>) -> bool {
    &&& (c matches Some(p) ==> p.len() <= usize::MAX)
    &&& is_prefix(b, chunk_encoding(c))
}

/// Whether the stream holds a viable beginning of a command frame with
/// `n` parts imaged as `cs`.
pub open spec fn viable_with(bytes: Seq<u8>, n: int, cs: Seq<Option<Seq<u8>>>) -> bool {
    &&& 0 <= n <= usize::MAX
    &&& cs.len() == n
    &&& chunks_wf(cs)
    &&& is_prefix(bytes, len_header(0x2a, n) + chunks_encoding(cs))
}

/// Whether the stream can still grow into a command frame, read as an
/// image: a canonical header announcing some number of parts, then that
/// many parts, each the null marker or a length-prefixed run of raw
/// bytes.  A payload's text is checked only once its part is complete,
/// so viability does not constrain the bytes of a payload in flight.
pub open spec fn frame_viable(bytes: Seq<u8>) -> bool {
    exists|n: int, cs: Seq<Option<Seq<u8>>>| #[trigger] viable_with(bytes, n, cs)
}

/// The image of a completed part.
pub open spec fn chunk_of(v: RespVal) -> Option<Seq<u8>> {
    match v {
        RespVal::NullBulkString => None,
        _ => Some(encode_utf8(crate::resp::types::bulk_text(v))),
    }
}

/// A completed part's image occupies exactly its encoding.
proof fn lemma_chunk_of_part(v: RespVal)
    requires
        part_wf(v),
    ensures
        chunk_encoding(chunk_of(v)) == encoding(v),
        chunk_of(v) matches Some(p) ==> p.len() <= usize::MAX,
{
    if v is BulkString {
        let s = v->BulkString_0;
        assert(chunk_encoding(chunk_of(v)) =~= encoding(v));
    }
}

/// The images of a run of completed parts.
pub open spec fn chunks_of(ps: Seq<RespVal>) -> Seq<Option<Seq<u8>>>
    decreases ps.len(),
{
    if ps.len() == 0 {
        Seq::empty()
    } else {
        seq![chunk_of(ps.first())] + chunks_of(ps.drop_first())
    }
}

/// Completed parts image back to their own encodings, part by part.
proof fn lemma_chunks_of(ps: Seq<RespVal>)
    requires
        forall|i: int| 0 <= i < ps.len() ==> part_wf(#[trigger] ps[i]),
    ensures
        chunks_of(ps).len() == ps.len(),
        forall|i: int| 0 <= i < ps.len() ==> chunks_of(ps)[i] == chunk_of(ps[i]),
        chunks_wf(chunks_of(ps)),
        chunks_encoding(chunks_of(ps)) == encodings(ps),
    decreases ps.len(),
{
    if ps.len() > 0 {
        lemma_chunk_of_part(ps[0]);
        lemma_chunks_of(ps.drop_first());
        assert(ps.first() == ps[0]);
        assert(chunks_of(ps).first() == chunk_of(ps[0]));
        assert(chunks_of(ps).drop_first() =~= chunks_of(ps.drop_first()));
        assert(encodings(ps) == encoding(ps[0]) + encodings(ps.drop_first()));
        assert(chunks_encoding(chunks_of(ps)) =~= encodings(ps));
    }
}

/// Part images concatenate chunk by chunk.
proof fn lemma_chunks_encoding_concat(a: Seq<Option<Seq<u8>>>, b: Seq<Option<Seq<u8>>>)
    ensures
        chunks_encoding(a + b) == chunks_encoding(a) + chunks_encoding(b),
    decreases a.len(),
{
    if a.len() == 0 {
        assert(a + b =~= b);
        assert(chunks_encoding(a) + chunks_encoding(b) =~= chunks_encoding(b));
    } else {
        assert((a + b).first() == a[0]);
        assert(a.first() == a[0]);
        assert((a + b).drop_first() =~= a.drop_first() + b);
        lemma_chunks_encoding_concat(a.drop_first(), b);
        assert(chunks_encoding(a + b) == chunk_encoding(a[0]) + (chunks_encoding(a.drop_first())
            + chunks_encoding(b)));
        assert(chunks_encoding(a) == chunk_encoding(a[0]) + chunks_encoding(a.drop_first()));
        assert(chunk_encoding(a[0]) + (chunks_encoding(a.drop_first()) + chunks_encoding(b)) =~= (
        chunk_encoding(a[0]) + chunks_encoding(a.drop_first())) + chunks_encoding(b));
    }
}

/// The outcome of scanning for one frame part.
enum PartScan {
    /// The bytes so far are consistent with a part but do not finish one.
    More,
    /// The bytes can never be a part.
    Bad,
    /// A complete part and the bytes it occupies.
    Part(RespType, usize),
}

/// A bulk-string encoding decomposes as header, payload, terminator.
proof fn lemma_bulk_shape(sp: Seq<char>)
    ensures
        encoding(RespVal::BulkString(sp)) =~= len_header(0x24, encode_utf8(sp).len() as int)
            + encode_utf8(sp) + crlf(),
        encoding(RespVal::BulkString(sp)).len() == len_header(
            0x24,
            encode_utf8(sp).len() as int,
        ).len() + encode_utf8(sp).len() + 2,
{
}

/// A buffer whose second byte is a digit is incompatible with the null
/// bulk marker.
proof fn lemma_null_diverges(buf: Seq<u8>)
    requires
        buf.len() >= 2,
        buf[0] == 0x24,
        buf[1] != 0x2d,
    ensures
        !is_prefix(encoding(RespVal::NullBulkString), buf),
        !is_prefix(buf, encoding(RespVal::NullBulkString)),
{
    assert(encoding(RespVal::NullBulkString)[1] == 0x2d);
}

/// Against a complete bulk header for length `l`, a compatible bulk
/// encoding carries exactly `l` payload bytes, aligned after the header.
proof fn lemma_bulk_align(buf: Seq<u8>, l: int, c: int, sp: Seq<char>)
    requires
        0 <= l <= usize::MAX,
        4 <= c <= buf.len(),
        buf.subrange(0, c) == len_header(0x24, l),
        is_prefix(encoding(RespVal::BulkString(sp)), buf) || is_prefix(
            buf,
            encoding(RespVal::BulkString(sp)),
        ),
    ensures
        encode_utf8(sp).len() == l,
        c == dec_digits(l).len() + 3,
        encoding(RespVal::BulkString(sp)).len() == c + l + 2,
        is_prefix(encoding(RespVal::BulkString(sp)), buf) ==> is_prefix(
            encode_utf8(sp) + crlf(),
            buf.skip(c),
        ),
        is_prefix(buf, encoding(RespVal::BulkString(sp))) ==> is_prefix(
            buf.skip(c),
            encode_utf8(sp) + crlf(),
        ),
{
    let lp = encode_utf8(sp).len() as int;
    lemma_bulk_shape(sp);
    lemma_len_header(0x24, l);
    lemma_len_header(0x24, lp);
    let e = encoding(RespVal::BulkString(sp));
    assert(buf =~= buf.subrange(0, c) + buf.skip(c));
    assert(e =~= seq![0x24u8] + dec_digits(lp) + crlf() + (encode_utf8(sp) + crlf()));
    assert(buf =~= seq![0x24u8] + dec_digits(l) + crlf() + buf.skip(c));
    if is_prefix(e, buf) {
        lemma_line_inj(0x24, dec_digits(lp), dec_digits(l), encode_utf8(sp) + crlf(), buf.skip(c));
        assert(dec_digits(lp) == dec_digits(l));
        assert(digits_value(dec_digits(lp)) == digits_value(dec_digits(l)));
    } else {
        lemma_line_inj(0x24, dec_digits(l), dec_digits(lp), buf.skip(c), encode_utf8(sp) + crlf());
        assert(dec_digits(lp) == dec_digits(l));
        assert(digits_value(dec_digits(lp)) == digits_value(dec_digits(l)));
    }
}

/// Scan for one complete frame part at the front of the buffer.
#[verifier::rlimit(100)]
fn scan_part(buf: &[u8]) -> (r: PartScan)
    ensures
        match r {
            PartScan::Part(v, c) => {
                &&& part_wf(v@)
                &&& 4 <= c <= buf@.len()
                &&& buf@.subrange(0, c as int) == encoding(v@)
            },
            PartScan::More => {
                &&& forall|p: RespVal| part_wf(p) ==> !is_prefix(#[trigger] encoding(p), buf@)
                &&& exists|cimg: Option<Seq<u8>>| #[trigger] chunk_viable(buf@, cimg)
            },
            PartScan::Bad => forall|p: RespVal|
                part_wf(p) ==> !is_prefix(#[trigger] encoding(p), buf@) && !is_prefix(
                    buf@,
                    encoding(p),
                ),
        },
{
    let n = buf.len();
    if n == 0 {
        proof {
            assert forall|p: RespVal| part_wf(p) implies !is_prefix(
                #[trigger] encoding(p),
                buf@,
            ) by {
                if p is BulkString {
                    lemma_bulk_shape(p->BulkString_0);
                    lemma_len_header(0x24, encode_utf8(p->BulkString_0).len() as int);
                }
            }
            assert(chunk_viable(buf@, None));
        }
        return PartScan::More;
    }
    if buf[0] != 0x24 {
        proof {
            assert forall|p: RespVal| part_wf(p) implies !is_prefix(#[trigger] encoding(p), buf@)
                && !is_prefix(buf@, encoding(p)) by {
                if p is BulkString {
                    lemma_bulk_shape(p->BulkString_0);
                    lemma_len_header(0x24, encode_utf8(p->BulkString_0).len() as int);
                    assert(encoding(p)[0] == 0x24);
                } else {
                    assert(encoding(p)[0] == 0x24);
                }
            }
        }
        return PartScan::Bad;
    }
    if n == 1 {
        proof {
            assert forall|p: RespVal| part_wf(p) implies !is_prefix(
                #[trigger] encoding(p),
                buf@,
            ) by {
                if p is BulkString {
                    lemma_bulk_shape(p->BulkString_0);
                    lemma_len_header(0x24, encode_utf8(p->BulkString_0).len() as int);
                }
            }
            assert(encoding(RespVal::NullBulkString)[0] == 0x24);
            assert(chunk_viable(buf@, None));
        }
        return PartScan::More;
    }
    if buf[1] == 0x2d {
        // the only negative length tolerated is the null marker `$-1`
        let ghost nullenc = encoding(RespVal::NullBulkString);
        proof {
            assert forall|p: RespVal|
                part_wf(p) && p is BulkString implies !is_prefix(#[trigger] encoding(p), buf@)
                && !is_prefix(buf@, encoding(p)) by {
                lemma_bulk_shape(p->BulkString_0);
                lemma_len_header(0x24, encode_utf8(p->BulkString_0).len() as int);
                assert(encoding(p)[1] == dec_digits(encode_utf8(p->BulkString_0).len() as int)[0]);
            }
        }
        if n == 2 {
            proof {
                assert(chunk_viable(buf@, None));
            }
            return PartScan::More;
        }
        if buf[2] != 0x31 {
            proof {
                assert(nullenc[2] == 0x31);
            }
            return PartScan::Bad;
        }
        if n == 3 {
            proof {
                assert(chunk_viable(buf@, None));
            }
            return PartScan::More;
        }
        if buf[3] != 13 {
            proof {
                assert(nullenc[3] == 13);
            }
            return PartScan::Bad;
        }
        if n == 4 {
            proof {
                assert(chunk_viable(buf@, None));
            }
            return PartScan::More;
        }
        if buf[4] != 10 {
            proof {
                assert(nullenc[4] == 10);
            }
            return PartScan::Bad;
        }
        proof {
            assert(buf@.subrange(0, 5) =~= nullenc);
        }
        return PartScan::Part(RespType::NullBulkString, 5);
    }
    proof {
        lemma_null_diverges(buf@);
    }
    match scan_len_line(buf, 0x24) {
        LineScan::More => {
            proof {
                assert forall|p: RespVal| part_wf(p) implies !is_prefix(
                    #[trigger] encoding(p),
                    buf@,
                ) by {
                    if p is BulkString {
                        let sp = p->BulkString_0;
                        lemma_bulk_shape(sp);
                        if is_prefix(encoding(p), buf@) {
                            lemma_prefix_head(
                                len_header(0x24, encode_utf8(sp).len() as int),
                                encode_utf8(sp) + crlf(),
                                buf@,
                            );
                            assert(encoding(p) =~= len_header(
                                0x24,
                                encode_utf8(sp).len() as int,
                            ) + (encode_utf8(sp) + crlf()));
                        }
                    }
                }
                let m = choose|m0: int| header_viable(buf@, 0x24, m0);
                assert(header_viable(buf@, 0x24, m));
                let pimg = Seq::<u8>::new(m as nat, |j: int| 0u8);
                lemma_prefix_extend(buf@, len_header(0x24, m), pimg + crlf());
                assert(chunk_encoding(Some(pimg)) =~= len_header(0x24, m) + (pimg + crlf()));
                assert(chunk_viable(buf@, Some(pimg)));
            }
            PartScan::More
        },
        LineScan::Bad => {
            proof {
                assert forall|p: RespVal| part_wf(p) implies !is_prefix(
                    #[trigger] encoding(p),
                    buf@,
                ) && !is_prefix(buf@, encoding(p)) by {
                    if p is BulkString {
                        let sp = p->BulkString_0;
                        let h = len_header(0x24, encode_utf8(sp).len() as int);
                        lemma_bulk_shape(sp);
                        assert(encoding(p) =~= h + (encode_utf8(sp) + crlf()));
                        if is_prefix(encoding(p), buf@) {
                            lemma_prefix_head(h, encode_utf8(sp) + crlf(), buf@);
                            assert(false);
                        }
                        if is_prefix(buf@, encoding(p)) {
                            lemma_prefix_split(buf@, h, encode_utf8(sp) + crlf());
                            assert(false);
                        }
                    }
                }
            }
            PartScan::Bad
        },
        LineScan::Line(l, c) => {
            let avail = n - c;
            if avail <= l {
                proof {
                    assert forall|p: RespVal| part_wf(p) implies !is_prefix(
                        #[trigger] encoding(p),
                        buf@,
                    ) by {
                        if p is BulkString && is_prefix(encoding(p), buf@) {
                            lemma_bulk_align(buf@, l as int, c as int, p->BulkString_0);
                        }
                    }
                    let q = buf@.skip(c as int);
                    let pad = Seq::<u8>::new((l - avail) as nat, |j: int| 0u8);
                    let pimg = q + pad;
                    assert(pimg.len() == l);
                    assert(chunk_encoding(Some(pimg)).len() == c + l + 2);
                    assert forall|t: int|
                        0 <= t < buf@.len() implies buf@[t] == chunk_encoding(Some(pimg))[t] by {
                        if t < c {
                            assert(buf@.subrange(0, c as int)[t] == buf@[t]);
                            assert(chunk_encoding(Some(pimg))[t] == len_header(0x24, l as int)[t]);
                        } else {
                            assert(q[t - c] == buf@[t]);
                            assert(chunk_encoding(Some(pimg))[t] == pimg[t - c]);
                        }
                    }
                    assert(chunk_viable(buf@, Some(pimg)));
                }
                return PartScan::More;
            }
            if buf[c + l] != 13 {
                proof {
                    assert forall|p: RespVal| part_wf(p) implies !is_prefix(
                        #[trigger] encoding(p),
                        buf@,
                    ) && !is_prefix(buf@, encoding(p)) by {
                        if p is BulkString && (is_prefix(encoding(p), buf@) || is_prefix(
                            buf@,
                            encoding(p),
                        )) {
                            let sp = p->BulkString_0;
                            lemma_bulk_align(buf@, l as int, c as int, sp);
                            let tail = encode_utf8(sp) + crlf();
                            assert(tail[l as int] == 13);
                            assert(buf@.skip(c as int)[l as int] == buf@[c + l]);
                            assert(false);
                        }
                    }
                }
                return PartScan::Bad;
            }
            if avail == l + 1 {
                proof {
                    assert forall|p: RespVal| part_wf(p) implies !is_prefix(
                        #[trigger] encoding(p),
                        buf@,
                    ) by {
                        if p is BulkString && is_prefix(encoding(p), buf@) {
                            lemma_bulk_align(buf@, l as int, c as int, p->BulkString_0);
                        }
                    }
                    let q = buf@.skip(c as int);
                    let pimg = q.take(l as int);
                    assert(pimg.len() == l);
                    assert(chunk_encoding(Some(pimg)).len() == c + l + 2);
                    assert forall|t: int|
                        0 <= t < buf@.len() implies buf@[t] == chunk_encoding(Some(pimg))[t] by {
                        if t < c {
                            assert(buf@.subrange(0, c as int)[t] == buf@[t]);
                            assert(chunk_encoding(Some(pimg))[t] == len_header(0x24, l as int)[t]);
                        } else if t < c + l {
                            assert(q[t - c] == buf@[t]);
                            assert(chunk_encoding(Some(pimg))[t] == pimg[t - c]);
                        } else {
                            assert(q[l as int] == buf@[c + l]);
                            assert(chunk_encoding(Some(pimg))[t] == 13);
                        }
                    }
                    assert(chunk_viable(buf@, Some(pimg)));
                }
                return PartScan::More;
            }
            if buf[c + l + 1] != 10 {
                proof {
                    assert forall|p: RespVal| part_wf(p) implies !is_prefix(
                        #[trigger] encoding(p),
                        buf@,
                    ) && !is_prefix(buf@, encoding(p)) by {
                        if p is BulkString && (is_prefix(encoding(p), buf@) || is_prefix(
                            buf@,
                            encoding(p),
                        )) {
                            let sp = p->BulkString_0;
                            lemma_bulk_align(buf@, l as int, c as int, sp);
                            let tail = encode_utf8(sp) + crlf();
                            assert(tail[l as int] == 13 && tail[l + 1] == 10);
                            assert(buf@.skip(c as int)[l as int] == buf@[c + l]);
                            assert(buf@.skip(c as int)[l + 1] == buf@[c + l + 1]);
                            assert(false);
                        }
                    }
                }
                return PartScan::Bad;
            }
            let payload = &buf[c..c + l];
            proof {
                assert(payload@ =~= buf@.subrange(c as int, c + l));
            }
            match crate::resp::types::bytes_to_str(payload) {
                None => {
                    proof {
                        assert forall|p: RespVal| part_wf(p) implies !is_prefix(
                            #[trigger] encoding(p),
                            buf@,
                        ) && !is_prefix(buf@, encoding(p)) by {
                            if p is BulkString && (is_prefix(encoding(p), buf@) || is_prefix(
                                buf@,
                                encoding(p),
                            )) {
                                let sp = p->BulkString_0;
                                lemma_bulk_align(buf@, l as int, c as int, sp);
                                let tail = encode_utf8(sp) + crlf();
                                assert forall|t: int|
                                    0 <= t < l implies encode_utf8(sp)[t] == payload@[t] by {
                                    assert(tail[t] == encode_utf8(sp)[t]);
                                    assert(buf@.skip(c as int)[t] == buf@[c + t]);
                                }
                                assert(encode_utf8(sp) =~= payload@);
                                vstd::utf8::encode_utf8_valid_utf8(sp);
                                assert(false);
                            }
                        }
                    }
                    PartScan::Bad
                },
                Some(s) => {
                    let v = RespType::BulkString(s.to_owned());
                    proof {
                        vstd::utf8::decode_utf8_encode_utf8(payload@);
                        lemma_bulk_shape(v@->BulkString_0);
                        assert(encode_utf8(decode_utf8(payload@)) == payload@);
                        assert(buf@.subrange(0, c + l + 2) =~= len_header(0x24, l as int)
                            + payload@ + crlf());
                        assert(buf@.subrange(0, c + l + 2) =~= encoding(v@));
                    }
                    PartScan::Part(v, c + l + 2)
                },
            }
        },
    }
}

/// Whether a sequence of values forms a command frame: every element a
/// bulk string or the null marker, their number fitting a word.
pub open spec fn frame_wf(xs: Seq<RespVal>) -> bool {
    xs.len() <= usize::MAX && forall|i: int| 0 <= i < xs.len() ==> part_wf(#[trigger] xs[i])
}

/// The wire bytes of a whole command frame.
pub open spec fn frame_encoding(xs: Seq<RespVal>) -> Seq<u8> {
    len_header(0x2a, xs.len() as int) + encodings(xs)
}

/// A command frame's bytes are exactly the encoding of the array value
/// holding its parts.
pub proof fn lemma_frame_encoding_is_array(xs: Seq<RespVal>)
    ensures
        frame_encoding(xs) == encoding(RespVal::Array(xs)),
{
    assert(frame_encoding(xs) =~= encoding(RespVal::Array(xs)));
}

/// No complete frame lies at the front of the stream.
pub open spec fn no_complete_frame(bytes: Seq<u8>) -> bool {
    forall|xs: Seq<RespVal>| frame_wf(xs) ==> !is_prefix(#[trigger] frame_encoding(xs), bytes)
}

/// The stream can never again grow into any frame encoding.
pub open spec fn frame_dead(bytes: Seq<u8>) -> bool {
    forall|xs: Seq<RespVal>|
        frame_wf(xs) ==> !is_prefix(#[trigger] frame_encoding(xs), bytes) && !is_prefix(
            bytes,
            frame_encoding(xs),
        )
}

/// Part encodings are self-delimiting: when one part's stream is a
/// prefix of another's, the parts agree and the tails align.
proof fn lemma_part_cancel(a: RespVal, b: RespVal, r1: Seq<u8>, r2: Seq<u8>)
    requires
        part_wf(a),
        part_wf(b),
        is_prefix(encoding(a) + r1, encoding(b) + r2),
    ensures
        a == b,
        is_prefix(r1, r2),
{
    let ea = encoding(a);
    let eb = encoding(b);
    if a is NullBulkString && b is NullBulkString {
        assert forall|t: int| 0 <= t < r1.len() implies r1[t] == r2[t] by {
            assert((ea + r1)[5 + t] == r1[t]);
            assert((eb + r2)[5 + t] == r2[t]);
        }
    } else if a is NullBulkString && b is BulkString {
        let sb = b->BulkString_0;
        lemma_bulk_shape(sb);
        lemma_len_header(0x24, encode_utf8(sb).len() as int);
        assert(ea[1] == 0x2d);
        assert(eb[1] == dec_digits(encode_utf8(sb).len() as int)[0]);
        assert((ea + r1)[1] == (eb + r2)[1]);
        assert(false);
    } else if a is BulkString && b is NullBulkString {
        let sa = a->BulkString_0;
        lemma_bulk_shape(sa);
        lemma_len_header(0x24, encode_utf8(sa).len() as int);
        assert(eb[1] == 0x2d);
        assert(ea[1] == dec_digits(encode_utf8(sa).len() as int)[0]);
        assert((ea + r1)[1] == (eb + r2)[1]);
        assert(false);
    } else {
        let sa = a->BulkString_0;
        let sb = b->BulkString_0;
        let pa = encode_utf8(sa);
        let pb = encode_utf8(sb);
        lemma_bulk_shape(sa);
        lemma_bulk_shape(sb);
        lemma_len_header(0x24, pa.len() as int);
        lemma_len_header(0x24, pb.len() as int);
        assert(ea + r1 =~= seq![0x24u8] + dec_digits(pa.len() as int) + crlf() + (pa + crlf()
            + r1));
        assert(eb + r2 =~= seq![0x24u8] + dec_digits(pb.len() as int) + crlf() + (pb + crlf()
            + r2));
        lemma_line_inj(
            0x24,
            dec_digits(pa.len() as int),
            dec_digits(pb.len() as int),
            pa + crlf() + r1,
            pb + crlf() + r2,
        );
        assert(digits_value(dec_digits(pa.len() as int)) == digits_value(
            dec_digits(pb.len() as int),
        ));
        assert(pa.len() == pb.len());
        assert forall|t: int| 0 <= t < pa.len() implies pa[t] == pb[t] by {
            assert((pa + crlf() + r1)[t] == pa[t]);
            assert((pb + crlf() + r2)[t] == pb[t]);
        }
        assert(pa =~= pb);
        vstd::utf8::encode_utf8_decode_utf8(sa);
        vstd::utf8::encode_utf8_decode_utf8(sb);
        assert(sa == sb);
        assert(ea.len() == eb.len());
        assert forall|t: int| 0 <= t < r1.len() implies r1[t] == r2[t] by {
            assert((ea + r1)[ea.len() + t] == r1[t]);
            assert((eb + r2)[eb.len() + t] == r2[t]);
        }
    }
}

/// Matched parts at the front of a stream pin the front of every frame
/// body that the stream could begin: the frame opens with exactly those
/// parts.
proof fn lemma_parts_cancel(ps: Seq<RespVal>, xs: Seq<RespVal>, rem: Seq<u8>)
    requires
        forall|i: int| 0 <= i < ps.len() ==> part_wf(#[trigger] ps[i]),
        forall|i: int| 0 <= i < xs.len() ==> part_wf(#[trigger] xs[i]),
        ps.len() <= xs.len(),
        is_prefix(encodings(xs), encodings(ps) + rem),
    ensures
        xs.take(ps.len() as int) == ps,
        is_prefix(encodings(xs.skip(ps.len() as int)), rem),
    decreases ps.len(),
{
    if ps.len() == 0 {
        assert(xs.take(0) =~= ps);
        assert(xs.skip(0) =~= xs);
        assert(encodings(ps) + rem =~= rem);
    } else {
        let k = ps.len() as int;
        assert(encodings(xs) == encoding(xs.first()) + encodings(xs.drop_first()));
        assert(encodings(ps) == encoding(ps.first()) + encodings(ps.drop_first()));
        assert(encodings(xs) =~= encoding(xs[0]) + encodings(xs.drop_first()));
        assert(encodings(ps) + rem =~= encoding(ps[0]) + (encodings(ps.drop_first()) + rem));
        lemma_part_cancel(xs[0], ps[0], encodings(xs.drop_first()), encodings(ps.drop_first())
            + rem);
        lemma_parts_cancel(ps.drop_first(), xs.drop_first(), rem);
        assert(xs.take(k) =~= seq![xs[0]] + xs.drop_first().take(k - 1));
        assert(seq![xs[0]] + xs.drop_first().take(k - 1) =~= ps);
        assert(xs.skip(k) =~= xs.drop_first().skip(k - 1));
    }
}

/// The mirror of [`lemma_parts_cancel`] for a stream that is itself a
/// prefix of a frame body.
proof fn lemma_parts_cancel_rev(ps: Seq<RespVal>, xs: Seq<RespVal>, rem: Seq<u8>)
    requires
        forall|i: int| 0 <= i < ps.len() ==> part_wf(#[trigger] ps[i]),
        forall|i: int| 0 <= i < xs.len() ==> part_wf(#[trigger] xs[i]),
        ps.len() <= xs.len(),
        is_prefix(encodings(ps) + rem, encodings(xs)),
    ensures
        xs.take(ps.len() as int) == ps,
        is_prefix(rem, encodings(xs.skip(ps.len() as int))),
    decreases ps.len(),
{
    if ps.len() == 0 {
        assert(xs.take(0) =~= ps);
        assert(xs.skip(0) =~= xs);
        assert(encodings(ps) + rem =~= rem);
    } else {
        let k = ps.len() as int;
        assert(encodings(xs) == encoding(xs.first()) + encodings(xs.drop_first()));
        assert(encodings(ps) == encoding(ps.first()) + encodings(ps.drop_first()));
        assert(encodings(xs) =~= encoding(xs[0]) + (encodings(xs.drop_first())
            + Seq::<u8>::empty()));
        assert(encodings(ps) + rem =~= encoding(ps[0]) + (encodings(ps.drop_first()) + rem));
        lemma_part_cancel(ps[0], xs[0], encodings(ps.drop_first()) + rem, encodings(
            xs.drop_first(),
        ) + Seq::<u8>::empty());
        assert(encodings(xs.drop_first()) + Seq::<u8>::empty() =~= encodings(xs.drop_first()));
        lemma_parts_cancel_rev(ps.drop_first(), xs.drop_first(), rem);
        assert(xs.take(k) =~= seq![xs[0]] + xs.drop_first().take(k - 1));
        assert(seq![xs[0]] + xs.drop_first().take(k - 1) =~= ps);
        assert(xs.skip(k) =~= xs.drop_first().skip(k - 1));
    }
}

/// Appending one part extends the concatenated encodings at the end.
proof fn lemma_encodings_push(ps: Seq<RespVal>, v: RespVal)
    ensures
        encodings(ps.push(v)) == encodings(ps) + encoding(v),
    decreases ps.len(),
{
    if ps.len() == 0 {
        assert(ps.push(v).first() == v);
        assert(ps.push(v).drop_first() =~= Seq::<RespVal>::empty());
        assert(encodings(ps.push(v)) == encoding(v) + encodings(ps.push(v).drop_first()));
        assert(encodings(Seq::<RespVal>::empty()) == Seq::<u8>::empty());
        assert(encodings(ps.push(v).drop_first()) == Seq::<u8>::empty());
        assert(encodings(ps) == Seq::<u8>::empty());
        assert(encodings(ps.push(v)) =~= encodings(ps) + encoding(v));
    } else {
        assert(ps.push(v).first() == ps[0]);
        assert(ps.first() == ps[0]);
        assert(ps.push(v).drop_first() =~= ps.drop_first().push(v));
        lemma_encodings_push(ps.drop_first(), v);
        assert(encodings(ps.push(v)) == encoding(ps[0]) + encodings(ps.drop_first().push(v)));
        assert(encodings(ps.push(v)) == encoding(ps[0]) + (encodings(ps.drop_first()) + encoding(
            v,
        )));
        assert(encodings(ps) == encoding(ps[0]) + encodings(ps.drop_first()));
        assert(encoding(ps[0]) + (encodings(ps.drop_first()) + encoding(v)) =~= (encoding(ps[0])
            + encodings(ps.drop_first())) + encoding(v));
        assert(encodings(ps.push(v)) =~= encodings(ps) + encoding(v));
    }
}

/// Frame encodings are prefix-free: a frame read off the front of a
/// stream is the only frame the stream could have carried, so feeding a
/// frame's bytes in chunks of any split can only ever produce that one
/// frame.
pub proof fn lemma_frame_determinism(a: Seq<RespVal>, b: Seq<RespVal>, rest: Seq<u8>)
    requires
        frame_wf(a),
        frame_wf(b),
        is_prefix(frame_encoding(a), frame_encoding(b) + rest),
    ensures
        a == b,
{
    lemma_len_header(0x2a, a.len() as int);
    lemma_len_header(0x2a, b.len() as int);
    assert(frame_encoding(a) =~= seq![0x2au8] + dec_digits(a.len() as int) + crlf() + encodings(
        a,
    ));
    assert(frame_encoding(b) + rest =~= seq![0x2au8] + dec_digits(b.len() as int) + crlf() + (
    encodings(b) + rest));
    lemma_line_inj(0x2a, dec_digits(a.len() as int), dec_digits(b.len() as int), encodings(a),
        encodings(b) + rest);
    assert(digits_value(dec_digits(a.len() as int)) == digits_value(dec_digits(b.len() as int)));
    lemma_parts_cancel(b, a, rest);
    assert(a.take(b.len() as int) =~= a);
}

/// A strict prefix of a frame's bytes holds no complete frame: a
/// decoder fed one chunk at a time reports that it needs more until
/// the last byte arrives.
pub proof fn lemma_partial_frame_incomplete(xs: Seq<RespVal>, bytes: Seq<u8>)
    requires
        frame_wf(xs),
        is_prefix(bytes, frame_encoding(xs)),
        bytes.len() < frame_encoding(xs).len(),
    ensures
        no_complete_frame(bytes),
{
    assert forall|ys: Seq<RespVal>| frame_wf(ys) implies !is_prefix(
        #[trigger] frame_encoding(ys),
        bytes,
    ) by {
        if is_prefix(frame_encoding(ys), bytes) {
            assert(frame_encoding(xs) =~= frame_encoding(xs) + Seq::<u8>::empty());
            assert(is_prefix(frame_encoding(ys), frame_encoding(xs) + Seq::<u8>::empty()));
            lemma_frame_determinism(ys, xs, Seq::empty());
        }
    }
}

/// Represents an error during RESP command frame parsing.
#[derive(Debug)]
pub struct FrameError {
    err: RespError,
}

impl FrameError {
    /// The reason the wrapped error reports.
    pub closed spec fn reason(&self) -> Seq<char> {
        crate::resp::resp_err_msg(self.err)
    }

    /// Wraps a RESP parsing error.
    pub fn from(err: RespError) -> (r: FrameError)
        ensures
            r.reason() == crate::resp::resp_err_msg(err),
    {
        FrameError { err }
    }

    /// A human-readable reason, as it would be logged.
    pub fn message(&self) -> (r: &str)
        ensures
            r@ == self.reason(),
    {
        self.err.message()
    }
}

/// Accumulates the parts of one command frame as they complete.
pub struct CommandBuilder {
    parts: Vec<RespType>,
    num_parts: usize,
    parts_parsed: usize,
}

impl CommandBuilder {
    /// The values of the parts collected so far.
    pub closed spec fn parts_vals(&self) -> Seq<RespVal> {
        resp_vals_of(self.parts@)
    }

    /// How many parts the frame header announced.
    pub closed spec fn count(&self) -> int {
        self.num_parts as int
    }

    /// How many parts have been collected.
    pub closed spec fn parsed(&self) -> int {
        self.parts_parsed as int
    }

    /// Create a new `CommandBuilder` expecting the given number of parts.
    pub fn new(num_parts: usize) -> (r: Self)
        ensures
            r.parts_vals() == Seq::<RespVal>::empty(),
            r.count() == num_parts,
            r.parsed() == 0,
    {
        let r = CommandBuilder { parts: Vec::new(), num_parts, parts_parsed: 0 };
        proof {
            assert(r.parts_vals() =~= Seq::<RespVal>::empty());
        }
        r
    }

    /// Add a completed part to the frame.
    pub fn add_part(&mut self, part: RespType)
        requires
            old(self).parsed() < usize::MAX,
        ensures
            final(self).parts_vals() == old(self).parts_vals().push(part@),
            final(self).count() == old(self).count(),
            final(self).parsed() == old(self).parsed() + 1,
    {
        let ghost prev = self.parts@;
        let ghost pv = part@;
        self.parts.push(part);
        self.parts_parsed = self.parts_parsed + 1;
        proof {
            lemma_resp_vals_of(prev);
            lemma_resp_vals_of(self.parts@);
            assert(self.parts_vals() =~= resp_vals_of(prev).push(pv));
        }
    }

    /// Checks if all announced parts have been received.
    pub fn all_parts_received(&self) -> (r: bool)
        ensures
            r == (self.parsed() == self.count()),
    {
        self.parts_parsed == self.num_parts
    }

    /// Hands out the complete frame as a vector of RESP values.
    pub fn build(self) -> (r: Vec<RespType>)
        ensures
            resp_vals_of(r@) == self.parts_vals(),
    {
        self.parts
    }
}

/// Drop the first `n` bytes of the buffer.
fn drain_prefix(src: &mut Vec<u8>, n: usize)
    requires
        n <= old(src)@.len(),
    ensures
        final(src)@ == old(src)@.skip(n as int),
{
    let len = src.len();
    let mut rest: Vec<u8> = Vec::new();
    let mut i = n;
    while i < len
        invariant
            n <= i <= len,
            len == src@.len(),
            src@ == old(src)@,
            rest@ == old(src)@.subrange(n as int, i as int),
        decreases len - i,
    {
        rest.push(src[i]);
        proof {
            assert(rest@ =~= old(src)@.subrange(n as int, i + 1));
        }
        i += 1;
    }
    proof {
        assert(old(src)@.subrange(n as int, len as int) =~= old(src)@.skip(n as int));
    }
    *src = rest;
}

/// The command-frame codec: commands are arrays of bulk strings.  It
/// carries no state of its own: because bytes are only consumed when a
/// whole frame completes, each call re-derives its phase from the
/// unconsumed buffer.
pub struct RespCommandFrame {}

impl RespCommandFrame {
    /// Create a new `RespCommandFrame`.
    pub fn new() -> RespCommandFrame {
        RespCommandFrame {  }
    }

    /// Decode one command frame from the front of the unconsumed byte
    /// stream.
    ///
    /// Consumes bytes only when a whole frame has arrived, in which
    /// case exactly the frame's bytes leave the buffer; an incomplete
    /// stream is left untouched for the next read to extend, and a
    /// stream that can never grow into a frame is refused.
    ///
    /// Length headers on the wire must be canonical — digits alone, no
    /// sign, no leading zero, at most twenty of them — exactly as
    /// [`encoding`] writes them; a header such as a zero-padded count is
    /// refused rather than read leniently.  That restriction is
    /// deliberate, and the contract depends on it: an emitted frame's
    /// bytes are exactly the frame's canonical encoding, refusal means
    /// the stream diverges from every canonical frame, and waiting
    /// means the stream is still a viable beginning of one.
    /// ([`RespType::parse_array_len`] reads length lines of whole
    /// buffers leniently; the wire decoder is stricter on purpose.)
    #[verifier::rlimit(100)]
    pub fn decode(&mut self, src: &mut Vec<u8>) -> (r: Result<Option<Vec<RespType>>, FrameError>)
        ensures
            match r {
                Ok(Some(frame)) => {
                    &&& frame_wf(resp_vals_of(frame@))
                    &&& old(src)@ == frame_encoding(resp_vals_of(frame@)) + final(src)@
                },
                Ok(None) => {
                    &&& final(src)@ == old(src)@
                    &&& no_complete_frame(old(src)@)
                    &&& frame_viable(old(src)@)
                },
                Err(_) => {
                    &&& final(src)@ == old(src)@
                    &&& frame_dead(old(src)@)
                },
            },
    {
        let total = src.len();
        let (num, hdr) = match scan_len_line(src.as_slice(), 0x2a) {
            LineScan::More => {
                proof {
                    assert forall|xs: Seq<RespVal>| frame_wf(xs) implies !is_prefix(
                        #[trigger] frame_encoding(xs),
                        src@,
                    ) by {
                        if is_prefix(frame_encoding(xs), src@) {
                            lemma_prefix_head(
                                len_header(0x2a, xs.len() as int),
                                encodings(xs),
                                src@,
                            );
                        }
                    }
                    let m = choose|m0: int| header_viable(src@, 0x2a, m0);
                    assert(header_viable(src@, 0x2a, m));
                    let cs = Seq::<Option<Seq<u8>>>::new(m as nat, |j: int| None);
                    assert forall|j: int| 0 <= j < cs.len() implies (#[trigger] cs[j]) is None by {}
                    assert(chunks_wf(cs));
                    lemma_prefix_extend(src@, len_header(0x2a, m), chunks_encoding(cs));
                    assert(viable_with(src@, m, cs));
                    assert(frame_viable(src@));
                }
                return Ok(None);
            },
            LineScan::Bad => {
                proof {
                    assert forall|xs: Seq<RespVal>| frame_wf(xs) implies !is_prefix(
                        #[trigger] frame_encoding(xs),
                        src@,
                    ) && !is_prefix(src@, frame_encoding(xs)) by {
                        if is_prefix(frame_encoding(xs), src@) {
                            lemma_prefix_head(
                                len_header(0x2a, xs.len() as int),
                                encodings(xs),
                                src@,
                            );
                        }
                        if is_prefix(src@, frame_encoding(xs)) {
                            lemma_prefix_split(src@, len_header(0x2a, xs.len() as int), encodings(
                                xs,
                            ));
                        }
                    }
                }
                return Err(FrameError::from(RespError::InvalidArray("Invalid Array".to_owned())));
            },
            LineScan::Line(num, hdr) => (num, hdr),
        };
        let mut builder = CommandBuilder::new(num);
        let mut pos = hdr;
        let mut k: usize = 0;
        while k < num
            invariant
                total == src@.len(),
                0 <= k <= num,
                builder.count() == num,
                builder.parsed() == k,
                builder.parts_vals().len() == k,
                forall|i: int| 0 <= i < k ==> part_wf(#[trigger] builder.parts_vals()[i]),
                4 <= hdr <= pos <= total,
                src@.subrange(0, hdr as int) == len_header(0x2a, num as int),
                src@.subrange(0, pos as int) == len_header(0x2a, num as int) + encodings(
                    builder.parts_vals(),
                ),
            decreases num - k,
        {
            let sub = src.as_slice().split_at(pos).1;
            let ghost rem = src@.skip(pos as int);
            let ghost ps = builder.parts_vals();
            proof {
                assert(sub@ =~= rem);
                assert(src@ =~= src@.subrange(0, pos as int) + src@.skip(pos as int));
                assert(src@ =~= (len_header(0x2a, num as int) + encodings(ps)) + rem);
                assert(src@ =~= seq![0x2au8] + dec_digits(num as int) + crlf() + (encodings(ps)
                    + rem));
                lemma_len_header(0x2a, num as int);
            }
            match scan_part(sub) {
                PartScan::More => {
                    proof {
                        assert forall|xs: Seq<RespVal>| frame_wf(xs) implies !is_prefix(
                            #[trigger] frame_encoding(xs),
                            src@,
                        ) by {
                            if is_prefix(frame_encoding(xs), src@) {
                                lemma_frame_front(src@, xs, num as int, ps, rem);
                                assert(is_prefix(encoding(xs[k as int]), rem));
                            }
                        }
                        let c0 = choose|c00: Option<Seq<u8>>| chunk_viable(rem, c00);
                        assert(chunk_viable(rem, c0));
                        lemma_chunks_of(ps);
                        let nones = Seq::<Option<Seq<u8>>>::new(
                            (num - k - 1) as nat,
                            |j: int| None,
                        );
                        let cs = chunks_of(ps) + seq![c0] + nones;
                        assert(cs.len() == num);
                        assert forall|j: int|
                            0 <= j < cs.len() implies ((#[trigger] cs[j]) matches Some(pp)
                            ==> pp.len() <= usize::MAX) by {
                            if j < k {
                                assert(cs[j] == chunks_of(ps)[j]);
                            } else if j == k {
                                assert(cs[j] == c0);
                            } else {
                                assert(cs[j] == nones[j - k - 1]);
                            }
                        }
                        assert(chunks_wf(cs));
                        lemma_chunks_encoding_concat(chunks_of(ps) + seq![c0], nones);
                        lemma_chunks_encoding_concat(chunks_of(ps), seq![c0]);
                        assert(seq![c0].first() == c0);
                        assert(seq![c0].drop_first() =~= Seq::<Option<Seq<u8>>>::empty());
                        assert(chunks_encoding(Seq::<Option<Seq<u8>>>::empty())
                            == Seq::<u8>::empty());
                        assert(chunks_encoding(seq![c0]) =~= chunk_encoding(c0));
                        lemma_prefix_extend(rem, chunk_encoding(c0), chunks_encoding(nones));
                        lemma_prefix_under_concat(
                            len_header(0x2a, num as int) + encodings(ps),
                            rem,
                            chunk_encoding(c0) + chunks_encoding(nones),
                        );
                        assert(src@ =~= (len_header(0x2a, num as int) + encodings(ps)) + rem);
                        assert(len_header(0x2a, num as int) + chunks_encoding(cs) =~= (len_header(
                            0x2a,
                            num as int,
                        ) + encodings(ps)) + (chunk_encoding(c0) + chunks_encoding(nones)));
                        assert(is_prefix(
                            src@,
                            len_header(0x2a, num as int) + chunks_encoding(cs),
                        ));
                        assert(viable_with(src@, num as int, cs));
                        assert(frame_viable(src@));
                    }
                    return Ok(None);
                },
                PartScan::Bad => {
                    proof {
                        assert forall|xs: Seq<RespVal>| frame_wf(xs) implies !is_prefix(
                            #[trigger] frame_encoding(xs),
                            src@,
                        ) && !is_prefix(src@, frame_encoding(xs)) by {
                            if is_prefix(frame_encoding(xs), src@) {
                                lemma_frame_front(src@, xs, num as int, ps, rem);
                                assert(is_prefix(encoding(xs[k as int]), rem));
                            }
                            if is_prefix(src@, frame_encoding(xs)) {
                                lemma_frame_front_rev(src@, xs, num as int, ps, rem);
                                let tail = encodings(xs.skip(k as int));
                                assert(tail =~= encoding(xs[k as int]) + encodings(
                                    xs.skip(k as int).drop_first(),
                                ));
                                lemma_prefix_split(
                                    rem,
                                    encoding(xs[k as int]),
                                    encodings(xs.skip(k as int).drop_first()),
                                );
                            }
                        }
                    }
                    return Err(
                        FrameError::from(
                            RespError::InvalidBulkString("Invalid Bulk String".to_owned()),
                        ),
                    );
                },
                PartScan::Part(v, c) => {
                    proof {
                        lemma_encodings_push(ps, v@);
                        assert(src@.subrange(0, pos + c) =~= src@.subrange(0, pos as int)
                            + rem.subrange(0, c as int));
                        assert(rem.subrange(0, c as int) =~= sub@.subrange(0, c as int));
                        assert(src@.subrange(0, pos + c) =~= len_header(0x2a, num as int)
                            + encodings(ps.push(v@)));
                    }
                    builder.add_part(v);
                    pos = pos + c;
                    k += 1;
                },
            }
        }
        let ghost vals = builder.parts_vals();
        proof {
            assert(src@.subrange(0, pos as int) == frame_encoding(vals));
        }
        drain_prefix(src, pos);
        let frame = builder.build();
        proof {
            assert(old(src)@ =~= old(src)@.subrange(0, pos as int) + old(src)@.skip(pos as int));
        }
        Ok(Some(frame))
    }
}

/// A frame encoding at the front of a partially matched stream opens
/// with the already matched parts; its next part encoding heads the
/// unmatched remainder.
proof fn lemma_frame_front(
    stream: Seq<u8>,
    xs: Seq<RespVal>,
    num: int,
    ps: Seq<RespVal>,
    rem: Seq<u8>,
)
    requires
        frame_wf(xs),
        0 <= num <= usize::MAX,
        forall|i: int| 0 <= i < ps.len() ==> part_wf(#[trigger] ps[i]),
        ps.len() < num,
        stream =~= seq![0x2au8] + dec_digits(num) + crlf() + (encodings(ps) + rem),
        is_prefix(frame_encoding(xs), stream),
    ensures
        xs.len() == num,
        xs.take(ps.len() as int) == ps,
        is_prefix(encoding(xs[ps.len() as int]), rem),
{
    lemma_len_header(0x2a, num);
    lemma_len_header(0x2a, xs.len() as int);
    assert(frame_encoding(xs) =~= seq![0x2au8] + dec_digits(xs.len() as int) + crlf() + encodings(
        xs,
    ));
    lemma_line_inj(0x2a, dec_digits(xs.len() as int), dec_digits(num), encodings(xs), encodings(ps)
        + rem);
    assert(digits_value(dec_digits(xs.len() as int)) == digits_value(dec_digits(num)));
    lemma_parts_cancel(ps, xs, rem);
    let k = ps.len() as int;
    let tail = xs.skip(k);
    assert(tail.len() > 0);
    assert(encodings(tail) == encoding(tail.first()) + encodings(tail.drop_first()));
    assert(tail.first() == xs[k]);
    lemma_prefix_head(encoding(xs[k]), encodings(tail.drop_first()), rem);
}

/// The mirror of [`lemma_frame_front`] for a stream that is itself a
/// prefix of a frame encoding.
proof fn lemma_frame_front_rev(
    stream: Seq<u8>,
    xs: Seq<RespVal>,
    num: int,
    ps: Seq<RespVal>,
    rem: Seq<u8>,
)
    requires
        frame_wf(xs),
        0 <= num <= usize::MAX,
        forall|i: int| 0 <= i < ps.len() ==> part_wf(#[trigger] ps[i]),
        ps.len() < num,
        stream =~= seq![0x2au8] + dec_digits(num) + crlf() + (encodings(ps) + rem),
        is_prefix(stream, frame_encoding(xs)),
    ensures
        xs.len() == num,
        xs.take(ps.len() as int) == ps,
        is_prefix(rem, encodings(xs.skip(ps.len() as int))),
        xs.skip(ps.len() as int).len() > 0,
{
    lemma_len_header(0x2a, num);
    lemma_len_header(0x2a, xs.len() as int);
    assert(frame_encoding(xs) =~= seq![0x2au8] + dec_digits(xs.len() as int) + crlf() + encodings(
        xs,
    ));
    lemma_line_inj(0x2a, dec_digits(num), dec_digits(xs.len() as int), encodings(ps) + rem,
        encodings(xs));
    assert(digits_value(dec_digits(xs.len() as int)) == digits_value(dec_digits(num)));
    lemma_parts_cancel_rev(ps, xs, rem);
}

} // verus!
