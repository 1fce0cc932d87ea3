//! The RESP2 value model and its byte-level codec.

use vstd::prelude::*;

verus! {

use vstd::utf8::encode_utf8;
use vstd::string::StrSliceExecFns;
use crate::resp::RespError;

/// The mathematical value of a [`RespType`]: text as character sequences,
/// arrays as sequences of values, integers unbounded.
pub enum RespVal {
    SimpleString(Seq<char>),
    BulkString(Seq<char>),
    NullBulkString,
    SimpleError(Seq<char>),
    Array(Seq<RespVal>),
    Integer(int),
}

/// One RESP2 value as carried on the wire.
#[derive(Debug, PartialEq)]
pub enum RespType {
    /// A short CRLF-terminated line prefixed with `+`.
    SimpleString(String),
    /// A length-prefixed payload, treated as UTF-8 text.
    BulkString(String),
    /// The wire marker `$-1\r\n`; distinct from an empty bulk string.
    NullBulkString,
    /// A short CRLF-terminated line prefixed with `-`.
    SimpleError(String),
    /// An ordered sequence of values.
    Array(Vec<RespType>),
    /// A signed 64-bit integer.
    Integer(i64),
}

/// The abstract value of a wire value.
pub open spec fn resp_val_of(v: RespType) -> RespVal
    decreases v,
{
    match v {
        RespType::SimpleString(s) => RespVal::SimpleString(s@),
        RespType::BulkString(s) => RespVal::BulkString(s@),
        RespType::NullBulkString => RespVal::NullBulkString,
        RespType::SimpleError(s) => RespVal::SimpleError(s@),
        RespType::Array(xs) => RespVal::Array(resp_vals_of(xs@)),
        RespType::Integer(i) => RespVal::Integer(i as int),
    }
}

/// The abstract values of a sequence of wire values, element by element.
pub open spec fn resp_vals_of(xs: Seq<RespType>) -> Seq<RespVal>
    decreases xs,
{
    if xs.len() == 0 {
        Seq::empty()
    } else {
        seq![resp_val_of(xs.first())] + resp_vals_of(xs.drop_first())
    }
}

/// The text a bulk string carries; other values read as empty.
pub open spec fn bulk_text(v: RespVal) -> Seq<char> {
    match v {
        RespVal::BulkString(s) => s,
        _ => Seq::empty(),
    }
}

/// Whether every value of `xs` is a bulk string.
pub open spec fn all_bulk(xs: Seq<RespVal>) -> bool {
    forall|i: int| 0 <= i < xs.len() ==> xs[i] is BulkString
}

/// Bulk-string values carrying the given texts, in order.
pub open spec fn bulks_of(ts: Seq<Seq<char>>) -> Seq<RespVal> {
    Seq::new(ts.len(), |i: int| RespVal::BulkString(ts[i]))
}

/// The texts carried by a sequence of bulk strings.
pub open spec fn texts_of(xs: Seq<RespVal>) -> Seq<Seq<char>> {
    xs.map_values(|v: RespVal| bulk_text(v))
}

/// `resp_vals_of` maps the view pointwise.
pub proof fn lemma_resp_vals_of(xs: Seq<RespType>)
    ensures
        resp_vals_of(xs).len() == xs.len(),
        forall|i: int| 0 <= i < xs.len() ==> resp_vals_of(xs)[i] == resp_val_of(xs[i]),
    decreases xs.len(),
{
    if xs.len() > 0 {
        lemma_resp_vals_of(xs.drop_first());
    }
}

impl View for RespType {
    type V = RespVal;

    open spec fn view(&self) -> RespVal {
        resp_val_of(*self)
    }
}

/// The CRLF line terminator.
pub open spec fn crlf() -> Seq<u8> {
    seq![13u8, 10u8]
}

/// Whether `b` is an ASCII decimal digit.
pub open spec fn is_digit_byte(b: u8) -> bool {
    0x30 <= b <= 0x39
}

/// Whether every byte of `d` is an ASCII decimal digit.
pub open spec fn all_digit_bytes(d: Seq<u8>) -> bool {
    forall|i: int| 0 <= i < d.len() ==> is_digit_byte(d[i])
}

/// The number a digit string denotes, read in base ten.
pub open spec fn digits_value(d: Seq<u8>) -> int
    decreases d.len(),
{
    if d.len() == 0 {
        0
    } else {
        digits_value(d.drop_last()) * 10 + (d.last() - 0x30)
    }
}

/// The canonical decimal digits of `n`: no sign, no leading zero.
pub open spec fn dec_digits(n: int) -> Seq<u8>
    recommends
        n >= 0,
    decreases n,
{
    if n < 10 {
        seq![(0x30 + if n >= 0 { n } else { 0 }) as u8]
    } else {
        dec_digits(n / 10).push((0x30 + n % 10) as u8)
    }
}

/// The canonical decimal bytes of a signed number.
pub open spec fn int_digits(i: int) -> Seq<u8> {
    if i < 0 {
        seq![0x2du8] + dec_digits(-i)
    } else {
        dec_digits(i)
    }
}

/// The canonical RESP2 encoding of a value.
pub open spec fn encoding(v: RespVal) -> Seq<u8>
    decreases v,
{
    match v {
        RespVal::SimpleString(s) => seq![0x2bu8] + encode_utf8(s) + crlf(),
        RespVal::SimpleError(s) => seq![0x2du8] + encode_utf8(s) + crlf(),
        RespVal::Integer(i) => seq![0x3au8] + int_digits(i) + crlf(),
        RespVal::BulkString(s) => seq![0x24u8] + dec_digits(encode_utf8(s).len() as int) + crlf()
            + encode_utf8(s) + crlf(),
        RespVal::NullBulkString => seq![0x24u8, 0x2du8, 0x31u8, 13u8, 10u8],
        RespVal::Array(xs) => seq![0x2au8] + dec_digits(xs.len() as int) + crlf() + encodings(xs),
    }
}

/// The concatenated encodings of a sequence of values.
pub open spec fn encodings(xs: Seq<RespVal>) -> Seq<u8>
    decreases xs,
{
    if xs.len() == 0 {
        Seq::empty()
    } else {
        encoding(xs.first()) + encodings(xs.drop_first())
    }
}

/// Whether a value can appear on the wire as written: line payloads
/// carry no CR or LF, integers fit 64 bits, and lengths fit a word.
pub open spec fn resp_wf(v: RespVal) -> bool
    decreases v,
{
    match v {
        RespVal::SimpleString(s) => no_crlf_chars(s),
        RespVal::SimpleError(s) => no_crlf_chars(s),
        RespVal::Integer(i) => i64::MIN <= i <= i64::MAX,
        RespVal::BulkString(s) => encode_utf8(s).len() <= usize::MAX,
        RespVal::NullBulkString => true,
        RespVal::Array(xs) => xs.len() <= usize::MAX && (forall|i: int|
            0 <= i < xs.len() ==> resp_wf(#[trigger] xs[i])),
    }
}

/// Whether `s` holds neither carriage return nor line feed.
pub open spec fn no_crlf_chars(s: Seq<char>) -> bool {
    forall|i: int| 0 <= i < s.len() ==> s[i] != '\r' && s[i] != '\n'
}

/// The canonical digits of a number are digits, start with zero only
/// for zero itself, and denote the number.
pub proof fn lemma_dec_digits(n: int)
    requires
        n >= 0,
    ensures
        dec_digits(n).len() >= 1,
        all_digit_bytes(dec_digits(n)),
        digits_value(dec_digits(n)) == n,
        dec_digits(n)[0] == 0x30 <==> n == 0,
    decreases n,
{
    if n < 10 {
        let d = dec_digits(n);
        assert(d.len() == 1);
        assert(d.drop_last() =~= Seq::<u8>::empty());
        assert(digits_value(Seq::<u8>::empty()) == 0);
        assert(digits_value(d.drop_last()) == 0);
        assert(digits_value(d) == d.last() - 0x30);
    } else {
        lemma_dec_digits(n / 10);
        assert(dec_digits(n).drop_last() =~= dec_digits(n / 10));
        assert(n % 10 >= 0 && n % 10 < 10);
        assert(digits_value(dec_digits(n)) == (n / 10) * 10 + n % 10);
        assert(n == (n / 10) * 10 + n % 10) by (nonlinear_arith)
            requires
                n >= 10,
        ;
    }
}

/// A digit string denotes a non-negative number.
pub proof fn lemma_digits_value_nonneg(d: Seq<u8>)
    requires
        all_digit_bytes(d),
    ensures
        digits_value(d) >= 0,
    decreases d.len(),
{
    if d.len() > 0 {
        lemma_digits_value_nonneg(d.drop_last());
    }
}

/// Extending a digit string can only increase its value.
pub proof fn lemma_digits_value_prefix(d: Seq<u8>, k: int)
    requires
        all_digit_bytes(d),
        0 <= k <= d.len(),
    ensures
        digits_value(d) >= digits_value(d.take(k)),
    decreases d.len(),
{
    if k < d.len() {
        assert(d.drop_last().take(k) =~= d.take(k));
        lemma_digits_value_prefix(d.drop_last(), k);
        lemma_digits_value_nonneg(d.drop_last());
    } else {
        assert(d.take(k) =~= d);
    }
}

/// Whether a digit string is canonical: non-empty, digits only, and no
/// leading zero except for zero itself.
pub open spec fn canonical_digits(d: Seq<u8>) -> bool {
    d.len() >= 1 && all_digit_bytes(d) && (d.len() > 1 ==> d[0] != 0x30)
}

/// A canonical digit string is the canonical spelling of its value.
pub proof fn lemma_canonical_digits(d: Seq<u8>)
    requires
        canonical_digits(d),
    ensures
        dec_digits(digits_value(d)) == d,
    decreases d.len(),
{
    let n = digits_value(d);
    if d.len() == 1 {
        assert(d.drop_last() =~= Seq::<u8>::empty());
        assert(digits_value(Seq::<u8>::empty()) == 0);
        assert(digits_value(d.drop_last()) == 0);
        assert(n == d[0] - 0x30);
        assert(dec_digits(n) =~= d);
    } else {
        let d0 = d.drop_last();
        assert(canonical_digits(d0));
        lemma_digits_min_value(d0);
        lemma_pow10_pos((d0.len() - 1) as nat);
        assert(digits_value(d0) >= 1);
        let dl = d.last() - 0x30;
        assert(n == digits_value(d0) * 10 + dl);
        assert(n >= 10);
        assert(n / 10 == digits_value(d0) && n % 10 == dl) by (nonlinear_arith)
            requires
                n == digits_value(d0) * 10 + dl,
                0 <= dl < 10,
                digits_value(d0) >= 0,
        ;
        lemma_canonical_digits(d0);
        assert(dec_digits(n) =~= d);
    }
}

/// A digit string with a non-zero lead denotes at least ten to its
/// length less one.
pub proof fn lemma_digits_min_value(d: Seq<u8>)
    requires
        all_digit_bytes(d),
        d.len() >= 1,
        d[0] != 0x30,
    ensures
        digits_value(d) >= pow10((d.len() - 1) as nat),
    decreases d.len(),
{
    if d.len() == 1 {
        assert(digits_value(d.drop_last()) == 0) by {
            assert(d.drop_last() =~= Seq::<u8>::empty());
        }
    } else {
        lemma_digits_min_value(d.drop_last());
    }
}

/// Ten to the `k`.
pub open spec fn pow10(k: nat) -> int
    decreases k,
{
    if k == 0 {
        1
    } else {
        10 * pow10((k - 1) as nat)
    }
}

/// Powers of ten are positive.
pub proof fn lemma_pow10_pos(k: nat)
    ensures
        pow10(k) >= 1,
    decreases k,
{
    if k > 0 {
        lemma_pow10_pos((k - 1) as nat);
    }
}

/// A number below `pow10(k)` has at most `k` canonical digits.
pub proof fn lemma_dec_digits_len(n: int, k: nat)
    requires
        0 <= n < pow10(k),
        k >= 1,
    ensures
        dec_digits(n).len() <= k,
    decreases n,
{
    if n >= 10 {
        assert(pow10(k) == 10 * pow10((k - 1) as nat));
        lemma_dec_digits_len(n / 10, (k - 1) as nat);
    }
}

/// A canonical length header fits in twenty digits.
pub proof fn lemma_dec_digits_len_usize(n: int)
    requires
        0 <= n <= usize::MAX,
    ensures
        dec_digits(n).len() <= 20,
{
    assert(pow10(20) == 100000000000000000000) by {
        reveal_with_fuel(pow10, 21);
    }
    lemma_dec_digits_len(n, 20);
}

/// Concatenated encodings grow one encoding at a time.
pub proof fn lemma_encodings_snoc(xs: Seq<RespVal>, i: int)
    requires
        0 <= i < xs.len(),
    ensures
        encodings(xs.take(i + 1)) == encodings(xs.take(i)) + encoding(xs[i]),
    decreases i,
{
    let t1 = xs.take(i + 1);
    let t0 = xs.take(i);
    if i == 0 {
        assert(t1.len() == 1 && t1[0] == xs[0]);
        assert(t1.first() == xs[0]);
        assert(t1.drop_first() =~= Seq::<RespVal>::empty());
        assert(t0 =~= Seq::<RespVal>::empty());
        assert(encodings(t1) =~= encodings(t0) + encoding(xs[0]));
    } else {
        let rest = xs.drop_first();
        assert(t1.first() == xs[0]);
        assert(t0.first() == xs[0]);
        assert(t1.drop_first() =~= rest.take(i));
        assert(t0.drop_first() =~= rest.take(i - 1));
        lemma_encodings_snoc(rest, i - 1);
        assert(rest[i - 1] == xs[i]);
        assert(encodings(t1) =~= encodings(t0) + encoding(xs[i]));
    }
}

/// The wire length header of a bulk string names exactly the byte
/// length of its UTF-8 payload.
pub proof fn lemma_bulk_length_exact(s: Seq<char>)
    ensures
        encoding(RespVal::BulkString(s)) == seq![0x24u8] + dec_digits(
            encode_utf8(s).len() as int,
        ) + crlf() + encode_utf8(s) + crlf(),
        digits_value(dec_digits(encode_utf8(s).len() as int)) == encode_utf8(s).len() as int,
{
    lemma_dec_digits(encode_utf8(s).len() as int);
}

/// The UTF-8 encoding of text without CR or LF holds neither byte 13
/// nor byte 10.
pub proof fn lemma_encode_utf8_no_crlf(s: Seq<char>)
    requires
        no_crlf_chars(s),
    ensures
        forall|j: int| 0 <= j < encode_utf8(s).len() ==> encode_utf8(s)[j] != 13 && encode_utf8(
            s,
        )[j] != 10,
    decreases s.len(),
{
    if s.len() > 0 {
        let c = s[0] as u32;
        vstd::utf8::char_is_scalar(s[0]);
        lemma_encode_scalar_no_crlf(c, s[0]);
        lemma_encode_utf8_no_crlf(s.drop_first());
        assert(encode_utf8(s) == vstd::utf8::encode_scalar(c) + encode_utf8(s.drop_first()));
    }
}

/// The UTF-8 encoding of one character other than CR and LF holds
/// neither byte 13 nor byte 10.
proof fn lemma_encode_scalar_no_crlf(c: u32, ch: char)
    requires
        c == ch as u32,
        ch != '\r' && ch != '\n',
        vstd::utf8::is_scalar(c),
    ensures
        forall|j: int| 0 <= j < vstd::utf8::encode_scalar(c).len()
            ==> vstd::utf8::encode_scalar(c)[j] != 13 && vstd::utf8::encode_scalar(c)[j] != 10,
{
    broadcast use vstd::utf8::char_u32_cast;

    if vstd::utf8::has_width_1_encoding(c) {
        assert('\r' as u32 == 13 && '\n' as u32 == 10);
        assert(c != 13 && c != 10);
        assert((c & 0x7F) as u8 != 13 && (c & 0x7F) as u8 != 10) by (bit_vector)
            requires
                c < 0x80 && c != 13 && c != 10,
        ;
    } else {
        lemma_multibyte_no_crlf(c);
    }
}

/// Every byte of a multi-byte UTF-8 encoding is at least `0x80`.
proof fn lemma_multibyte_no_crlf(c: u32)
    by (bit_vector)
    ensures
        (0xC0 | ((c >> 6) & 0x1F) as u8) >= 0x80,
        (0xE0 | ((c >> 12) & 0x0F) as u8) >= 0x80,
        (0xF0 | ((c >> 18) & 0x7) as u8) >= 0x80,
        (0x80 | (c & 0x3F) as u8) >= 0x80,
        (0x80 | ((c >> 6) & 0x3F) as u8) >= 0x80,
        (0x80 | ((c >> 12) & 0x3F) as u8) >= 0x80,
{
}

/// The position of the first CRLF pair at or after `i`, if any.
pub open spec fn first_crlf_from(buf: Seq<u8>, i: int) -> Option<int>
    decreases buf.len() - i,
    when 0 <= i <= buf.len()
{
    if i + 2 > buf.len() {
        None
    } else if buf[i] == 13 && buf[i + 1] == 10 {
        Some(i)
    } else {
        first_crlf_from(buf, i + 1)
    }
}

/// The length a header line denotes: one or more decimal digits whose
/// value fits a machine word.
pub open spec fn length_of_digits(d: Seq<u8>) -> Option<int> {
    if d.len() >= 1 && all_digit_bytes(d) && digits_value(d) <= usize::MAX {
        Some(digits_value(d))
    } else {
        None
    }
}

/// The signed 64-bit integer a line denotes: an optional sign, then one
/// or more decimal digits, the value within bounds.
pub open spec fn int_line_value(d: Seq<u8>) -> Option<int> {
    let digits = if d.len() > 0 && (d[0] == 0x2d || d[0] == 0x2b) {
        d.drop_first()
    } else {
        d
    };
    let neg = d.len() > 0 && d[0] == 0x2d;
    if digits.len() == 0 || !all_digit_bytes(digits) {
        None
    } else {
        let v = if neg {
            -digits_value(digits)
        } else {
            digits_value(digits)
        };
        if i64::MIN <= v <= i64::MAX {
            Some(v)
        } else {
            None
        }
    }
}

/// The length header at the front of a stream: its first CRLF line must
/// open with the marker and then hold a decimal length.  Yields the
/// length and the bytes of the whole line.
pub open spec fn header_line_spec(buf: Seq<u8>, marker: u8) -> Option<(int, int)> {
    match first_crlf_from(buf, 0) {
        None => None,
        Some(k) => {
            if 2 <= k && buf.len() >= 1 && buf[0] == marker {
                match length_of_digits(buf.subrange(1, k)) {
                    Some(n) => Some((n, k + 2)),
                    None => None,
                }
            } else {
                None
            }
        },
    }
}

/// The value a byte stream begins with and the bytes it occupies, or
/// nothing when the stream is malformed or incomplete.
pub open spec fn spec_parse(buf: Seq<u8>) -> Option<(RespVal, int)>
    decreases buf.len(), 0int,
{
    if buf.len() == 0 {
        None
    } else {
        let t = buf[0];
        if t == 0x2b || t == 0x2d {
            match first_crlf_from(buf, 1) {
                None => None,
                Some(j) => if !(1 <= j && j + 2 <= buf.len()) {
                    None
                } else {
                    let payload = buf.subrange(1, j);
                    if vstd::utf8::valid_utf8(payload) {
                        if t == 0x2b {
                            Some((RespVal::SimpleString(vstd::utf8::decode_utf8(payload)), j + 2))
                        } else {
                            Some((RespVal::SimpleError(vstd::utf8::decode_utf8(payload)), j + 2))
                        }
                    } else {
                        None
                    }
                },
            }
        } else if t == 0x3a {
            match first_crlf_from(buf, 1) {
                None => None,
                Some(j) => if !(1 <= j && j + 2 <= buf.len()) {
                    None
                } else {
                    match int_line_value(buf.subrange(1, j)) {
                        Some(v) => Some((RespVal::Integer(v), j + 2)),
                        None => None,
                    }
                },
            }
        } else if t == 0x24 {
            match first_crlf_from(buf, 1) {
                None => None,
                Some(j) => if !(1 <= j && j + 2 <= buf.len()) {
                    None
                } else {
                    let line = buf.subrange(1, j);
                    if line == seq![0x2du8, 0x31u8] {
                        Some((RespVal::NullBulkString, j + 2))
                    } else {
                        match length_of_digits(line) {
                            None => None,
                            Some(l) => {
                                if j + 2 + l + 2 <= buf.len() && buf[j + 2 + l] == 13 && buf[j + 2
                                    + l + 1] == 10 {
                                    let payload = buf.subrange(j + 2, j + 2 + l);
                                    if vstd::utf8::valid_utf8(payload) {
                                        Some(
                                            (
                                                RespVal::BulkString(
                                                    vstd::utf8::decode_utf8(payload),
                                                ),
                                                j + 2 + l + 2,
                                            ),
                                        )
                                    } else {
                                        None
                                    }
                                } else {
                                    None
                                }
                            },
                        }
                    }
                },
            }
        } else if t == 0x2a {
            match first_crlf_from(buf, 1) {
                None => None,
                Some(j) => if !(1 <= j && j + 2 <= buf.len()) {
                    None
                } else {
                    match length_of_digits(buf.subrange(1, j)) {
                        None => None,
                        Some(n) => match spec_parse_elems(buf.skip(j + 2), n as nat) {
                            None => None,
                            Some((xs, used)) => Some((RespVal::Array(xs), j + 2 + used)),
                        },
                    }
                },
            }
        } else {
            None
        }
    }
}

/// `n` consecutive values from the front of the stream, with the bytes
/// they occupy together.
pub open spec fn spec_parse_elems(buf: Seq<u8>, n: nat) -> Option<(Seq<RespVal>, int)>
    decreases buf.len(), 1int + n,
{
    if n == 0 {
        Some((Seq::empty(), 0))
    } else {
        match spec_parse(buf) {
            None => None,
            Some((v, used)) => {
                if 1 <= used <= buf.len() {
                    match spec_parse_elems(buf.skip(used), (n - 1) as nat) {
                        None => None,
                        Some((xs, used2)) => Some((seq![v] + xs, used + used2)),
                    }
                } else {
                    None
                }
            },
        }
    }
}

/// Every encoding takes at least three bytes.
pub proof fn lemma_encoding_len(v: RespVal)
    ensures
        encoding(v).len() >= 3,
{
    match v {
        RespVal::Integer(i) => {
            if i < 0 {
                lemma_dec_digits(-i);
            } else {
                lemma_dec_digits(i);
            }
        },
        RespVal::BulkString(s) => {
            lemma_dec_digits(encode_utf8(s).len() as int);
        },
        RespVal::Array(xs) => {
            lemma_dec_digits(xs.len() as int);
        },
        _ => {},
    }
}

/// A canonical integer line reads back as its value.
proof fn lemma_int_line_round_trip(i: int)
    requires
        i64::MIN <= i <= i64::MAX,
    ensures
        int_line_value(int_digits(i)) == Some(i),
{
    if i < 0 {
        lemma_dec_digits(-i);
        let d = int_digits(i);
        assert(d[0] == 0x2d);
        assert(d.drop_first() =~= dec_digits(-i));
        lemma_digits_value_nonneg(dec_digits(-i));
    } else {
        lemma_dec_digits(i);
        let d = int_digits(i);
        assert(is_digit_byte(d[0]));
    }
}

/// Reading the canonical encoding of a well-formed value back, with
/// anything at all after it, yields exactly that value and consumes
/// exactly the encoding.
pub proof fn lemma_parse_round_trip(v: RespVal, rest: Seq<u8>)
    requires
        resp_wf(v),
    ensures
        spec_parse(encoding(v) + rest) == Some((v, encoding(v).len() as int)),
    decreases v,
{
    broadcast use vstd::utf8::encode_utf8_valid_utf8;
    broadcast use vstd::utf8::encode_utf8_decode_utf8;

    let buf = encoding(v) + rest;
    match v {
        RespVal::SimpleString(s) => {
            let p = encode_utf8(s);
            lemma_encode_utf8_no_crlf(s);
            let k = 1 + p.len() as int;
            assert(buf[0] == 0x2b);
            assert(forall|t: int| 1 <= t < k ==> buf[t] == p[t - 1]);
            assert(buf[k] == 13 && buf[k + 1] == 10);
            lemma_first_crlf_pos(buf, 1, k);
            assert(buf.subrange(1, k) =~= p);
        },
        RespVal::SimpleError(s) => {
            let p = encode_utf8(s);
            lemma_encode_utf8_no_crlf(s);
            let k = 1 + p.len() as int;
            assert(buf[0] == 0x2d);
            assert(forall|t: int| 1 <= t < k ==> buf[t] == p[t - 1]);
            assert(buf[k] == 13 && buf[k + 1] == 10);
            lemma_first_crlf_pos(buf, 1, k);
            assert(buf.subrange(1, k) =~= p);
        },
        RespVal::Integer(i) => {
            let d = int_digits(i);
            if i < 0 {
                lemma_dec_digits(-i);
            } else {
                lemma_dec_digits(i);
            }
            let k = 1 + d.len() as int;
            assert(buf[0] == 0x3a);
            assert(forall|t: int| 1 <= t < k ==> buf[t] == d[t - 1]);
            assert(forall|t: int| 0 <= t < d.len() ==> d[t] != 13);
            assert(buf[k] == 13 && buf[k + 1] == 10);
            lemma_first_crlf_pos(buf, 1, k);
            assert(buf.subrange(1, k) =~= d);
            lemma_int_line_round_trip(i);
        },
        RespVal::NullBulkString => {
            assert(buf[0] == 0x24);
            assert(buf[1] == 0x2d && buf[2] == 0x31 && buf[3] == 13 && buf[4] == 10);
            lemma_first_crlf_pos(buf, 1, 3);
            assert(buf.subrange(1, 3) =~= seq![0x2du8, 0x31u8]);
        },
        RespVal::BulkString(s) => {
            let p = encode_utf8(s);
            let l = p.len() as int;
            let d = dec_digits(l);
            lemma_dec_digits(l);
            let k = 1 + d.len() as int;
            assert(buf[0] == 0x24);
            assert(forall|t: int| 1 <= t < k ==> buf[t] == d[t - 1]);
            assert(buf[k] == 13 && buf[k + 1] == 10);
            lemma_first_crlf_pos(buf, 1, k);
            let line = buf.subrange(1, k);
            assert(line =~= d);
            assert(is_digit_byte(d[0]));
            assert(line != seq![0x2du8, 0x31u8]);
            assert(length_of_digits(line) == Some(l));
            assert(buf[k + 2 + l] == 13 && buf[k + 2 + l + 1] == 10);
            assert(buf.subrange(k + 2, k + 2 + l) =~= p);
        },
        RespVal::Array(xs) => {
            let d = dec_digits(xs.len() as int);
            lemma_dec_digits(xs.len() as int);
            let k = 1 + d.len() as int;
            assert(buf[0] == 0x2a);
            assert(forall|t: int| 1 <= t < k ==> buf[t] == d[t - 1]);
            assert(buf[k] == 13 && buf[k + 1] == 10);
            lemma_first_crlf_pos(buf, 1, k);
            assert(buf.subrange(1, k) =~= d);
            assert(length_of_digits(buf.subrange(1, k)) == Some(xs.len() as int));
            assert(decreases_to!(v => v->Array_0));
            assert(buf.skip(k + 2) =~= encodings(xs) + rest);
            lemma_parse_elems_round_trip(xs, rest);
        },
    }
}

/// Reading the concatenated encodings of well-formed values back, with
/// anything at all after them, yields exactly those values.
proof fn lemma_parse_elems_round_trip(xs: Seq<RespVal>, rest: Seq<u8>)
    requires
        forall|i: int| 0 <= i < xs.len() ==> resp_wf(#[trigger] xs[i]),
    ensures
        spec_parse_elems(encodings(xs) + rest, xs.len() as nat) == Some(
            (xs, encodings(xs).len() as int),
        ),
    decreases xs,
{
    let buf = encodings(xs) + rest;
    if xs.len() == 0 {
        assert(spec_parse_elems(buf, 0) == Some((Seq::<RespVal>::empty(), 0int)));
        assert(Seq::<RespVal>::empty() =~= xs);
    } else {
        let x0 = xs[0];
        let tail = xs.drop_first();
        assert(decreases_to!(xs => xs[0]));
        assert(buf =~= encoding(x0) + (encodings(tail) + rest));
        lemma_parse_round_trip(x0, encodings(tail) + rest);
        let l0 = encoding(x0).len() as int;
        lemma_encoding_len(x0);
        assert(spec_parse(buf) == Some((x0, l0)));
        assert(buf.skip(l0) =~= encodings(tail) + rest);
        lemma_parse_elems_round_trip(tail, rest);
        assert(seq![x0] + tail =~= xs);
    }
}

/// A successful parse consumes at least three bytes and at most the
/// whole stream.
pub proof fn lemma_spec_parse_bounds(buf: Seq<u8>)
    ensures
        spec_parse(buf) matches Some((v, n)) ==> 3 <= n <= buf.len(),
    decreases buf.len(), 0int,
{
    if buf.len() > 0 && buf[0] == 0x2a {
        match first_crlf_from(buf, 1) {
            Some(j) => {
                if 1 <= j && j + 2 <= buf.len() {
                    match length_of_digits(buf.subrange(1, j)) {
                        Some(n) => {
                            lemma_spec_parse_elems_bounds(buf.skip(j + 2), n as nat);
                        },
                        None => {},
                    }
                }
            },
            None => {},
        }
    }
    if buf.len() > 0 && buf[0] == 0x24 {
        match first_crlf_from(buf, 1) {
            Some(j) => {
                if 1 <= j && j + 2 <= buf.len() {
                    let line = buf.subrange(1, j);
                    if line != seq![0x2du8, 0x31u8] {
                        match length_of_digits(line) {
                            Some(l) => {
                                lemma_digits_value_nonneg(line);
                            },
                            None => {},
                        }
                    }
                }
            },
            None => {},
        }
    }
}

/// Parsing a run of values consumes at most the whole stream.
pub proof fn lemma_spec_parse_elems_bounds(buf: Seq<u8>, n: nat)
    ensures
        spec_parse_elems(buf, n) matches Some((xs, used)) ==> 0 <= used <= buf.len(),
    decreases buf.len(), 1int + n,
{
    if n > 0 {
        lemma_spec_parse_bounds(buf);
        match spec_parse(buf) {
            Some((v, used)) => {
                if 1 <= used <= buf.len() {
                    lemma_spec_parse_elems_bounds(buf.skip(used), (n - 1) as nat);
                }
            },
            None => {},
        }
    }
}

/// The first CRLF pair after a stretch of pair-free bytes sits exactly
/// where that stretch ends.
proof fn lemma_first_crlf_pos(buf: Seq<u8>, i: int, k: int)
    requires
        0 <= i <= k,
        k + 2 <= buf.len(),
        buf[k] == 13 && buf[k + 1] == 10,
        forall|t: int| i <= t < k ==> !(#[trigger] buf[t] == 13 && buf[t + 1] == 10),
    ensures
        first_crlf_from(buf, i) == Some(k),
    decreases k - i,
{
    if i < k {
        lemma_first_crlf_pos(buf, i + 1, k);
    }
}

/// A stream without a CRLF pair has no first one.
proof fn lemma_first_crlf_none(buf: Seq<u8>, i: int)
    requires
        0 <= i <= buf.len(),
        forall|t: int| i <= t && t + 2 <= buf.len() ==> !(#[trigger] buf[t] == 13 && buf[t + 1]
            == 10),
    ensures
        first_crlf_from(buf, i) is None,
    decreases buf.len() - i,
{
    if i + 2 <= buf.len() {
        lemma_first_crlf_none(buf, i + 1);
    }
}

/// Scanning for CRLF commutes with dropping a prefix.
proof fn lemma_first_crlf_shift(buf: Seq<u8>, k: int, i: int)
    requires
        0 <= k,
        0 <= i,
        k + i <= buf.len(),
    ensures
        first_crlf_from(buf.skip(k), i) == match first_crlf_from(buf, k + i) {
            Some(j) => Some(j - k),
            None => None::<int>,
        },
    decreases buf.len() - k - i,
{
    let sub = buf.skip(k);
    if i + 2 <= sub.len() {
        assert(sub[i] == buf[k + i]);
        assert(sub[i + 1] == buf[k + i + 1]);
        if !(sub[i] == 13 && sub[i + 1] == 10) {
            lemma_first_crlf_shift(buf, k, i + 1);
        }
    }
}

/// The canonical decimal bytes of an unsigned number.
fn format_u64(n: u64) -> (r: Vec<u8>)
    ensures
        r@ == dec_digits(n as int),
    decreases n,
{
    if n < 10 {
        let r = vec![0x30u8 + (n as u8)];
        proof {
            assert(r@ =~= dec_digits(n as int));
        }
        r
    } else {
        let mut r = format_u64(n / 10);
        r.push(0x30u8 + ((n % 10) as u8));
        proof {
            assert(r@ =~= dec_digits(n as int));
        }
        r
    }
}

/// The canonical decimal bytes of a length.
fn format_usize(n: usize) -> (r: Vec<u8>)
    ensures
        r@ == dec_digits(n as int),
{
    format_u64(n as u64)
}

/// The canonical decimal bytes of a signed number.
fn format_i64(i: i64) -> (r: Vec<u8>)
    ensures
        r@ == int_digits(i as int),
{
    if i >= 0 {
        format_u64(i as u64)
    } else {
        let mag: u64 = ((-(i + 1)) as u64) + 1;
        let mut r = vec![0x2du8];
        let mut d = format_u64(mag);
        r.append(&mut d);
        proof {
            assert(r@ =~= int_digits(i as int));
        }
        r
    }
}

/// A run of bytes below `0x80` is valid UTF-8.
pub proof fn lemma_ascii_valid_utf8(d: Seq<u8>)
    requires
        forall|i: int| 0 <= i < d.len() ==> d[i] < 0x80,
    ensures
        vstd::utf8::valid_utf8(d),
    decreases d.len(),
{
    if d.len() > 0 {
        assert(vstd::utf8::is_leading_byte_width_1(d[0]));
        assert(vstd::utf8::length_of_first_scalar(d) == 1);
        assert(vstd::utf8::pop_first_scalar(d) =~= d.drop_first());
        lemma_ascii_valid_utf8(d.drop_first());
    }
}

/// Valid UTF-8 streams stay valid under concatenation.
pub proof fn lemma_valid_utf8_concat(a: Seq<u8>, b: Seq<u8>)
    requires
        vstd::utf8::valid_utf8(a),
        vstd::utf8::valid_utf8(b),
    ensures
        vstd::utf8::valid_utf8(a + b),
    decreases a.len(),
{
    if a.len() == 0 {
        assert(a + b =~= b);
    } else {
        let w = vstd::utf8::length_of_first_scalar(a);
        assert(1 <= w <= a.len());
        assert forall|t: int| 0 <= t < a.len() implies (a + b)[t] == a[t] by {}
        assert(vstd::utf8::valid_first_scalar(a + b));
        assert(vstd::utf8::length_of_first_scalar(a + b) == w);
        assert(vstd::utf8::pop_first_scalar(a + b) =~= vstd::utf8::pop_first_scalar(a) + b);
        lemma_valid_utf8_concat(vstd::utf8::pop_first_scalar(a), b);
    }
}

/// Every canonical encoding is valid UTF-8: markers, digit lines and
/// terminators are ASCII, and payloads are UTF-8 encodings of text.
pub proof fn lemma_encoding_valid_utf8(v: RespVal)
    ensures
        vstd::utf8::valid_utf8(encoding(v)),
    decreases v,
{
    broadcast use vstd::utf8::encode_utf8_valid_utf8;

    match v {
        RespVal::SimpleString(s) => {
            lemma_ascii_valid_utf8(seq![0x2bu8]);
            lemma_ascii_valid_utf8(crlf());
            lemma_valid_utf8_concat(seq![0x2bu8], encode_utf8(s));
            lemma_valid_utf8_concat(seq![0x2bu8] + encode_utf8(s), crlf());
        },
        RespVal::SimpleError(s) => {
            lemma_ascii_valid_utf8(seq![0x2du8]);
            lemma_ascii_valid_utf8(crlf());
            lemma_valid_utf8_concat(seq![0x2du8], encode_utf8(s));
            lemma_valid_utf8_concat(seq![0x2du8] + encode_utf8(s), crlf());
        },
        RespVal::Integer(i) => {
            if i < 0 {
                lemma_dec_digits(-i);
            } else {
                lemma_dec_digits(i);
            }
            lemma_ascii_valid_utf8(seq![0x3au8] + int_digits(i) + crlf());
        },
        RespVal::BulkString(s) => {
            let l = encode_utf8(s).len() as int;
            lemma_dec_digits(l);
            lemma_ascii_valid_utf8(seq![0x24u8] + dec_digits(l) + crlf());
            lemma_ascii_valid_utf8(crlf());
            lemma_valid_utf8_concat(seq![0x24u8] + dec_digits(l) + crlf(), encode_utf8(s));
            lemma_valid_utf8_concat(
                seq![0x24u8] + dec_digits(l) + crlf() + encode_utf8(s),
                crlf(),
            );
        },
        RespVal::NullBulkString => {
            lemma_ascii_valid_utf8(encoding(v));
        },
        RespVal::Array(xs) => {
            lemma_dec_digits(xs.len() as int);
            lemma_ascii_valid_utf8(seq![0x2au8] + dec_digits(xs.len() as int) + crlf());
            lemma_encodings_valid_utf8(xs);
            lemma_valid_utf8_concat(seq![0x2au8] + dec_digits(xs.len() as int) + crlf(), encodings(
                xs,
            ));
        },
    }
}

/// Concatenated encodings are valid UTF-8.
proof fn lemma_encodings_valid_utf8(xs: Seq<RespVal>)
    ensures
        vstd::utf8::valid_utf8(encodings(xs)),
    decreases xs,
{
    if xs.len() == 0 {
        lemma_ascii_valid_utf8(encodings(xs));
    } else {
        lemma_encoding_valid_utf8(xs.first());
        lemma_encodings_valid_utf8(xs.drop_first());
        lemma_valid_utf8_concat(encoding(xs.first()), encodings(xs.drop_first()));
    }
}

/// Relies on `core::str::from_utf8`: it succeeds exactly on valid
/// UTF-8 and returns the text those bytes encode.
#[verifier::external_body]
pub(crate) fn bytes_to_str(v: &[u8]) -> (r: Option<&str>)
    ensures
        r is Some <==> vstd::utf8::valid_utf8(v@),
        r matches Some(s) ==> s@ == vstd::utf8::decode_utf8(v@),
{
    core::str::from_utf8(v).ok()
}

/// When one more digit would carry the running value past the word
/// size, the whole string denotes no in-range length.
proof fn lemma_usize_digits_overflow(d: Seq<u8>, i: int)
    requires
        0 <= i < d.len(),
        all_digit_bytes(d.subrange(0, i)),
        is_digit_byte(d[i]),
        digits_value(d.subrange(0, i)) * 10 + (d[i] - 0x30) > usize::MAX,
    ensures
        length_of_digits(d) is None,
{
    if all_digit_bytes(d) {
        assert(d.take(i + 1) =~= d.subrange(0, i + 1));
        assert(d.subrange(0, i + 1).drop_last() =~= d.subrange(0, i));
        lemma_digits_value_prefix(d, i + 1);
    }
}

/// When one more digit would carry the running value past `u64::MAX`,
/// the whole line denotes no 64-bit integer.
proof fn lemma_int_line_overflow(d: Seq<u8>, start: int, i: int)
    requires
        0 <= start <= i < d.len(),
        start == 0 || start == 1,
        (start == 1) == (d[0] == 0x2d || d[0] == 0x2b),
        all_digit_bytes(d.subrange(start, i)),
        is_digit_byte(d[i]),
        digits_value(d.subrange(start, i)) * 10 + (d[i] - 0x30) > u64::MAX,
    ensures
        int_line_value(d) is None,
{
    let digits = d.skip(start);
    assert(d.drop_first() =~= d.skip(1));
    assert(d.skip(0) =~= d);
    if all_digit_bytes(digits) {
        assert(digits.take(i + 1 - start) =~= d.subrange(start, i + 1));
        assert(d.subrange(start, i + 1).drop_last() =~= d.subrange(start, i));
        lemma_digits_value_prefix(digits, i + 1 - start);
        assert(digits_value(digits) > u64::MAX);
    }
}

/// Read a signed 64-bit integer line, exactly as [`int_line_value`]
/// describes.
fn parse_int(buf: &[u8]) -> (r: Option<i64>)
    ensures
        match r {
            Some(v) => int_line_value(buf@) == Some(v as int),
            None => int_line_value(buf@) is None,
        },
{
    let n = buf.len();
    if n == 0 {
        return None;
    }
    let b0 = buf[0];
    let neg = b0 == 0x2d;
    let start: usize = if b0 == 0x2d || b0 == 0x2b {
        1
    } else {
        0
    };
    let ghost digits = buf@.skip(start as int);
    proof {
        assert(buf@.drop_first() =~= buf@.skip(1));
        assert(buf@.skip(0) =~= buf@);
    }
    if start >= n {
        return None;
    }
    let mut mag: u64 = 0;
    let mut i: usize = start;
    while i < n
        invariant
            n == buf@.len(),
            start <= i <= n,
            start == 0 || start == 1,
            (start == 1) == (buf@[0] == 0x2d || buf@[0] == 0x2b),
            digits == buf@.skip(start as int),
            digits == (if buf@[0] == 0x2d || buf@[0] == 0x2b {
                buf@.drop_first()
            } else {
                buf@
            }),
            all_digit_bytes(buf@.subrange(start as int, i as int)),
            mag == digits_value(buf@.subrange(start as int, i as int)),
        decreases n - i,
    {
        let b = buf[i];
        if !(b >= 0x30 && b <= 0x39) {
            proof {
                assert(digits[i - start] == buf@[i as int]);
                assert(!all_digit_bytes(digits));
            }
            return None;
        }
        let ghost sofar = buf@.subrange(start as int, i as int);
        proof {
            assert(buf@.subrange(start as int, i + 1).drop_last() =~= sofar);
        }
        let stepped = match mag.checked_mul(10) {
            None => None,
            Some(m) => m.checked_add((b - 0x30) as u64),
        };
        match stepped {
            None => {
                proof {
                    lemma_int_line_overflow(buf@, start as int, i as int);
                }
                return None;
            },
            Some(m2) => {
                mag = m2;
            },
        }
        i += 1;
    }
    proof {
        assert(buf@.subrange(start as int, n as int) =~= digits);
        lemma_digits_value_nonneg(digits);
    }
    if neg {
        if mag > 9223372036854775808u64 {
            return None;
        }
        if mag == 9223372036854775808u64 {
            return Some(i64::MIN);
        }
        Some(-(mag as i64))
    } else {
        if mag > 9223372036854775807u64 {
            return None;
        }
        Some(mag as i64)
    }
}

impl RespType {
    /// Read the bytes up to the first CRLF: the line before it and the
    /// count of bytes through it.
    fn read_util_crlf(buf: &[u8]) -> (r: Option<(&[u8], usize)>)
        ensures
            match r {
                Some(lc) => {
                    &&& first_crlf_from(buf@, 0) == Some(lc.1 - 2)
                    &&& 2 <= lc.1 <= buf@.len()
                    &&& lc.0@ == buf@.subrange(0, lc.1 - 2)
                },
                None => first_crlf_from(buf@, 0) is None,
            },
    {
        let n = buf.len();
        let mut i: usize = 1;
        while i < n
            invariant
                n == buf@.len(),
                1 <= i,
                i <= n || n <= 1,
                forall|t: int|
                    0 <= t < i - 1 ==> !(#[trigger] buf@[t] == 13 && buf@[t + 1] == 10),
            decreases n - i,
        {
            if buf[i - 1] == 13 && buf[i] == 10 {
                proof {
                    lemma_first_crlf_pos(buf@, 0, i - 1);
                }
                let line = &buf[0..i - 1];
                return Some((line, i + 1));
            }
            i += 1;
        }
        proof {
            lemma_first_crlf_none(buf@, 0);
        }
        None
    }

    /// Read a decimal length, exactly as [`length_of_digits`] describes.
    fn parse_usize_from_buf(p0: &[u8]) -> (r: Result<usize, RespError>)
        ensures
            match r {
                Ok(nv) => length_of_digits(p0@) == Some(nv as int),
                Err(_) => length_of_digits(p0@) is None,
            },
    {
        let n = p0.len();
        if n == 0 {
            return Err(RespError::Other("Invalid integer".to_owned()));
        }
        let mut val: usize = 0;
        let mut i: usize = 0;
        while i < n
            invariant
                n == p0@.len(),
                0 <= i <= n,
                all_digit_bytes(p0@.subrange(0, i as int)),
                val == digits_value(p0@.subrange(0, i as int)),
            decreases n - i,
        {
            let b = p0[i];
            if !(b >= 0x30 && b <= 0x39) {
                proof {
                    assert(!is_digit_byte(p0@[i as int]));
                }
                return Err(RespError::Other("Invalid integer".to_owned()));
            }
            let ghost sofar = p0@.subrange(0, i as int);
            proof {
                assert(p0@.subrange(0, i + 1).drop_last() =~= sofar);
            }
            let stepped = match val.checked_mul(10) {
                None => None,
                Some(m) => m.checked_add((b - 0x30) as usize),
            };
            match stepped {
                None => {
                    proof {
                        lemma_usize_digits_overflow(p0@, i as int);
                    }
                    return Err(RespError::Other("Invalid integer".to_owned()));
                },
                Some(m2) => {
                    val = m2;
                },
            }
            i += 1;
        }
        proof {
            assert(p0@.subrange(0, n as int) =~= p0@);
        }
        Ok(val)
    }

    /// Parse the buffer and return the RESP value it begins with and
    /// the number of bytes consumed.
    pub fn parse(buf: &[u8]) -> (r: Result<(RespType, usize), RespError>)
        ensures
            match r {
                Ok(vn) => spec_parse(buf@) == Some((vn.0@, vn.1 as int)),
                Err(_) => spec_parse(buf@) is None,
            },
        decreases buf@.len(), 1int,
    {
        if buf.len() == 0 {
            return Err(RespError::Other("Invalid RESP type".to_owned()));
        }
        let c = buf[0];
        if c == 0x24 {
            Self::parse_bulk_string(buf)
        } else if c == 0x2b {
            Self::parse_simple_string(buf)
        } else if c == 0x2d {
            Self::parse_simple_error(buf)
        } else if c == 0x3a {
            Self::parse_integer(buf)
        } else if c == 0x2a {
            Self::parse_array(buf)
        } else {
            Err(RespError::Other("Invalid RESP type".to_owned()))
        }
    }

    /// Parse the buffer into a SimpleString value and the number of
    /// bytes consumed.
    pub fn parse_simple_string(buf: &[u8]) -> (r: Result<(RespType, usize), RespError>)
        requires
            buf@.len() >= 1,
            buf@[0] == 0x2b,
        ensures
            match r {
                Ok(vn) => spec_parse(buf@) == Some((vn.0@, vn.1 as int)),
                Err(_) => spec_parse(buf@) is None,
            },
    {
        let total = buf.len();
        let rest = buf.split_at(1).1;
        proof {
            assert(rest@ =~= buf@.skip(1));
            assert(rest@.len() == total - 1);
            lemma_first_crlf_shift(buf@, 1, 0);
        }
        match Self::read_util_crlf(rest) {
            None => Err(RespError::InvalidSimpleString("Invalid Simple String".to_owned())),
            Some((line, c)) => {
                proof {
                    assert(line@ =~= buf@.subrange(1, c - 1));
                }
                match bytes_to_str(line) {
                    None => Err(
                        RespError::InvalidSimpleString(
                            "Simple string value is not a valid UTF-8 string".to_owned(),
                        ),
                    ),
                    Some(s) => Ok((RespType::SimpleString(s.to_owned()), 1 + c)),
                }
            },
        }
    }

    /// Parse the buffer into a SimpleError value and the number of
    /// bytes consumed.
    pub fn parse_simple_error(buf: &[u8]) -> (r: Result<(RespType, usize), RespError>)
        requires
            buf@.len() >= 1,
            buf@[0] == 0x2d,
        ensures
            match r {
                Ok(vn) => spec_parse(buf@) == Some((vn.0@, vn.1 as int)),
                Err(_) => spec_parse(buf@) is None,
            },
    {
        let total = buf.len();
        let rest = buf.split_at(1).1;
        proof {
            assert(rest@ =~= buf@.skip(1));
            assert(rest@.len() == total - 1);
            lemma_first_crlf_shift(buf@, 1, 0);
        }
        match Self::read_util_crlf(rest) {
            None => Err(RespError::InvalidSimpleString("Invalid Simple String".to_owned())),
            Some((line, c)) => {
                proof {
                    assert(line@ =~= buf@.subrange(1, c - 1));
                }
                match bytes_to_str(line) {
                    None => Err(
                        RespError::InvalidSimpleString(
                            "Simple string value is not a valid UTF-8 string".to_owned(),
                        ),
                    ),
                    Some(s) => Ok((RespType::SimpleError(s.to_owned()), 1 + c)),
                }
            },
        }
    }

    /// Parse the buffer into an Integer value and the number of bytes
    /// consumed.
    pub fn parse_integer(buf: &[u8]) -> (r: Result<(RespType, usize), RespError>)
        requires
            buf@.len() >= 1,
            buf@[0] == 0x3a,
        ensures
            match r {
                Ok(vn) => spec_parse(buf@) == Some((vn.0@, vn.1 as int)),
                Err(_) => spec_parse(buf@) is None,
            },
    {
        let total = buf.len();
        let rest = buf.split_at(1).1;
        proof {
            assert(rest@ =~= buf@.skip(1));
            assert(rest@.len() == total - 1);
            lemma_first_crlf_shift(buf@, 1, 0);
        }
        match Self::read_util_crlf(rest) {
            None => Err(RespError::Other("Invalid integer".to_owned())),
            Some((line, c)) => {
                proof {
                    assert(line@ =~= buf@.subrange(1, c - 1));
                }
                match parse_int(line) {
                    None => Err(RespError::Other("Invalid integer".to_owned())),
                    Some(i) => Ok((RespType::Integer(i), 1 + c)),
                }
            },
        }
    }

    /// Parse the buffer into a BulkString or NullBulkString value and
    /// the number of bytes consumed.
    pub fn parse_bulk_string(buf: &[u8]) -> (r: Result<(RespType, usize), RespError>)
        requires
            buf@.len() >= 1,
            buf@[0] == 0x24,
        ensures
            match r {
                Ok(vn) => spec_parse(buf@) == Some((vn.0@, vn.1 as int)),
                Err(_) => spec_parse(buf@) is None,
            },
    {
        let total = buf.len();
        let rest = buf.split_at(1).1;
        proof {
            assert(rest@ =~= buf@.skip(1));
            assert(rest@.len() == total - 1);
            lemma_first_crlf_shift(buf@, 1, 0);
        }
        let (line, c) = match Self::read_util_crlf(rest) {
            None => {
                return Err(RespError::InvalidBulkString("Invalid Bulk String".to_owned()));
            },
            Some(lc) => lc,
        };
        proof {
            assert(line@ =~= buf@.subrange(1, c - 1));
        }
        if line.len() == 2 && line[0] == 0x2d && line[1] == 0x31 {
            proof {
                assert(line@ =~= seq![0x2du8, 0x31u8]);
            }
            return Ok((RespType::NullBulkString, 1 + c));
        }
        proof {
            assert(line@ != seq![0x2du8, 0x31u8]);
        }
        let l = match Self::parse_usize_from_buf(line) {
            Err(_) => {
                return Err(
                    RespError::InvalidBulkString("Invalid value for bulk string length".to_owned()),
                );
            },
            Ok(l) => l,
        };
        let hdr = 1 + c;
        let avail = buf.len() - hdr;
        if avail < 2 || avail - 2 < l {
            return Err(RespError::InvalidBulkString("Invalid Bulk String".to_owned()));
        }
        if !(buf[hdr + l] == 13 && buf[hdr + l + 1] == 10) {
            return Err(RespError::InvalidBulkString("Invalid Bulk String".to_owned()));
        }
        let payload = &buf[hdr..hdr + l];
        proof {
            assert(payload@ =~= buf@.subrange(hdr as int, hdr + l));
        }
        match bytes_to_str(payload) {
            None => Err(
                RespError::InvalidBulkString(
                    "Bulk string value is not a valid UTF-8 string".to_owned(),
                ),
            ),
            Some(s) => Ok((RespType::BulkString(s.to_owned()), hdr + l + 2)),
        }
    }

    /// Parse the buffer into an Array value and the number of bytes
    /// consumed.
    pub fn parse_array(buf: &[u8]) -> (r: Result<(RespType, usize), RespError>)
        requires
            buf@.len() >= 1,
            buf@[0] == 0x2a,
        ensures
            match r {
                Ok(vn) => spec_parse(buf@) == Some((vn.0@, vn.1 as int)),
                Err(_) => spec_parse(buf@) is None,
            },
        decreases buf@.len(), 0int,
    {
        let total = buf.len();
        let rest = buf.split_at(1).1;
        proof {
            assert(rest@ =~= buf@.skip(1));
            assert(rest@.len() == total - 1);
            lemma_first_crlf_shift(buf@, 1, 0);
        }
        let (line, c) = match Self::read_util_crlf(rest) {
            None => {
                return Err(RespError::InvalidArray("Invalid Array".to_owned()));
            },
            Some(lc) => lc,
        };
        proof {
            assert(line@ =~= buf@.subrange(1, c - 1));
        }
        let arr_len = match Self::parse_usize_from_buf(line) {
            Err(_) => {
                return Err(RespError::InvalidArray("Invalid Array".to_owned()));
            },
            Ok(n) => n,
        };
        let hdr = 1 + c;
        let mut arr: Vec<RespType> = Vec::new();
        let mut consumed: usize = hdr;
        let ghost whole = spec_parse_elems(buf@.skip(hdr as int), arr_len as nat);
        let mut i: usize = 0;
        while i < arr_len
            invariant
                buf@.len() >= 1,
                buf@[0] == 0x2a,
                total == buf@.len(),
                3 <= hdr <= buf@.len(),
                first_crlf_from(buf@, 1) == Some(hdr - 2),
                length_of_digits(buf@.subrange(1, hdr - 2)) == Some(arr_len as int),
                hdr <= consumed <= buf@.len(),
                0 <= i <= arr_len,
                arr@.len() == i,
                whole == spec_parse_elems(buf@.skip(hdr as int), arr_len as nat),
                match spec_parse_elems(buf@.skip(consumed as int), (arr_len - i) as nat) {
                    None => whole is None,
                    Some(t) => whole == Some(
                        (resp_vals_of(arr@) + t.0, (consumed - hdr) + t.1),
                    ),
                },
            decreases arr_len - i,
        {
            let sub = buf.split_at(consumed).1;
            let ghost subv = buf@.skip(consumed as int);
            proof {
                assert(sub@ =~= subv);
                assert(subv.len() == total - consumed);
            }
            match Self::parse(sub) {
                Err(_) => {
                    proof {
                        assert(spec_parse_elems(subv, (arr_len - i) as nat) is None);
                    }
                    return Err(RespError::InvalidArray("Invalid Array".to_owned()));
                },
                Ok((v, u)) => {
                    proof {
                        lemma_spec_parse_bounds(subv);
                        assert(subv.skip(u as int) =~= buf@.skip(consumed + u));
                        lemma_resp_vals_of(arr@);
                    }
                    let ghost prev = arr@;
                    arr.push(v);
                    consumed = consumed + u;
                    proof {
                        lemma_resp_vals_of(prev);
                        lemma_resp_vals_of(arr@);
                        assert(resp_vals_of(arr@) =~= resp_vals_of(prev) + seq![v@]);
                        match spec_parse_elems(buf@.skip(consumed as int), (arr_len - i - 1) as nat) {
                            None => {},
                            Some(t2) => {
                                assert(resp_vals_of(prev) + (seq![v@] + t2.0) =~= resp_vals_of(
                                    arr@,
                                ) + t2.0);
                            },
                        }
                    }
                    i += 1;
                },
            }
        }
        proof {
            assert(spec_parse_elems(buf@.skip(consumed as int), 0) == Some(
                (Seq::<RespVal>::empty(), 0int),
            ));
            assert(resp_vals_of(arr@) + Seq::<RespVal>::empty() =~= resp_vals_of(arr@));
        }
        Ok((RespType::Array(arr), consumed))
    }

    /// Parses the length of a RESP array from the given byte buffer:
    /// the declared element count and the bytes of the header line.
    /// Any run of digits is read, leading zeros included; the stream
    /// decoder in [`crate::resp::frame`] is stricter and takes only
    /// canonical headers.
    pub fn parse_array_len(buf: &[u8]) -> (r: Result<(usize, usize), RespError>)
        ensures
            match r {
                Ok(nc) => header_line_spec(buf@, 0x2a) == Some((nc.0 as int, nc.1 as int)),
                Err(_) => header_line_spec(buf@, 0x2a) is None,
            },
    {
        let (line, c) = match Self::read_util_crlf(buf) {
            None => {
                return Err(RespError::InvalidArray("Invalid Array".to_owned()));
            },
            Some(lc) => lc,
        };
        if c < 4 || line[0] != 0x2a {
            return Err(RespError::InvalidArray("Not a valid RESP array".to_owned()));
        }
        let digits = line.split_at(1).1;
        proof {
            assert(digits@ =~= buf@.subrange(1, c - 2));
        }
        match Self::parse_usize_from_buf(digits) {
            Ok(n) => Ok((n, c)),
            Err(e) => Err(e),
        }
    }

    /// Parses the length of a RESP bulk string from the given byte
    /// buffer: the declared payload length and the bytes of the header
    /// line.
    pub fn parse_bulk_string_len(buf: &[u8]) -> (r: Result<(usize, usize), RespError>)
        ensures
            match r {
                Ok(nc) => header_line_spec(buf@, 0x24) == Some((nc.0 as int, nc.1 as int)),
                Err(_) => header_line_spec(buf@, 0x24) is None,
            },
    {
        let (line, c) = match Self::read_util_crlf(buf) {
            None => {
                return Err(RespError::InvalidBulkString("Invalid Bulk String".to_owned()));
            },
            Some(lc) => lc,
        };
        if c < 4 || line[0] != 0x24 {
            return Err(RespError::InvalidBulkString("Not a valid RESP bulk string".to_owned()));
        }
        let digits = line.split_at(1).1;
        proof {
            assert(digits@ =~= buf@.subrange(1, c - 2));
        }
        match Self::parse_usize_from_buf(digits) {
            Ok(n) => Ok((n, c)),
            Err(e) => Err(e),
        }
    }

    /// Convert the RESP value into its canonical wire bytes.
    pub fn to_bytes(&self) -> (r: Vec<u8>)
        ensures
            r@ == encoding(self@),
        decreases *self,
    {
        match self {
            RespType::SimpleString(s) => {
                let mut r: Vec<u8> = vec![0x2bu8];
                let mut b = s.as_str().as_bytes_vec();
                r.append(&mut b);
                r.push(13);
                r.push(10);
                proof {
                    assert(r@ =~= encoding(self@));
                }
                r
            },
            RespType::SimpleError(s) => {
                let mut r: Vec<u8> = vec![0x2du8];
                let mut b = s.as_str().as_bytes_vec();
                r.append(&mut b);
                r.push(13);
                r.push(10);
                proof {
                    assert(r@ =~= encoding(self@));
                }
                r
            },
            RespType::Integer(i) => {
                let mut r: Vec<u8> = vec![0x3au8];
                let mut d = format_i64(*i);
                r.append(&mut d);
                r.push(13);
                r.push(10);
                proof {
                    assert(r@ =~= encoding(self@));
                }
                r
            },
            RespType::NullBulkString => {
                let r: Vec<u8> = vec![0x24u8, 0x2du8, 0x31u8, 13u8, 10u8];
                proof {
                    assert(r@ =~= encoding(self@));
                }
                r
            },
            RespType::BulkString(s) => {
                let mut b = s.as_str().as_bytes_vec();
                let mut r: Vec<u8> = vec![0x24u8];
                let mut d = format_usize(b.len());
                r.append(&mut d);
                r.push(13);
                r.push(10);
                r.append(&mut b);
                r.push(13);
                r.push(10);
                proof {
                    assert(r@ =~= encoding(self@));
                }
                r
            },
            RespType::Array(xs) => {
                let ghost vals = resp_vals_of(xs@);
                proof {
                    lemma_resp_vals_of(xs@);
                }
                let mut r: Vec<u8> = vec![0x2au8];
                let mut d = format_usize(xs.len());
                r.append(&mut d);
                r.push(13);
                r.push(10);
                let ghost header = r@;
                let n = xs.len();
                let mut i: usize = 0;
                while i < n
                    invariant
                        *self == RespType::Array(*xs),
                        n == xs@.len(),
                        0 <= i <= n,
                        vals == resp_vals_of(xs@),
                        vals.len() == n,
                        forall|j: int| 0 <= j < n ==> vals[j] == resp_val_of(xs@[j]),
                        r@ == header + encodings(vals.take(i as int)),
                    decreases n - i,
                {
                    proof {
                        assert(decreases_to!(*self => self->Array_0));
                        assert(self->Array_0 == *xs);
                        assert(decreases_to!(*xs => xs@));
                        assert(decreases_to!(xs@ => xs@[i as int]));
                    }
                    let mut eb = xs[i].to_bytes();
                    r.append(&mut eb);
                    proof {
                        lemma_encodings_snoc(vals, i as int);
                        assert(r@ =~= header + encodings(vals.take(i + 1)));
                    }
                    i += 1;
                }
                proof {
                    assert(vals.take(n as int) =~= vals);
                    assert(r@ =~= encoding(self@));
                }
                r
            },
        }
    }
}

} // verus!
