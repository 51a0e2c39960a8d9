use vstd::prelude::*;
use vstd::string::*;
use vstd::utf8::*;

use crate::error::RedisError;

verus! {

/// The mathematical model of a protocol value: text payloads are kept as
/// their UTF-8 bytes.
pub enum RespValue {
    Simple(Seq<u8>),
    Error(Seq<u8>),
    Int(int),
    Bulk(Seq<u8>),
    Array(Seq<RespValue>),
    Null,
}

/// A protocol value.
#[derive(Debug)]
pub enum RespType {
    SimpleStrings(String),
    SimpleErrors(String),
    Integers(i64),
    BulkStrings(Vec<u8>),
    Arrays(Vec<RespType>),
    Nulls,
}

impl RespType {
    pub open spec fn view(&self) -> RespValue
        decreases self,
    {
        match self {
            RespType::SimpleStrings(s) => RespValue::Simple(encode_utf8(s@)),
            RespType::SimpleErrors(s) => RespValue::Error(encode_utf8(s@)),
            RespType::Integers(i) => RespValue::Int(*i as int),
            RespType::BulkStrings(b) => RespValue::Bulk(b@),
            RespType::Arrays(items) => RespValue::Array(
                Seq::new(
                    items.len() as nat,
                    |i: int|
                        if 0 <= i < items.len() {
                            items[i].view()
                        } else {
                            RespValue::Null
                        },
                ),
            ),
            RespType::Nulls => RespValue::Null,
        }
    }
}

/// A carriage return followed by a line feed.
pub open spec fn crlf() -> Seq<u8> {
    seq![13u8, 10u8]
}

/// The position of the first CRLF that starts at or after `i`.
pub open spec fn find_crlf(s: Seq<u8>, i: int) -> Option<int>
    decreases s.len() - i,
{
    if i < 0 || i + 1 >= s.len() {
        None
    } else if s[i] == 13u8 && s[i + 1] == 10u8 {
        Some(i)
    } else {
        find_crlf(s, i + 1)
    }
}

pub open spec fn is_digit(b: u8) -> bool {
    48u8 <= b <= 57u8
}

pub open spec fn all_digits(t: Seq<u8>) -> bool {
    forall|k: int| 0 <= k < t.len() ==> is_digit(#[trigger] t[k])
}

/// The number written by a sequence of decimal digits.
pub open spec fn digits_value(t: Seq<u8>) -> nat
    decreases t.len(),
{
    if t.len() == 0 {
        0
    } else {
        digits_value(t.drop_last()) * 10 + (t.last() - 48) as nat
    }
}

/// A base-10 signed integer with an optional leading sign, which must fit
/// in 64 bits.
pub open spec fn parse_int(t: Seq<u8>) -> Option<int> {
    let neg = t.len() > 0 && t[0] == 45u8;
    let d = if t.len() > 0 && (t[0] == 45u8 || t[0] == 43u8) {
        t.drop_first()
    } else {
        t
    };
    if d.len() == 0 || !all_digits(d) {
        None
    } else {
        let v = if neg {
            -(digits_value(d) as int)
        } else {
            digits_value(d) as int
        };
        if i64::MIN <= v <= i64::MAX {
            Some(v)
        } else {
            None
        }
    }
}

/// The shortest decimal writing of `n`.
pub open spec fn decimal(n: nat) -> Seq<u8>
    decreases n,
{
    if n < 10 {
        seq![(n + 48) as u8]
    } else {
        decimal(n / 10).push((n % 10 + 48) as u8)
    }
}

pub open spec fn int_text(i: int) -> Seq<u8> {
    if i < 0 {
        seq![45u8] + decimal((-i) as nat)
    } else {
        decimal(i as nat)
    }
}

/// The wire form of a value.
pub open spec fn encode(v: RespValue) -> Seq<u8>
    decreases v, 0int,
{
    match v {
        RespValue::Simple(p) => seq![43u8] + p + crlf(),
        RespValue::Error(p) => seq![45u8] + p + crlf(),
        RespValue::Int(i) => seq![58u8] + int_text(i) + crlf(),
        RespValue::Bulk(b) => seq![36u8] + decimal(b.len()) + crlf() + b + crlf(),
        RespValue::Array(items) => seq![42u8] + decimal(items.len()) + crlf() + encode_from(
            items,
            0,
        ),
        RespValue::Null => seq![36u8, 45u8, 49u8] + crlf(),
    }
}

/// The wire forms of `items[k..]`, back to back.
pub open spec fn encode_from(items: Seq<RespValue>, k: int) -> Seq<u8>
    decreases items, items.len() - k,
{
    if k < 0 || k >= items.len() {
        Seq::empty()
    } else {
        encode(items[k]) + encode_from(items, k + 1)
    }
}

/// What decoding the bytes of `s` from position `i` gives: the value and
/// the position just past it, or `None` where the bytes are not a value.
pub open spec fn decode_at(s: Seq<u8>, i: int) -> Option<(RespValue, int)>
    decreases s.len() - i, 0int,
{
    if i < 0 || i >= s.len() {
        None
    } else {
        match find_crlf(s, i + 1) {
            None => None,
            Some(c) => {
                let tag = s[i];
                let text = s.subrange(i + 1, c);
                let next = c + 2;
                if !(i < c && next <= s.len()) {
                    None
                } else if tag == 43u8 {
                    if valid_utf8(text) {
                        Some((RespValue::Simple(text), next))
                    } else {
                        None
                    }
                } else if tag == 45u8 {
                    if valid_utf8(text) {
                        Some((RespValue::Error(text), next))
                    } else {
                        None
                    }
                } else if tag == 58u8 {
                    match parse_int(text) {
                        Some(n) => Some((RespValue::Int(n), next)),
                        None => None,
                    }
                } else if tag == 36u8 {
                    match parse_int(text) {
                        Some(n) => if n == -1 {
                            Some((RespValue::Null, next))
                        } else if 0 <= n && next + n + 2 <= s.len() && s[next + n] == 13u8 && s[next
                            + n + 1] == 10u8 {
                            Some((RespValue::Bulk(s.subrange(next, next + n)), next + n + 2))
                        } else {
                            None
                        },
                        None => None,
                    }
                } else if tag == 42u8 {
                    match parse_int(text) {
                        Some(n) => if n >= 0 {
                            match decode_many(s, next, n as nat) {
                                Some((items, e)) => Some((RespValue::Array(items), e)),
                                None => None,
                            }
                        } else {
                            None
                        },
                        None => None,
                    }
                } else {
                    None
                }
            },
        }
    }
}

/// Decoding `n` values in sequence from position `i`.
pub open spec fn decode_many(s: Seq<u8>, i: int, n: nat) -> Option<(Seq<RespValue>, int)>
    decreases s.len() - i, 1int,
{
    if n == 0 {
        Some((Seq::empty(), i))
    } else {
        match decode_at(s, i) {
            Some((v, j)) => if i < j <= s.len() {
                match decode_many(s, j, (n - 1) as nat) {
                    Some((vs, k)) => Some((seq![v] + vs, k)),
                    None => None,
                }
            } else {
                None
            },
            None => None,
        }
    }
}

pub open spec fn no_cr_lf(p: Seq<u8>) -> bool {
    forall|k: int| 0 <= k < p.len() ==> #[trigger] p[k] != 13u8 && p[k] != 10u8
}

/// A value that the protocol can carry: status texts are UTF-8 without CR or
/// LF bytes, and integers fit in 64 bits.
pub open spec fn well_formed(v: RespValue) -> bool
    decreases v,
{
    match v {
        RespValue::Simple(p) => valid_utf8(p) && no_cr_lf(p),
        RespValue::Error(p) => valid_utf8(p) && no_cr_lf(p),
        RespValue::Int(i) => i64::MIN <= i <= i64::MAX,
        RespValue::Bulk(b) => b.len() <= i64::MAX,
        RespValue::Array(items) => items.len() <= i64::MAX && forall|k: int|
            0 <= k < items.len() ==> well_formed(#[trigger] items[k]),
        RespValue::Null => true,
    }
}

proof fn lemma_decimal(n: nat)
    ensures
        decimal(n).len() > 0,
        all_digits(decimal(n)),
        digits_value(decimal(n)) == n,
    decreases n,
{
    let d = decimal(n);
    if n < 10 {
        assert(d.drop_last() =~= Seq::<u8>::empty());
        assert(d.last() as int == n + 48);
        assert(digits_value(d) == digits_value(d.drop_last()) * 10 + (d.last() - 48) as nat);
    } else {
        lemma_decimal(n / 10);
        assert(d.drop_last() =~= decimal(n / 10));
        assert(n == (n / 10) * 10 + n % 10) by (nonlinear_arith);
        assert(d.last() as int == n % 10 + 48);
        assert(digits_value(d) == digits_value(d.drop_last()) * 10 + (d.last() - 48) as nat);
        assert forall|k: int| 0 <= k < d.len() implies is_digit(#[trigger] d[k]) by {
            if k < d.len() - 1 {
                assert(d[k] == decimal(n / 10)[k]);
            }
        }
    }
}

proof fn lemma_parse_int_text(i: int)
    requires
        i64::MIN <= i <= i64::MAX,
    ensures
        parse_int(int_text(i)) == Some(i),
        no_cr_lf(int_text(i)),
{
    let t = int_text(i);
    if i < 0 {
        lemma_decimal((-i) as nat);
        assert(t.drop_first() =~= decimal((-i) as nat));
    } else {
        lemma_decimal(i as nat);
    }
    assert forall|k: int| 0 <= k < t.len() implies #[trigger] t[k] != 13u8 && t[k] != 10u8 by {
        if i < 0 && k > 0 {
            assert(t[k] == decimal((-i) as nat)[k - 1]);
        }
    }
}

proof fn lemma_parse_decimal(n: nat)
    requires
        n <= i64::MAX,
    ensures
        parse_int(decimal(n)) == Some(n as int),
        no_cr_lf(decimal(n)),
{
    lemma_parse_int_text(n as int);
}

/// The first CRLF after a stretch without CR bytes is the one that ends it.
proof fn lemma_find_crlf(s: Seq<u8>, i: int, c: int)
    requires
        0 <= i <= c,
        c + 1 < s.len(),
        s[c] == 13u8,
        s[c + 1] == 10u8,
        forall|k: int| i <= k < c ==> #[trigger] s[k] != 13u8,
    ensures
        find_crlf(s, i) == Some(c),
    decreases c - i,
{
    if i < c {
        lemma_find_crlf(s, i + 1, c);
    }
}

proof fn lemma_at(s: Seq<u8>, i: int, e: Seq<u8>)
    requires
        0 <= i,
        i + e.len() <= s.len(),
        s.subrange(i, i + e.len()) == e,
    ensures
        forall|k: int| 0 <= k < e.len() ==> s[i + k] == #[trigger] e[k],
{
    assert forall|k: int| 0 <= k < e.len() implies s[i + k] == #[trigger] e[k] by {
        assert(s.subrange(i, i + e.len())[k] == s[i + k]);
    }
}

proof fn lemma_sub(s: Seq<u8>, i: int, e: Seq<u8>, a: int, b: int)
    requires
        0 <= i,
        0 <= a <= b <= e.len(),
        i + e.len() <= s.len(),
        s.subrange(i, i + e.len()) == e,
    ensures
        s.subrange(i + a, i + b) == e.subrange(a, b),
{
    assert(s.subrange(i + a, i + b) =~= s.subrange(i, i + e.len()).subrange(a, b));
}

/// Decoding a header line `<tag><text>\r\n` written at `i`: the CRLF found is
/// the one after `text`.
proof fn lemma_header(s: Seq<u8>, i: int, e: Seq<u8>, text: Seq<u8>)
    requires
        0 <= i,
        i + e.len() <= s.len(),
        s.subrange(i, i + e.len()) == e,
        text.len() + 3 <= e.len(),
        e.subrange(1, text.len() + 3 as int) == text + crlf(),
        no_cr_lf(text),
    ensures
        find_crlf(s, i + 1) == Some(i + 1 + text.len()),
        s.subrange(i + 1, i + 1 + text.len()) == text,
{
    let c = i + 1 + text.len();
    lemma_at(s, i, e);
    assert(e.subrange(1, text.len() + 3 as int)[text.len() as int] == e[c - i]);
    assert(e.subrange(1, text.len() + 3 as int)[text.len() + 1 as int] == e[c + 1 - i]);
    assert(s[c] == e[c - i]);
    assert(s[c + 1] == e[c + 1 - i]);
    assert forall|k: int| i + 1 <= k < c implies #[trigger] s[k] != 13u8 by {
        assert(s[k] == e[k - i]);
        assert(e.subrange(1, text.len() + 3 as int)[k - i - 1] == e[k - i]);
        assert(text[k - i - 1] != 13u8);
    }
    lemma_find_crlf(s, i + 1, c);
    lemma_sub(s, i, e, 1, text.len() + 1 as int);
    assert(e.subrange(1, text.len() + 1 as int) =~= text) by {
        assert forall|k: int| 0 <= k < text.len() implies e.subrange(1, text.len() + 1 as int)[k]
            == text[k] by {
            assert(e.subrange(1, text.len() + 3 as int)[k] == e[k + 1]);
        }
    }
}

proof fn lemma_decode_encode_line(s: Seq<u8>, i: int, v: RespValue)
    requires
        well_formed(v),
        !(v is Bulk || v is Array),
        0 <= i,
        i + encode(v).len() <= s.len(),
        s.subrange(i, i + encode(v).len()) == encode(v),
    ensures
        decode_at(s, i) == Some((v, i + encode(v).len())),
{
    let e = encode(v);
    lemma_at(s, i, e);
    assert(s[i] == e[0]);
    match v {
        RespValue::Simple(p) => {
            assert(e.subrange(1, p.len() + 3 as int) =~= p + crlf());
            lemma_header(s, i, e, p);
        },
        RespValue::Error(p) => {
            assert(e.subrange(1, p.len() + 3 as int) =~= p + crlf());
            lemma_header(s, i, e, p);
        },
        RespValue::Int(n) => {
            let t = int_text(n);
            lemma_parse_int_text(n);
            assert(e.subrange(1, t.len() + 3 as int) =~= t + crlf());
            lemma_header(s, i, e, t);
        },
        _ => {
            let t = seq![45u8, 49u8];
            assert(e.subrange(1, 5) =~= t + crlf());
            lemma_header(s, i, e, t);
            let d = seq![49u8];
            assert(t.drop_first() =~= d);
            assert(d.drop_last() =~= Seq::<u8>::empty());
            assert(digits_value(Seq::<u8>::empty()) == 0);
            assert(digits_value(d) == digits_value(d.drop_last()) * 10 + (d.last() - 48) as nat);
            assert(all_digits(d));
        },
    }
}

proof fn lemma_decode_encode_bulk(s: Seq<u8>, i: int, b: Seq<u8>)
    requires
        well_formed(RespValue::Bulk(b)),
        0 <= i,
        i + encode(RespValue::Bulk(b)).len() <= s.len(),
        s.subrange(i, i + encode(RespValue::Bulk(b)).len()) == encode(RespValue::Bulk(b)),
    ensures
        decode_at(s, i) == Some((RespValue::Bulk(b), i + encode(RespValue::Bulk(b)).len())),
{
    let e = encode(RespValue::Bulk(b));
    lemma_at(s, i, e);
    assert(s[i] == e[0]);
    let t = decimal(b.len());
    lemma_parse_decimal(b.len());
    assert(e.subrange(1, t.len() + 3 as int) =~= t + crlf());
    lemma_header(s, i, e, t);
    let next = i + 1 + t.len() + 2;
    let n = b.len() as int;
    assert(s[next + n] == e[next + n - i]);
    assert(s[next + n + 1] == e[next + n + 1 - i]);
    lemma_sub(s, i, e, next - i, next + n - i);
    assert(e.subrange(next - i, next + n - i) =~= b);
}

/// Decoding the wire form of a well-formed value, written at `i`, gives the
/// value back and stops at the end of that wire form.
pub proof fn lemma_decode_encode(s: Seq<u8>, i: int, v: RespValue)
    requires
        well_formed(v),
        0 <= i,
        i + encode(v).len() <= s.len(),
        s.subrange(i, i + encode(v).len()) == encode(v),
    ensures
        decode_at(s, i) == Some((v, i + encode(v).len())),
    decreases v, 0int,
{
    match v {
        RespValue::Bulk(b) => lemma_decode_encode_bulk(s, i, b),
        RespValue::Array(items) => {
            let e = encode(v);
            lemma_at(s, i, e);
            assert(s[i] == e[0]);
            let t = decimal(items.len());
            lemma_parse_decimal(items.len());
            assert(e.subrange(1, t.len() + 3 as int) =~= t + crlf());
            lemma_header(s, i, e, t);
            let next = i + 1 + t.len() + 2;
            let rest = encode_from(items, 0);
            lemma_sub(s, i, e, next - i, e.len() as int);
            assert(e.subrange(next - i, e.len() as int) =~= rest);
            lemma_decode_encode_from(s, next, items, 0);
            assert(items.subrange(0, items.len() as int) =~= items);
        },
        _ => lemma_decode_encode_line(s, i, v),
    }
}

/// Decoding the wire forms of `items[k..]`, written back to back at `j`,
/// gives those items.
pub proof fn lemma_decode_encode_from(s: Seq<u8>, j: int, items: Seq<RespValue>, k: int)
    requires
        0 <= k <= items.len(),
        forall|m: int| 0 <= m < items.len() ==> well_formed(#[trigger] items[m]),
        0 <= j,
        j + encode_from(items, k).len() <= s.len(),
        s.subrange(j, j + encode_from(items, k).len()) == encode_from(items, k),
    ensures
        decode_many(s, j, (items.len() - k) as nat) == Some(
            (items.subrange(k, items.len() as int), j + encode_from(items, k).len()),
        ),
    decreases items, items.len() - k,
{
    if k < items.len() {
        let e = encode_from(items, k);
        let e1 = encode(items[k]);
        assert(e1.len() > 0);
        lemma_sub(s, j, e, 0, e1.len() as int);
        assert(e.subrange(0, e1.len() as int) =~= e1);
        lemma_sub(s, j, e, e1.len() as int, e.len() as int);
        assert(e.subrange(e1.len() as int, e.len() as int) =~= encode_from(items, k + 1));
        lemma_decode_encode(s, j, items[k]);
        lemma_decode_encode_from(s, j + e1.len(), items, k + 1);
        assert(seq![items[k]] + items.subrange(k + 1, items.len() as int) =~= items.subrange(
            k,
            items.len() as int,
        ));
    } else {
        assert(items.subrange(k, items.len() as int) =~= Seq::<RespValue>::empty());
    }
}

/// What decoding a whole buffer gives: the value and the bytes after it.
pub open spec fn parse(s: Seq<u8>) -> Option<(RespValue, Seq<u8>)> {
    match decode_at(s, 0) {
        Some((v, e)) => Some((v, s.subrange(e, s.len() as int))),
        None => None,
    }
}

/// Decoding the wire form of any well-formed value gives that value back,
/// with nothing left over.
pub proof fn lemma_round_trip(v: RespValue)
    requires
        well_formed(v),
    ensures
        parse(encode(v)) == Some((v, Seq::<u8>::empty())),
{
    let e = encode(v);
    assert(e.subrange(0, e.len() as int) =~= e);
    lemma_decode_encode(e, 0, v);
    assert(e.subrange(e.len() as int, e.len() as int) =~= Seq::<u8>::empty());
}

/// Two values written back to back decode one at a time: the first decode
/// gives the first value and exactly the wire form of the second as the
/// rest, and decoding that rest gives the second value with nothing left.
pub proof fn lemma_pipelined(v: RespValue, w: RespValue)
    requires
        well_formed(v),
        well_formed(w),
    ensures
        parse(encode(v) + encode(w)) == Some((v, encode(w))),
        parse(encode(w)) == Some((w, Seq::<u8>::empty())),
{
    let s = encode(v) + encode(w);
    assert(s.subrange(0, encode(v).len() as int) =~= encode(v));
    lemma_decode_encode(s, 0, v);
    assert(s.subrange(encode(v).len() as int, s.len() as int) =~= encode(w));
    lemma_round_trip(w);
}

/// How an executable decoding result stands to the decoding of the model.
pub open spec fn decoded(r: Result<(RespType, usize), RedisError>, d: Option<(RespValue, int)>) -> bool {
    match r {
        Ok((v, e)) => d == Some((v@, e as int)),
        Err(err) => d is None && err == RedisError::ProtocolError,
    }
}

/// The position of the first CRLF at or after `from`.
fn split_crlf_once(buf: &[u8], from: usize) -> (r: Option<(usize, usize)>)
    ensures
        match r {
            Some((c, next)) => find_crlf(buf@, from as int) == Some(c as int) && from <= c && c + 1
                < buf@.len() && next == c + 2,
            None => find_crlf(buf@, from as int) is None,
        },
{
    let mut j = from;
    while j < buf.len() && j + 1 < buf.len()
        invariant
            from <= j,
            find_crlf(buf@, from as int) == find_crlf(buf@, j as int),
        decreases buf.len() - j,
    {
        if buf[j] == 13u8 && buf[j + 1] == 10u8 {
            return Some((j, j + 2));
        }
        j = j + 1;
    }
    None
}

/// Whether a CRLF stands at `mid`.
fn split_crlf_at(buf: &[u8], mid: usize) -> (r: bool)
    ensures
        r == (mid + 1 < buf@.len() && buf@[mid as int] == 13u8 && buf@[mid + 1] == 10u8),
{
    mid < buf.len() && buf.len() - mid > 1 && buf[mid] == 13u8 && buf[mid + 1] == 10u8
}

pub(crate) fn copy_range(buf: &[u8], a: usize, b: usize) -> (r: Vec<u8>)
    requires
        a <= b <= buf@.len(),
    ensures
        r@ == buf@.subrange(a as int, b as int),
{
    let mut out: Vec<u8> = Vec::new();
    let mut k = a;
    while k < b
        invariant
            a <= k <= b <= buf@.len(),
            out@ == buf@.subrange(a as int, k as int),
        decreases b - k,
    {
        out.push(buf[k]);
        assert(buf@.subrange(a as int, k + 1) =~= buf@.subrange(a as int, k as int).push(buf@[k as int]));
        k = k + 1;
    }
    out
}

pub(crate) proof fn lemma_digits_prefix(d: Seq<u8>, m: int)
    requires
        all_digits(d),
        0 <= m <= d.len(),
    ensures
        digits_value(d.subrange(0, m)) <= digits_value(d),
    decreases d.len(),
{
    if m < d.len() {
        let p = d.drop_last();
        assert(all_digits(p)) by {
            assert forall|k: int| 0 <= k < p.len() implies is_digit(#[trigger] p[k]) by {
                assert(p[k] == d[k]);
            }
        }
        lemma_digits_prefix(p, m);
        assert(p.subrange(0, m) =~= d.subrange(0, m));
    } else {
        assert(d.subrange(0, m) =~= d);
    }
}

/// Magnitude of the most negative 64-bit integer.
const MAGNITUDE_LIMIT: u64 = 9223372036854775808;

/// Reads the signed decimal integer written in `buf[start..end]`.
fn parse_int_range(buf: &[u8], start: usize, end: usize) -> (r: Option<i64>)
    requires
        start <= end <= buf@.len(),
    ensures
        match r {
            Some(n) => parse_int(buf@.subrange(start as int, end as int)) == Some(n as int),
            None => parse_int(buf@.subrange(start as int, end as int)) is None,
        },
{
    let ghost t = buf@.subrange(start as int, end as int);
    let mut k = start;
    let mut neg = false;
    if start < end && (buf[start] == 45u8 || buf[start] == 43u8) {
        neg = buf[start] == 45u8;
        k = start + 1;
    }
    let ghost d = buf@.subrange(k as int, end as int);
    assert(d =~= if t.len() > 0 && (t[0] == 45u8 || t[0] == 43u8) {
        t.drop_first()
    } else {
        t
    });
    assert(neg == (t.len() > 0 && t[0] == 45u8));
    if k == end {
        return None;
    }
    let mut acc: u64 = 0;
    let mut j = k;
    assert(buf@.subrange(k as int, j as int) =~= Seq::<u8>::empty());
    while j < end
        invariant
            k <= j <= end <= buf@.len(),
            t == buf@.subrange(start as int, end as int),
            d == if t.len() > 0 && (t[0] == 45u8 || t[0] == 43u8) {
                t.drop_first()
            } else {
                t
            },
            neg == (t.len() > 0 && t[0] == 45u8),
            d.len() > 0,
            d == buf@.subrange(k as int, end as int),
            acc as nat == digits_value(buf@.subrange(k as int, j as int)),
            all_digits(buf@.subrange(k as int, j as int)),
            acc <= MAGNITUDE_LIMIT,
        decreases end - j,
    {
        let b = buf[j];
        if b < 48u8 || b > 57u8 {
            assert(d[j - k] == b);
            return None;
        }
        let digit = (b - 48u8) as u64;
        let ghost next = buf@.subrange(k as int, j + 1);
        assert(next.drop_last() =~= buf@.subrange(k as int, j as int));
        assert(next.last() == b);
        assert(all_digits(next)) by {
            assert forall|m: int| 0 <= m < next.len() implies is_digit(#[trigger] next[m]) by {
                if m < next.len() - 1 {
                    assert(next[m] == buf@.subrange(k as int, j as int)[m]);
                }
            }
        }
        if acc > (MAGNITUDE_LIMIT - digit) / 10 {
            proof {
                let q = (MAGNITUDE_LIMIT - digit) as int / 10;
                assert(acc * 10 + digit > MAGNITUDE_LIMIT) by (nonlinear_arith)
                    requires
                        acc > q,
                        q == (MAGNITUDE_LIMIT - digit) as int / 10,
                        digit <= 9,
                ;
                if all_digits(d) {
                    assert(d.subrange(0, j + 1 - k) =~= next);
                    lemma_digits_prefix(d, j + 1 - k);
                }
            }
            return None;
        }
        proof {
            let q = (MAGNITUDE_LIMIT - digit) as int / 10;
            assert(acc * 10 + digit <= MAGNITUDE_LIMIT) by (nonlinear_arith)
                requires
                    acc <= q,
                    q == (MAGNITUDE_LIMIT - digit) as int / 10,
                    digit <= 9,
            ;
        }
        acc = acc * 10 + digit;
        j = j + 1;
    }
    assert(buf@.subrange(k as int, j as int) =~= d);
    if neg {
        if acc == MAGNITUDE_LIMIT {
            Some(i64::MIN)
        } else {
            Some(-(acc as i64))
        }
    } else if acc < MAGNITUDE_LIMIT {
        Some(acc as i64)
    } else {
        None
    }
}

/// The models of a sequence of values.
pub open spec fn views(items: Seq<RespType>) -> Seq<RespValue> {
    items.map_values(|x: RespType| x@)
}

pub(crate) proof fn lemma_array_view(items: Vec<RespType>)
    ensures
        RespType::Arrays(items)@ == RespValue::Array(views(items@)),
{
    let xs = RespType::Arrays(items)@->Array_0;
    assert(xs.len() == items.len());
    assert forall|i: int| 0 <= i < items.len() implies #[trigger] xs[i] == views(items@)[i] by {}
    assert(xs =~= views(items@));
}

/// Relies on `String::from_utf8`: it succeeds exactly on valid UTF-8, and the
/// string then holds the characters that those bytes encode.
#[verifier::external_body]
fn string_from_utf8(bytes: Vec<u8>) -> (r: Option<String>)
    ensures
        r is Some <==> valid_utf8(bytes@),
        r matches Some(s) ==> s@ == decode_utf8(bytes@),
{
    String::from_utf8(bytes).ok()
}

/// Reads the text of a `+` or `-` line that starts at `p`: the text and the
/// position after its CRLF.
fn parse_text_line(buf: &[u8], p: usize) -> (r: Option<(String, usize)>)
    requires
        1 <= p <= buf@.len(),
    ensures
        match r {
            Some((t, e)) => match find_crlf(buf@, p as int) {
                Some(c) => {
                    &&& valid_utf8(buf@.subrange(p as int, c))
                    &&& encode_utf8(t@) == buf@.subrange(p as int, c)
                    &&& e == c + 2
                    &&& p <= c
                    &&& e <= buf@.len()
                },
                None => false,
            },
            None => match find_crlf(buf@, p as int) {
                Some(c) => p <= c && c + 2 <= buf@.len() && !valid_utf8(buf@.subrange(p as int, c)),
                None => true,
            },
        },
{
    match split_crlf_once(buf, p) {
        None => None,
        Some((c, next)) => {
            let text = copy_range(buf, p, c);
            match string_from_utf8(text) {
                Some(t) => {
                    proof {
                        decode_utf8_encode_utf8(buf@.subrange(p as int, c as int));
                    }
                    Some((t, next))
                },
                None => None,
            }
        },
    }
}

fn parse_simple_strings(buf: &[u8], p: usize) -> (r: Result<(RespType, usize), RedisError>)
    requires
        1 <= p <= buf@.len(),
        buf@[p - 1] == 43u8,
    ensures
        decoded(r, decode_at(buf@, p - 1)),
        r matches Ok((_, e)) ==> p <= e <= buf@.len(),
{
    match parse_text_line(buf, p) {
        Some((t, e)) => Ok((RespType::SimpleStrings(t), e)),
        None => Err(RedisError::ProtocolError),
    }
}

fn parse_simple_errors(buf: &[u8], p: usize) -> (r: Result<(RespType, usize), RedisError>)
    requires
        1 <= p <= buf@.len(),
        buf@[p - 1] == 45u8,
    ensures
        decoded(r, decode_at(buf@, p - 1)),
        r matches Ok((_, e)) ==> p <= e <= buf@.len(),
{
    match parse_text_line(buf, p) {
        Some((t, e)) => Ok((RespType::SimpleErrors(t), e)),
        None => Err(RedisError::ProtocolError),
    }
}

fn parse_integers(buf: &[u8], p: usize) -> (r: Result<(RespType, usize), RedisError>)
    requires
        1 <= p <= buf@.len(),
        buf@[p - 1] == 58u8,
    ensures
        decoded(r, decode_at(buf@, p - 1)),
        r matches Ok((_, e)) ==> p <= e <= buf@.len(),
{
    match split_crlf_once(buf, p) {
        None => Err(RedisError::ProtocolError),
        Some((c, next)) => match parse_int_range(buf, p, c) {
            Some(n) => Ok((RespType::Integers(n), next)),
            None => Err(RedisError::ProtocolError),
        },
    }
}

fn parse_bulk_strings(buf: &[u8], p: usize) -> (r: Result<(RespType, usize), RedisError>)
    requires
        1 <= p <= buf@.len(),
        buf@[p - 1] == 36u8,
    ensures
        decoded(r, decode_at(buf@, p - 1)),
        r matches Ok((_, e)) ==> p <= e <= buf@.len(),
{
    match split_crlf_once(buf, p) {
        None => Err(RedisError::ProtocolError),
        Some((c, next)) => match parse_int_range(buf, p, c) {
            Some(n) => {
                if n == -1 {
                    Ok((RespType::Nulls, next))
                } else if n < 0 || n as u64 > (buf.len() - next) as u64 {
                    Err(RedisError::ProtocolError)
                } else {
                    let len = n as usize;
                    if split_crlf_at(buf, next + len) {
                        Ok((RespType::BulkStrings(copy_range(buf, next, next + len)), next + len + 2))
                    } else {
                        Err(RedisError::ProtocolError)
                    }
                }
            },
            None => Err(RedisError::ProtocolError),
        },
    }
}

fn parse_arrays(buf: &[u8], p: usize) -> (r: Result<(RespType, usize), RedisError>)
    requires
        1 <= p <= buf@.len(),
        buf@[p - 1] == 42u8,
    ensures
        decoded(r, decode_at(buf@, p - 1)),
        r matches Ok((_, e)) ==> p <= e <= buf@.len(),
    decreases buf@.len() - p,
{
    match split_crlf_once(buf, p) {
        None => Err(RedisError::ProtocolError),
        Some((c, next)) => match parse_int_range(buf, p, c) {
            Some(n) => {
                if n < 0 {
                    return Err(RedisError::ProtocolError);
                }
                let count = n as u64;
                let ghost whole = decode_many(buf@, next as int, count as nat);
                let mut items: Vec<RespType> = Vec::new();
                let mut cur = next;
                let mut k: u64 = 0;
                proof {
                    if let Some((rest, e)) = whole {
                        assert(views(items@) + rest =~= rest);
                    }
                }
                assert(decode_at(buf@, p - 1) == match whole {
                    Some((xs, e)) => Some((RespValue::Array(xs), e)),
                    None => None,
                });
                while k < count
                    invariant
                        p + 2 <= next <= cur <= buf@.len(),
                        k <= count,
                        items@.len() == k,
                        whole == decode_many(buf@, next as int, count as nat),
                        decode_at(buf@, p - 1) == match whole {
                            Some((xs, e)) => Some((RespValue::Array(xs), e)),
                            None => None,
                        },
                        whole == match decode_many(buf@, cur as int, (count - k) as nat) {
                            Some((rest, e)) => Some((views(items@) + rest, e)),
                            None => None,
                        },
                    decreases count - k,
                {
                    match parse_resp_at(buf, cur) {
                        Ok((v, e)) => {
                            proof {
                                let rest = decode_many(buf@, e as int, (count - k - 1) as nat);
                                if let Some((vs, end)) = rest {
                                    assert(views(items@.push(v)) + vs =~= views(items@) + (seq![
                                        v@,
                                    ] + vs));
                                }
                            }
                            items.push(v);
                            cur = e;
                            k = k + 1;
                        },
                        Err(err) => {
                            assert(decode_many(buf@, cur as int, (count - k) as nat) is None);
                            assert(whole is None);
                            return Err(err);
                        },
                    }
                }
                proof {
                    assert(views(items@) + Seq::<RespValue>::empty() =~= views(items@));
                    lemma_array_view(items);
                }
                Ok((RespType::Arrays(items), cur))
            },
            None => Err(RedisError::ProtocolError),
        },
    }
}

/// Decodes the value that starts at `pos`: the value and the position just
/// past it.
fn parse_resp_at(buf: &[u8], pos: usize) -> (r: Result<(RespType, usize), RedisError>)
    ensures
        decoded(r, decode_at(buf@, pos as int)),
        r matches Ok((_, e)) ==> pos < e <= buf@.len(),
    decreases buf@.len() - pos + 1,
{
    if pos >= buf.len() {
        return Err(RedisError::ProtocolError);
    }
    let tag = buf[pos];
    let p = pos + 1;
    if tag == 43u8 {
        parse_simple_strings(buf, p)
    } else if tag == 45u8 {
        parse_simple_errors(buf, p)
    } else if tag == 58u8 {
        parse_integers(buf, p)
    } else if tag == 36u8 {
        parse_bulk_strings(buf, p)
    } else if tag == 42u8 {
        parse_arrays(buf, p)
    } else {
        Err(RedisError::ProtocolError)
    }
}

/// Decodes the value at the start of `buffer`, and hands back the bytes that
/// follow it, so that values sent back to back can be read one by one.
pub fn parse_resp(buffer: &[u8]) -> (r: Result<(RespType, &[u8]), RedisError>)
    ensures
        match r {
            Ok((v, rest)) => parse(buffer@) == Some((v@, rest@)),
            Err(e) => parse(buffer@) is None && e == RedisError::ProtocolError,
        },
{
    match parse_resp_at(buffer, 0) {
        Ok((v, e)) => Ok((v, &buffer[e..buffer.len()])),
        Err(err) => Err(err),
    }
}

fn append_slice(out: &mut Vec<u8>, b: &[u8])
    ensures
        final(out)@ == old(out)@ + b@,
{
    let mut k: usize = 0;
    while k < b.len()
        invariant
            k <= b@.len(),
            out@ == old(out)@ + b@.subrange(0, k as int),
        decreases b@.len() - k,
    {
        out.push(b[k]);
        assert(b@.subrange(0, k + 1) =~= b@.subrange(0, k as int).push(b@[k as int]));
        k = k + 1;
    }
    assert(b@.subrange(0, k as int) =~= b@);
}

fn push_crlf(out: &mut Vec<u8>)
    ensures
        final(out)@ == old(out)@ + crlf(),
{
    out.push(13u8);
    out.push(10u8);
    assert(final(out)@ =~= old(out)@ + crlf());
}

fn push_decimal(out: &mut Vec<u8>, n: u64)
    ensures
        final(out)@ == old(out)@ + decimal(n as nat),
    decreases n,
{
    if n >= 10 {
        push_decimal(out, n / 10);
    }
    out.push((n % 10) as u8 + 48u8);
    proof {
        if n >= 10 {
            assert(final(out)@ =~= old(out)@ + decimal((n / 10) as nat).push((n % 10 + 48) as u8));
        } else {
            assert(final(out)@ =~= old(out)@ + seq![(n + 48) as u8]);
        }
    }
}

fn push_int(out: &mut Vec<u8>, i: i64)
    ensures
        final(out)@ == old(out)@ + int_text(i as int),
{
    if i < 0 {
        out.push(45u8);
        let m: u64 = if i == i64::MIN {
            MAGNITUDE_LIMIT
        } else {
            (-i) as u64
        };
        push_decimal(out, m);
        assert(final(out)@ =~= old(out)@ + (seq![45u8] + decimal(m as nat)));
    } else {
        push_decimal(out, i as u64);
    }
}

impl RespType {
    /// Appends the wire form of this value to `out`.
    pub fn encode_into(&self, out: &mut Vec<u8>)
        ensures
            final(out)@ == old(out)@ + encode(self@),
        decreases self,
    {
        match self {
            RespType::SimpleStrings(t) => {
                out.push(43u8);
                append_slice(out, t.as_str().as_bytes());
                push_crlf(out);
                assert(final(out)@ =~= old(out)@ + encode(self@));
            },
            RespType::SimpleErrors(t) => {
                out.push(45u8);
                append_slice(out, t.as_str().as_bytes());
                push_crlf(out);
                assert(final(out)@ =~= old(out)@ + encode(self@));
            },
            RespType::Integers(i) => {
                out.push(58u8);
                push_int(out, *i);
                push_crlf(out);
                assert(final(out)@ =~= old(out)@ + encode(self@));
            },
            RespType::BulkStrings(b) => {
                out.push(36u8);
                push_decimal(out, b.len() as u64);
                push_crlf(out);
                append_slice(out, b.as_slice());
                push_crlf(out);
                assert(final(out)@ =~= old(out)@ + encode(self@));
            },
            RespType::Arrays(items) => {
                proof {
                    lemma_array_view(*items);
                }
                let ghost vs = views(items@);
                out.push(42u8);
                push_decimal(out, items.len() as u64);
                push_crlf(out);
                let ghost base = out@;
                let mut k: usize = 0;
                while k < items.len()
                    invariant
                        k <= items@.len(),
                        vs == views(items@),
                        *self == RespType::Arrays(*items),
                        out@ + encode_from(vs, k as int) == base + encode_from(vs, 0),
                    decreases items@.len() - k,
                {
                    let ghost before = out@;
                    proof {
                        assert(decreases_to!(*self => (*self)->Arrays_0));
                        assert(decreases_to!(*items => items[k as int]));
                        assert(decreases_to!(*self => items@[k as int]));
                    }
                    items[k].encode_into(out);
                    assert(out@ + encode_from(vs, k + 1) =~= before + encode_from(vs, k as int));
                    k = k + 1;
                }
                assert(out@ + encode_from(vs, k as int) =~= out@);
                assert(final(out)@ =~= old(out)@ + encode(self@));
            },
            RespType::Nulls => {
                out.push(36u8);
                out.push(45u8);
                out.push(49u8);
                push_crlf(out);
                assert(final(out)@ =~= old(out)@ + encode(self@));
            },
        }
    }

    /// The wire form of this value.
    pub fn encode(&self) -> (r: Vec<u8>)
        ensures
            r@ == encode(self@),
    {
        let mut out: Vec<u8> = Vec::new();
        self.encode_into(&mut out);
        assert(out@ =~= encode(self@));
        out
    }
}

fn bytes_equal(a: &[u8], b: &[u8]) -> (r: bool)
    ensures
        r == (a@ == b@),
{
    if a.len() != b.len() {
        return false;
    }
    let mut k: usize = 0;
    while k < a.len()
        invariant
            k <= a@.len() == b@.len(),
            a@.subrange(0, k as int) == b@.subrange(0, k as int),
        decreases a@.len() - k,
    {
        if a[k] != b[k] {
            assert(a@[k as int] != b@[k as int]);
            return false;
        }
        assert(a@.subrange(0, k + 1) =~= a@.subrange(0, k as int).push(a@[k as int]));
        assert(b@.subrange(0, k + 1) =~= b@.subrange(0, k as int).push(b@[k as int]));
        k = k + 1;
    }
    assert(a@ =~= a@.subrange(0, k as int));
    assert(b@ =~= b@.subrange(0, k as int));
    true
}

fn strings_equal(a: &String, b: &String) -> (r: bool)
    ensures
        r == (encode_utf8(a@) == encode_utf8(b@)),
{
    proof {
        encode_utf8_decode_utf8(a@);
        encode_utf8_decode_utf8(b@);
    }
    *a == *b
}

impl RespType {
    /// Whether two values are the same value.
    pub fn same_value(&self, other: &RespType) -> (r: bool)
        ensures
            r == (self@ == other@),
        decreases self,
    {
        match (self, other) {
            (RespType::SimpleStrings(a), RespType::SimpleStrings(b)) => strings_equal(a, b),
            (RespType::SimpleErrors(a), RespType::SimpleErrors(b)) => strings_equal(a, b),
            (RespType::Integers(a), RespType::Integers(b)) => *a == *b,
            (RespType::BulkStrings(a), RespType::BulkStrings(b)) => bytes_equal(
                a.as_slice(),
                b.as_slice(),
            ),
            (RespType::Arrays(a), RespType::Arrays(b)) => {
                proof {
                    lemma_array_view(*a);
                    lemma_array_view(*b);
                }
                if a.len() != b.len() {
                    assert(views(a@).len() != views(b@).len());
                    return false;
                }
                let mut k: usize = 0;
                while k < a.len()
                    invariant
                        k <= a@.len() == b@.len(),
                        *self == RespType::Arrays(*a),
                        self@ == RespValue::Array(views(a@)),
                        other@ == RespValue::Array(views(b@)),
                        views(a@).subrange(0, k as int) == views(b@).subrange(0, k as int),
                    decreases a@.len() - k,
                {
                    proof {
                        assert(decreases_to!(*self => (*self)->Arrays_0));
                        assert(decreases_to!(*a => a[k as int]));
                    }
                    if !a[k].same_value(&b[k]) {
                        assert(views(a@)[k as int] != views(b@)[k as int]);
                        return false;
                    }
                    assert(views(a@).subrange(0, k + 1) =~= views(a@).subrange(0, k as int).push(
                        views(a@)[k as int],
                    ));
                    assert(views(b@).subrange(0, k + 1) =~= views(b@).subrange(0, k as int).push(
                        views(b@)[k as int],
                    ));
                    k = k + 1;
                }
                assert(views(a@) =~= views(a@).subrange(0, k as int));
                assert(views(b@) =~= views(b@).subrange(0, k as int));
                true
            },
            (RespType::Nulls, RespType::Nulls) => true,
            _ => false,
        }
    }

    /// A copy of this value.
    pub fn deep_copy(&self) -> (r: RespType)
        ensures
            r@ == self@,
        decreases self,
    {
        match self {
            RespType::SimpleStrings(a) => {
                RespType::SimpleStrings(String::from_str(a.as_str()))
            },
            RespType::SimpleErrors(a) => RespType::SimpleErrors(String::from_str(a.as_str())),
            RespType::Integers(a) => RespType::Integers(*a),
            RespType::BulkStrings(a) => {
                let b = copy_range(a.as_slice(), 0, a.len());
                assert(b@ =~= a@);
                RespType::BulkStrings(b)
            },
            RespType::Arrays(a) => {
                let mut out: Vec<RespType> = Vec::new();
                let mut k: usize = 0;
                while k < a.len()
                    invariant
                        k <= a@.len(),
                        out@.len() == k,
                        *self == RespType::Arrays(*a),
                        views(out@) == views(a@).subrange(0, k as int),
                    decreases a@.len() - k,
                {
                    proof {
                        assert(decreases_to!(*self => (*self)->Arrays_0));
                        assert(decreases_to!(*a => a[k as int]));
                    }
                    let x = a[k].deep_copy();
                    out.push(x);
                    assert(views(out@) =~= views(a@).subrange(0, k + 1));
                    k = k + 1;
                }
                proof {
                    lemma_array_view(*a);
                    lemma_array_view(out);
                    assert(views(out@) =~= views(a@));
                }
                RespType::Arrays(out)
            },
            RespType::Nulls => RespType::Nulls,
        }
    }
}

} // verus!
