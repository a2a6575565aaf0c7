//! Parsing of a raw HTTP/1.1 request.
//!
//! The request line is `METHOD TARGET [VERSION]` up to the first `\r\n`; the
//! target must start with `/` and may carry `?query`. Header lines
//! `Name: value` follow up to a blank line. The body is exactly as many bytes
//! as `Content-Length` (or `content-length`) gives, and empty without one.
use vstd::prelude::*;
use crate::fields::{Fields, fields_view, lookup, get_field};
use crate::path::{normalize, normalized, SLASH};
use crate::request::Request;
use crate::response::{CR, LF, SP, COLON};
use vstd::string::StringSliceAdditionalSpecFns;

verus! {

pub const QMARK: u8 = 63;
pub const AMP: u8 = 38;
pub const EQ: u8 = 61;
pub const PLUS: u8 = 43;
pub const PERCENT: u8 = 37;

/// Why a request could not be parsed.
#[derive(Debug, Clone, Copy, PartialEq, Eq, Structural)]
pub enum ParseError {
    /// No `\r\n` ends a request line.
    MissingRequestLine,
    /// The request line has no target, or the target does not start with `/`.
    BadRequestLine,
    /// No blank line ends the headers.
    UnterminatedHeaders,
    /// A header line has no `:`.
    BadHeader,
    /// The length header is not a decimal number.
    BadLength,
    /// The length header asks for more body bytes than were sent.
    IncompleteBody,
}

/// A parsed request as mathematical values.
pub struct RequestModel {
    pub method: Seq<u8>,
    pub url: Seq<u8>,
    pub headers: Seq<(Seq<u8>, Seq<u8>)>,
    pub body: Seq<u8>,
    pub params: Seq<(Seq<u8>, Seq<u8>)>,
}

/// The model of a request value.
pub open spec fn model(r: Request) -> RequestModel {
    RequestModel {
        method: r.method@,
        url: r.url@,
        headers: fields_view(r.headers@),
        body: r.body@,
        params: fields_view(r.params@),
    }
}

/// The first position in `[i, end)` holding `b`, or `end`.
pub open spec fn find_byte(s: Seq<u8>, b: u8, i: int, end: int) -> int
    decreases end - i,
{
    if i >= end {
        end
    } else if s[i] == b {
        i
    } else {
        find_byte(s, b, i + 1, end)
    }
}

/// The first position at or after `i` where `\r\n` starts, or `s.len()`.
pub open spec fn find_crlf(s: Seq<u8>, i: int) -> int
    decreases s.len() - i,
{
    if i + 1 >= s.len() {
        s.len() as int
    } else if s[i] == CR && s[i + 1] == LF {
        i
    } else {
        find_crlf(s, i + 1)
    }
}

/// The first position in `[i, end)` that is not a space, or `end`.
pub open spec fn skip_spaces(s: Seq<u8>, i: int, end: int) -> int
    decreases end - i,
{
    if i >= end {
        end
    } else if s[i] != SP {
        i
    } else {
        skip_spaces(s, i + 1, end)
    }
}

/// The header lines starting at `i`: the pairs in order and the position
/// where the body starts.
pub open spec fn header_block(s: Seq<u8>, i: int) -> Result<(Seq<(Seq<u8>, Seq<u8>)>, int), ParseError>
    decreases s.len() - i,
{
    let f = find_crlf(s, i);
    if i < 0 || f + 1 >= s.len() || f < i {
        Err(ParseError::UnterminatedHeaders)
    } else if f == i {
        Ok((Seq::empty(), i + 2))
    } else {
        let c = find_byte(s, COLON, i, f);
        if c >= f {
            Err(ParseError::BadHeader)
        } else {
            let pair = (s.subrange(i, c), s.subrange(skip_spaces(s, c + 1, f), f));
            match header_block(s, f + 2) {
                Ok((rest, b)) => Ok((seq![pair] + rest, b)),
                Err(e) => Err(e),
            }
        }
    }
}

/// Whether `v` is a non-empty run of decimal digits.
pub open spec fn all_digits(v: Seq<u8>) -> bool {
    v.len() > 0 && forall|i: int| 0 <= i < v.len() ==> 48 <= #[trigger] v[i] <= 57
}

/// The number that decimal digits `v` spell.
pub open spec fn digits_value(v: Seq<u8>) -> nat
    decreases v.len(),
{
    if v.len() == 0 {
        0
    } else {
        digits_value(v.drop_last()) * 10 + (v.last() - 48) as nat
    }
}

/// The length header's value, under either spelling.
pub open spec fn declared_length(hs: Seq<(Seq<u8>, Seq<u8>)>) -> Option<Seq<u8>> {
    match lookup(hs, "Content-Length".spec_bytes()) {
        Some(v) => Some(v),
        None => lookup(hs, "content-length".spec_bytes()),
    }
}

/// Whether `c` is an ASCII hex digit.
pub open spec fn is_hex(c: u8) -> bool {
    (48 <= c <= 57) || (65 <= c <= 70) || (97 <= c <= 102)
}

/// The value of hex digit `c`.
pub open spec fn hex_value(c: u8) -> u8 {
    if 48 <= c <= 57 {
        (c - 48) as u8
    } else if 65 <= c <= 70 {
        (c - 55) as u8
    } else {
        (c - 87) as u8
    }
}

/// URL-decoding of `s[i..end)`: `+` is a space, `%XY` with two hex digits is
/// that byte, and any other byte stands for itself.
pub open spec fn url_decode(s: Seq<u8>, i: int, end: int) -> Seq<u8>
    decreases end - i,
{
    if i >= end {
        Seq::empty()
    } else if s[i] == PLUS {
        seq![SP] + url_decode(s, i + 1, end)
    } else if s[i] == PERCENT && i + 2 < end && is_hex(s[i + 1]) && is_hex(s[i + 2]) {
        seq![(hex_value(s[i + 1]) * 16 + hex_value(s[i + 2])) as u8] + url_decode(s, i + 3, end)
    } else {
        seq![s[i]] + url_decode(s, i + 1, end)
    }
}

/// The parameter that a non-empty `key[=value]` piece `s[i..end)` gives.
pub open spec fn param_pair(s: Seq<u8>, i: int, end: int) -> (Seq<u8>, Seq<u8>) {
    let e = find_byte(s, EQ, i, end);
    (url_decode(s, i, e), if e < end { url_decode(s, e + 1, end) } else { Seq::empty() })
}

/// The parameters of the `&`-separated query `s[i..end)`; empty pieces are
/// skipped.
pub open spec fn query_params(s: Seq<u8>, i: int, end: int) -> Seq<(Seq<u8>, Seq<u8>)>
    decreases end - i,
{
    if i >= end {
        Seq::empty()
    } else {
        let a = find_byte(s, AMP, i, end);
        if a < i || a > end {
            Seq::empty()
        } else {
            let here: Seq<(Seq<u8>, Seq<u8>)> = if a == i { Seq::empty() } else { seq![param_pair(s, i, a)] };
            here + if a < end { query_params(s, a + 1, end) } else { Seq::empty() }
        }
    }
}

/// What parsing `s` yields.
pub open spec fn parse_spec(s: Seq<u8>) -> Result<RequestModel, ParseError> {
    let e = find_crlf(s, 0);
    let sp1 = find_byte(s, SP, 0, e);
    let sp2 = find_byte(s, SP, sp1 + 1, e);
    if e >= s.len() {
        Err(ParseError::MissingRequestLine)
    } else if sp1 >= e || sp2 <= sp1 + 1 || s[sp1 + 1] != SLASH {
        Err(ParseError::BadRequestLine)
    } else {
        let q = find_byte(s, QMARK, sp1 + 1, sp2);
        match header_block(s, e + 2) {
            Err(err) => Err(err),
            Ok((hs, b)) => {
                let avail = s.len() - b;
                let n: int = match declared_length(hs) {
                    Some(v) => if !all_digits(v) { -1 } else if digits_value(v) <= avail { digits_value(v) as int } else { -2 },
                    None => 0,
                };
                if n == -1 {
                    Err(ParseError::BadLength)
                } else if n < 0 {
                    Err(ParseError::IncompleteBody)
                } else {
                    Ok(RequestModel {
                        method: s.subrange(0, sp1),
                        url: normalized(s.subrange(sp1 + 1, q)),
                        headers: hs,
                        body: s.subrange(b, b + n),
                        params: if q < sp2 { query_params(s, q + 1, sp2) } else { Seq::empty() },
                    })
                }
            },
        }
    }
}

/// Copies `s[a..b)`.
pub fn copy_range(s: &[u8], a: usize, b: usize) -> (r: Vec<u8>)
    requires
        a <= b <= s@.len(),
    ensures
        r@ == s@.subrange(a as int, b as int),
{
    let mut r: Vec<u8> = Vec::new();
    let mut i: usize = a;
    while i < b
        invariant
            a <= i <= b <= s@.len(),
            r@ == s@.subrange(a as int, i as int),
        decreases b - i,
    {
        r.push(s[i]);
        i = i + 1;
        assert(r@ =~= s@.subrange(a as int, i as int));
    }
    r
}

/// First position in `[i, end)` holding `b`, or `end`.
pub fn find_byte_in(s: &[u8], b: u8, i: usize, end: usize) -> (r: usize)
    requires
        end <= s@.len(),
    ensures
        r as int == find_byte(s@, b, i as int, end as int),
        i <= end ==> i <= r <= end,
        i > end ==> r == end,
{
    if i >= end {
        return end;
    }
    let mut j: usize = i;
    while j < end
        invariant
            i <= j <= end <= s@.len(),
            find_byte(s@, b, i as int, end as int) == find_byte(s@, b, j as int, end as int),
        decreases end - j,
    {
        if s[j] == b {
            return j;
        }
        j = j + 1;
    }
    end
}

/// First position at or after `i` where `\r\n` starts, or `s.len()`.
pub fn find_crlf_at(s: &[u8], i: usize) -> (r: usize)
    ensures
        r as int == find_crlf(s@, i as int),
        r <= s@.len(),
        r < s@.len() ==> i <= r && r + 1 < s@.len(),
{
    let mut j: usize = i;
    while j < s.len() && j + 1 < s.len()
        invariant
            i <= j,
            find_crlf(s@, i as int) == find_crlf(s@, j as int),
        decreases s@.len() - j,
    {
        if s[j] == CR && s[j + 1] == LF {
            return j;
        }
        j = j + 1;
    }
    s.len()
}

/// First position in `[i, end)` that is not a space, or `end`.
pub fn skip_spaces_in(s: &[u8], i: usize, end: usize) -> (r: usize)
    requires
        i <= end <= s@.len(),
    ensures
        r as int == skip_spaces(s@, i as int, end as int),
        i <= r <= end,
{
    let mut j: usize = i;
    while j < end
        invariant
            i <= j <= end <= s@.len(),
            skip_spaces(s@, i as int, end as int) == skip_spaces(s@, j as int, end as int),
        decreases end - j,
    {
        if s[j] != SP {
            return j;
        }
        j = j + 1;
    }
    end
}

/// Parses the header lines starting at `i`, appending each pair to `out`;
/// on success returns where the body starts.
pub fn parse_headers(s: &[u8], i: usize, out: &mut Fields) -> (r: Result<usize, ParseError>)
    ensures
        match header_block(s@, i as int) {
            Ok((hs, b)) => r is Ok && r->Ok_0 as int == b
                && fields_view(final(out)@) == fields_view(old(out)@) + hs,
            Err(e) => r == Err::<usize, ParseError>(e),
        },
        match r {
            Ok(b) => b <= s@.len(),
            Err(_) => true,
        },
    decreases s@.len() - i,
{
    let f = find_crlf_at(s, i);
    if f >= s.len() || f + 1 >= s.len() {
        return Err(ParseError::UnterminatedHeaders);
    }
    if f == i {
        return Ok(i + 2);
    }
    let c = find_byte_in(s, COLON, i, f);
    if c >= f {
        return Err(ParseError::BadHeader);
    }
    let v = skip_spaces_in(s, c + 1, f);
    let name = copy_range(s, i, c);
    let value = copy_range(s, v, f);
    let ghost before = fields_view(out@);
    let ghost pair = (name@, value@);
    out.push((name, value));
    assert(fields_view(out@) =~= before + seq![pair]);
    let r = parse_headers(s, f + 2, out);
    proof {
        if let Ok((rest, b)) = header_block(s@, f + 2) {
            assert(fields_view(final(out)@) =~= before + (seq![pair] + rest));
        }
    }
    r
}

/// Digits of a prefix never spell more than the whole.
proof fn lemma_digits_monotone(v: Seq<u8>, i: int)
    requires
        0 <= i <= v.len(),
    ensures
        digits_value(v.subrange(0, i)) <= digits_value(v),
    decreases v.len() - i,
{
    if i < v.len() {
        lemma_digits_monotone(v, i + 1);
        assert(v.subrange(0, i + 1).drop_last() =~= v.subrange(0, i));
    } else {
        assert(v.subrange(0, i) =~= v);
    }
}

/// Reads the length header's value: a decimal number no larger than `avail`.
pub fn parse_length(v: &[u8], avail: usize) -> (r: Result<usize, ParseError>)
    ensures
        if !all_digits(v@) {
            r == Err::<usize, ParseError>(ParseError::BadLength)
        } else if digits_value(v@) <= avail {
            r == Ok::<usize, ParseError>(digits_value(v@) as usize)
        } else {
            r == Err::<usize, ParseError>(ParseError::IncompleteBody)
        },
{
    if v.len() == 0 {
        return Err(ParseError::BadLength);
    }
    let mut k: usize = 0;
    while k < v.len()
        invariant
            k <= v@.len(),
            forall|j: int| 0 <= j < k ==> 48 <= #[trigger] v@[j] <= 57,
        decreases v@.len() - k,
    {
        if v[k] < 48 || v[k] > 57 {
            return Err(ParseError::BadLength);
        }
        k = k + 1;
    }
    let mut acc: usize = 0;
    let mut i: usize = 0;
    while i < v.len()
        invariant
            i <= v@.len(),
            acc as nat == digits_value(v@.subrange(0, i as int)),
            acc <= avail,
            all_digits(v@),
        decreases v@.len() - i,
    {
        let c = v[i];
        assert(48 <= v@[i as int] <= 57);
        let next: u128 = acc as u128 * 10 + (c - 48) as u128;
        assert(v@.subrange(0, i + 1).drop_last() =~= v@.subrange(0, i as int));
        if next > avail as u128 {
            proof {
                lemma_digits_monotone(v@, i + 1);
            }
            return Err(ParseError::IncompleteBody);
        }
        acc = next as usize;
        i = i + 1;
    }
    assert(v@.subrange(0, v@.len() as int) =~= v@);
    Ok(acc)
}

/// The value of hex digit `c`.
pub fn hex_digit(c: u8) -> (r: u8)
    requires
        is_hex(c),
    ensures
        r == hex_value(c),
        r < 16,
{
    if c <= 57 {
        c - 48
    } else if c <= 70 {
        c - 55
    } else {
        c - 87
    }
}

/// Appends the URL-decoding of `s[i..end)` to `out`.
pub fn url_decode_into(s: &[u8], i: usize, end: usize, out: &mut Vec<u8>)
    requires
        end <= s@.len(),
    ensures
        final(out)@ == old(out)@ + url_decode(s@, i as int, end as int),
    decreases end - i,
{
    if i >= end {
        assert(old(out)@ + url_decode(s@, i as int, end as int) =~= old(out)@);
        return;
    }
    let ghost start = out@;
    let c = s[i];
    if c == PLUS {
        out.push(SP);
        url_decode_into(s, i + 1, end, out);
        assert(final(out)@ =~= start + url_decode(s@, i as int, end as int));
    } else if c == PERCENT && end - i > 2 && is_hex_digit(s[i + 1]) && is_hex_digit(s[i + 2]) {
        let hi = hex_digit(s[i + 1]);
        let lo = hex_digit(s[i + 2]);
        out.push(hi * 16 + lo);
        url_decode_into(s, i + 3, end, out);
        assert(final(out)@ =~= start + url_decode(s@, i as int, end as int));
    } else {
        out.push(c);
        url_decode_into(s, i + 1, end, out);
        assert(final(out)@ =~= start + url_decode(s@, i as int, end as int));
    }
}

/// Whether `c` is an ASCII hex digit.
pub fn is_hex_digit(c: u8) -> (r: bool)
    ensures
        r == is_hex(c),
{
    (48 <= c && c <= 57) || (65 <= c && c <= 70) || (97 <= c && c <= 102)
}

/// Appends the parameters of the query `s[i..end)` to `out`.
pub fn parse_query_into(s: &[u8], i: usize, end: usize, out: &mut Fields)
    requires
        end <= s@.len(),
    ensures
        fields_view(final(out)@) == fields_view(old(out)@) + query_params(s@, i as int, end as int),
    decreases end - i,
{
    let ghost start = fields_view(out@);
    if i >= end {
        assert(start + query_params(s@, i as int, end as int) =~= start);
        return;
    }
    let a = find_byte_in(s, AMP, i, end);
    let ghost here: Seq<(Seq<u8>, Seq<u8>)> = if a == i { Seq::empty() } else { seq![param_pair(s@, i as int, a as int)] };
    if a > i {
        let e = find_byte_in(s, EQ, i, a);
        let mut key: Vec<u8> = Vec::new();
        url_decode_into(s, i, e, &mut key);
        let mut value: Vec<u8> = Vec::new();
        if e < a {
            url_decode_into(s, e + 1, a, &mut value);
        }
        assert(key@ =~= url_decode(s@, i as int, e as int));
        assert(value@ =~= param_pair(s@, i as int, a as int).1);
        out.push((key, value));
    }
    assert(fields_view(out@) =~= start + here);
    let ghost mid = fields_view(out@);
    if a < end {
        parse_query_into(s, a + 1, end, out);
        assert(fields_view(out@) =~= start + query_params(s@, i as int, end as int));
    } else {
        assert(fields_view(out@) =~= start + query_params(s@, i as int, end as int));
    }
}

/// Parses a raw request.
pub fn parse(s: &[u8]) -> (r: Result<Request, ParseError>)
    ensures
        match r {
            Ok(q) => parse_spec(s@) == Ok::<RequestModel, ParseError>(model(q)),
            Err(e) => parse_spec(s@) == Err::<RequestModel, ParseError>(e),
        },
{
    let e = find_crlf_at(s, 0);
    if e >= s.len() {
        return Err(ParseError::MissingRequestLine);
    }
    let sp1 = find_byte_in(s, SP, 0, e);
    if sp1 >= e {
        return Err(ParseError::BadRequestLine);
    }
    let sp2 = find_byte_in(s, SP, sp1 + 1, e);
    if sp2 <= sp1 + 1 || s[sp1 + 1] != SLASH {
        return Err(ParseError::BadRequestLine);
    }
    let q = find_byte_in(s, QMARK, sp1 + 1, sp2);
    let mut headers: Fields = Vec::new();
    let b = match parse_headers(s, e + 2, &mut headers) {
        Ok(b) => b,
        Err(err) => {
            return Err(err);
        },
    };
    assert(fields_view(headers@) =~= header_block(s@, e + 2)->Ok_0.0);
    let ghost hs = fields_view(headers@);
    assert(header_block(s@, e + 2) == Ok::<(Seq<(Seq<u8>, Seq<u8>)>, int), ParseError>((hs, b as int)));
    let ghost avail = s@.len() - b;
    let n: usize = match get_field(&headers, "Content-Length".as_bytes()) {
        Some(v) => match parse_length(v.as_slice(), s.len() - b) {
            Ok(n) => n,
            Err(err) => {
                return Err(err);
            },
        },
        None => match get_field(&headers, "content-length".as_bytes()) {
            Some(v) => match parse_length(v.as_slice(), s.len() - b) {
                Ok(n) => n,
                Err(err) => {
                    return Err(err);
                },
            },
            None => 0,
        },
    };
    let method = copy_range(s, 0, sp1);
    let path = copy_range(s, sp1 + 1, q);
    let url = normalize(path.as_slice());
    let body = copy_range(s, b, b + n);
    let mut params: Fields = Vec::new();
    if q < sp2 {
        parse_query_into(s, q + 1, sp2, &mut params);
    }
    assert(fields_view(params@) =~= if q < sp2 { query_params(s@, q + 1, sp2 as int) } else { Seq::empty() });
    assert(n as int == match declared_length(hs) {
        Some(v) => if !all_digits(v) { -1 } else if digits_value(v) <= avail { digits_value(v) as int } else { -2 },
        None => 0,
    });
    Ok(Request { method, url, headers, body, params })
}

} // verus!
