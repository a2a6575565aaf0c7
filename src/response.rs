//! The response builder and its HTTP/1.1 wire form.
use vstd::prelude::*;
use crate::fields::{Fields, fields_view, lookup, with_field, get_field, set_field};
use crate::path::copy_bytes;
use vstd::string::StringSliceAdditionalSpecFns;

verus! {

pub const CR: u8 = 13;
pub const LF: u8 = 10;
pub const SP: u8 = 32;
pub const COLON: u8 = 58;

/// A response under construction. A fresh one is `404` with no headers and
/// an empty body.
pub struct Response {
    pub code: u16,
    pub headers: Fields,
    pub content: Vec<u8>,
}

/// `\r\n`
pub open spec fn crlf() -> Seq<u8> {
    seq![CR, LF]
}

/// The decimal digits of `n`, most significant first.
pub open spec fn decimal(n: nat) -> Seq<u8>
    decreases n,
{
    if n < 10 {
        seq![(48 + n) as u8]
    } else {
        decimal(n / 10).push((48 + n % 10) as u8)
    }
}

/// The reason phrase sent after a status code.
pub open spec fn reason_text(code: u16) -> &'static str {
    if code == 200 { "OK" }
    else if code == 201 { "Created" }
    else if code == 204 { "No Content" }
    else if code == 301 { "Moved Permanently" }
    else if code == 302 { "Found" }
    else if code == 304 { "Not Modified" }
    else if code == 400 { "Bad Request" }
    else if code == 401 { "Unauthorized" }
    else if code == 403 { "Forbidden" }
    else if code == 404 { "Not Found" }
    else if code == 405 { "Method Not Allowed" }
    else if code == 500 { "Internal Server Error" }
    else if code == 501 { "Not Implemented" }
    else if code == 503 { "Service Unavailable" }
    else { "Unknown" }
}

/// `HTTP/1.1 <code> <reason>\r\n`
pub open spec fn status_line(code: u16) -> Seq<u8> {
    "HTTP/1.1 ".spec_bytes() + decimal(code as nat) + seq![SP] + reason_text(code).spec_bytes() + crlf()
}

/// One `Name: value\r\n` line per header, in list order.
pub open spec fn header_lines(hs: Seq<(Seq<u8>, Seq<u8>)>) -> Seq<u8>
    decreases hs.len(),
{
    if hs.len() == 0 {
        Seq::empty()
    } else {
        header_lines(hs.drop_last()) + hs.last().0 + seq![COLON, SP] + hs.last().1 + crlf()
    }
}

/// The name of the length header that serialization adds.
pub open spec fn length_name() -> Seq<u8> {
    "Content-Length".spec_bytes()
}

/// The length line, present only when the headers do not already set it
/// (as `Content-Length` or `content-length`).
pub open spec fn length_line(hs: Seq<(Seq<u8>, Seq<u8>)>, body_len: nat) -> Seq<u8> {
    if lookup(hs, length_name()) is None && lookup(hs, "content-length".spec_bytes()) is None {
        length_name() + seq![COLON, SP] + decimal(body_len) + crlf()
    } else {
        Seq::empty()
    }
}

/// The complete wire form of a response.
pub open spec fn wire(code: u16, hs: Seq<(Seq<u8>, Seq<u8>)>, body: Seq<u8>) -> Seq<u8> {
    status_line(code) + header_lines(hs) + length_line(hs, body.len()) + crlf() + body
}

/// Appends `s` to `out`.
pub fn append_bytes(out: &mut Vec<u8>, s: &[u8])
    ensures
        final(out)@ == old(out)@ + s@,
{
    let ghost start = out@;
    let mut i: usize = 0;
    while i < s.len()
        invariant
            i <= s@.len(),
            out@ == start + s@.subrange(0, i as int),
        decreases s@.len() - i,
    {
        out.push(s[i]);
        i = i + 1;
        assert(out@ =~= start + s@.subrange(0, i as int));
    }
    assert(s@ =~= s@.subrange(0, s@.len() as int));
}

/// Appends the decimal digits of `n` to `out`.
pub fn push_decimal(out: &mut Vec<u8>, n: usize)
    ensures
        final(out)@ == old(out)@ + decimal(n as nat),
    decreases n,
{
    if n >= 10 {
        push_decimal(out, n / 10);
    }
    let d: u8 = (n % 10) as u8;
    out.push(48 + d);
    proof {
        if n >= 10 {
            assert(old(out)@ + decimal(n as nat) =~= old(out)@ + decimal((n / 10) as nat) + seq![(48 + n % 10) as u8]);
        } else {
            assert(old(out)@ + decimal(n as nat) =~= old(out)@.push((48 + n) as u8));
        }
    }
}

/// The reason phrase for `code`.
pub fn reason_phrase(code: u16) -> (r: &'static str)
    ensures
        r == reason_text(code),
{
    if code == 200 { "OK" }
    else if code == 201 { "Created" }
    else if code == 204 { "No Content" }
    else if code == 301 { "Moved Permanently" }
    else if code == 302 { "Found" }
    else if code == 304 { "Not Modified" }
    else if code == 400 { "Bad Request" }
    else if code == 401 { "Unauthorized" }
    else if code == 403 { "Forbidden" }
    else if code == 404 { "Not Found" }
    else if code == 405 { "Method Not Allowed" }
    else if code == 500 { "Internal Server Error" }
    else if code == 501 { "Not Implemented" }
    else if code == 503 { "Service Unavailable" }
    else { "Unknown" }
}

impl Response {
    /// The header list as mathematical pairs.
    pub open spec fn header_view(&self) -> Seq<(Seq<u8>, Seq<u8>)> {
        fields_view(self.headers@)
    }

    /// A fresh response: `404`, no headers, empty body.
    pub fn new() -> (r: Response)
        ensures
            r.code == 404,
            r.headers@.len() == 0,
            r.content@.len() == 0,
    {
        Response { code: 404, headers: Vec::new(), content: Vec::new() }
    }

    /// Sets the status code.
    pub fn status(&mut self, code: u16)
        ensures
            final(self).code == code,
            final(self).headers@ == old(self).headers@,
            final(self).content@ == old(self).content@,
    {
        self.code = code;
    }

    /// Sets header `name` to `value`, replacing an earlier value of that name
    /// in place.
    pub fn header(&mut self, name: &str, value: &str)
        ensures
            final(self).code == old(self).code,
            final(self).content@ == old(self).content@,
            final(self).header_view() == with_field(
                old(self).header_view(),
                name.spec_bytes(),
                value.spec_bytes(),
            ),
    {
        let k = copy_bytes(name.as_bytes());
        let v = copy_bytes(value.as_bytes());
        set_field(&mut self.headers, k, v);
    }

    /// Replaces the body with the bytes of `text`.
    pub fn body(&mut self, text: &str)
        ensures
            final(self).code == old(self).code,
            final(self).headers@ == old(self).headers@,
            final(self).content@ == text.spec_bytes(),
    {
        self.content = copy_bytes(text.as_bytes());
    }

    /// Replaces the body with `bytes`.
    pub fn body_bytes(&mut self, bytes: Vec<u8>)
        ensures
            final(self).code == old(self).code,
            final(self).headers@ == old(self).headers@,
            final(self).content@ == bytes@,
    {
        self.content = bytes;
    }

    /// The value of header `name`, if set.
    pub fn get_header(&self, name: &str) -> (r: Option<Vec<u8>>)
        ensures
            match r {
                Some(v) => lookup(self.header_view(), name.spec_bytes()) == Some(v@),
                None => lookup(self.header_view(), name.spec_bytes()) is None,
            },
    {
        match get_field(&self.headers, name.as_bytes()) {
            Some(v) => Some(copy_bytes(v.as_slice())),
            None => None,
        }
    }

    /// The wire form: status line, headers in order, a length header unless
    /// one is set, a blank line, then the body.
    pub fn to_bytes(&self) -> (r: Vec<u8>)
        ensures
            r@ == wire(self.code, self.header_view(), self.content@),
    {
        let mut out: Vec<u8> = Vec::new();
        append_bytes(&mut out, "HTTP/1.1 ".as_bytes());
        push_decimal(&mut out, self.code as usize);
        out.push(SP);
        append_bytes(&mut out, reason_phrase(self.code).as_bytes());
        out.push(CR);
        out.push(LF);
        let ghost after_status = out@;
        assert(after_status =~= status_line(self.code));
        let mut i: usize = 0;
        while i < self.headers.len()
            invariant
                i <= self.headers@.len(),
                out@ == after_status + header_lines(self.header_view().subrange(0, i as int)),
            decreases self.headers@.len() - i,
        {
            let ghost before = out@;
            append_bytes(&mut out, self.headers[i].0.as_slice());
            out.push(COLON);
            out.push(SP);
            append_bytes(&mut out, self.headers[i].1.as_slice());
            out.push(CR);
            out.push(LF);
            proof {
                let hv = self.header_view();
                let s = hv.subrange(0, i + 1);
                assert(s.drop_last() =~= hv.subrange(0, i as int));
                assert(s.last() == hv[i as int]);
                assert(out@ =~= after_status + header_lines(s));
            }
            i = i + 1;
        }
        assert(self.header_view().subrange(0, self.headers@.len() as int) =~= self.header_view());
        let ghost after_headers = out@;
        if get_field(&self.headers, "content-length".as_bytes()).is_none()
            && get_field(&self.headers, "Content-Length".as_bytes()).is_none() {
            append_bytes(&mut out, "Content-Length".as_bytes());
            out.push(COLON);
            out.push(SP);
            push_decimal(&mut out, self.content.len());
            out.push(CR);
            out.push(LF);
        }
        assert(out@ =~= after_headers + length_line(self.header_view(), self.content@.len()));
        out.push(CR);
        out.push(LF);
        append_bytes(&mut out, self.content.as_slice());
        assert(out@ =~= wire(self.code, self.header_view(), self.content@));
        out
    }
}

} // verus!
