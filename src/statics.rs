//! What static-file routes compute: the route path of a file, its content
//! type, and the response built from the bytes read (reading is the
//! caller's part).
use vstd::prelude::*;
use crate::fields::with_field;
use crate::path::{bytes_eq, SLASH};
use crate::response::Response;
use vstd::string::StringSliceAdditionalSpecFns;

verus! {

pub const BACKSLASH: u8 = 92;
pub const DOT: u8 = 46;

/// `/` followed by `p` with every `\` turned into `/`.
pub open spec fn route_path_of(p: Seq<u8>) -> Seq<u8> {
    seq![SLASH] + p.map_values(|c: u8| if c == BACKSLASH { SLASH } else { c })
}

/// The position of the last `.` before `end`, or `-1`.
pub open spec fn last_dot(s: Seq<u8>, end: int) -> int
    decreases end,
{
    if end <= 0 {
        -1
    } else if s[end - 1] == DOT {
        end - 1
    } else {
        last_dot(s, end - 1)
    }
}

/// What follows the last `.` of `s`, or all of `s` when it has none.
pub open spec fn extension_of(s: Seq<u8>) -> Seq<u8> {
    s.subrange(last_dot(s, s.len() as int) + 1, s.len() as int)
}

/// The content type sent for a file extension.
pub open spec fn mime_of(ext: Seq<u8>) -> &'static str {
    if ext == "html".spec_bytes() || ext == "htm".spec_bytes() { "text/html" }
    else if ext == "css".spec_bytes() { "text/css" }
    else if ext == "js".spec_bytes() { "text/javascript" }
    else if ext == "json".spec_bytes() { "application/json" }
    else if ext == "txt".spec_bytes() { "text/plain" }
    else if ext == "png".spec_bytes() { "image/png" }
    else if ext == "jpg".spec_bytes() || ext == "jpeg".spec_bytes() { "image/jpeg" }
    else if ext == "gif".spec_bytes() { "image/gif" }
    else if ext == "svg".spec_bytes() { "image/svg+xml" }
    else if ext == "ico".spec_bytes() { "image/x-icon" }
    else { "application/octet-stream" }
}

/// The route path under which the file at relative path `p` is served.
pub fn static_route_path(p: &str) -> (r: Vec<u8>)
    ensures
        r@ == route_path_of(p.spec_bytes()),
{
    let s = p.as_bytes();
    let mut r: Vec<u8> = Vec::new();
    r.push(SLASH);
    let mut i: usize = 0;
    while i < s.len()
        invariant
            i <= s@.len(),
            r@ == seq![SLASH] + s@.subrange(0, i as int).map_values(|c: u8| if c == BACKSLASH { SLASH } else { c }),
        decreases s@.len() - i,
    {
        let c = s[i];
        r.push(if c == BACKSLASH { SLASH } else { c });
        i = i + 1;
        assert(r@ =~= seq![SLASH] + s@.subrange(0, i as int).map_values(|c: u8| if c == BACKSLASH { SLASH } else { c }));
    }
    assert(s@.subrange(0, s@.len() as int) =~= s@);
    r
}

/// What follows the last `.` of `s`, or all of `s`.
pub fn extension(s: &[u8]) -> (r: &[u8])
    ensures
        r@ == extension_of(s@),
{
    let mut end: usize = s.len();
    while end > 0
        invariant
            end <= s@.len(),
            last_dot(s@, s@.len() as int) == last_dot(s@, end as int),
        decreases end,
    {
        if s[end - 1] == DOT {
            return &s[end..s.len()];
        }
        end = end - 1;
    }
    &s[0..s.len()]
}

/// The content type sent for extension `ext`.
pub fn content_type(ext: &[u8]) -> (r: &'static str)
    ensures
        r == mime_of(ext@),
{
    if bytes_eq(ext, "html".as_bytes()) || bytes_eq(ext, "htm".as_bytes()) { "text/html" }
    else if bytes_eq(ext, "css".as_bytes()) { "text/css" }
    else if bytes_eq(ext, "js".as_bytes()) { "text/javascript" }
    else if bytes_eq(ext, "json".as_bytes()) { "application/json" }
    else if bytes_eq(ext, "txt".as_bytes()) { "text/plain" }
    else if bytes_eq(ext, "png".as_bytes()) { "image/png" }
    else if bytes_eq(ext, "jpg".as_bytes()) || bytes_eq(ext, "jpeg".as_bytes()) { "image/jpeg" }
    else if bytes_eq(ext, "gif".as_bytes()) { "image/gif" }
    else if bytes_eq(ext, "svg".as_bytes()) { "image/svg+xml" }
    else if bytes_eq(ext, "ico".as_bytes()) { "image/x-icon" }
    else { "application/octet-stream" }
}

/// The response of a static-file route. Only `GET` is answered: with the
/// file's bytes, status `200` and its content type when it could be read,
/// and status `500` when it could not. Other methods leave `res` as it is.
pub fn file_response(method: &[u8], url: &[u8], contents: Option<Vec<u8>>, res: Response) -> (r: Response)
    ensures
        method@ == "GET".spec_bytes() ==> match contents {
            Some(b) => r.code == 200 && r.content@ == b@
                && r.header_view() == with_field(res.header_view(), "content-type".spec_bytes(),
                    mime_of(extension_of(url@)).spec_bytes()),
            None => r.code == 500 && r.headers@ == res.headers@ && r.content@ == res.content@,
        },
        method@ != "GET".spec_bytes() ==> r == res,
{
    let mut res = res;
    if bytes_eq(method, "GET".as_bytes()) {
        match contents {
            Some(b) => {
                res.status(200);
                res.body_bytes(b);
                res.header("content-type", content_type(extension(url)));
            },
            None => {
                res.status(500);
            },
        }
    }
    res
}

} // verus!
