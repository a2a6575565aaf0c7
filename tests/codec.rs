use rusthttpserver::http_parser::{parse, ParseError};
use rusthttpserver::path::normalize;
use rusthttpserver::response::Response;

fn text(v: &[u8]) -> String {
    String::from_utf8(v.to_vec()).unwrap()
}

#[test]
fn normalize_strips_one_trailing_slash() {
    assert_eq!(normalize(b"/a/"), b"/a".to_vec());
    assert_eq!(normalize(b"/a"), b"/a".to_vec());
    assert_eq!(normalize(b"/"), b"/".to_vec());
    assert_eq!(normalize(b""), b"/".to_vec());
}

#[test]
fn normalize_twice_is_normalize_once() {
    for p in [&b"/a/"[..], b"/a", b"/", b"", b"/user/admin/", b"x/"] {
        let once = normalize(p);
        assert_eq!(normalize(&once), once);
    }
}

#[test]
fn normalize_doubled_slash_is_not_idempotent() {
    let once = normalize(b"/a//");
    assert_eq!(once, b"/a/".to_vec());
    assert_eq!(normalize(&once), b"/a".to_vec());
}

#[test]
fn parse_request_with_query() {
    let raw = b"GET /user/?name=Bo&age=9 HTTP/1.1\r\nHost: x\r\n\r\n";
    let req = parse(raw).unwrap();
    assert_eq!(text(&req.method), "GET");
    assert_eq!(text(&req.url), "/user");
    assert_eq!(req.param("name"), Some(b"Bo".to_vec()));
    assert_eq!(req.param("age"), Some(b"9".to_vec()));
    assert_eq!(req.params.len(), 2);
    assert_eq!(req.get_header("Host"), Some(b"x".to_vec()));
    assert_eq!(req.get_header("host"), None);
    assert!(req.body.is_empty());
}

#[test]
fn parse_decodes_query_and_empty_values() {
    let raw = b"GET /s?q=a+b%21&flag&&x=%zz HTTP/1.1\r\n\r\n";
    let req = parse(raw).unwrap();
    assert_eq!(req.param("q"), Some(b"a b!".to_vec()));
    assert_eq!(req.param("flag"), Some(Vec::new()));
    assert_eq!(req.param("x"), Some(b"%zz".to_vec()));
    assert_eq!(req.params.len(), 3);
    assert_eq!(req.param("absent"), None);
}

#[test]
fn parse_reads_body_by_length() {
    let raw = b"POST /post/ HTTP/1.1\r\nContent-Length: 5\r\ncontent-type: application/json\r\n\r\nhelloEXTRA";
    let req = parse(raw).unwrap();
    assert_eq!(text(&req.method), "POST");
    assert_eq!(text(&req.url), "/post");
    assert_eq!(req.body, b"hello".to_vec());
    assert_eq!(req.get_header("content-type"), Some(b"application/json".to_vec()));
}

#[test]
fn parse_body_without_length_is_empty() {
    let req = parse(b"POST /p HTTP/1.1\r\n\r\nignored").unwrap();
    assert!(req.body.is_empty());
}

#[test]
fn parse_root_and_no_version() {
    let req = parse(b"GET /\r\n\r\n").unwrap();
    assert_eq!(text(&req.url), "/");
}

#[test]
fn parse_errors() {
    assert_eq!(parse(b"GET / HTTP/1.1").err(), Some(ParseError::MissingRequestLine));
    assert_eq!(parse(b"").err(), Some(ParseError::MissingRequestLine));
    assert_eq!(parse(b"GET\r\n\r\n").err(), Some(ParseError::BadRequestLine));
    assert_eq!(parse(b"GET x HTTP/1.1\r\n\r\n").err(), Some(ParseError::BadRequestLine));
    assert_eq!(parse(b"GET / HTTP/1.1\r\nHost: x\r\n").err(), Some(ParseError::UnterminatedHeaders));
    assert_eq!(parse(b"GET / HTTP/1.1\r\nnocolon\r\n\r\n").err(), Some(ParseError::BadHeader));
    assert_eq!(parse(b"GET / HTTP/1.1\r\nContent-Length: 9\r\n\r\nabc").err(), Some(ParseError::IncompleteBody));
    assert_eq!(parse(b"GET / HTTP/1.1\r\nContent-Length: 99999999999999999999999\r\n\r\nabc").err(), Some(ParseError::IncompleteBody));
    assert_eq!(parse(b"GET / HTTP/1.1\r\nContent-Length: 99999999999999999999999x\r\n\r\nabc").err(), Some(ParseError::BadLength));
    assert_eq!(parse(b"GET / HTTP/1.1\r\nContent-Length: x1\r\n\r\nabc").err(), Some(ParseError::BadLength));
}

#[test]
fn serialize_response() {
    let mut res = Response::new();
    res.status(200);
    res.header("content-type", "text/plain");
    res.body("hi");
    assert_eq!(
        text(&res.to_bytes()),
        "HTTP/1.1 200 OK\r\ncontent-type: text/plain\r\nContent-Length: 2\r\n\r\nhi"
    );
}

#[test]
fn serialize_default_response() {
    let res = Response::new();
    assert_eq!(res.code, 404);
    assert_eq!(text(&res.to_bytes()), "HTTP/1.1 404 Not Found\r\nContent-Length: 0\r\n\r\n");
}

#[test]
fn serialize_keeps_handler_length_and_order() {
    let mut res = Response::new();
    res.status(301);
    res.header("Location", "/index.html");
    res.header("content-length", "0");
    res.header("Location", "/other");
    assert_eq!(
        text(&res.to_bytes()),
        "HTTP/1.1 301 Moved Permanently\r\nLocation: /other\r\ncontent-length: 0\r\n\r\n"
    );
    assert_eq!(res.get_header("Location"), Some(b"/other".to_vec()));
}

#[test]
fn serialize_unknown_status_and_long_body() {
    let mut res = Response::new();
    res.status(799);
    res.body_bytes(vec![b'a'; 1234]);
    let out = text(&res.to_bytes());
    assert!(out.starts_with("HTTP/1.1 799 Unknown\r\nContent-Length: 1234\r\n\r\naaa"));
    assert_eq!(out.len(), "HTTP/1.1 799 Unknown\r\nContent-Length: 1234\r\n\r\n".len() + 1234);
}

#[test]
fn serialize_respects_capitalized_length_header() {
    let mut res = Response::new();
    res.status(200);
    res.header("Content-Length", "2");
    res.body("hi");
    assert_eq!(text(&res.to_bytes()), "HTTP/1.1 200 OK\r\nContent-Length: 2\r\n\r\nhi");
}
