use rusthttpserver::pool::JobQueue;
use rusthttpserver::request::Request;
use rusthttpserver::response::Response;
use rusthttpserver::statics::{content_type, extension, file_response, static_route_path};
use rusthttpserver::RustHTTPServer;

type Handler = fn(Request, Response) -> Response;
type Middle = fn(Request, Response) -> (Request, Response, bool);
type Server = RustHTTPServer<Handler, Middle>;

fn text(v: &[u8]) -> String {
    String::from_utf8(v.to_vec()).unwrap()
}

fn ok_handler(_req: Request, mut res: Response) -> Response {
    res.status(200);
    res.body("found");
    res
}

fn get(server: &Server, path: &str) -> String {
    let raw = format!("GET {} HTTP/1.1\r\nHost: x\r\n\r\n", path);
    text(&server.respond(raw.as_bytes()))
}

#[test]
fn new_server_is_empty() {
    let server: Server = RustHTTPServer::new(2);
    assert_eq!(server.amount_of_threads, 2);
    assert!(server.routes.is_empty());
    assert!(server.middleware.is_empty());
}

#[test]
fn route_lookup_is_exact() {
    let mut server: Server = RustHTTPServer::new(1);
    server.route("/a/b", ok_handler);
    assert!(get(&server, "/a/b").starts_with("HTTP/1.1 200 OK\r\n"));
    assert!(get(&server, "/a/b/").starts_with("HTTP/1.1 200 OK\r\n"));
    assert!(get(&server, "/a/bc").starts_with("HTTP/1.1 404 Not Found\r\n"));
    assert!(get(&server, "/a").starts_with("HTTP/1.1 404 Not Found\r\n"));
}

#[test]
fn route_registered_with_slash_and_replaced() {
    let mut server: Server = RustHTTPServer::new(1);
    server.route("/x/", |_req, mut res| {
        res.status(201);
        res
    });
    server.route("/x", ok_handler);
    assert_eq!(server.routes.len(), 1);
    assert_eq!(server.routes[0].0, b"/x".to_vec());
    assert!(get(&server, "/x").starts_with("HTTP/1.1 200 OK\r\n"));
}

#[test]
fn middle_normalizes_prefix() {
    let mut server: Server = RustHTTPServer::new(1);
    server.middle("/post/", |q, s| (q, s, true));
    server.middle("", |q, s| (q, s, true));
    assert_eq!(server.middleware[0].0, b"/post".to_vec());
    assert_eq!(server.middleware[1].0, b"/".to_vec());
}

#[test]
fn middleware_runs_shorter_prefix_first() {
    let mut server: Server = RustHTTPServer::new(1);
    server.middle("/user", |q, mut s| {
        let mut b = s.content.clone();
        b.extend_from_slice(b"user;");
        s.body_bytes(b);
        (q, s, true)
    });
    server.middle("/", |q, mut s| {
        let mut b = s.content.clone();
        b.extend_from_slice(b"root;");
        s.body_bytes(b);
        (q, s, true)
    });
    server.middle("/use", |q, mut s| {
        let mut b = s.content.clone();
        b.extend_from_slice(b"use;");
        s.body_bytes(b);
        (q, s, true)
    });
    server.middle("/other", |q, mut s| {
        s.status(418);
        (q, s, true)
    });
    assert_eq!(server.run_order(b"/user/1"), vec![1, 2, 0]);
    let out = get(&server, "/user/1");
    assert!(out.ends_with("\r\n\r\nroot;use;user;"));
    assert!(out.starts_with("HTTP/1.1 404 Not Found\r\n"));
}

#[test]
fn middleware_equal_prefixes_keep_registration_order() {
    let mut server: Server = RustHTTPServer::new(1);
    server.middle("/a", |q, mut s| {
        s.body("first");
        (q, s, true)
    });
    server.middle("/a/", |q, mut s| {
        let mut b = s.content.clone();
        b.extend_from_slice(b"+second");
        s.body_bytes(b);
        (q, s, true)
    });
    assert_eq!(server.run_order(b"/a"), vec![0, 1]);
    assert!(get(&server, "/a").ends_with("first+second"));
}

#[test]
fn stopping_middleware_skips_handler() {
    let mut server: Server = RustHTTPServer::new(1);
    server.middle("/", |q, mut s| {
        s.status(400);
        (q, s, false)
    });
    server.middle("/guarded/deeper", |q, mut s| {
        s.header("x-later", "1");
        (q, s, true)
    });
    server.route("/guarded/deeper", |_req, mut res| {
        res.header("x-handled", "1");
        res.status(200);
        res
    });
    let out = get(&server, "/guarded/deeper");
    assert_eq!(out, "HTTP/1.1 400 Bad Request\r\nContent-Length: 0\r\n\r\n");
}

#[test]
fn unregistered_path_falls_back_to_404() {
    let mut server: Server = RustHTTPServer::new(1);
    server.route("/known", ok_handler);
    server.middle("/", |q, s| (q, s, true));
    assert_eq!(get(&server, "/unknown"), "HTTP/1.1 404 Not Found\r\nContent-Length: 0\r\n\r\n");
}

#[test]
fn malformed_request_gets_500() {
    let server: Server = RustHTTPServer::new(1);
    assert_eq!(
        text(&server.respond(b"garbage")),
        "HTTP/1.1 500 Internal Server Error\r\nContent-Length: 0\r\n\r\n"
    );
}

fn post_gate(req: Request, mut res: Response) -> (Request, Response, bool) {
    if req.method == b"POST".to_vec() {
        if req.body.len() > 0 {
            return (req, res, true);
        }
        res.status(400);
    }
    (req, res, false)
}

fn post_handler(req: Request, mut res: Response) -> Response {
    if req.method == b"POST".to_vec() {
        res.status(200);
        res.body("{\"message\": \"Hello World!\"}");
        res.header("content-type", "application/json");
    }
    res
}

fn post_server() -> Server {
    let mut server: Server = RustHTTPServer::new(2);
    server.middle("/post/", post_gate);
    server.route("/post/", post_handler);
    server
}

#[test]
fn post_with_body_reaches_handler() {
    let server = post_server();
    let raw = b"POST /post/ HTTP/1.1\r\nContent-Length: 7\r\n\r\n{\"a\":1}";
    assert_eq!(
        text(&server.respond(raw)),
        "HTTP/1.1 200 OK\r\ncontent-type: application/json\r\nContent-Length: 27\r\n\r\n{\"message\": \"Hello World!\"}"
    );
}

#[test]
fn post_without_body_is_rejected() {
    let server = post_server();
    let raw = b"POST /post/ HTTP/1.1\r\n\r\n";
    assert_eq!(text(&server.respond(raw)), "HTTP/1.1 400 Bad Request\r\nContent-Length: 0\r\n\r\n");
}

#[test]
fn user_route_with_params() {
    let mut server: Server = RustHTTPServer::new(2);
    server.route("/user/", |req, mut res| {
        match req.contains_params(&["name", "age"]) {
            Some(missing) => {
                res.status(400);
                res.body(&format!("Missing parameter: {}", missing));
            }
            None => {
                res.status(200);
                let name = String::from_utf8(req.param("name").unwrap()).unwrap();
                let age = String::from_utf8(req.param("age").unwrap()).unwrap();
                res.body(&format!("<h1>Hello {}, age {}!</h1>", name, age));
            }
        }
        res
    });
    assert!(get(&server, "/user/?name=Bo&age=9").ends_with("\r\n\r\n<h1>Hello Bo, age 9!</h1>"));
    let missing = get(&server, "/user?name=Bo");
    assert!(missing.starts_with("HTTP/1.1 400 Bad Request\r\n"));
    assert!(missing.ends_with("Missing parameter: age"));
}

#[test]
fn job_queue_hands_each_job_out_once_in_order() {
    let mut q: JobQueue<u32> = JobQueue::new(3);
    assert_eq!(q.workers(), 3);
    assert_eq!(q.take(), None);
    q.execute(10);
    q.execute(20);
    q.execute(30);
    assert_eq!(q.take(), Some(10));
    q.execute(40);
    assert_eq!(q.take(), Some(20));
    assert_eq!(q.take(), Some(30));
    assert_eq!(q.take(), Some(40));
    assert_eq!(q.take(), None);
}

#[test]
fn static_route_paths() {
    assert_eq!(static_route_path("css\\site.css"), b"/css/site.css".to_vec());
    assert_eq!(static_route_path("index.html"), b"/index.html".to_vec());
}

#[test]
fn extensions_and_content_types() {
    assert_eq!(extension(b"/css/site.min.css"), b"css");
    assert_eq!(extension(b"/README"), b"/README");
    assert_eq!(content_type(b"html"), "text/html");
    assert_eq!(content_type(b"png"), "image/png");
    assert_eq!(content_type(b"/README"), "application/octet-stream");
}

fn request(method: &str, url: &str) -> Request {
    Request {
        method: method.as_bytes().to_vec(),
        url: url.as_bytes().to_vec(),
        headers: Vec::new(),
        body: Vec::new(),
        params: Vec::new(),
    }
}

#[test]
fn file_response_cases() {
    let r = request("GET", "/index.html");
    let ok = file_response(&r.method, &r.url, Some(b"<p>".to_vec()), Response::new());
    assert_eq!(text(&ok.to_bytes()), "HTTP/1.1 200 OK\r\ncontent-type: text/html\r\nContent-Length: 3\r\n\r\n<p>");
    let failed = file_response(&r.method, &r.url, None, Response::new());
    assert_eq!(failed.code, 500);
    let p = request("POST", "/index.html");
    let untouched = file_response(&p.method, &p.url, Some(b"x".to_vec()), Response::new());
    assert_eq!(untouched.code, 404);
    assert!(untouched.content.is_empty());
}

#[test]
fn request_path_is_normalized_once() {
    let mut server: Server = RustHTTPServer::new(1);
    server.route("/a//", ok_handler);
    assert_eq!(server.routes[0].0, b"/a/".to_vec());
    assert!(get(&server, "/a//").starts_with("HTTP/1.1 200 OK\r\n"));
    assert!(get(&server, "/a").starts_with("HTTP/1.1 404 Not Found\r\n"));
}
