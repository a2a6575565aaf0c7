//! A small HTTP/1.1 server engine: wire codec, exact-path routing and
//! prefix-ordered middleware, with verified contracts.
use vstd::prelude::*;

pub mod fields;
pub mod http_parser;
pub mod path;
pub mod pool;
pub mod request;
pub mod response;
pub mod statics;

use crate::path::{copy_bytes, normalize, normalized, has_prefix, starts_with, bytes_eq};
use crate::request::Request;
use crate::response::{Response, wire};
use crate::http_parser::{parse, parse_spec, model};
use vstd::string::StringSliceAdditionalSpecFns;

verus! {

/// The engine: a worker count, an exact-path route table and a middleware
/// chain. `H` is the handler type and `M` the middleware type; plain
/// function pointers and closures both fit.
pub struct RustHTTPServer<H, M> {
    /// The number of workers that serve connections.
    pub amount_of_threads: usize,
    /// Normalized path and handler, one entry per path.
    pub routes: Vec<(Vec<u8>, H)>,
    /// Normalized prefix and middleware, in registration order.
    pub middleware: Vec<(Vec<u8>, M)>,
}

/// The route keys.
pub open spec fn route_keys<H>(rs: Seq<(Vec<u8>, H)>) -> Seq<Seq<u8>> {
    rs.map_values(|e: (Vec<u8>, H)| e.0@)
}

/// The middleware prefixes.
pub open spec fn prefixes<M>(ms: Seq<(Vec<u8>, M)>) -> Seq<Seq<u8>> {
    ms.map_values(|e: (Vec<u8>, M)| e.0@)
}

/// No two routes share a path.
pub open spec fn keys_unique(ks: Seq<Seq<u8>>) -> bool {
    forall|i: int, j: int| 0 <= i < ks.len() && 0 <= j < ks.len() && i != j ==> ks[i] != ks[j]
}

/// Middleware `i` applies to `path`.
pub open spec fn applies(ps: Seq<Seq<u8>>, path: Seq<u8>, i: int) -> bool {
    0 <= i < ps.len() && has_prefix(path, ps[i])
}

/// Middleware `x` runs before middleware `y`: shorter prefixes first, and
/// registration order among prefixes of equal length.
pub open spec fn runs_before(ps: Seq<Seq<u8>>, x: int, y: int) -> bool {
    ps[x].len() < ps[y].len() || (ps[x].len() == ps[y].len() && x < y)
}

/// `order` lists exactly the middleware that apply to `path`, each once, in
/// running order.
pub open spec fn is_run_order(ps: Seq<Seq<u8>>, path: Seq<u8>, order: Seq<usize>) -> bool {
    &&& forall|k: int| 0 <= k < order.len() ==> applies(ps, path, #[trigger] order[k] as int)
    &&& forall|i: int| applies(ps, path, i) ==> exists|k: int| 0 <= k < order.len() && order[k] as int == i
    &&& forall|a: int, b: int| 0 <= a < b < order.len() ==> runs_before(ps, #[trigger] order[a] as int, #[trigger] order[b] as int)
}

/// The handler registered for exactly `path`, if any.
pub open spec fn route_for<H>(rs: Seq<(Vec<u8>, H)>, path: Seq<u8>) -> Option<H> {
    if exists|i: int| 0 <= i < rs.len() && rs[i].0@ == path {
        Some(rs[choose|i: int| 0 <= i < rs.len() && rs[i].0@ == path].1)
    } else {
        None
    }
}

/// `out` is a response that running the middleware at `order[k..]` and then
/// `handler` (or nothing) can produce from `req` and `res`. A middleware that
/// answers `false` ends the run with its response.
pub open spec fn run_yields<H, M>(
    ms: Seq<(Vec<u8>, M)>,
    order: Seq<usize>,
    k: int,
    req: Request,
    res: Response,
    handler: Option<H>,
    out: Response,
) -> bool
    where
        H: Fn(Request, Response) -> Response,
        M: Fn(Request, Response) -> (Request, Response, bool),
    decreases order.len() - k,
{
    if k < 0 || k >= order.len() {
        match handler {
            Some(h) => call_ensures(h, (req, res), out),
            None => out == res,
        }
    } else {
        exists|r2: Request, s2: Response, c: bool|
            #[trigger] call_ensures(ms[order[k] as int].1, (req, res), (r2, s2, c)) && if c {
                run_yields(ms, order, k + 1, r2, s2, handler, out)
            } else {
                out == s2
            }
    }
}

impl<H, M> RustHTTPServer<H, M> {
    /// Routes have distinct paths.
    pub open spec fn wf(&self) -> bool {
        keys_unique(route_keys(self.routes@))
    }

    /// A server with `amount_of_threads` workers and nothing registered.
    pub fn new(amount_of_threads: usize) -> (r: Self)
        requires
            amount_of_threads >= 1,
        ensures
            r.wf(),
            r.amount_of_threads == amount_of_threads,
            r.routes@.len() == 0,
            r.middleware@.len() == 0,
    {
        RustHTTPServer { amount_of_threads: amount_of_threads, routes: Vec::new(), middleware: Vec::new() }
    }

    /// Adds middleware for every request path that starts with the
    /// normalized `path`.
    pub fn middle(&mut self, path: &str, function: M)
        ensures
            final(self).amount_of_threads == old(self).amount_of_threads,
            final(self).routes@ == old(self).routes@,
            final(self).middleware@.len() == old(self).middleware@.len() + 1,
            forall|i: int| 0 <= i < old(self).middleware@.len() ==>
                final(self).middleware@[i] == old(self).middleware@[i],
            final(self).middleware@.last().0@ == normalized(path.spec_bytes()),
            final(self).middleware@.last().1 == function,
    {
        let p = normalize(path.as_bytes());
        self.middleware.push((p, function));
    }

    /// Position of the route registered for exactly `path`.
    pub fn route_position(&self, path: &[u8]) -> (r: Option<usize>)
        ensures
            match r {
                Some(i) => i < self.routes@.len() && self.routes@[i as int].0@ == path@,
                None => forall|i: int| 0 <= i < self.routes@.len() ==> self.routes@[i].0@ != path@,
            },
    {
        let mut i: usize = 0;
        while i < self.routes.len()
            invariant
                i <= self.routes@.len(),
                forall|j: int| 0 <= j < i ==> self.routes@[j].0@ != path@,
            decreases self.routes@.len() - i,
        {
            if bytes_eq(self.routes[i].0.as_slice(), path) {
                return Some(i);
            }
            i = i + 1;
        }
        None
    }

    /// Registers `function` for the normalized `path`; a second registration
    /// of a path replaces the first.
    pub fn route(&mut self, path: &str, function: H)
        requires
            old(self).wf(),
        ensures
            final(self).wf(),
            final(self).amount_of_threads == old(self).amount_of_threads,
            final(self).middleware@ == old(self).middleware@,
            exists|i: int| 0 <= i <= old(self).routes@.len() && i < final(self).routes@.len()
                && final(self).routes@[i].0@ == normalized(path.spec_bytes())
                && final(self).routes@[i].1 == function
                && (i == old(self).routes@.len() ==> final(self).routes@.len() == old(self).routes@.len() + 1)
                && (i < old(self).routes@.len() ==> final(self).routes@.len() == old(self).routes@.len())
                && forall|j: int| 0 <= j < final(self).routes@.len() && j != i
                    ==> #[trigger] final(self).routes@[j] == old(self).routes@[j],
            forall|q: Seq<u8>| #[trigger] route_for(final(self).routes@, q) == if q == normalized(path.spec_bytes()) {
                Some(function)
            } else {
                route_for(old(self).routes@, q)
            },
    {
        let p = normalize(path.as_bytes());
        let ghost key = p@;
        let ghost old_routes = self.routes@;
        match self.route_position(p.as_slice()) {
            Some(i) => {
                self.routes.set(i, (p, function));
                proof {
                    let rs = self.routes@;
                    assert(rs[i as int].0@ == key && rs[i as int].1 == function);
                    assert(route_keys(rs) =~= route_keys(old_routes));
                    assert forall|q: Seq<u8>| #[trigger] route_for(rs, q) == if q == key {
                        Some(function)
                    } else {
                        route_for(old_routes, q)
                    } by {
                        if q == key {
                            assert(rs[i as int].0@ == q);
                            let c = choose|j: int| 0 <= j < rs.len() && rs[j].0@ == q;
                            assert(route_keys(rs)[c] == route_keys(rs)[i as int]);
                        } else {
                            assert forall|j: int| 0 <= j < rs.len() implies (rs[j].0@ == q <==> old_routes[j].0@ == q) by {
                                if j == i { } else { assert(rs[j] == old_routes[j]); }
                            }
                            if exists|j: int| 0 <= j < rs.len() && rs[j].0@ == q {
                                let c = choose|j: int| 0 <= j < rs.len() && rs[j].0@ == q;
                                let d = choose|j: int| 0 <= j < old_routes.len() && old_routes[j].0@ == q;
                                assert(route_keys(old_routes)[c] == route_keys(old_routes)[d]);
                            }
                        }
                    }
                }
            },
            None => {
                self.routes.push((p, function));
                proof {
                    let rs = self.routes@;
                    assert(rs[old_routes.len() as int].0@ == key && rs[old_routes.len() as int].1 == function);
                    assert(route_keys(rs) =~= route_keys(old_routes).push(key));
                    assert forall|q: Seq<u8>| #[trigger] route_for(rs, q) == if q == key {
                        Some(function)
                    } else {
                        route_for(old_routes, q)
                    } by {
                        let n = old_routes.len() as int;
                        if q == key {
                            assert(rs[n].0@ == q);
                            let c = choose|j: int| 0 <= j < rs.len() && rs[j].0@ == q;
                            assert(c == n);
                        } else {
                            assert forall|j: int| 0 <= j < rs.len() implies (rs[j].0@ == q <==> (j < n && old_routes[j].0@ == q)) by {
                                if j < n { assert(rs[j] == old_routes[j]); }
                            }
                            if exists|j: int| 0 <= j < rs.len() && rs[j].0@ == q {
                                let c = choose|j: int| 0 <= j < rs.len() && rs[j].0@ == q;
                                let d = choose|j: int| 0 <= j < old_routes.len() && old_routes[j].0@ == q;
                                assert(route_keys(old_routes)[c] == route_keys(old_routes)[d]);
                                assert(rs[c] == old_routes[c]);
                            }
                        }
                    }
                }
            },
        }
    }
}

/// A fresh response: `404`, no headers, empty body.
pub open spec fn is_fresh(r: Response) -> bool {
    r.code == 404 && r.headers@.len() == 0 && r.content@.len() == 0
}

impl<H, M> RustHTTPServer<H, M> where
    H: Fn(Request, Response) -> Response,
    M: Fn(Request, Response) -> (Request, Response, bool),
 {
    /// `out` is a response that serving `req` can produce: the applicable
    /// middleware run in order from a fresh response, then the route.
    pub open spec fn handled(&self, req: Request, out: Response) -> bool {
        exists|order: Seq<usize>, start: Response|
            is_run_order(prefixes(self.middleware@), req.url@, order)
            && is_fresh(start)
            && #[trigger] run_yields(self.middleware@, order, 0, req, start, route_for(self.routes@, req.url@), out)
    }

    /// Serves one connection's bytes: parses them, dispatches the request
    /// and returns the response's wire form; input that does not parse gets
    /// a bare `500`.
    pub fn respond(&self, raw: &[u8]) -> (r: Vec<u8>)
        requires
            self.wf(),
            self.callable(),
        ensures
            match parse_spec(raw@) {
                Err(_) => r@ == wire(500, Seq::empty(), Seq::empty()),
                Ok(m) => exists|q: Request, out: Response|
                    model(q) == m && #[trigger] self.handled(q, out)
                    && r@ == wire(out.code, out.header_view(), out.content@),
            },
    {
        match parse(raw) {
            Ok(q) => {
                let ghost q0 = q;
                let out = self.handle(q);
                let r = out.to_bytes();
                assert(self.handled(q0, out));
                r
            },
            Err(_) => {
                let mut out = Response::new();
                out.status(500);
                let r = out.to_bytes();
                assert(out.header_view() =~= Seq::empty());
                assert(out.content@ =~= Seq::<u8>::empty());
                r
            },
        }
    }

    /// Every registered handler and middleware accepts every request.
    pub open spec fn callable(&self) -> bool {
        &&& forall|i: int, q: Request, s: Response| 0 <= i < self.routes@.len()
            ==> #[trigger] call_requires(self.routes@[i].1, (q, s))
        &&& forall|i: int, q: Request, s: Response| 0 <= i < self.middleware@.len()
            ==> #[trigger] call_requires(self.middleware@[i].1, (q, s))
    }

    /// The middleware that apply to `path`, in the order they run: shorter
    /// prefixes first, registration order among equal lengths.
    pub fn run_order(&self, path: &[u8]) -> (r: Vec<usize>)
        ensures
            is_run_order(prefixes(self.middleware@), path@, r@),
    {
        let ghost ps = prefixes(self.middleware@);
        let mut order: Vec<usize> = Vec::new();
        let mut len: usize = 0;
        loop
            invariant
                ps == prefixes(self.middleware@),
                len <= path@.len(),
                forall|k: int| 0 <= k < order@.len() ==> applies(ps, path@, #[trigger] order@[k] as int)
                    && ps[order@[k] as int].len() < len,
                forall|i: int| applies(ps, path@, i) && ps[i].len() < len
                    ==> exists|k: int| 0 <= k < order@.len() && order@[k] == i,
                forall|a: int, b: int| 0 <= a < b < order@.len()
                    ==> runs_before(ps, #[trigger] order@[a] as int, #[trigger] order@[b] as int),
            decreases path@.len() - len,
        {
            let mut i: usize = 0;
            while i < self.middleware.len()
                invariant
                    ps == prefixes(self.middleware@),
                    len <= path@.len(),
                    i <= self.middleware@.len(),
                    forall|k: int| 0 <= k < order@.len() ==> applies(ps, path@, #[trigger] order@[k] as int)
                        && (ps[order@[k] as int].len() < len
                            || (ps[order@[k] as int].len() == len && order@[k] < i)),
                    forall|j: int| applies(ps, path@, j) && (ps[j].len() < len || (ps[j].len() == len && j < i))
                        ==> exists|k: int| 0 <= k < order@.len() && order@[k] == j,
                    forall|a: int, b: int| 0 <= a < b < order@.len()
                        ==> runs_before(ps, #[trigger] order@[a] as int, #[trigger] order@[b] as int),
                decreases self.middleware@.len() - i,
            {
                let p = &self.middleware[i].0;
                if p.len() == len && starts_with(path, p.as_slice()) {
                    let ghost before = order@;
                    order.push(i);
                    proof {
                        assert forall|j: int| applies(ps, path@, j) && (ps[j].len() < len || (ps[j].len() == len && j < i + 1))
                            implies exists|k: int| 0 <= k < order@.len() && order@[k] == j by {
                            if j == i {
                                assert(order@[before.len() as int] == j);
                            } else {
                                let k = choose|k: int| 0 <= k < before.len() && before[k] == j;
                                assert(order@[k] == j);
                            }
                        }
                    }
                }
                i = i + 1;
            }
            if len == path.len() {
                proof {
                    assert forall|j: int| applies(ps, path@, j)
                        implies exists|k: int| 0 <= k < order@.len() && order@[k] == j by {
                        assert(ps[j].len() <= path@.len());
                    }
                }
                return order;
            }
            len = len + 1;
        }
    }

    /// Serves one request: runs the applicable middleware in order, stopping
    /// at the first that answers `false`, then the handler registered for the
    /// request's `url`, which `parse` has already normalized and which is used
    /// as it stands; with no such handler the response is left as the chain
    /// made it, starting from a fresh `404`.
    pub fn handle(&self, req: Request) -> (r: Response)
        requires
            self.wf(),
            self.callable(),
        ensures
            self.handled(req, r),
    {
        let ghost req0 = req;
        let path = copy_bytes(req.url.as_slice());
        let order = self.run_order(path.as_slice());
        let ghost h = route_for(self.routes@, path@);
        let ghost ms = self.middleware@;
        let mut cur_req = req;
        let mut cur_res = Response::new();
        let ghost res0 = cur_res;
        let mut k: usize = 0;
        while k < order.len()
            invariant
                ms == self.middleware@,
                self.callable(),
                k <= order@.len(),
                path@ == req0.url@,
                req0 == req,
                h == route_for(self.routes@, path@),
                is_fresh(res0),
                is_run_order(prefixes(ms), path@, order@),
                forall|out: Response| run_yields(ms, order@, k as int, cur_req, cur_res, h, out)
                    ==> #[trigger] run_yields(ms, order@, 0, req0, res0, h, out),
            decreases order@.len() - k,
        {
            let idx = order[k];
            let ghost q = cur_req;
            let ghost s = cur_res;
            assert(applies(prefixes(ms), path@, order@[k as int] as int));
            assert(prefixes(ms)[idx as int] == ms[idx as int].0@);
            let (r2, s2, c) = (self.middleware[idx].1)(cur_req, cur_res);
            if !c {
                assert(run_yields(ms, order@, k as int, q, s, h, s2));
                assert(run_yields(ms, order@, 0, req0, res0, h, s2));
                return s2;
            }
            proof {
                assert forall|out: Response| run_yields(ms, order@, k + 1, r2, s2, h, out)
                    implies #[trigger] run_yields(ms, order@, 0, req0, res0, h, out) by {
                    assert(call_ensures(ms[order@[k as int] as int].1, (q, s), (r2, s2, c)));
                    assert(run_yields(ms, order@, k as int, q, s, h, out));
                }
            }
            cur_req = r2;
            cur_res = s2;
            k = k + 1;
        }
        match self.route_position(path.as_slice()) {
            Some(i) => {
                proof {
                    let rs = self.routes@;
                    let c = choose|j: int| 0 <= j < rs.len() && rs[j].0@ == path@;
                    assert(route_keys(rs)[c] == route_keys(rs)[i as int]);
                }
                let ghost q = cur_req;
                let ghost s = cur_res;
                let out = (self.routes[i].1)(cur_req, cur_res);
                assert(run_yields(ms, order@, k as int, q, s, h, out));
                assert(run_yields(ms, order@, 0, req0, res0, h, out));
                out
            },
            None => {
                assert(run_yields(ms, order@, k as int, cur_req, cur_res, h, cur_res));
                assert(run_yields(ms, order@, 0, req0, res0, h, cur_res));
                cur_res
            },
        }
    }
}

/// A route registered at `p` answers exactly the request paths whose normal
/// form is `p`'s: `/a/b` answers `/a/b` and `/a/b/`, and neither `/a/bc`
/// nor `/a` (unless something else was registered there).
pub proof fn lemma_route_exact<H>(
    before: Seq<(Vec<u8>, H)>,
    after: Seq<(Vec<u8>, H)>,
    p: Seq<u8>,
    h: H,
    q: Seq<u8>,
)
    requires
        forall|k: Seq<u8>| #[trigger] route_for(after, k) == if k == normalized(p) {
            Some(h)
        } else {
            route_for(before, k)
        },
    ensures
        normalized(q) == normalized(p) ==> route_for(after, normalized(q)) == Some(h),
        normalized(q) != normalized(p) ==> route_for(after, normalized(q)) == route_for(before, normalized(q)),
{
    let _ = route_for(after, normalized(q));
}

/// Among middleware that apply, one with a shorter prefix runs before one
/// with a longer prefix (so `/` runs before `/user` on `/user/1`), and of
/// two equal prefixes the one registered first runs first.
pub proof fn lemma_shorter_prefix_first(ps: Seq<Seq<u8>>, path: Seq<u8>, order: Seq<usize>, i: int, j: int)
    requires
        is_run_order(ps, path, order),
        applies(ps, path, i),
        applies(ps, path, j),
        ps[i].len() < ps[j].len() || (ps[i].len() == ps[j].len() && i < j),
    ensures
        exists|a: int, b: int| 0 <= a < b < order.len() && order[a] == i && order[b] == j,
{
    let a = choose|k: int| 0 <= k < order.len() && order[k] as int == i;
    let b = choose|k: int| 0 <= k < order.len() && order[k] as int == j;
    if b < a {
        assert(runs_before(ps, order[b] as int, order[a] as int));
    }
    assert(a != b);
}

/// A middleware that always stops with status `400` ends the run there: the
/// final response is the one it returned, with status `400`, and neither
/// later middleware nor the route handler takes part.
pub proof fn lemma_stop_ends_run<H, M>(
    ms: Seq<(Vec<u8>, M)>,
    order: Seq<usize>,
    k: int,
    req: Request,
    res: Response,
    handler: Option<H>,
    out: Response,
)
    where
        H: Fn(Request, Response) -> Response,
        M: Fn(Request, Response) -> (Request, Response, bool),
    requires
        0 <= k < order.len(),
        forall|q: Request, s: Response, c: bool|
            #[trigger] call_ensures(ms[order[k] as int].1, (req, res), (q, s, c)) ==> !c && s.code == 400,
        run_yields(ms, order, k, req, res, handler, out),
    ensures
        out.code == 400,
        exists|q: Request| call_ensures(ms[order[k] as int].1, (req, res), (q, out, false)),
{
    let (q, s, c) = choose|q: Request, s: Response, c: bool|
        #[trigger] call_ensures(ms[order[k] as int].1, (req, res), (q, s, c)) && if c {
            run_yields(ms, order, k + 1, q, s, handler, out)
        } else {
            out == s
        };
    assert(call_ensures(ms[order[k] as int].1, (req, res), (q, out, false)));
}

/// Served end to end: when middleware `i` is the first to run on the
/// request's path and always stops with status `400`, every response that
/// serving the request can give is one that `i` returned, with status `400`;
/// the route handler is never reached.
pub proof fn lemma_first_stop_decides<H, M>(server: RustHTTPServer<H, M>, req: Request, i: int, out: Response)
    where
        H: Fn(Request, Response) -> Response,
        M: Fn(Request, Response) -> (Request, Response, bool),
    requires
        applies(prefixes(server.middleware@), req.url@, i),
        forall|j: int| applies(prefixes(server.middleware@), req.url@, j) && j != i
            ==> runs_before(prefixes(server.middleware@), i, j),
        forall|q: Request, s: Response, q2: Request, s2: Response, c: bool|
            #[trigger] call_ensures(server.middleware@[i].1, (q, s), (q2, s2, c)) ==> !c && s2.code == 400,
        server.handled(req, out),
    ensures
        out.code == 400,
        exists|start: Response, q: Request| is_fresh(start)
            && call_ensures(server.middleware@[i].1, (req, start), (q, out, false)),
{
    let ps = prefixes(server.middleware@);
    let ms = server.middleware@;
    let (order, start) = choose|order: Seq<usize>, start: Response|
        is_run_order(ps, req.url@, order) && is_fresh(start)
        && #[trigger] run_yields(ms, order, 0, req, start, route_for(server.routes@, req.url@), out);
    let k = choose|k: int| 0 <= k < order.len() && order[k] as int == i;
    if k > 0 {
        let f = order[0] as int;
        assert(runs_before(ps, f, i));
        assert(applies(ps, req.url@, f));
        assert(runs_before(ps, i, f));
    }
    assert(order[0] as int == i);
    lemma_stop_ends_run::<H, M>(ms, order, 0, req, start, route_for(server.routes@, req.url@), out);
}

/// Served end to end: when exactly two middleware apply to the request's
/// path, `i` before `j` (a shorter prefix first, like `/` before `/user`),
/// both always go on, and no route matches, then `i` runs on a fresh
/// response, `j` runs on exactly the request and response that `i`
/// returned, and the response served is the one `j` returned.
pub proof fn lemma_two_middleware_in_order<H, M>(
    server: RustHTTPServer<H, M>,
    req: Request,
    i: int,
    j: int,
    out: Response,
)
    where
        H: Fn(Request, Response) -> Response,
        M: Fn(Request, Response) -> (Request, Response, bool),
    requires
        applies(prefixes(server.middleware@), req.url@, i),
        applies(prefixes(server.middleware@), req.url@, j),
        runs_before(prefixes(server.middleware@), i, j),
        forall|x: int| applies(prefixes(server.middleware@), req.url@, x) ==> x == i || x == j,
        forall|q: Request, s: Response, q2: Request, s2: Response, c: bool|
            #[trigger] call_ensures(server.middleware@[i].1, (q, s), (q2, s2, c)) ==> c,
        forall|q: Request, s: Response, q2: Request, s2: Response, c: bool|
            #[trigger] call_ensures(server.middleware@[j].1, (q, s), (q2, s2, c)) ==> c,
        route_for(server.routes@, req.url@) is None,
        server.handled(req, out),
    ensures
        exists|start: Response, q1: Request, s1: Response, q2: Request|
            is_fresh(start)
            && call_ensures(server.middleware@[i].1, (req, start), (q1, s1, true))
            && call_ensures(server.middleware@[j].1, (q1, s1), (q2, out, true)),
{
    let ps = prefixes(server.middleware@);
    let ms = server.middleware@;
    let h = route_for(server.routes@, req.url@);
    let (order, start) = choose|order: Seq<usize>, start: Response|
        is_run_order(ps, req.url@, order) && is_fresh(start)
        && #[trigger] run_yields(ms, order, 0, req, start, h, out);
    let a = choose|k: int| 0 <= k < order.len() && order[k] as int == i;
    let b = choose|k: int| 0 <= k < order.len() && order[k] as int == j;
    if b < a {
        assert(runs_before(ps, order[b] as int, order[a] as int));
    }
    assert(i != j);
    assert(a < b);
    if order.len() > 2 {
        assert(applies(ps, req.url@, order[2] as int));
        assert(runs_before(ps, order[0] as int, order[2] as int));
        assert(runs_before(ps, order[1] as int, order[2] as int));
    }
    assert(order.len() == 2);
    assert(a == 0 && b == 1);
    let (q1, s1, c1) = choose|q1: Request, s1: Response, c1: bool|
        #[trigger] call_ensures(ms[order[0] as int].1, (req, start), (q1, s1, c1)) && if c1 {
            run_yields(ms, order, 1, q1, s1, h, out)
        } else {
            out == s1
        };
    assert(c1);
    let (q2, s2, c2) = choose|q2: Request, s2: Response, c2: bool|
        #[trigger] call_ensures(ms[order[1] as int].1, (q1, s1), (q2, s2, c2)) && if c2 {
            run_yields(ms, order, 2, q2, s2, h, out)
        } else {
            out == s2
        };
    assert(c2);
    assert(out == s2);
    assert(call_ensures(ms[i].1, (req, start), (q1, s1, true)));
    assert(call_ensures(ms[j].1, (q1, s1), (q2, out, true)));
}

/// With no route for the path and middleware that all pass the request on
/// without touching the response, the response is the one the run started
/// from: a fresh `404` with an empty body.
pub proof fn lemma_fallback<H, M>(
    ms: Seq<(Vec<u8>, M)>,
    order: Seq<usize>,
    k: int,
    req: Request,
    res: Response,
    out: Response,
)
    where
        H: Fn(Request, Response) -> Response,
        M: Fn(Request, Response) -> (Request, Response, bool),
    requires
        0 <= k <= order.len(),
        forall|i: int, q: Request, s: Response, q2: Request, s2: Response, c: bool|
            k <= i < order.len() && #[trigger] call_ensures(ms[order[i] as int].1, (q, s), (q2, s2, c))
            ==> c && s2 == s,
        run_yields(ms, order, k, req, res, None::<H>, out),
    ensures
        out == res,
        is_fresh(res) ==> out.code == 404 && out.content@.len() == 0,
    decreases order.len() - k,
{
    if k < order.len() {
        let (q, s, c) = choose|q: Request, s: Response, c: bool|
            #[trigger] call_ensures(ms[order[k] as int].1, (req, res), (q, s, c)) && if c {
                run_yields(ms, order, k + 1, q, s, None::<H>, out)
            } else {
                out == s
            };
        lemma_fallback::<H, M>(ms, order, k + 1, q, s, out);
    }
}

/// With middleware that all pass the request and response on unchanged, the
/// route handler receives them as the run started and its response is final.
pub proof fn lemma_pass_through_to_route<H, M>(
    ms: Seq<(Vec<u8>, M)>,
    order: Seq<usize>,
    k: int,
    req: Request,
    res: Response,
    h: H,
    out: Response,
)
    where
        H: Fn(Request, Response) -> Response,
        M: Fn(Request, Response) -> (Request, Response, bool),
    requires
        0 <= k <= order.len(),
        forall|i: int, q: Request, s: Response, q2: Request, s2: Response, c: bool|
            k <= i < order.len() && #[trigger] call_ensures(ms[order[i] as int].1, (q, s), (q2, s2, c))
            ==> c && s2 == s && q2 == q,
        run_yields(ms, order, k, req, res, Some(h), out),
    ensures
        call_ensures(h, (req, res), out),
    decreases order.len() - k,
{
    if k < order.len() {
        let (q, s, c) = choose|q: Request, s: Response, c: bool|
            #[trigger] call_ensures(ms[order[k] as int].1, (req, res), (q, s, c)) && if c {
                run_yields(ms, order, k + 1, q, s, Some(h), out)
            } else {
                out == s
            };
        lemma_pass_through_to_route::<H, M>(ms, order, k + 1, q, s, h, out);
    }
}

} // verus!
