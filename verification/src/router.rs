//! The route table and the per-connection dispatch decision.
//!
//! The router owns an ordered route table, frozen once serving begins, and
//! the shared application state.  For each connection the serving layer reads
//! one buffer, asks [`Router::dispatch_bytes`] what to do, performs the
//! decided action (invoke the handler kept under the matched position, write
//! the not-found answer, or close silently), and frames the handler's content
//! with [`crate::response::ok_response`].

use vstd::prelude::*;
use vstd::utf8::decode_utf8;
use vstd::utf8::valid_utf8;

use crate::request::Method;
use crate::request::Request;
use crate::request::identifier_of;
use crate::request::parse_request;
use crate::route::Route;
use crate::route::RouteView;
use crate::route::route_id;
use crate::text::str_eq;

verus! {

/// The frozen part of a router: its ordered route table.
pub struct RouterState {
    routes: Vec<Route>,
}

impl View for RouterState {
    type V = Seq<RouteView>;

    closed spec fn view(&self) -> Seq<RouteView> {
        self.routes@.map_values(|r: Route| r@)
    }
}

impl Default for RouterState {
    /// An empty route table.
    fn default() -> (r: RouterState)
        ensures
            r@ == Seq::<RouteView>::empty(),
    {
        let r = RouterState { routes: Vec::new() };
        proof {
            assert(r@ =~= Seq::<RouteView>::empty());
        }
        r
    }
}

/// Index of the first route in `rs` whose identifier is `id`, if any.
pub open spec fn match_index(rs: Seq<RouteView>, id: Seq<char>) -> Option<int>
    decreases rs.len(),
{
    if rs.len() == 0 {
        None
    } else if route_id(rs[0]) == id {
        Some(0)
    } else {
        match match_index(rs.drop_first(), id) {
            Some(i) => Some(i + 1),
            None => None,
        }
    }
}

/// `match_index` returns exactly the first match.
pub proof fn lemma_match_index(rs: Seq<RouteView>, id: Seq<char>)
    ensures
        match match_index(rs, id) {
            Some(i) => 0 <= i < rs.len() && route_id(rs[i]) == id && (forall|j: int|
                0 <= j < i ==> route_id(rs[j]) != id),
            None => forall|j: int| 0 <= j < rs.len() ==> route_id(rs[j]) != id,
        },
    decreases rs.len(),
{
    if rs.len() == 0 {
    } else if route_id(rs[0]) == id {
    } else {
        lemma_match_index(rs.drop_first(), id);
        assert(forall|j: int| 1 <= j < rs.len() ==> rs[j] == rs.drop_first()[j - 1]);
    }
}

/// A witness of a first match pins `match_index` down.
proof fn lemma_match_index_unique(rs: Seq<RouteView>, id: Seq<char>, i: int)
    requires
        0 <= i < rs.len(),
        route_id(rs[i]) == id,
        forall|j: int| 0 <= j < i ==> route_id(rs[j]) != id,
    ensures
        match_index(rs, id) == Some(i),
{
    lemma_match_index(rs, id);
    match match_index(rs, id) {
        None => {
            assert(route_id(rs[i]) != id);
        },
        Some(k) => {
            if k < i {
                assert(route_id(rs[k]) != id);
            }
            if k > i {
                assert(route_id(rs[i]) != id);
            }
        },
    }
}

/// A request for an identifier no route carries matches nothing: dispatch
/// never reaches a handler for it.
pub proof fn lemma_unmatched_never_dispatched(rs: Seq<RouteView>, id: Seq<char>)
    requires
        forall|i: int| 0 <= i < rs.len() ==> route_id(rs[i]) != id,
    ensures
        match_index(rs, id) is None,
{
    lemma_match_index(rs, id);
    if match_index(rs, id) is Some {
        let k: int = match_index(rs, id).unwrap();
        assert(route_id(rs[k]) != id);
    }
}

/// Of two routes registered with the same identifier, the earlier one always
/// wins the match, whatever either handler would do: the match lands at or
/// before the first, never at the second.
pub proof fn lemma_first_registered_wins(rs: Seq<RouteView>, i: int, j: int)
    requires
        0 <= i < j < rs.len(),
        route_id(rs[i]) == route_id(rs[j]),
    ensures
        match_index(rs, route_id(rs[j])) is Some,
        match_index(rs, route_id(rs[j])).unwrap() <= i,
        match_index(rs, route_id(rs[j])).unwrap() != j,
        route_id(rs[match_index(rs, route_id(rs[j])).unwrap()]) == route_id(rs[i]),
{
    let id = route_id(rs[j]);
    lemma_match_index(rs, id);
    match match_index(rs, id) {
        None => {
            assert(route_id(rs[i]) != id);
        },
        Some(k) => {
            if k > i {
                assert(route_id(rs[i]) != id);
            }
        },
    }
}

/// What one connection's input decides: close silently on unparseable input,
/// answer not-found when no route matches, or invoke the handler kept under
/// the matched route's position.
///
/// Whenever parsing succeeded (the two latter cases), the serving layer runs
/// the middleware chain, in registration order, before acting on the
/// decision.
pub enum Dispatch {
    /// The input is no request; nothing is written and the connection closes.
    ParseFailed,
    /// The request matches no route; the not-found answer is written.
    NotFound(Request),
    /// The request matches the route at the given table position; its handler
    /// answers the request.
    Matched(usize, Request),
}

/// A router: the route table, built by registration calls and frozen once
/// serving begins, plus the shared application state.
///
/// The state is duplicated once per connection; the router adds no
/// synchronization of its own, so state mutated across connections must
/// carry the application's own lock.
pub struct Router<T> {
    router_state: RouterState,
    user_state: T,
}

impl<T> Router<T> {
    /// The registered routes, in registration order.
    pub closed spec fn routes(&self) -> Seq<RouteView> {
        self.router_state@
    }

    /// The application state the router was built over.
    pub closed spec fn state(&self) -> T {
        self.user_state
    }

    /// A router with an empty route table over `user_state`.
    pub fn new(user_state: T) -> (r: Router<T>)
        ensures
            r.routes() == Seq::<RouteView>::empty(),
            r.state() == user_state,
    {
        Router { router_state: RouterState::default(), user_state }
    }

    /// Registers a route for `method` at `path`, after all routes registered
    /// so far.  The serving layer keeps the route's handler under the same
    /// position.
    pub fn register(&mut self, method: Method, path: &str)
        ensures
            final(self).routes() == old(self).routes().push(
                RouteView { method, path: path@ },
            ),
            final(self).state() == old(self).state(),
    {
        let ghost before = self.router_state.routes@;
        let route = Route::new(path, method);
        self.router_state.routes.push(route);
        proof {
            assert(self.router_state@ =~= before.map_values(|r: Route| r@).push(
                RouteView { method, path: path@ },
            ));
        }
    }

    /// Registers a route for [`Method::Get`] at `path`.
    pub fn get(&mut self, path: &str)
        ensures
            final(self).routes() == old(self).routes().push(
                RouteView { method: Method::Get, path: path@ },
            ),
            final(self).state() == old(self).state(),
    {
        self.register(Method::Get, path)
    }

    /// A reference to the application state, for the serving layer to
    /// duplicate once per connection.
    pub fn app_state(&self) -> (r: &T)
        ensures
            *r == self.state(),
    {
        &self.user_state
    }

    /// The position of the first route whose identifier equals the
    /// request's, if any.
    pub fn match_route(&self, req: &Request) -> (r: Option<usize>)
        ensures
            match r {
                Some(i) => match_index(self.routes(), identifier_of(req@.method, req@.path))
                    == Some(i as int),
                None => match_index(self.routes(), identifier_of(req@.method, req@.path)) is None,
            },
    {
        let id = req.identifier();
        let n = self.router_state.routes.len();
        let mut i: usize = 0;
        while i < n
            invariant
                n == self.router_state.routes@.len(),
                0 <= i <= n,
                id@ == identifier_of(req@.method, req@.path),
                forall|j: int| 0 <= j < i ==> route_id(self.routes()[j]) != id@,
            decreases n - i,
        {
            let rid = self.router_state.routes[i].identifier();
            if str_eq(rid.as_str(), id.as_str()) {
                proof {
                    lemma_match_index_unique(self.routes(), id@, i as int);
                }
                return Some(i);
            }
            i += 1;
        }
        proof {
            lemma_unmatched_never_dispatched(self.routes(), id@);
        }
        None
    }

    /// Decides one connection's outcome from its raw request text: parse,
    /// then match.  No handler is decided for unparseable input or for an
    /// identifier no route carries.
    pub fn dispatch(&self, raw: String) -> (d: Dispatch)
        ensures
            match d {
                Dispatch::ParseFailed => parse_request(raw@) is None,
                Dispatch::NotFound(req) => parse_request(raw@) == Some(req@) && match_index(
                    self.routes(),
                    identifier_of(req@.method, req@.path),
                ) is None,
                Dispatch::Matched(i, req) => parse_request(raw@) == Some(req@) && match_index(
                    self.routes(),
                    identifier_of(req@.method, req@.path),
                ) == Some(i as int),
            },
    {
        match Request::from_raw(raw) {
            None => Dispatch::ParseFailed,
            Some(req) => match self.match_route(&req) {
                None => Dispatch::NotFound(req),
                Some(i) => Dispatch::Matched(i, req),
            },
        }
    }

    /// Decides one connection's outcome from the raw read buffer: drop the
    /// zero bytes, decode, parse, match.  Input that is not valid UTF-8 is
    /// as unparseable as any malformed request.
    pub fn dispatch_bytes(&self, buf: Vec<u8>) -> (d: Dispatch)
        ensures
            ({
                let text = decode_utf8(nonzero_bytes(buf@));
                match d {
                    Dispatch::ParseFailed => !valid_utf8(nonzero_bytes(buf@)) || parse_request(
                        text,
                    ) is None,
                    Dispatch::NotFound(req) => valid_utf8(nonzero_bytes(buf@)) && parse_request(
                        text,
                    ) == Some(req@) && match_index(
                        self.routes(),
                        identifier_of(req@.method, req@.path),
                    ) is None,
                    Dispatch::Matched(i, req) => valid_utf8(nonzero_bytes(buf@)) && parse_request(
                        text,
                    ) == Some(req@) && match_index(
                        self.routes(),
                        identifier_of(req@.method, req@.path),
                    ) == Some(i as int),
                }
            }),
    {
        match request_text(buf) {
            None => Dispatch::ParseFailed,
            Some(raw) => self.dispatch(raw),
        }
    }
}

/// `b` with every zero byte removed.
pub open spec fn nonzero_bytes(b: Seq<u8>) -> Seq<u8>
    decreases b.len(),
{
    if b.len() == 0 {
        Seq::empty()
    } else if b.last() == 0 {
        nonzero_bytes(b.drop_last())
    } else {
        nonzero_bytes(b.drop_last()).push(b.last())
    }
}

/// Relies on String::from_utf8: yields the string holding exactly the given
/// bytes when they are valid UTF-8, and an error otherwise.
#[verifier::external_body]
fn string_from_utf8(bytes: Vec<u8>) -> (r: Option<String>)
    ensures
        match r {
            Some(s) => valid_utf8(bytes@) && s@ == decode_utf8(bytes@),
            None => !valid_utf8(bytes@),
        },
{
    String::from_utf8(bytes).ok()
}

/// The request text of one connection's read buffer.  Zero bytes, the unused
/// rest of the fixed-size read buffer, are dropped; what remains must be
/// valid UTF-8.
pub fn request_text(buf: Vec<u8>) -> (r: Option<String>)
    ensures
        match r {
            Some(s) => valid_utf8(nonzero_bytes(buf@)) && s@ == decode_utf8(nonzero_bytes(buf@)),
            None => !valid_utf8(nonzero_bytes(buf@)),
        },
{
    let n = buf.len();
    let mut kept: Vec<u8> = Vec::new();
    let mut i: usize = 0;
    proof {
        assert(buf@.subrange(0, 0) =~= Seq::<u8>::empty());
    }
    while i < n
        invariant
            n == buf@.len(),
            0 <= i <= n,
            kept@ == nonzero_bytes(buf@.subrange(0, i as int)),
        decreases n - i,
    {
        proof {
            assert(buf@.subrange(0, i + 1).drop_last() =~= buf@.subrange(0, i as int));
            assert(buf@.subrange(0, i + 1).last() == buf@[i as int]);
        }
        if buf[i] != 0 {
            kept.push(buf[i]);
        }
        i += 1;
    }
    proof {
        assert(buf@.subrange(0, n as int) =~= buf@);
    }
    string_from_utf8(kept)
}

} // verus!
