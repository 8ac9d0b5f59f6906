//! A single route binding: the method and path a handler is registered
//! under, keyed by the canonical identifier `"<METHOD> <path>"`.
//!
//! Handlers themselves are asynchronous function values and live with the
//! serving layer; it keeps each handler under the same position its route
//! holds in the route table.

use vstd::prelude::*;

use crate::request::Method;
use crate::request::identifier_of;

verus! {

/// The mathematical content of a route binding.
pub struct RouteView {
    pub method: Method,
    pub path: Seq<char>,
}

/// The identifier a route is matched by.
pub open spec fn route_id(rv: RouteView) -> Seq<char> {
    identifier_of(rv.method, rv.path)
}

/// An immutable binding of a method and a path, created at registration time
/// and owned by the route table.
#[derive(Debug)]
pub struct Route {
    method: Method,
    path: String,
}

impl View for Route {
    type V = RouteView;

    closed spec fn view(&self) -> RouteView {
        RouteView { method: self.method, path: self.path@ }
    }
}

impl Route {
    /// A route for `method` at exactly `path`.
    pub fn new(path: &str, method: Method) -> (r: Route)
        ensures
            r@.method == method,
            r@.path == path@,
    {
        Route { method, path: String::from_str(path) }
    }

    /// The identifier this route is matched by, e.g. `"GET /hello/world"`.
    pub fn identifier(&self) -> (r: String)
        ensures
            r@ == route_id(self@),
    {
        self.method.to_string().concat(" ").concat(self.path.as_str())
    }

    /// The route's path.
    pub fn path(&self) -> (r: &String)
        ensures
            r@ == self@.path,
    {
        &self.path
    }
}

} // verus!
