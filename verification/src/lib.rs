//! A minimal request router for a text-based request/response protocol in the
//! style of HTTP/1.1.
//!
//! The library covers the request lifecycle: parsing raw request text into a
//! structured [`request::Request`], matching it against a registered table of
//! routes by its `"<METHOD> <path>"` identifier, deciding how the connection
//! must be answered, and framing the response bytes.  The asynchronous
//! serving layer around it (sockets, handler futures) only performs the
//! actions decided here.

pub mod request;
pub mod response;
pub mod route;
pub mod router;
pub mod text;

pub use crate::request::Method;
pub use crate::request::Request;
pub use crate::response::Response;
pub use crate::route::Route;
pub use crate::router::Router;
