//! Path routing: patterns that mix literal text with wildcard captures are
//! compiled into segments, stored in one prefix tree per verb, and matched
//! against request paths.

pub mod boundary;
pub mod err;
pub mod request;
pub mod router;
pub mod text;
pub mod tree;

pub use request::{Method, Request, RequestExtensions, RequestUri};
pub use router::{Router, RouterBuilder};
