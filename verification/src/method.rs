//! The HTTP methods the router dispatches on.

use vstd::prelude::*;

verus! {

/// An HTTP request method, as used in route declarations and requests.
///
/// The set of methods is the one from RFC 7231, plus `PATCH`.
#[derive(Clone, Copy, PartialEq, Eq, Structural, Debug, Hash)]
pub enum HttpMethod {
    Get,
    Head,
    Post,
    Put,
    Delete,
    Connect,
    Options,
    Trace,
    Patch,
}

} // verus!
