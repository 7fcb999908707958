//! Request parameters, as plain values handed in by the routing layer.

use vstd::prelude::*;

verus! {

/// The parameters of a search request: the raw query text, if any, and an
/// optional presented credential.
pub struct SearchQuery {
    pub q: Option<String>,
    pub login: Option<String>,
}

} // verus!
