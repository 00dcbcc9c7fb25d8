use vstd::prelude::*;

use crate::route_error::ErrorResponseValue;

verus! {

/// The exposure variant for trusted, internal-only endpoints: an attached
/// internal diagnostic is intentionally serialized into the body.
pub type RouteInternalError = ErrorResponseValue<true>;

} // verus!
