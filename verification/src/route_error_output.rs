use vstd::prelude::*;

use crate::extra_data::ExtraData;
use crate::json_value::JsonValueSpec;
use crate::route_internal_error_output::InternalErrorView;
use crate::route_internal_error_output::RouteInternalErrorOutput;

verus! {

/// The serialized shape of an error response body: a mandatory public
/// `error` message, an optional rendered internal diagnostic, and optional
/// extra data flattened into the top-level object.
#[derive(Debug, PartialEq)]
pub struct RouteErrorOutput {
    pub error: String,
    pub internal_error: Option<RouteInternalErrorOutput>,
    pub extra_data: Option<ExtraData>,
}

/// The mathematical model of a [`RouteErrorOutput`].
pub struct RouteErrorOutputView {
    pub error: Seq<char>,
    pub internal_error: Option<InternalErrorView>,
    pub extra_data: Option<Seq<(Seq<char>, JsonValueSpec)>>,
}

impl View for RouteErrorOutput {
    type V = RouteErrorOutputView;

    open spec fn view(&self) -> RouteErrorOutputView {
        RouteErrorOutputView {
            error: self.error@,
            internal_error: match self.internal_error {
                Some(i) => Some(i@),
                None => None,
            },
            extra_data: match self.extra_data {
                Some(d) => Some(d@),
                None => None,
            },
        }
    }
}

impl Default for RouteErrorOutput {
    /// The body used when nothing more specific is known: the generic
    /// fallback message, no diagnostic, no extra data.
    fn default() -> (r: Self)
        ensures
            r@.error == "An unknown error occurred"@,
            r@.internal_error is None,
            r@.extra_data is None,
    {
        RouteErrorOutput {
            error: String::from_str("An unknown error occurred"),
            internal_error: None,
            extra_data: None,
        }
    }
}

} // verus!
