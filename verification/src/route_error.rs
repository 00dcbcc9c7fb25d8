use vstd::prelude::*;

use crate::extra_data::ExtraData;
use crate::json::json_of_body;
use crate::json::route_error_output_to_json;
use crate::json_value::JsonValueSpec;
use crate::route_error_output::RouteErrorOutput;
use crate::route_error_output::RouteErrorOutputView;
use crate::route_internal_error_output::InternalErrorView;
use crate::route_internal_error_output::RouteInternalErrorOutput;
use crate::status::spec_default_public_message;
use crate::status::status_code_to_public_message;
use vstd::string::StringExecFns;

verus! {

/// Declares `anyhow::Error`, the type-erased diagnostic that error-like
/// values convert into; the library carries it opaquely and only ever renders
/// it to text.
#[verifier::external_type_specification]
#[verifier::external_body]
pub struct ExAnyhowError(anyhow::Error);

/// Relies on `anyhow::Error`'s `Display` and `Debug` renderings: the short
/// message of the diagnostic and its full debug text.
#[verifier::external_body]
fn render_diagnostic(error: &anyhow::Error) -> (r: RouteInternalErrorOutput)
{
    RouteInternalErrorOutput { name: format!("{}", error), debug: format!("{:?}", error) }
}

/// A structured failure outcome of a request handler: a status code, an
/// optional internal diagnostic, optional extra data for the body, and an
/// optional public message.  The compile-time flag selects whether the
/// internal diagnostic is exposed in the serialized body.
#[derive(Debug)]
pub struct ErrorResponseValue<const EXPOSE_INTERNAL_ERROR: bool> {
    pub(crate) status_code: u16,
    pub(crate) error: Option<RouteInternalErrorOutput>,
    pub(crate) extra_data: Option<ExtraData>,
    pub(crate) public_error_message: Option<String>,
}

/// The exposure variant for externally-facing endpoints: internal
/// diagnostics are never serialized into the body.
pub type RouteError = ErrorResponseValue<false>;

/// The mathematical model of an [`ErrorResponseValue`].
pub struct ErrorResponseView {
    pub status_code: u16,
    pub error: Option<InternalErrorView>,
    pub extra_data: Option<Seq<(Seq<char>, JsonValueSpec)>>,
    pub public_error_message: Option<Seq<char>>,
}

impl<const EXPOSE_INTERNAL_ERROR: bool> View for ErrorResponseValue<EXPOSE_INTERNAL_ERROR> {
    type V = ErrorResponseView;

    open(crate) spec fn view(&self) -> ErrorResponseView {
        ErrorResponseView {
            status_code: self.status_code,
            error: match self.error {
                Some(i) => Some(i@),
                None => None,
            },
            extra_data: match self.extra_data {
                Some(d) => Some(d@),
                None => None,
            },
            public_error_message: match self.public_error_message {
                Some(m) => Some(m@),
                None => None,
            },
        }
    }
}

/// The message shown to the caller: the explicit message when one was set,
/// else the default derived from the status code.
pub open spec fn spec_public_message(v: ErrorResponseView) -> Seq<char> {
    match v.public_error_message {
        Some(m) => m,
        None => spec_default_public_message(v.status_code),
    }
}

/// The body that serialization produces from a value under a given exposure
/// variant: the public message, the diagnostic only when exposed and set,
/// and the extra data unchanged.
pub open spec fn spec_output(v: ErrorResponseView, expose: bool) -> RouteErrorOutputView {
    RouteErrorOutputView {
        error: spec_public_message(v),
        internal_error: if expose {
            v.error
        } else {
            None
        },
        extra_data: v.extra_data,
    }
}

impl ErrorResponseValue<false> {
    /// A value for the given status with every other field absent.
    pub fn new_from_status(status_code: u16) -> (r: Self)
        ensures
            r@ == (ErrorResponseView {
                status_code,
                error: None,
                extra_data: None,
                public_error_message: None,
            }),
    {
        ErrorResponseValue {
            status_code,
            error: None,
            extra_data: None,
            public_error_message: None,
        }
    }

    /// A 401 Unauthorized value.
    pub fn new_unauthorized() -> (r: Self)
        ensures
            r@ == (ErrorResponseView {
                status_code: 401u16,
                error: None,
                extra_data: None,
                public_error_message: None,
            }),
    {
        Self::new_from_status(401)
    }

    /// A 404 Not Found value.
    pub fn new_not_found() -> (r: Self)
        ensures
            r@ == (ErrorResponseView {
                status_code: 404u16,
                error: None,
                extra_data: None,
                public_error_message: None,
            }),
    {
        Self::new_from_status(404)
    }

    /// A 400 Bad Request value.
    pub fn new_bad_request() -> (r: Self)
        ensures
            r@ == (ErrorResponseView {
                status_code: 400u16,
                error: None,
                extra_data: None,
                public_error_message: None,
            }),
    {
        Self::new_from_status(400)
    }

    /// A 500 Internal Server Error value.
    pub fn new_internal_server() -> (r: Self)
        ensures
            r@ == (ErrorResponseView {
                status_code: 500u16,
                error: None,
                extra_data: None,
                public_error_message: None,
            }),
    {
        Self::new_from_status(500)
    }

    /// A 409 Conflict value.
    pub fn new_conflict() -> (r: Self)
        ensures
            r@ == (ErrorResponseView {
                status_code: 409u16,
                error: None,
                extra_data: None,
                public_error_message: None,
            }),
    {
        Self::new_from_status(409)
    }

    /// A 403 Forbidden value.
    pub fn new_forbidden() -> (r: Self)
        ensures
            r@ == (ErrorResponseView {
                status_code: 403u16,
                error: None,
                extra_data: None,
                public_error_message: None,
            }),
    {
        Self::new_from_status(403)
    }
}

impl<const EXPOSE_INTERNAL_ERROR: bool> ErrorResponseValue<EXPOSE_INTERNAL_ERROR> {
    /// The adapter for arbitrary error-like values: yields status 500 with
    /// the diagnostic attached, every other field absent.
    pub fn new_from_error(error: anyhow::Error) -> (r: Self)
        ensures
            r@.status_code == 500u16,
            r@.error is Some,
            r@.extra_data is None,
            r@.public_error_message is None,
    {
        let diagnostic = render_diagnostic(&error);
        ErrorResponseValue {
            status_code: 500,
            error: Some(diagnostic),
            extra_data: None,
            public_error_message: None,
        }
    }

    /// Overrides the status code.
    pub fn set_status_code(self, status_code: u16) -> (r: Self)
        ensures
            r@ == (ErrorResponseView { status_code, ..self@ }),
    {
        ErrorResponseValue { status_code, ..self }
    }

    /// Attaches or replaces the internal diagnostic without touching the
    /// status or the message.  Which texts the rendering produces rests on
    /// the outside crate; [`Self::set_internal_error`] carries an exact
    /// contract for an already-rendered diagnostic.
    pub fn set_error(self, error: anyhow::Error) -> (r: Self)
        ensures
            r@.error is Some,
            r@.status_code == self@.status_code,
            r@.extra_data == self@.extra_data,
            r@.public_error_message == self@.public_error_message,
    {
        let diagnostic = render_diagnostic(&error);
        self.set_internal_error(diagnostic)
    }

    /// Attaches or replaces an already-rendered internal diagnostic, keeping
    /// its display and debug texts exactly.
    pub fn set_internal_error(self, internal_error: RouteInternalErrorOutput) -> (r: Self)
        ensures
            r@ == (ErrorResponseView { error: Some(internal_error@), ..self@ }),
    {
        ErrorResponseValue { error: Some(internal_error), ..self }
    }

    /// Attaches structured extra data to be flattened into the body.
    pub fn set_error_data(self, extra_data: ExtraData) -> (r: Self)
        ensures
            r@ == (ErrorResponseView { extra_data: Some(extra_data@), ..self@ }),
    {
        ErrorResponseValue { extra_data: Some(extra_data), ..self }
    }

    /// Overrides the status-derived default message.
    pub fn set_public_error_message(self, public_error_message: &str) -> (r: Self)
        ensures
            r@ == (ErrorResponseView {
                public_error_message: Some(public_error_message@),
                ..self@
            }),
    {
        ErrorResponseValue {
            public_error_message: Some(public_error_message.to_owned()),
            ..self
        }
    }

    /// The message shown to the end user: the explicit message when set,
    /// else the default derived from the status code.  Never empty.
    pub fn public_error_message(&self) -> (r: &str)
        ensures
            r@ == spec_public_message(self@),
    {
        match &self.public_error_message {
            Some(public_error_message) => public_error_message.as_str(),
            None => status_code_to_public_message(self.status_code),
        }
    }

    /// The status code carried by the value.
    pub fn status_code(&self) -> (r: u16)
        ensures
            r == self@.status_code,
    {
        self.status_code
    }

    /// Builds the serialized body shape: the diagnostic is included exactly
    /// when this is the internal-exposure variant and one was attached.
    pub fn into_output(self) -> (r: RouteErrorOutput)
        ensures
            r@ == spec_output(self@, EXPOSE_INTERNAL_ERROR),
    {
        let error = match self.public_error_message {
            Some(public_error_message) => public_error_message,
            None => status_code_to_public_message(self.status_code).to_owned(),
        };
        let internal_error = if EXPOSE_INTERNAL_ERROR {
            self.error
        } else {
            None
        };
        RouteErrorOutput { error, internal_error, extra_data: self.extra_data }
    }

    /// The response at the boundary: the status code, and the canonical JSON
    /// text of the serialized body.
    pub fn into_response_parts(self) -> (r: (u16, String))
        ensures
            r.0 == self@.status_code,
            r.1@ == json_of_body(spec_output(self@, EXPOSE_INTERNAL_ERROR)),
    {
        let status_code = self.status_code();
        let output = self.into_output();
        let body = route_error_output_to_json(&output);
        (status_code, body)
    }
}

impl<const EXPOSE_INTERNAL_ERROR: bool> Default for ErrorResponseValue<EXPOSE_INTERNAL_ERROR> {
    /// The default value: status 500, every other field absent.
    fn default() -> (r: Self)
        ensures
            r@ == (ErrorResponseView {
                status_code: 500u16,
                error: None,
                extra_data: None,
                public_error_message: None,
            }),
    {
        ErrorResponseValue {
            status_code: 500,
            error: None,
            extra_data: None,
            public_error_message: None,
        }
    }
}

/// An explicitly set public message always takes precedence over the
/// status-derived default, for any status code.
pub proof fn lemma_explicit_message_takes_precedence(v: ErrorResponseView)
    ensures
        v.public_error_message matches Some(m) ==> spec_public_message(v) == m,
{
}

/// Under the public-exposure variant the serialized body never carries an
/// internal diagnostic: the body is the same whether or not one was
/// attached, and the same whatever was attached.
pub proof fn lemma_public_variant_hides_diagnostic(v: ErrorResponseView)
    ensures
        spec_output(v, false).internal_error is None,
        spec_output(v, false) == spec_output((ErrorResponseView { error: None, ..v }), false),
{
}

/// Under the internal-exposure variant the serialized body carries the
/// internal diagnostic exactly when one was attached, with its rendered
/// display and debug texts unchanged.
pub proof fn lemma_internal_variant_shows_diagnostic(v: ErrorResponseView)
    ensures
        spec_output(v, true).internal_error == v.error,
{
}

} // verus!
