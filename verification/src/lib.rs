//! A standardized error-response value for request-handling endpoints.
//!
//! The crate centres on [`ErrorResponseValue`], a builder-style value carrying
//! an HTTP-like status code, an optional internal diagnostic, optional
//! structured extra data, and an optional public-facing message.  Converting
//! the value yields a status code and a canonical JSON body of the form
//! `{"error": "..."}`, optionally extended with an `internal_error` object
//! (internal-exposure variant only) and the extra-data fields flattened at the
//! top level.

mod extra_data;
mod json;
mod json_value;
mod route_error;
mod route_error_output;
mod route_internal_error;
mod route_internal_error_output;
mod status;

pub use extra_data::extra_keys_ok;
pub use extra_data::pairs_view;
pub use extra_data::ExtraData;
pub use json::canonical_body_of;
pub use json::esc;
pub use json::hex_digit;
pub use json::esc_char;
pub use json::extra_members;
pub use json::jinternal;
pub use json::jpair;
pub use json::jpairs;
pub use json::json_of_body;
pub use json::jstr;
pub use json::jval;
pub use json::lemma_extra_data_flattened;
pub use json::lemma_json_of_body_injective;
pub use json::route_error_output_from_json;
pub use json::route_error_output_to_json;
pub use json_value::JsonValue;
pub use json_value::JsonValueSpec;
pub use route_error::lemma_explicit_message_takes_precedence;
pub use route_error::lemma_internal_variant_shows_diagnostic;
pub use route_error::lemma_public_variant_hides_diagnostic;
pub use route_error::spec_output;
pub use route_error::spec_public_message;
pub use route_error::ErrorResponseValue;
pub use route_error::ErrorResponseView;
pub use route_error::RouteError;
pub use route_error_output::RouteErrorOutput;
pub use route_error_output::RouteErrorOutputView;
pub use route_internal_error::RouteInternalError;
pub use route_internal_error_output::InternalErrorView;
pub use route_internal_error_output::RouteInternalErrorOutput;
pub use status::lemma_default_message_nonempty;
pub use status::spec_default_public_message;
pub use status::status_code_to_public_message;
