use vstd::prelude::*;

verus! {

/// The default public message derived from a status code.  Codes outside the
/// table fall back to a generic message.
pub open spec fn spec_default_public_message(status_code: u16) -> Seq<char> {
    if status_code == 409 {
        "The request is not allowed"@
    } else if status_code == 401 {
        "You are not authorised to access this endpoint"@
    } else if status_code == 404 {
        "The resource was not found"@
    } else if status_code == 400 {
        "Bad request made"@
    } else if status_code == 403 {
        "Request is forbidden"@
    } else if status_code == 418 {
        "I'm a teapot"@
    } else if status_code == 429 {
        "Too many requests"@
    } else if status_code == 502 {
        "Bad gateway"@
    } else if status_code == 503 {
        "Service unavailable"@
    } else if status_code == 504 {
        "Gateway timeout"@
    } else if status_code == 500 {
        "An unexpected error occurred"@
    } else {
        "An unknown error occurred"@
    }
}

/// A status-derived default message is never empty, whatever the code.
pub proof fn lemma_default_message_nonempty(status_code: u16)
    ensures
        spec_default_public_message(status_code).len() > 0,
{
    reveal_strlit("The request is not allowed");
    reveal_strlit("You are not authorised to access this endpoint");
    reveal_strlit("The resource was not found");
    reveal_strlit("Bad request made");
    reveal_strlit("Request is forbidden");
    reveal_strlit("I'm a teapot");
    reveal_strlit("Too many requests");
    reveal_strlit("Bad gateway");
    reveal_strlit("Service unavailable");
    reveal_strlit("Gateway timeout");
    reveal_strlit("An unexpected error occurred");
    reveal_strlit("An unknown error occurred");
}

/// Maps a status code to the default public message shown when no explicit
/// message was set.
pub fn status_code_to_public_message(status_code: u16) -> (r: &'static str)
    ensures
        r@ == spec_default_public_message(status_code),
{
    match status_code {
        409 => "The request is not allowed",
        401 => "You are not authorised to access this endpoint",
        404 => "The resource was not found",
        400 => "Bad request made",
        403 => "Request is forbidden",
        418 => "I'm a teapot",
        429 => "Too many requests",
        502 => "Bad gateway",
        503 => "Service unavailable",
        504 => "Gateway timeout",
        500 => "An unexpected error occurred",
        _ => "An unknown error occurred",
    }
}

} // verus!
