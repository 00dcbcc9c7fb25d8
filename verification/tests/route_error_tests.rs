use axum_route_error::ExtraData;
use axum_route_error::JsonValue;
use axum_route_error::RouteError;
use axum_route_error::RouteInternalError;
use axum_route_error::route_error_output_from_json;
use axum_route_error::status_code_to_public_message;
use axum_route_error::RouteInternalErrorOutput;

#[test]
fn it_should_not_output_internal_error() {
    fn raise_error() -> Result<(), RouteError> {
        Err(RouteError::new_from_error(anyhow::Error::msg(
            "Too many foxes in the DB",
        )))?;

        Ok(())
    }

    let err = raise_error().unwrap_err();
    let (_status, body) = err.into_response_parts();
    let parsed = route_error_output_from_json(&body).unwrap();

    assert_eq!(parsed.internal_error, None);
}

#[test]
fn it_should_output_internal_error() {
    fn raise_error() -> Result<(), RouteInternalError> {
        Err(RouteInternalError::new_from_error(anyhow::Error::msg(
            "Too many foxes in the DB",
        )))?;

        Ok(())
    }

    let err = raise_error().unwrap_err();
    let (_status, body) = err.into_response_parts();
    let parsed = route_error_output_from_json(&body).unwrap();

    assert_eq!(
        parsed.internal_error.unwrap().name,
        "Too many foxes in the DB"
    );
}

#[test]
fn default_message_table() {
    let table: Vec<(u16, &str)> = vec![
        (409, "The request is not allowed"),
        (401, "You are not authorised to access this endpoint"),
        (404, "The resource was not found"),
        (400, "Bad request made"),
        (403, "Request is forbidden"),
        (418, "I'm a teapot"),
        (429, "Too many requests"),
        (502, "Bad gateway"),
        (503, "Service unavailable"),
        (504, "Gateway timeout"),
        (500, "An unexpected error occurred"),
    ];
    for (status, message) in table {
        let err = RouteError::new_from_status(status);
        assert_eq!(err.public_error_message(), message);
        assert_eq!(status_code_to_public_message(status), message);
    }
}

#[test]
fn default_message_fallback() {
    for status in [200u16, 402, 410, 999] {
        let err = RouteError::new_from_status(status);
        assert_eq!(err.public_error_message(), "An unknown error occurred");
    }
}

#[test]
fn explicit_message_takes_precedence() {
    for status in [404u16, 500, 999] {
        let err = RouteError::new_from_status(status)
            .set_public_error_message("A custom message");
        assert_eq!(err.public_error_message(), "A custom message");
    }
}

#[test]
fn convenience_constructors_set_status() {
    assert_eq!(RouteError::new_unauthorized().status_code(), 401);
    assert_eq!(RouteError::new_not_found().status_code(), 404);
    assert_eq!(RouteError::new_bad_request().status_code(), 400);
    assert_eq!(RouteError::new_internal_server().status_code(), 500);
    assert_eq!(RouteError::new_conflict().status_code(), 409);
    assert_eq!(RouteError::new_forbidden().status_code(), 403);
    assert_eq!(<RouteError as Default>::default().status_code(), 500);
}

#[test]
fn set_status_code_overrides() {
    let err = RouteError::new_not_found().set_status_code(403);
    assert_eq!(err.status_code(), 403);
    assert_eq!(err.public_error_message(), "Request is forbidden");
}

#[test]
fn implicit_conversion_yields_500_with_diagnostic() {
    let err = RouteInternalError::new_from_error(anyhow::Error::msg("boom"));
    assert_eq!(err.status_code(), 500);
    assert_eq!(err.public_error_message(), "An unexpected error occurred");
    let (status, body) = err.into_response_parts();
    assert_eq!(status, 500);
    let parsed = route_error_output_from_json(&body).unwrap();
    let diagnostic = parsed.internal_error.unwrap();
    assert!(!diagnostic.name.is_empty());
    assert!(!diagnostic.debug.is_empty());
}

#[test]
fn not_found_scenario() {
    let (status, body) = RouteError::new_not_found().into_response_parts();
    assert_eq!(status, 404);
    assert_eq!(body, "{\"error\":\"The resource was not found\"}");
}

#[test]
fn implicit_error_public_scenario() {
    let err = RouteError::new_from_error(anyhow::Error::msg("Too many foxes in the DB"));
    let (status, body) = err.into_response_parts();
    assert_eq!(status, 500);
    assert_eq!(body, "{\"error\":\"An unexpected error occurred\"}");
    let value: serde_json::Value = serde_json::from_str(&body).unwrap();
    assert!(value.get("internal_error").is_none());
}

#[test]
fn implicit_error_internal_scenario() {
    let err = RouteInternalError::new_from_error(anyhow::Error::msg("Too many foxes in the DB"));
    let (status, body) = err.into_response_parts();
    assert_eq!(status, 500);
    let value: serde_json::Value = serde_json::from_str(&body).unwrap();
    assert_eq!(value.get("error").unwrap().as_str().unwrap(), "An unexpected error occurred");
    let internal = value.get("internal_error").unwrap();
    assert_eq!(
        internal.get("name").unwrap().as_str().unwrap(),
        "Too many foxes in the DB"
    );
    assert!(!internal.get("debug").unwrap().as_str().unwrap().is_empty());
}

#[test]
fn set_error_attaches_diagnostic_without_touching_status() {
    let err = RouteInternalError::default()
        .set_status_code(409)
        .set_error(anyhow::Error::msg("a conflict happened"));
    assert_eq!(err.status_code(), 409);
    assert_eq!(err.public_error_message(), "The request is not allowed");
    let (_status, body) = err.into_response_parts();
    let parsed = route_error_output_from_json(&body).unwrap();
    assert_eq!(parsed.internal_error.unwrap().name, "a conflict happened");
}

#[test]
fn set_internal_error_keeps_texts_exactly() {
    let err = RouteInternalError::default().set_internal_error(RouteInternalErrorOutput {
        name: "short text".to_string(),
        debug: "long text".to_string(),
    });
    let (_status, body) = err.into_response_parts();
    let parsed = route_error_output_from_json(&body).unwrap();
    let diagnostic = parsed.internal_error.unwrap();
    assert_eq!(diagnostic.name, "short text");
    assert_eq!(diagnostic.debug, "long text");
}

#[test]
fn public_variant_discards_attached_diagnostic() {
    let err = RouteError::new_conflict().set_error(anyhow::Error::msg("hidden cause"));
    let (_status, body) = err.into_response_parts();
    assert_eq!(body, "{\"error\":\"The request is not allowed\"}");
}

#[test]
fn extra_data_is_flattened_at_top_level() {
    let data = ExtraData::new(vec![(
        "guid".to_string(),
        JsonValue::Str("abc123".to_string()),
    )])
    .unwrap();
    let err = RouteError::new_not_found().set_error_data(data);
    let (_status, body) = err.into_response_parts();
    assert_eq!(
        body,
        "{\"error\":\"The resource was not found\",\"guid\":\"abc123\"}"
    );
    let value: serde_json::Value = serde_json::from_str(&body).unwrap();
    assert_eq!(value.get("guid").unwrap().as_str().unwrap(), "abc123");
    assert!(value.get("extra_data").is_none());
}
