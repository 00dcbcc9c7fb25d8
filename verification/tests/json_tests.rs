use axum_route_error::ExtraData;
use axum_route_error::JsonValue;
use axum_route_error::RouteErrorOutput;
use axum_route_error::RouteInternalErrorOutput;
use axum_route_error::route_error_output_from_json;
use axum_route_error::route_error_output_to_json;

fn sample_extra() -> ExtraData {
    ExtraData::new(vec![
        ("absent".to_string(), JsonValue::Null),
        ("granted".to_string(), JsonValue::Bool(true)),
        ("revoked".to_string(), JsonValue::Bool(false)),
        ("guid".to_string(), JsonValue::Str("abc123".to_string())),
    ])
    .unwrap()
}

#[test]
fn encodes_scalars_exactly() {
    let body = RouteErrorOutput {
        error: "Bad request made".to_string(),
        internal_error: None,
        extra_data: Some(sample_extra()),
    };
    let text = route_error_output_to_json(&body);
    assert_eq!(
        text,
        "{\"error\":\"Bad request made\",\"absent\":null,\"granted\":true,\
         \"revoked\":false,\"guid\":\"abc123\"}"
    );
}

#[test]
fn encoder_output_is_real_json() {
    let body = RouteErrorOutput {
        error: "quote \" backslash \\ done".to_string(),
        internal_error: Some(RouteInternalErrorOutput {
            name: "name \"n\"".to_string(),
            debug: "debug \\d".to_string(),
        }),
        extra_data: Some(sample_extra()),
    };
    let text = route_error_output_to_json(&body);
    let value: serde_json::Value = serde_json::from_str(&text).unwrap();
    assert_eq!(
        value.get("error").unwrap().as_str().unwrap(),
        "quote \" backslash \\ done"
    );
    let internal = value.get("internal_error").unwrap();
    assert_eq!(internal.get("name").unwrap().as_str().unwrap(), "name \"n\"");
    assert_eq!(internal.get("debug").unwrap().as_str().unwrap(), "debug \\d");
    assert!(value.get("absent").unwrap().is_null());
    assert_eq!(value.get("granted").unwrap().as_bool().unwrap(), true);
    assert_eq!(value.get("revoked").unwrap().as_bool().unwrap(), false);
    assert_eq!(value.get("guid").unwrap().as_str().unwrap(), "abc123");
}

#[test]
fn round_trip_plain_body() {
    let body = RouteErrorOutput {
        error: "The resource was not found".to_string(),
        internal_error: None,
        extra_data: None,
    };
    let text = route_error_output_to_json(&body);
    let parsed = route_error_output_from_json(&text).unwrap();
    assert_eq!(parsed, body);
}

#[test]
fn round_trip_full_body() {
    let body = RouteErrorOutput {
        error: "an \"odd\" message with a \\ in it".to_string(),
        internal_error: Some(RouteInternalErrorOutput {
            name: "name text".to_string(),
            debug: "debug \"text\"".to_string(),
        }),
        extra_data: Some(sample_extra()),
    };
    let text = route_error_output_to_json(&body);
    let parsed = route_error_output_from_json(&text).unwrap();
    assert_eq!(parsed, body);
}

#[test]
fn round_trip_default_body() {
    let body = RouteErrorOutput::default();
    let text = route_error_output_to_json(&body);
    assert_eq!(text, "{\"error\":\"An unknown error occurred\"}");
    let parsed = route_error_output_from_json(&text).unwrap();
    assert_eq!(parsed.error, "An unknown error occurred");
    assert_eq!(parsed.internal_error, None);
    assert!(parsed.extra_data.is_none());
}

#[test]
fn empty_extra_data_serializes_like_absent() {
    let body = RouteErrorOutput {
        error: "Gateway timeout".to_string(),
        internal_error: None,
        extra_data: Some(ExtraData::new(Vec::new()).unwrap()),
    };
    let text = route_error_output_to_json(&body);
    assert_eq!(text, "{\"error\":\"Gateway timeout\"}");
    let parsed = route_error_output_from_json(&text).unwrap();
    assert!(parsed.extra_data.is_none());
}

#[test]
fn parser_rejects_malformed_text() {
    for text in [
        "",
        "{}",
        "{\"error\":}",
        "{\"error\":\"ok\"",
        "{\"error\":\"ok\"}trailing",
        "{\"error\":\"ok\",\"k\":}",
        "{\"error\":\"ok\",\"k\":nul}",
        "{\"error\":\"bad escape \\q\"}",
        "{\"error\":\"ok\",}",
        "{\"error\":\"raw control \n\"}",
        "{\"error\":\"bad hex \\u004a\"}",
        "{\"error\":\"bad hex \\u00g1\"}",
        "{\"error\":\"ok\",\"error\":null}",
        "{\"error\":\"ok\",\"internal_error\":null}",
        "{\"error\":\"ok\",\"k\":null,\"k\":null}",
    ] {
        assert!(route_error_output_from_json(text).is_none());
    }
}

#[test]
fn control_characters_are_escaped_as_hex() {
    let body = RouteErrorOutput {
        error: "line one\nline two\ttab\rdone".to_string(),
        internal_error: None,
        extra_data: None,
    };
    let text = route_error_output_to_json(&body);
    assert_eq!(
        text,
        "{\"error\":\"line one\\u000aline two\\u0009tab\\u000ddone\"}"
    );
    let value: serde_json::Value = serde_json::from_str(&text).unwrap();
    assert_eq!(
        value.get("error").unwrap().as_str().unwrap(),
        "line one\nline two\ttab\rdone"
    );
    let parsed = route_error_output_from_json(&text).unwrap();
    assert_eq!(parsed, body);
}

#[test]
fn multiline_diagnostic_round_trips_as_real_json() {
    let body = RouteErrorOutput {
        error: "An unexpected error occurred".to_string(),
        internal_error: Some(RouteInternalErrorOutput {
            name: "outer error".to_string(),
            debug: "outer error\n\nCaused by:\n    inner error".to_string(),
        }),
        extra_data: None,
    };
    let text = route_error_output_to_json(&body);
    let value: serde_json::Value = serde_json::from_str(&text).unwrap();
    assert_eq!(
        value
            .get("internal_error")
            .unwrap()
            .get("debug")
            .unwrap()
            .as_str()
            .unwrap(),
        "outer error\n\nCaused by:\n    inner error"
    );
    let parsed = route_error_output_from_json(&text).unwrap();
    assert_eq!(parsed, body);
}

#[test]
fn extra_data_rejects_reserved_keys() {
    assert!(ExtraData::new(vec![(
        "error".to_string(),
        JsonValue::Str("clash".to_string()),
    )])
    .is_none());
    assert!(ExtraData::new(vec![(
        "internal_error".to_string(),
        JsonValue::Null,
    )])
    .is_none());
}

#[test]
fn extra_data_rejects_duplicate_keys() {
    assert!(ExtraData::new(vec![
        ("guid".to_string(), JsonValue::Str("a".to_string())),
        ("guid".to_string(), JsonValue::Str("b".to_string())),
    ])
    .is_none());
}

#[test]
fn extra_data_accepts_distinct_keys() {
    let data = ExtraData::new(vec![
        ("first".to_string(), JsonValue::Null),
        ("second".to_string(), JsonValue::Bool(true)),
    ])
    .unwrap();
    assert_eq!(data.len(), 2);
}
