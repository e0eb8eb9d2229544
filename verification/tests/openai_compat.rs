use codex_state::json::{stable_json, JsonValue};
use codex_state::openai_compat::{
    OpenAiError, OpenAiResponseMetadata, OpenAiSurface, ProviderError, ProviderErrorKind, Status,
    MAX_OPENAI_REQUEST_BYTES, MAX_PROVIDER_STREAM_BYTES, MAX_SSE_EVENT_BYTES,
};

#[test]
fn limits_are_in_mebibytes() {
    assert_eq!(MAX_OPENAI_REQUEST_BYTES, 67_108_864);
    assert_eq!(MAX_PROVIDER_STREAM_BYTES, 33_554_432);
    assert_eq!(MAX_SSE_EVENT_BYTES, 2_097_152);
}

#[test]
fn routes_have_labels() {
    assert_eq!(OpenAiSurface::ChatCompletions.label(), "chat_completions");
    assert_eq!(OpenAiSurface::Responses.label(), "responses");
}

#[test]
fn tools_are_chosen_at_will_by_default() {
    let metadata = OpenAiResponseMetadata::default();
    assert!(metadata.tools.is_empty());
    assert!(matches!(metadata.clone().tool_choice, JsonValue::Text(t) if t == "auto"));
}

#[test]
fn errors_are_reported_as_json() {
    let invalid = OpenAiError::invalid("bad".to_string(), Some("input".to_string())).response();
    assert_eq!(invalid.status, 400);
    assert_eq!(
        stable_json(&invalid.body),
        "{\"error\":{\"code\":null,\"message\":\"bad\",\"param\":\"input\",\"type\":\"invalid_request_error\"}}"
    );
    assert_eq!(invalid.retry_after, None);

    let upstream = OpenAiError::upstream_protocol("odd".to_string()).response();
    assert_eq!(upstream.status, 502);
    assert_eq!(
        stable_json(&upstream.body),
        "{\"error\":{\"code\":\"upstream_protocol_error\",\"message\":\"odd\",\"param\":null,\"type\":\"api_error\"}}"
    );

    let unsupported = OpenAiError::unsupported("seed".to_string()).response();
    assert_eq!(unsupported.status, 400);
    assert_eq!(
        stable_json(&unsupported.body),
        "{\"error\":{\"code\":\"unsupported_parameter\",\"message\":\"Unsupported parameter: 'seed'\",\"param\":\"seed\",\"type\":\"invalid_request_error\"}}"
    );
}

#[test]
fn provider_errors_keep_what_they_say() {
    for (kind, name) in [
        (ProviderErrorKind::Authentication, "authentication_error"),
        (ProviderErrorKind::Permission, "permission_error"),
        (ProviderErrorKind::RateLimit, "rate_limit_error"),
        (ProviderErrorKind::InvalidRequest, "invalid_request_error"),
        (ProviderErrorKind::Api, "api_error"),
    ] {
        let error = OpenAiError::from(ProviderError {
            kind,
            status: Status::new(429).unwrap(),
            message: "slow down".to_string(),
            param: None,
            code: Some("limit".to_string()),
            retry_after: Some("30".to_string()),
        });
        assert_eq!(error.kind, name);
        assert_eq!(error.status.code(), 429);
        assert_eq!(error.message, "slow down");
        assert_eq!(error.code.as_deref(), Some("limit"));
        let response = error.response();
        assert_eq!(response.retry_after.as_deref(), Some(b"30".as_slice()));
    }
}

#[test]
fn a_wait_that_cannot_stand_in_a_header_is_left_out() {
    let mut error = OpenAiError::upstream_protocol("odd".to_string());
    error.retry_after = Some("30\n".to_string());
    assert_eq!(error.clone().response().retry_after, None);
    error.retry_after = Some(String::new());
    assert_eq!(error.response().retry_after.as_deref(), Some(b"".as_slice()));
}

#[test]
fn a_status_has_three_digits() {
    assert!(Status::new(99).is_none());
    assert_eq!(Status::new(100).unwrap().code(), 100);
    assert_eq!(Status::new(999).unwrap().code(), 999);
    assert!(Status::new(1000).is_none());
}
