use codex_state::json::{parse_json, JsonValue};
use codex_state::outside::MAX_HEADERS;
use codex_state::rate_limits::{
    event_headers, event_numbers, is_quota_header, push_header, record, stamp, telemetry_headers,
    Header, QuotaSnapshot,
};

fn header_map(pairs: &[(&str, &str)]) -> http::HeaderMap {
    let mut map = http::HeaderMap::new();
    for (name, value) in pairs {
        map.insert(
            http::HeaderName::from_bytes(name.as_bytes()).unwrap(),
            http::HeaderValue::from_str(value).unwrap(),
        );
    }
    map
}

fn value_of(headers: &[Header], name: &str) -> Option<String> {
    headers
        .iter()
        .find(|header| header.name() == name)
        .map(|header| String::from_utf8(header.value().clone()).unwrap())
}

fn format_number(number: f64) -> String {
    if number.fract() == 0.0 {
        format!("{}", number as i64)
    } else {
        format!("{number}")
    }
}

fn headers_from(payload: &JsonValue) -> Vec<Header> {
    let formatted: Vec<Option<String>> = event_numbers(payload)
        .into_iter()
        .map(|number| number.map(|text| format_number(text.parse().unwrap())))
        .collect();
    event_headers(payload, &formatted)
}

// A ChatGPT Pro subscription reports its weekly limit as the primary window,
// so the window's declared length matters to the client and travels with it.
#[test]
fn keeps_the_quota_headers_of_a_response_head() {
    let captured = telemetry_headers(&header_map(&[
        ("x-codex-primary-used-percent", "1"),
        ("x-codex-primary-window-minutes", "10080"),
        ("x-codex-primary-reset-at", "1788765936"),
        ("x-codex-plan-type", "pro"),
    ]));

    assert_eq!(
        value_of(&captured, "x-codex-primary-used-percent").as_deref(),
        Some("1")
    );
    assert_eq!(
        value_of(&captured, "x-codex-primary-window-minutes").as_deref(),
        Some("10080")
    );
    assert_eq!(
        value_of(&captured, "x-codex-primary-reset-at").as_deref(),
        Some("1788765936")
    );
    assert_eq!(
        value_of(&captured, "x-codex-plan-type").as_deref(),
        Some("pro")
    );
}

// `x-codex-turn-state` is continuation state, and a large opaque blob at
// that. Forwarding the whole prefix would put it on every response.
#[test]
fn drops_headers_that_are_not_quota() {
    let captured = telemetry_headers(&header_map(&[
        ("x-codex-primary-used-percent", "1"),
        ("x-codex-turn-state", "gAAAAAB-opaque"),
        ("content-type", "text/event-stream"),
    ]));

    assert_eq!(captured.len(), 1);
    assert_eq!(
        value_of(&captured, "x-codex-primary-used-percent").as_deref(),
        Some("1")
    );
}

// The WebSocket transport has no response headers at all, so the same
// numbers have to come out of the event instead.
#[test]
fn rebuilds_the_headers_from_a_rate_limits_event() {
    let payload = parse_json(
        "{\"type\": \"codex.rate_limits\", \"plan_type\": \"pro\", \"rate_limits\": {\
         \"allowed\": true, \"limit_reached\": false, \"primary\": {\
         \"used_percent\": 1.0, \"window_minutes\": 10080, \"reset_at\": 1788765936,\
         \"reset_after_seconds\": 603581}, \"secondary\": null}}",
    )
    .unwrap();

    let captured = headers_from(&payload);

    assert_eq!(
        value_of(&captured, "x-codex-primary-used-percent").as_deref(),
        Some("1")
    );
    assert_eq!(
        value_of(&captured, "x-codex-primary-window-minutes").as_deref(),
        Some("10080")
    );
    assert_eq!(
        value_of(&captured, "x-codex-primary-reset-at").as_deref(),
        Some("1788765936")
    );
    assert_eq!(
        value_of(&captured, "x-codex-primary-reset-after-seconds").as_deref(),
        Some("603581")
    );
    assert_eq!(
        value_of(&captured, "x-codex-plan-type").as_deref(),
        Some("pro")
    );
    assert_eq!(value_of(&captured, "x-codex-secondary-used-percent"), None);
}

// A window the plan does not meter must stay absent rather than arrive as
// zero, which a client would read as a bucket that is empty and usable.
#[test]
fn omits_a_window_the_event_reports_as_absent() {
    let payload = parse_json(
        "{\"type\": \"codex.rate_limits\", \"rate_limits\": {\"primary\": null, \"secondary\": null}}",
    )
    .unwrap();

    assert!(headers_from(&payload).is_empty());
}

fn sample() -> QuotaSnapshot {
    let mut snapshot = QuotaSnapshot::new();
    record(
        &mut snapshot,
        vec![
            Header::new("x-codex-primary-used-percent", "42").unwrap(),
            Header::new("x-codex-primary-window-minutes", "10080").unwrap(),
        ],
    );
    snapshot
}

#[test]
fn stamps_the_newest_snapshot_onto_a_response() {
    let snapshot = sample();

    let mut response = http::HeaderMap::new();
    stamp(&snapshot, &mut response);

    assert_eq!(
        response
            .get("x-codex-primary-used-percent")
            .and_then(|value| value.to_str().ok()),
        Some("42")
    );
}

// A streaming response is stamped on its head, before any of the body is
// written, so a client reading headers never has to wait for the stream.
#[test]
fn stamps_a_streaming_response_before_its_body() {
    let snapshot = sample();

    let mut response = axum::response::Response::builder()
        .header("content-type", "text/event-stream")
        .body(axum::body::Body::from("event: message_start\n"))
        .unwrap();
    stamp(&snapshot, response.headers_mut());

    assert_eq!(
        response
            .headers()
            .get("x-codex-primary-window-minutes")
            .and_then(|value| value.to_str().ok()),
        Some("10080")
    );
}

#[test]
fn stamping_leaves_present_headers_alone_and_repeats_nothing() {
    let snapshot = sample();
    let mut response = header_map(&[("x-codex-primary-used-percent", "7"), ("accept", "*/*")]);
    stamp(&snapshot, &mut response);
    assert_eq!(response.len(), 3);
    assert_eq!(response.get("x-codex-primary-used-percent").unwrap(), "7");
    assert_eq!(
        response.get("x-codex-primary-window-minutes").unwrap(),
        "10080"
    );
    let once = response.clone();
    stamp(&snapshot, &mut response);
    assert_eq!(response, once);
}

#[test]
fn an_empty_snapshot_leaves_the_previous_one() {
    let mut snapshot = sample();
    record(&mut snapshot, Vec::new());
    assert_eq!(snapshot.len(), 2);
    record(
        &mut snapshot,
        vec![Header::new("x-codex-plan-type", "pro").unwrap()],
    );
    assert_eq!(snapshot.len(), 1);
}

#[test]
fn repeated_headers_are_kept_and_stamped_once() {
    let mut head = http::HeaderMap::new();
    head.append("x-codex-credits-balance", "1".parse().unwrap());
    head.append("x-codex-credits-balance", "2".parse().unwrap());
    let mut secret: http::HeaderValue = "3".parse().unwrap();
    secret.set_sensitive(true);
    head.insert("x-codex-plan-type", secret);
    let captured = telemetry_headers(&head);
    assert_eq!(captured.len(), 3);
    assert!(captured
        .iter()
        .any(|header| header.name() == "x-codex-plan-type" && header.is_sensitive()));
    let mut snapshot = QuotaSnapshot::new();
    record(&mut snapshot, captured);
    let mut response = http::HeaderMap::new();
    stamp(&snapshot, &mut response);
    assert_eq!(response.len(), 2);
    assert_eq!(response.get("x-codex-credits-balance").unwrap(), "1");
    assert!(response.get("x-codex-plan-type").unwrap().is_sensitive());
}

#[test]
fn quota_names_are_told_from_protocol_state() {
    for name in [
        "x-codex-plan-type",
        "x-codex-active-limit",
        "x-codex-credits-has-credits",
        "x-codex-primary-used-percent",
        "x-codex-bengalfox-primary-window-minutes",
        "x-codex-secondary-reset-at",
        "x-codex-secondary-reset-after-seconds",
        "x-codex-bengalfox-limit-name",
        "x-codex-primary-over-secondary-limit-percent",
    ] {
        assert!(is_quota_header(name), "{name}");
    }
    for name in [
        "x-codex-turn-state",
        "x-codex-plan-types",
        "x-other-used-percent",
        "used-percent",
        "",
    ] {
        assert!(!is_quota_header(name), "{name}");
    }
}

#[test]
fn names_and_values_that_cannot_be_read_make_no_header() {
    let made = Header::new("X-Codex-Plan-Type", "pro").unwrap();
    assert_eq!(made.name(), "x-codex-plan-type");
    assert_eq!(made.value(), b"pro");
    assert!(Header::new("", "pro").is_none());
    assert!(Header::new("x codex", "pro").is_none());
    assert!(Header::new("x-codex\"", "pro").is_none());
    assert!(Header::new("x-codex-é", "pro").is_none());
    assert!(Header::new("x-codex-plan-type", "two\nlines").is_none());
    assert!(Header::new("x-codex-plan-type", "\u{7f}").is_none());
    assert_eq!(
        Header::new("x-codex-plan-type", "a\tb é").unwrap().value(),
        "a\tb é".as_bytes()
    );
    let mut headers = Vec::new();
    push_header(&mut headers, "x-codex-plan-type", "two\nlines");
    assert!(headers.is_empty());
    push_header(&mut headers, &"n".repeat(65_535), "v");
    push_header(&mut headers, &"n".repeat(65_536), "v");
    assert_eq!(headers.len(), 1);
}

#[test]
fn numbers_of_both_windows_are_told() {
    let payload = parse_json(
        "{\"rate_limits\": {\"primary\": {\"used_percent\": 12.5, \"reset_at\": \"soon\"},\
         \"secondary\": {\"window_minutes\": 300}}, \"plan_type\": 5}",
    )
    .unwrap();
    let numbers = event_numbers(&payload);
    assert_eq!(numbers.len(), 8);
    assert_eq!(numbers[0].as_deref(), Some("12.5"));
    assert_eq!(numbers[2], None);
    assert_eq!(numbers[5].as_deref(), Some("300"));
    let headers = headers_from(&payload);
    assert_eq!(headers.len(), 2);
    assert_eq!(
        value_of(&headers, "x-codex-primary-used-percent").as_deref(),
        Some("12.5")
    );
    assert_eq!(
        value_of(&headers, "x-codex-secondary-window-minutes").as_deref(),
        Some("300")
    );
}

#[test]
fn names_made_without_being_read_are_stamped_too() {
    let mut head = http::HeaderMap::new();
    head.insert(
        http::HeaderName::from_lowercase(b"x-codex-\"-used-percent").unwrap(),
        "9".parse().unwrap(),
    );
    let mut snapshot = QuotaSnapshot::new();
    record(&mut snapshot, telemetry_headers(&head));
    let mut response = http::HeaderMap::new();
    stamp(&snapshot, &mut response);
    assert_eq!(response, head);
}

fn crowded(headers: usize) -> http::HeaderMap {
    let mut response = http::HeaderMap::new();
    for i in 0..headers {
        response.insert(
            http::HeaderName::from_bytes(format!("n{i}").as_bytes()).unwrap(),
            "v".parse().unwrap(),
        );
    }
    response
}

#[test]
fn a_response_with_many_headers_is_stamped() {
    let snapshot = sample();
    for headers in [MAX_HEADERS - 2, MAX_HEADERS, MAX_HEADERS + 1, 20_000] {
        let mut response = crowded(headers);
        assert!(stamp(&snapshot, &mut response));
        assert_eq!(response.len(), headers + 2);
        assert_eq!(
            response.get("x-codex-primary-used-percent").unwrap(),
            "42"
        );
    }
}

#[test]
fn stamping_stops_at_a_header_that_there_is_no_room_for() {
    let snapshot = sample();
    let mut response = crowded(24_575);
    assert!(!stamp(&snapshot, &mut response));
    assert_eq!(response.len(), 24_576);
    assert!(response.contains_key("x-codex-primary-used-percent"));
    assert!(!response.contains_key("x-codex-primary-window-minutes"));
    response.remove("n0");
    assert!(stamp(&snapshot, &mut response));
    assert!(stamp(&snapshot, &mut response));
}
