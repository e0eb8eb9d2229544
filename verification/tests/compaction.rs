use codex_state::compaction::{
    abort_compaction_attempt, activate_compaction, apply_compaction_replay, begin_compaction,
    clear_all_compactions_for_tests, clear_compaction, compaction_from_payloads,
    compaction_request, finish_compaction, parse_compaction_response, store_compaction,
    CodexError, CompactionAttempt, CompactionError, CompactionRegistry, MAX_STATE_BYTES,
    STATE_TTL_MS,
};
use codex_state::history::{
    build_compacted_history, message_tokens, portable_summary_text, split_input_envelope,
    summary_of, truncate_message, truncate_retained_messages, without_compaction_instruction,
    RETAINED_MESSAGE_TOKEN_BUDGET,
};
use codex_state::json::{json_eq, parse_json, stable_json, JsonValue};
use codex_state::request::{
    items_value, ResponsesContentPart, ResponsesInputItem, ResponsesRequest,
};
use codex_state::sse::parse_sse_events;

const NOW: u64 = 1_700_000_000_000;
const SUMMARY: &str =
    "portable summary with enough detail to identify this compacted conversation";
const STALE_SUMMARY: &str = "stale portable summary from an older overlapping compaction attempt";

fn request(input: Vec<ResponsesInputItem>) -> ResponsesRequest {
    ResponsesRequest {
        model: "gpt-5.6-sol".to_string(),
        instructions: None,
        input,
        include_fields: None,
        context_management: None,
        client_metadata: Some(JsonValue::Object(vec![(
            "lite".to_string(),
            JsonValue::Text("true".to_string()),
        )])),
        other: vec![
            ("store".to_string(), JsonValue::Bool(false)),
            ("stream".to_string(), JsonValue::Bool(true)),
            ("parallel_tool_calls".to_string(), JsonValue::Bool(false)),
            (
                "text".to_string(),
                JsonValue::Object(vec![(
                    "verbosity".to_string(),
                    JsonValue::Text("low".to_string()),
                )]),
            ),
        ],
    }
}

fn message(role: &str, text: &str) -> ResponsesInputItem {
    ResponsesInputItem::Message {
        role: role.to_string(),
        content: vec![ResponsesContentPart::InputText {
            text: text.to_string(),
        }],
    }
}

fn tools() -> ResponsesInputItem {
    ResponsesInputItem::AdditionalTools {
        role: "developer".to_string(),
        tools: vec![],
    }
}

fn compaction(content: &str) -> ResponsesInputItem {
    ResponsesInputItem::Compaction {
        encrypted_content: content.to_string(),
    }
}

fn output(text: &str) -> Vec<ResponsesInputItem> {
    vec![ResponsesInputItem::Message {
        role: "assistant".to_string(),
        content: vec![ResponsesContentPart::OutputText {
            text: text.to_string(),
        }],
    }]
}

fn json_of(items: &[ResponsesInputItem]) -> String {
    stable_json(&items_value(items))
}

fn stored_compaction(
    registry: &mut CompactionRegistry,
    session_id: &str,
    native_history: Vec<ResponsesInputItem>,
) -> CompactionAttempt {
    let attempt = begin_compaction(registry, session_id, "gpt-5.6-sol", NOW);
    assert!(store_compaction(
        registry,
        session_id,
        attempt,
        native_history,
        NOW
    ));
    attempt
}

fn activate(
    registry: &mut CompactionRegistry,
    session_id: &str,
    attempt: CompactionAttempt,
    text: &str,
) -> bool {
    activate_compaction(
        registry,
        Some(session_id),
        Some(attempt),
        "gpt-5.6-sol",
        &output(text),
        NOW,
    )
}

fn has_compaction(items: &[ResponsesInputItem], content: &str) -> bool {
    items.iter().any(|item| {
        matches!(
            item,
            ResponsesInputItem::Compaction { encrypted_content } if encrypted_content == content
        )
    })
}

#[test]
fn parses_exactly_one_completed_compaction_item() {
    let body = b"data: {\"type\":\"response.output_item.done\",\"item\":{\"type\":\"compaction\",\"encrypted_content\":\"opaque\"}}\n\ndata: {\"type\":\"response.completed\",\"response\":{}}\n\n";
    assert!(matches!(
        parse_compaction_response(body).unwrap(),
        ResponsesInputItem::Compaction { encrypted_content } if encrypted_content == "opaque"
    ));
}

#[test]
fn rejects_incomplete_or_ambiguous_compaction_streams() {
    let incomplete = b"data: {\"type\":\"response.output_item.done\",\"item\":{\"type\":\"compaction\",\"encrypted_content\":\"opaque\"}}\n\n";
    assert!(parse_compaction_response(incomplete)
        .unwrap_err()
        .message()
        .contains("before response.completed"));
    let missing = b"data: {\"type\":\"response.completed\",\"response\":{}}\n\n";
    assert!(parse_compaction_response(missing)
        .unwrap_err()
        .message()
        .contains("exactly one"));
}

#[test]
fn replay_requires_activation_and_wrapped_summary_anchor() {
    let mut registry = CompactionRegistry::new();
    let attempt = stored_compaction(&mut registry, "session", vec![compaction("opaque")]);
    let next = request(vec![
        tools(),
        message("developer", "instructions"),
        message("user", &format!("<summary>{SUMMARY}</summary>")),
        message("user", "continue"),
    ]);
    assert!(apply_compaction_replay(&mut registry, Some("session"), &next, NOW).is_none());
    assert!(activate(
        &mut registry,
        "session",
        attempt,
        &format!("<analysis>summary preparation</analysis>\n<summary>\n{SUMMARY}\n</summary>")
    ));

    let replay = apply_compaction_replay(&mut registry, Some("session"), &next, NOW)
        .unwrap()
        .request;
    assert!(matches!(
        replay.input[0],
        ResponsesInputItem::AdditionalTools { .. }
    ));
    assert!(
        matches!(replay.input[1], ResponsesInputItem::Message { ref role, .. } if role == "developer")
    );
    assert!(matches!(
        replay.input[2],
        ResponsesInputItem::Compaction { .. }
    ));
    assert!(json_eq(
        replay.client_metadata.as_ref().unwrap(),
        next.client_metadata.as_ref().unwrap()
    ));
}

#[test]
fn stale_activation_cannot_anchor_newer_native_history() {
    let mut registry = CompactionRegistry::new();
    let older = stored_compaction(
        &mut registry,
        "session",
        vec![compaction("older-native-history")],
    );
    let newer = stored_compaction(
        &mut registry,
        "session",
        vec![compaction("newer-native-history")],
    );

    assert!(!activate(&mut registry, "session", older, STALE_SUMMARY));
    assert!(activate(&mut registry, "session", newer, SUMMARY));
}

#[test]
fn stale_store_cannot_replace_newer_compaction() {
    let mut registry = CompactionRegistry::new();
    let older = begin_compaction(&mut registry, "session", "gpt-5.6-sol", NOW);
    let newer = stored_compaction(
        &mut registry,
        "session",
        vec![compaction("newer-native-history")],
    );

    assert!(!store_compaction(
        &mut registry,
        "session",
        older,
        vec![compaction("late-older-native-history")],
        NOW,
    ));
    assert!(activate(&mut registry, "session", newer, SUMMARY));
    let next = request(vec![message("user", SUMMARY), message("user", "continue")]);
    let replay = apply_compaction_replay(&mut registry, Some("session"), &next, NOW)
        .unwrap()
        .request;
    assert!(has_compaction(&replay.input, "newer-native-history"));
}

#[test]
fn preparing_compaction_survives_model_mismatched_replay_check() {
    let mut registry = CompactionRegistry::new();
    let attempt = begin_compaction(&mut registry, "session", "gpt-5.6-sol", NOW);
    let mut mismatched = request(vec![message("user", "continue")]);
    mismatched.model = "gpt-5.6-terra".to_string();

    assert!(apply_compaction_replay(&mut registry, Some("session"), &mismatched, NOW).is_none());
    assert!(store_compaction(
        &mut registry,
        "session",
        attempt,
        vec![compaction("native-history")],
        NOW,
    ));
}

#[test]
fn stale_abort_cannot_clear_newer_compaction() {
    let mut registry = CompactionRegistry::new();
    let older = begin_compaction(&mut registry, "session", "gpt-5.6-sol", NOW);
    let newer = stored_compaction(
        &mut registry,
        "session",
        vec![compaction("newer-native-history")],
    );

    abort_compaction_attempt(&mut registry, Some("session"), Some(older));

    assert!(activate(&mut registry, "session", newer, SUMMARY));
}

#[test]
fn stale_replay_abort_cannot_clear_newer_compaction() {
    let mut registry = CompactionRegistry::new();
    let older = stored_compaction(
        &mut registry,
        "session",
        vec![compaction("older-native-history")],
    );
    assert!(activate(&mut registry, "session", older, STALE_SUMMARY));
    let older_next = request(vec![
        message("user", STALE_SUMMARY),
        message("user", "continue old"),
    ]);
    let older_replay =
        apply_compaction_replay(&mut registry, Some("session"), &older_next, NOW).unwrap();

    let newer = stored_compaction(
        &mut registry,
        "session",
        vec![compaction("newer-native-history")],
    );
    assert!(activate(&mut registry, "session", newer, SUMMARY));

    abort_compaction_attempt(&mut registry, Some("session"), Some(older_replay.attempt));

    let newer_next = request(vec![
        message("user", SUMMARY),
        message("user", "continue new"),
    ]);
    let replay = apply_compaction_replay(&mut registry, Some("session"), &newer_next, NOW)
        .unwrap()
        .request;
    assert!(has_compaction(&replay.input, "newer-native-history"));
}

#[test]
fn invalid_stale_summary_cannot_clear_newer_compaction() {
    let mut registry = CompactionRegistry::new();
    let older = begin_compaction(&mut registry, "session", "gpt-5.6-sol", NOW);
    let newer = stored_compaction(
        &mut registry,
        "session",
        vec![compaction("newer-native-history")],
    );

    assert!(!activate(&mut registry, "session", older, "too short"));
    assert!(activate(&mut registry, "session", newer, SUMMARY));
}

#[test]
fn replay_clears_on_missing_or_duplicate_anchor() {
    for text in [
        "different conversation without the expected summary".to_string(),
        format!("{SUMMARY} and {SUMMARY}"),
    ] {
        let mut registry = CompactionRegistry::new();
        let attempt = stored_compaction(&mut registry, "session", vec![compaction("opaque")]);
        activate(&mut registry, "session", attempt, SUMMARY);
        let changed = request(vec![message("user", &text), message("user", "continue")]);
        assert!(apply_compaction_replay(&mut registry, Some("session"), &changed, NOW).is_none());
        assert!(apply_compaction_replay(&mut registry, Some("session"), &changed, NOW).is_none());
    }
}

#[test]
fn compacted_history_excludes_lite_envelope() {
    let input = vec![
        tools(),
        message("developer", "summarize"),
        message("user", "remember me"),
    ];
    let (_, conversation) = split_input_envelope(&input);
    let history = build_compacted_history(conversation, compaction("opaque"));
    assert_eq!(history.len(), 2);
    assert!(matches!(history[0], ResponsesInputItem::Message { ref role, .. } if role == "user"));
}

#[test]
fn failed_replay_clears_anchored_state() {
    let mut registry = CompactionRegistry::new();
    let attempt = stored_compaction(&mut registry, "failed-replay", vec![compaction("opaque")]);
    activate(&mut registry, "failed-replay", attempt, SUMMARY);
    let next = request(vec![message("user", SUMMARY), message("user", "continue")]);
    let replay =
        apply_compaction_replay(&mut registry, Some("failed-replay"), &next, NOW).unwrap();

    abort_compaction_attempt(&mut registry, Some("failed-replay"), Some(replay.attempt));

    assert!(apply_compaction_replay(&mut registry, Some("failed-replay"), &next, NOW).is_none());
}

#[test]
fn replay_clears_on_model_change() {
    let mut registry = CompactionRegistry::new();
    let attempt = stored_compaction(&mut registry, "session", vec![compaction("opaque")]);
    activate(&mut registry, "session", attempt, SUMMARY);
    let mut changed = request(vec![message("user", SUMMARY), message("user", "continue")]);
    changed.model = "gpt-5.4".to_string();
    assert!(apply_compaction_replay(&mut registry, Some("session"), &changed, NOW).is_none());
    changed.model = "gpt-5.6-sol".to_string();
    assert!(apply_compaction_replay(&mut registry, Some("session"), &changed, NOW).is_none());
}

#[test]
fn retained_history_obeys_token_budget_at_utf8_boundary() {
    let text = "é".repeat((RETAINED_MESSAGE_TOKEN_BUDGET as usize + 10) * 4);
    let input = vec![message("user", &text)];
    let history = build_compacted_history(&input, compaction("opaque"));
    let ResponsesInputItem::Message { content, .. } = &history[0] else {
        panic!("expected retained message");
    };
    let ResponsesContentPart::InputText { text } = &content[0] else {
        panic!("expected retained text");
    };
    assert!(text.len() <= RETAINED_MESSAGE_TOKEN_BUDGET as usize * 4);
    assert!(std::str::from_utf8(text.as_bytes()).is_ok());
    assert_eq!(text.len(), 80_000);
}

#[test]
fn the_whole_way_from_request_to_replay() {
    let body = request(vec![
        tools(),
        message("developer", "instructions"),
        message("user", "first question"),
        output("first answer").remove(0),
        ResponsesInputItem::Message {
            role: "user".to_string(),
            content: vec![
                ResponsesContentPart::InputText {
                    text: "one more thing".to_string(),
                },
                ResponsesContentPart::InputText {
                    text: "summarize now".to_string(),
                },
            ],
        },
    ]);
    let marks = [false, true];
    let mut asked = body.clone();
    asked.instructions = Some("system".to_string());
    asked.context_management = Some(JsonValue::Array(vec![]));
    let asking = compaction_request(&asked, &marks);
    assert!(asking.instructions.is_none());
    assert!(asking.context_management.is_none());
    assert_eq!(
        asking.include_fields,
        Some(vec!["reasoning.encrypted_content".to_string()])
    );
    assert_eq!(
        json_of(&asking.input),
        json_of(&[
            tools(),
            message("user", "first question"),
            output("first answer").remove(0),
            message("user", "one more thing"),
            ResponsesInputItem::CompactionTrigger,
        ])
    );

    let answer = b"event: response.output_item.done\r\ndata: {\"type\":\"response.output_item.done\",\r\ndata: \"item\":{\"type\":\"compaction\",\"encrypted_content\":\"opaque\"}}\r\n\r\ndata:{\"type\":\"response.completed\"}\r\n\r\ndata: [DONE]\r\n\r\n";
    let history = finish_compaction(&body, &marks, answer).unwrap();
    assert_eq!(
        json_of(&history),
        json_of(&[
            message("user", "first question"),
            message("user", "one more thing"),
            compaction("opaque"),
        ])
    );

    let mut registry = CompactionRegistry::new();
    let attempt = begin_compaction(&mut registry, "session", "gpt-5.6-sol", NOW);
    assert!(store_compaction(
        &mut registry,
        "session",
        attempt,
        history,
        NOW
    ));
    assert!(activate(&mut registry, "session", attempt, SUMMARY));
    let next = request(vec![
        tools(),
        message("user", &format!("Summary: {SUMMARY}")),
        message("user", "go on"),
    ]);
    let replay = apply_compaction_replay(&mut registry, Some("session"), &next, NOW + 5).unwrap();
    assert_eq!(replay.attempt, attempt);
    assert_eq!(
        json_of(&replay.request.input),
        json_of(&[
            tools(),
            message("user", "first question"),
            message("user", "one more thing"),
            compaction("opaque"),
            message("user", "go on"),
        ])
    );
}

#[test]
fn a_request_that_is_only_the_summary_waits() {
    let mut registry = CompactionRegistry::new();
    let attempt = stored_compaction(&mut registry, "session", vec![compaction("opaque")]);
    activate(&mut registry, "session", attempt, SUMMARY);
    let only = request(vec![message("user", SUMMARY)]);
    assert!(apply_compaction_replay(&mut registry, Some("session"), &only, NOW).is_none());
    let empty = request(vec![]);
    assert!(apply_compaction_replay(&mut registry, Some("session"), &empty, NOW).is_none());
    assert!(apply_compaction_replay(&mut registry, None, &only, NOW).is_none());
    let next = request(vec![message("user", SUMMARY), message("user", "continue")]);
    assert!(apply_compaction_replay(&mut registry, Some("session"), &next, NOW).is_some());
    let called = request(vec![
        ResponsesInputItem::FunctionCall {
            call_id: "call".to_string(),
            name: "Read".to_string(),
            arguments: "{}".to_string(),
        },
        message("user", "continue"),
    ]);
    assert!(apply_compaction_replay(&mut registry, Some("session"), &called, NOW).is_none());
    assert!(apply_compaction_replay(&mut registry, Some("session"), &next, NOW).is_none());
}

#[test]
fn compactions_expire_unless_they_are_used() {
    let next = request(vec![message("user", SUMMARY), message("user", "continue")]);
    let mut registry = CompactionRegistry::new();
    let attempt = stored_compaction(&mut registry, "session", vec![compaction("opaque")]);
    activate(&mut registry, "session", attempt, SUMMARY);
    let later = NOW + STATE_TTL_MS;
    assert!(apply_compaction_replay(&mut registry, Some("session"), &next, later).is_some());
    let later = later + STATE_TTL_MS;
    assert!(apply_compaction_replay(&mut registry, Some("session"), &next, later).is_some());
    let later = later + STATE_TTL_MS + 1;
    assert!(apply_compaction_replay(&mut registry, Some("session"), &next, later).is_none());
}

#[test]
fn histories_that_are_too_large_are_not_kept() {
    let mut registry = CompactionRegistry::new();
    let attempt = begin_compaction(&mut registry, "session", "gpt-5.6-sol", NOW);
    assert!(!store_compaction(
        &mut registry,
        "session",
        attempt,
        vec![compaction(&"x".repeat(MAX_STATE_BYTES))],
        NOW,
    ));
    assert!(!store_compaction(
        &mut registry,
        "session",
        attempt,
        vec![compaction("small")],
        NOW,
    ));
}

#[test]
fn sessions_keep_their_own_compactions() {
    let mut registry = CompactionRegistry::new();
    let one = stored_compaction(&mut registry, "one", vec![compaction("first")]);
    let two = stored_compaction(&mut registry, "two", vec![compaction("second")]);
    assert_ne!(one, two);
    assert!(activate(&mut registry, "one", one, SUMMARY));
    assert!(activate(&mut registry, "two", two, SUMMARY));
    clear_compaction(&mut registry, "one");
    let next = request(vec![message("user", SUMMARY), message("user", "continue")]);
    assert!(apply_compaction_replay(&mut registry, Some("one"), &next, NOW).is_none());
    let replay = apply_compaction_replay(&mut registry, Some("two"), &next, NOW).unwrap();
    assert!(has_compaction(&replay.request.input, "second"));
    clear_all_compactions_for_tests(&mut registry);
    assert!(apply_compaction_replay(&mut registry, Some("two"), &next, NOW).is_none());
    assert!(!activate_compaction(
        &mut registry,
        None,
        Some(one),
        "gpt-5.6-sol",
        &output(SUMMARY),
        NOW
    ));
}

#[test]
fn errors_say_what_went_wrong() {
    let message = |text: &str| {
        compaction_from_payloads(&[parse_json(text)])
            .unwrap_err()
            .message()
    };
    assert_eq!(
        message("{\"type\":\"error\",\"message\":\"plain\"}"),
        "plain"
    );
    assert_eq!(
        message("{\"type\":\"response.error\",\"error\":{\"message\":\"nested\"},\"message\":\"plain\"}"),
        "nested"
    );
    assert_eq!(
        message("{\"type\":\"response.failed\",\"response\":{\"error\":{\"message\":\"deep\"}},\"error\":{\"message\":\"nested\"}}"),
        "deep"
    );
    assert_eq!(
        message("{\"type\":\"response.failed\",\"response\":{\"error\":{\"message\":5}},\"message\":\"plain\"}"),
        "remote compaction failed"
    );
    assert_eq!(
        message("{\"type\":\"response.completed\"}"),
        "remote compaction expected exactly one compaction item, got 0"
    );
    assert_eq!(
        compaction_from_payloads(&[None]).unwrap_err().message(),
        "remote compaction stream ended before response.completed"
    );
    let item = "{\"type\":\"response.output_item.done\",\"item\":{\"type\":\"compaction\",\"encrypted_content\":\"x\"}}";
    let mut payloads: Vec<Option<JsonValue>> = (0..12).map(|_| parse_json(item)).collect();
    payloads.push(parse_json("{\"type\":\"response.completed\"}"));
    assert_eq!(
        compaction_from_payloads(&payloads).unwrap_err().message(),
        "remote compaction expected exactly one compaction item, got 12"
    );
    let upstream = CompactionError::Upstream(CodexError {
        message: "unreachable".to_string(),
    });
    assert_eq!(upstream.message(), "unreachable");
}

#[test]
fn summaries_are_found_between_tags() {
    assert_eq!(summary_of("  plain text \n"), "plain text");
    assert_eq!(summary_of("a<summary> b \n</summary>c"), "b");
    assert_eq!(summary_of("a<summary>  </summary>c"), "a<summary>  </summary>c");
    assert_eq!(summary_of("a<summary>b"), "a<summary>b");
    assert_eq!(summary_of("</summary><summary>é</summary>"), "é");
    assert_eq!(portable_summary_text(&output("too short")), None);
    assert_eq!(
        portable_summary_text(&output(&"x".repeat(32))).as_deref(),
        Some("x".repeat(32).as_str())
    );
    assert_eq!(portable_summary_text(&output(&"x".repeat(31))), None);
    assert_eq!(portable_summary_text(&[message("user", SUMMARY)]), None);
}

#[test]
fn instructions_to_compact_are_taken_out_of_the_last_message() {
    let input = vec![message("user", "one"), message("user", "summarize now")];
    assert_eq!(
        json_of(&without_compaction_instruction(&input, &[true])),
        json_of(&[message("user", "one")])
    );
    assert_eq!(
        json_of(&without_compaction_instruction(&input, &[])),
        json_of(&input)
    );
    let other = vec![message("user", "one"), message("assistant", "summarize now")];
    assert_eq!(
        json_of(&without_compaction_instruction(&other, &[true])),
        json_of(&other)
    );
}

#[test]
fn messages_are_counted_and_cut() {
    let picture = ResponsesInputItem::Message {
        role: "user".to_string(),
        content: vec![
            ResponsesContentPart::InputText {
                text: "abcde".to_string(),
            },
            ResponsesContentPart::InputImage {
                image_url: "data:".to_string(),
            },
            ResponsesContentPart::OutputText {
                text: "xyz".to_string(),
            },
        ],
    };
    assert_eq!(message_tokens(&picture), 2 + 2_000 + 1);
    assert_eq!(message_tokens(&compaction("opaque")), 0);
    let cut = truncate_message(picture, 1).unwrap();
    let ResponsesInputItem::Message { content, .. } = &cut else {
        panic!("expected a message");
    };
    assert_eq!(content.len(), 2);
    assert!(
        matches!(&content[0], ResponsesContentPart::InputText { text } if text == "abcd")
    );
    assert!(matches!(
        content[1],
        ResponsesContentPart::InputImage { .. }
    ));
    assert!(truncate_message(message("user", "é"), 0).is_none());

    let items = vec![
        message("user", "aaaaaaaa"),
        message("user", "bbbbbbbb"),
        message("user", "cccc"),
    ];
    assert_eq!(
        json_of(&truncate_retained_messages(items.clone(), 2)),
        json_of(&[message("user", "bbbb"), message("user", "cccc")])
    );
    assert_eq!(
        json_of(&truncate_retained_messages(items.clone(), 5)),
        json_of(&items)
    );
    assert!(truncate_retained_messages(items, 0).is_empty());
}

#[test]
fn streams_are_read_line_by_line() {
    let data = |body: &[u8]| -> Vec<String> {
        parse_sse_events(body)
            .into_iter()
            .map(|event| event.data)
            .collect()
    };
    assert_eq!(
        data(b"data: a\n\ndata:b\ndata:  c\n\n: note\n\ndata\r\rdata: d\n"),
        vec!["a", "b\n c", ""]
    );
    assert_eq!(data(b"event: x\ndata2: y\n\n"), Vec::<String>::new());
    assert_eq!(data("data: é\n\n".as_bytes()), vec!["é"]);
    assert_eq!(data(b"data: \xff!\n\n"), vec!["\u{fffd}!"]);
    assert_eq!(data(b""), Vec::<String>::new());
}

#[test]
fn attempt_numbers_are_not_given_twice() {
    let mut registry = CompactionRegistry::new();
    let first = begin_compaction(&mut registry, "a", "gpt-5.6-sol", NOW);
    let second = begin_compaction(&mut registry, "b", "gpt-5.6-sol", NOW);
    clear_all_compactions_for_tests(&mut registry);
    let third = begin_compaction(&mut registry, "a", "gpt-5.6-sol", NOW);
    assert_ne!(first, second);
    assert_ne!(first, third);
    assert_ne!(second, third);
    assert!(!store_compaction(
        &mut registry,
        "a",
        first,
        vec![compaction("old")],
        NOW
    ));
    assert!(store_compaction(
        &mut registry,
        "a",
        third,
        vec![compaction("new")],
        NOW
    ));
}

#[test]
fn a_new_attempt_takes_the_place_of_one_that_was_tied_to_a_summary() {
    let mut registry = CompactionRegistry::new();
    let attempt = stored_compaction(&mut registry, "s", vec![compaction("blob")]);
    assert!(activate_compaction(
        &mut registry,
        Some("s"),
        Some(attempt),
        "gpt-5.6-sol",
        &output(SUMMARY),
        NOW
    ));
    let other = stored_compaction(&mut registry, "t", vec![compaction("other")]);
    begin_compaction(&mut registry, "s", "gpt-5.6-sol", NOW);
    let next = request(vec![message("user", SUMMARY), message("user", "go on")]);
    assert!(apply_compaction_replay(&mut registry, Some("s"), &next, NOW).is_none());
    assert!(!activate_compaction(
        &mut registry,
        Some("s"),
        Some(attempt),
        "gpt-5.6-sol",
        &output(SUMMARY),
        NOW
    ));
    assert!(activate_compaction(
        &mut registry,
        Some("t"),
        Some(other),
        "gpt-5.6-sol",
        &output(SUMMARY),
        NOW
    ));
}

#[test]
fn an_earlier_attempt_stays_superseded() {
    let mut registry = CompactionRegistry::new();
    let earlier = begin_compaction(&mut registry, "s", "gpt-5.6-sol", NOW);
    let newer = stored_compaction(&mut registry, "s", vec![compaction("new")]);
    for _ in 0..2 {
        assert!(!store_compaction(
            &mut registry,
            "s",
            earlier,
            vec![compaction("old")],
            NOW
        ));
        assert!(!activate_compaction(
            &mut registry,
            Some("s"),
            Some(earlier),
            "gpt-5.6-sol",
            &output(SUMMARY),
            NOW
        ));
        abort_compaction_attempt(&mut registry, Some("s"), Some(newer));
        clear_compaction(&mut registry, "s");
    }
}
