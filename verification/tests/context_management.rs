use codex_state::context_management::{
    apply_context_replay, begin_context_turn, capture_context_blob,
    clear_all_context_management_for_tests, clear_session_context, item_digest, CaptureOutcome,
    ContextRegistry, DiscardReason, ReplayOutcome, MAX_BLOB_BYTES, MAX_STATES, STATE_TTL_MS,
};
use codex_state::json::{stable_json, JsonValue};
use codex_state::request::{
    item_value, items_value, ConversationIdentity, ResponsesContentPart,
    ResponsesFunctionCallOutput, ResponsesInputItem, ResponsesRequest,
};

const NOW: u64 = 1_700_000_000_000;

fn owner() -> ConversationIdentity {
    ConversationIdentity::Main("session".to_string())
}

fn request(input: Vec<ResponsesInputItem>) -> ResponsesRequest {
    ResponsesRequest {
        model: "gpt-5.6-sol".to_string(),
        instructions: Some("system prompt".to_string()),
        input,
        include_fields: None,
        context_management: Some(JsonValue::Array(vec![JsonValue::Object(vec![
            (
                "type".to_string(),
                JsonValue::Text("compaction".to_string()),
            ),
            (
                "compact_threshold".to_string(),
                JsonValue::Number("200000".to_string()),
            ),
        ])])),
        client_metadata: None,
        other: vec![
            ("store".to_string(), JsonValue::Bool(false)),
            ("stream".to_string(), JsonValue::Bool(true)),
            ("parallel_tool_calls".to_string(), JsonValue::Bool(false)),
            (
                "text".to_string(),
                JsonValue::Object(vec![(
                    "verbosity".to_string(),
                    JsonValue::Text("low".to_string()),
                )]),
            ),
        ],
    }
}

fn user(text: &str) -> ResponsesInputItem {
    ResponsesInputItem::Message {
        role: "user".to_string(),
        content: vec![ResponsesContentPart::InputText {
            text: text.to_string(),
        }],
    }
}

fn developer(text: &str) -> ResponsesInputItem {
    ResponsesInputItem::Message {
        role: "developer".to_string(),
        content: vec![ResponsesContentPart::InputText {
            text: text.to_string(),
        }],
    }
}

fn assistant(text: &str) -> ResponsesInputItem {
    ResponsesInputItem::Message {
        role: "assistant".to_string(),
        content: vec![ResponsesContentPart::OutputText {
            text: text.to_string(),
        }],
    }
}

fn compaction(blob: &str) -> ResponsesInputItem {
    ResponsesInputItem::Compaction {
        encrypted_content: blob.to_string(),
    }
}

fn json_of(items: &[ResponsesInputItem]) -> String {
    stable_json(&items_value(items))
}

fn capture(
    registry: &mut ContextRegistry,
    owner: Option<&ConversationIdentity>,
    request: &ResponsesRequest,
    blob: Option<&str>,
) -> CaptureOutcome {
    capture_context_blob(registry, owner, None, request, &[], Some(0), blob, NOW)
}

fn captured(
    registry: &mut ContextRegistry,
    input: Vec<ResponsesInputItem>,
    blob: &str,
) -> CaptureOutcome {
    capture(registry, Some(&owner()), &request(input), Some(blob))
}

fn replay_input(outcome: ReplayOutcome) -> String {
    let ReplayOutcome::Replayed(replay) = outcome else {
        panic!("expected a replay");
    };
    json_of(&replay.request.input)
}

#[test]
fn replays_blob_for_append_only_extension() {
    let mut registry = ContextRegistry::new();
    assert_eq!(
        captured(&mut registry, vec![user("one"), assistant("two")], "blob-1"),
        CaptureOutcome::Captured {
            covered_items: 2,
            blob_bytes: 6,
            chained: false
        }
    );

    let next = request(vec![user("one"), assistant("two"), user("three")]);
    let input = replay_input(apply_context_replay(
        &mut registry,
        Some(&owner()),
        &next,
        NOW,
    ));
    assert_eq!(input, json_of(&[compaction("blob-1"), user("three")]));
}

#[test]
fn replay_keeps_lite_envelope_outside_the_blob() {
    let mut registry = ContextRegistry::new();
    let envelope = || ResponsesInputItem::AdditionalTools {
        role: "developer".to_string(),
        tools: vec![],
    };
    captured(
        &mut registry,
        vec![
            envelope(),
            developer("instructions"),
            user("one"),
            assistant("two"),
        ],
        "blob-1",
    );

    let next = request(vec![
        envelope(),
        developer("instructions"),
        user("one"),
        assistant("two"),
        user("three"),
    ]);
    let ReplayOutcome::Replayed(replay) =
        apply_context_replay(&mut registry, Some(&owner()), &next, NOW)
    else {
        panic!("expected a replay");
    };
    assert_eq!(replay.covered_items, 2);
    assert_eq!(replay.tail_items, 1);
    assert_eq!(
        json_of(&replay.request.input),
        json_of(&[
            envelope(),
            developer("instructions"),
            compaction("blob-1"),
            user("three")
        ])
    );
}

#[test]
fn chained_capture_extends_covered_history() {
    let mut registry = ContextRegistry::new();
    captured(&mut registry, vec![user("one"), assistant("two")], "blob-1");
    let next = request(vec![user("one"), assistant("two"), user("three")]);
    let ReplayOutcome::Replayed(replay) =
        apply_context_replay(&mut registry, Some(&owner()), &next, NOW)
    else {
        panic!("expected a replay");
    };

    assert_eq!(
        capture(
            &mut registry,
            Some(&owner()),
            &replay.request,
            Some("blob-2")
        ),
        CaptureOutcome::Captured {
            covered_items: 3,
            blob_bytes: 6,
            chained: true
        }
    );
    let later = request(vec![
        user("one"),
        assistant("two"),
        user("three"),
        assistant("four"),
        user("five"),
    ]);
    let input = replay_input(apply_context_replay(
        &mut registry,
        Some(&owner()),
        &later,
        NOW,
    ));
    assert_eq!(
        input,
        json_of(&[compaction("blob-2"), assistant("four"), user("five")])
    );
}

#[test]
fn replayed_turn_without_new_blob_keeps_state() {
    let mut registry = ContextRegistry::new();
    captured(&mut registry, vec![user("one")], "blob-1");
    let next = request(vec![user("one"), user("two")]);
    let ReplayOutcome::Replayed(replay) =
        apply_context_replay(&mut registry, Some(&owner()), &next, NOW)
    else {
        panic!("expected a replay");
    };
    assert_eq!(
        capture(&mut registry, Some(&owner()), &replay.request, None),
        CaptureOutcome::Retained
    );

    let later = request(vec![user("one"), user("two"), user("three")]);
    let input = replay_input(apply_context_replay(
        &mut registry,
        Some(&owner()),
        &later,
        NOW,
    ));
    assert_eq!(
        input,
        json_of(&[compaction("blob-1"), user("two"), user("three")])
    );
}

#[test]
fn identical_request_is_sent_unchanged_without_losing_state() {
    let mut registry = ContextRegistry::new();
    captured(&mut registry, vec![user("one")], "blob-1");
    let same = request(vec![user("one")]);
    assert!(matches!(
        apply_context_replay(&mut registry, Some(&owner()), &same, NOW),
        ReplayOutcome::Unchanged
    ));
    let next = request(vec![user("one"), user("two")]);
    assert!(matches!(
        apply_context_replay(&mut registry, Some(&owner()), &next, NOW),
        ReplayOutcome::Replayed(_)
    ));
}

#[test]
fn missing_owner_or_blob_is_stateless() {
    let mut registry = ContextRegistry::new();
    let body = request(vec![user("one")]);
    assert_eq!(
        capture(&mut registry, None, &body, Some("blob")),
        CaptureOutcome::Skipped
    );
    assert_eq!(
        capture(&mut registry, Some(&owner()), &body, None),
        CaptureOutcome::Skipped
    );
    assert!(matches!(
        apply_context_replay(&mut registry, None, &body, NOW),
        ReplayOutcome::Unchanged
    ));
    assert!(matches!(
        apply_context_replay(&mut registry, Some(&owner()), &body, NOW),
        ReplayOutcome::Unchanged
    ));
}

#[test]
fn branch_discards_state_and_sends_full_history() {
    let mut registry = ContextRegistry::new();
    for branched in [
        vec![user("different"), assistant("two"), user("three")],
        vec![user("one")],
        vec![],
    ] {
        captured(&mut registry, vec![user("one"), assistant("two")], "blob-1");
        let next = request(branched);
        assert!(matches!(
            apply_context_replay(&mut registry, Some(&owner()), &next, NOW),
            ReplayOutcome::Discarded(DiscardReason::NotAppendOnly)
        ));
        assert!(matches!(
            apply_context_replay(&mut registry, Some(&owner()), &next, NOW),
            ReplayOutcome::Unchanged
        ));
    }
}

#[test]
fn model_prompt_and_envelope_changes_discard_state() {
    let mut registry = ContextRegistry::new();
    let history = || vec![developer("instructions"), user("one")];
    let extended = || vec![developer("instructions"), user("one"), user("two")];

    captured(&mut registry, history(), "blob-1");
    let mut changed_model = request(extended());
    changed_model.model = "gpt-5.6-terra".to_string();
    assert!(matches!(
        apply_context_replay(&mut registry, Some(&owner()), &changed_model, NOW),
        ReplayOutcome::Discarded(DiscardReason::ModelChanged)
    ));

    captured(&mut registry, history(), "blob-1");
    let mut changed_prompt = request(extended());
    changed_prompt.instructions = Some("other system prompt".to_string());
    assert!(matches!(
        apply_context_replay(&mut registry, Some(&owner()), &changed_prompt, NOW),
        ReplayOutcome::Discarded(DiscardReason::PromptChanged)
    ));

    captured(&mut registry, history(), "blob-1");
    let changed_envelope = request(vec![developer("other"), user("one"), user("two")]);
    assert!(matches!(
        apply_context_replay(&mut registry, Some(&owner()), &changed_envelope, NOW),
        ReplayOutcome::Discarded(DiscardReason::EnvelopeChanged)
    ));
    assert!(matches!(
        apply_context_replay(&mut registry, Some(&owner()), &changed_envelope, NOW),
        ReplayOutcome::Unchanged
    ));
}

#[test]
fn expired_state_is_discarded() {
    let mut registry = ContextRegistry::new();
    captured(&mut registry, vec![user("one")], "blob-1");
    let next = request(vec![user("one"), user("two")]);
    assert!(matches!(
        apply_context_replay(
            &mut registry,
            Some(&owner()),
            &next,
            NOW + STATE_TTL_MS + 1
        ),
        ReplayOutcome::Unchanged
    ));
    assert_eq!(registry.len(), 0);
}

#[test]
fn foreign_compaction_items_are_never_replayed_or_captured() {
    let mut registry = ContextRegistry::new();
    captured(&mut registry, vec![user("one")], "blob-1");
    let server_compaction = request(vec![compaction("other-feature"), user("two")]);
    assert!(matches!(
        apply_context_replay(&mut registry, Some(&owner()), &server_compaction, NOW),
        ReplayOutcome::Discarded(DiscardReason::ForeignCompaction)
    ));

    let trailing = request(vec![user("one"), compaction("other-feature"), user("two")]);
    assert_eq!(
        capture(&mut registry, Some(&owner()), &trailing, Some("blob-2")),
        CaptureOutcome::Skipped
    );
    assert!(matches!(
        capture(
            &mut registry,
            Some(&owner()),
            &server_compaction,
            Some("blob-2")
        ),
        CaptureOutcome::Discarded(DiscardReason::ReplayMismatch)
    ));
}

#[test]
fn stale_replay_completion_cannot_chain_onto_newer_state() {
    let mut registry = ContextRegistry::new();
    captured(&mut registry, vec![user("one")], "blob-old");
    let older = request(vec![user("one"), user("two")]);
    let ReplayOutcome::Replayed(older_replay) =
        apply_context_replay(&mut registry, Some(&owner()), &older, NOW)
    else {
        panic!("expected a replay");
    };
    captured(&mut registry, vec![user("one"), user("two")], "blob-new");

    assert!(matches!(
        capture(
            &mut registry,
            Some(&owner()),
            &older_replay.request,
            Some("blob-late")
        ),
        CaptureOutcome::Discarded(DiscardReason::ReplayMismatch)
    ));
    let next = request(vec![user("one"), user("two"), user("three")]);
    assert!(matches!(
        apply_context_replay(&mut registry, Some(&owner()), &next, NOW),
        ReplayOutcome::Unchanged
    ));
}

fn call(arguments: &str) -> ResponsesInputItem {
    ResponsesInputItem::FunctionCall {
        call_id: "call-1".to_string(),
        name: "Read".to_string(),
        arguments: arguments.to_string(),
    }
}

#[test]
fn function_call_arguments_compare_as_json() {
    let mut registry = ContextRegistry::new();
    let streamed = call("{\"path\": \"a\", \"limit\": 1}");
    let echoed = call("{\"limit\":1,\"path\":\"a\"}");
    let output = || ResponsesInputItem::FunctionCallOutput {
        call_id: "call-1".to_string(),
        output: ResponsesFunctionCallOutput::Text("ok".to_string()),
    };
    captured(&mut registry, vec![user("one"), streamed], "blob-1");

    let next = request(vec![user("one"), echoed, output()]);
    let input = replay_input(apply_context_replay(
        &mut registry,
        Some(&owner()),
        &next,
        NOW,
    ));
    assert_eq!(input, json_of(&[compaction("blob-1"), output()]));
}

#[test]
fn oversized_blob_is_discarded() {
    let mut registry = ContextRegistry::new();
    let blob = "x".repeat(MAX_BLOB_BYTES + 1);
    assert!(matches!(
        captured(&mut registry, vec![user("one")], &blob),
        CaptureOutcome::Discarded(DiscardReason::TooLarge)
    ));
    let next = request(vec![user("one"), user("two")]);
    assert!(matches!(
        apply_context_replay(&mut registry, Some(&owner()), &next, NOW),
        ReplayOutcome::Unchanged
    ));
}

#[test]
fn clearing_a_session_drops_its_agents_but_not_other_sessions() {
    let mut registry = ContextRegistry::new();
    let agent = ConversationIdentity::Agent("session".to_string(), "agent".to_string());
    let other = ConversationIdentity::Main("other".to_string());
    let body = request(vec![user("one")]);
    for owner in [&owner(), &agent, &other] {
        capture(&mut registry, Some(owner), &body, Some("blob"));
    }

    clear_session_context(&mut registry, "session");

    let next = request(vec![user("one"), user("two")]);
    assert!(matches!(
        apply_context_replay(&mut registry, Some(&owner()), &next, NOW),
        ReplayOutcome::Unchanged
    ));
    assert!(matches!(
        apply_context_replay(&mut registry, Some(&agent), &next, NOW),
        ReplayOutcome::Unchanged
    ));
    assert!(matches!(
        apply_context_replay(&mut registry, Some(&other), &next, NOW),
        ReplayOutcome::Replayed(_)
    ));
}

#[test]
fn output_before_the_item_is_covered_and_output_after_it_is_not() {
    let mut registry = ContextRegistry::new();
    let body = request(vec![user("one")]);
    let output = [assistant("two"), call("{\"a\": 1}"), assistant("three")];
    assert_eq!(
        capture_context_blob(
            &mut registry,
            Some(&owner()),
            None,
            &body,
            &output,
            Some(2),
            Some("blob"),
            NOW,
        ),
        CaptureOutcome::Captured {
            covered_items: 3,
            blob_bytes: 4,
            chained: false
        }
    );
    let next = request(vec![
        user("one"),
        assistant("two"),
        call("{\"a\":1}"),
        assistant("three"),
        user("four"),
    ]);
    let input = replay_input(apply_context_replay(
        &mut registry,
        Some(&owner()),
        &next,
        NOW,
    ));
    assert_eq!(
        input,
        json_of(&[compaction("blob"), assistant("three"), user("four")])
    );

    let regenerated = request(vec![
        user("one"),
        assistant("another answer"),
        call("{\"a\":1}"),
        user("four"),
    ]);
    assert!(matches!(
        apply_context_replay(&mut registry, Some(&owner()), &regenerated, NOW),
        ReplayOutcome::Discarded(DiscardReason::NotAppendOnly)
    ));
}

#[test]
fn an_item_that_cannot_be_placed_is_refused() {
    let body = request(vec![user("one")]);
    let next = request(vec![user("one"), user("two")]);
    let output = [assistant("two"), assistant("three")];
    for position in [None, Some(3)] {
        let mut registry = ContextRegistry::new();
        captured(&mut registry, vec![user("one")], "blob-1");
        assert_eq!(
            capture_context_blob(
                &mut registry,
                Some(&owner()),
                None,
                &body,
                &output,
                position,
                Some("blob-2"),
                NOW,
            ),
            CaptureOutcome::Refused
        );
        assert!(matches!(
            apply_context_replay(&mut registry, Some(&owner()), &next, NOW),
            ReplayOutcome::Unchanged
        ));
    }
}

#[test]
fn the_last_item_of_a_turn_covers_what_came_before_an_earlier_one() {
    let mut registry = ContextRegistry::new();
    let body = request(vec![user("one")]);
    let output = [assistant("two"), compaction("earlier"), assistant("three")];
    assert_eq!(
        capture_context_blob(
            &mut registry,
            Some(&owner()),
            None,
            &body,
            &output,
            Some(3),
            Some("last"),
            NOW,
        ),
        CaptureOutcome::Captured {
            covered_items: 3,
            blob_bytes: 4,
            chained: false
        }
    );
    let next = request(vec![
        user("one"),
        assistant("two"),
        assistant("three"),
        user("four"),
    ]);
    let input = replay_input(apply_context_replay(
        &mut registry,
        Some(&owner()),
        &next,
        NOW,
    ));
    assert_eq!(input, json_of(&[compaction("last"), user("four")]));
}

#[test]
fn only_the_newest_of_overlapping_turns_stores_an_item() {
    let mut registry = ContextRegistry::new();
    let body = request(vec![user("one")]);
    let older = begin_context_turn(&mut registry, &owner());
    let newer = begin_context_turn(&mut registry, &owner());
    assert_ne!(older, newer);
    for stale in [Some(older), None] {
        assert_eq!(
            capture_context_blob(
                &mut registry,
                Some(&owner()),
                stale,
                &body,
                &[],
                Some(0),
                Some("blob-older"),
                NOW + 2,
            ),
            CaptureOutcome::Superseded
        );
        assert_eq!(registry.len(), 0);
    }
    assert_eq!(
        capture_context_blob(
            &mut registry,
            Some(&owner()),
            Some(newer),
            &body,
            &[],
            Some(0),
            Some("blob-newer"),
            NOW + 2,
        ),
        CaptureOutcome::Captured {
            covered_items: 1,
            blob_bytes: 10,
            chained: false
        }
    );
}

#[test]
fn the_oldest_items_go_when_there_are_too_many() {
    let mut registry = ContextRegistry::new();
    let body = request(vec![user("one")]);
    for i in 0..=MAX_STATES as u64 {
        let owner = ConversationIdentity::Main(format!("session-{i}"));
        capture_context_blob(
            &mut registry,
            Some(&owner),
            None,
            &body,
            &[],
            Some(0),
            Some("blob"),
            NOW + i,
        );
    }
    assert_eq!(registry.len(), MAX_STATES);
    let next = request(vec![user("one"), user("two")]);
    let first = ConversationIdentity::Main("session-0".to_string());
    let second = ConversationIdentity::Main("session-1".to_string());
    assert!(matches!(
        apply_context_replay(&mut registry, Some(&first), &next, NOW + 1_000),
        ReplayOutcome::Unchanged
    ));
    assert!(matches!(
        apply_context_replay(&mut registry, Some(&second), &next, NOW + 1_000),
        ReplayOutcome::Replayed(_)
    ));
    clear_all_context_management_for_tests(&mut registry);
    assert_eq!(registry.len(), 0);
}

#[test]
fn digests_tell_items_apart_and_ignore_how_arguments_are_written() {
    let one = item_digest(&call("{\"a\": 1, \"b\": 2}"));
    let same = item_digest(&call("{\"b\":2,\"a\":1}"));
    let other = item_digest(&call("{\"b\":2,\"a\":3}"));
    assert_eq!(format!("{one:?}"), format!("{same:?}"));
    assert_ne!(format!("{one:?}"), format!("{other:?}"));
    // The SHA-256 digest of `{"type":"compaction_trigger"}`.
    let trigger = ResponsesInputItem::CompactionTrigger;
    let text = stable_json(&item_value(&trigger));
    assert_eq!(text, "{\"type\":\"compaction_trigger\"}");
    let expected: [u8; 32] = sha2::Digest::finalize(sha2::Digest::chain_update(
        <sha2::Sha256 as sha2::Digest>::new(),
        text.as_bytes(),
    ))
    .into();
    assert_eq!(
        format!("{:?}", item_digest(&trigger)),
        format!("ItemDigest {{ bytes: {expected:?} }}")
    );
}

#[test]
fn reasons_have_names() {
    let names: Vec<&str> = [
        DiscardReason::ModelChanged,
        DiscardReason::PromptChanged,
        DiscardReason::EnvelopeChanged,
        DiscardReason::NotAppendOnly,
        DiscardReason::ForeignCompaction,
        DiscardReason::ReplayMismatch,
        DiscardReason::TooLarge,
    ]
    .into_iter()
    .map(DiscardReason::as_str)
    .collect();
    assert_eq!(
        names,
        vec![
            "model_changed",
            "prompt_changed",
            "envelope_changed",
            "not_append_only",
            "foreign_compaction",
            "replay_mismatch",
            "too_large",
        ]
    );
}

#[test]
fn a_skipped_turn_changes_no_later_outcome() {
    let mut registry = ContextRegistry::new();
    captured(&mut registry, vec![user("one"), assistant("two")], "blob");
    assert_eq!(
        capture(
            &mut registry,
            Some(&owner()),
            &request(vec![user("elsewhere")]),
            None
        ),
        CaptureOutcome::Skipped
    );
    assert_eq!(
        capture(
            &mut registry,
            Some(&owner()),
            &request(vec![user("one"), compaction("foreign")]),
            Some("new")
        ),
        CaptureOutcome::Skipped
    );
    let next = request(vec![user("one"), assistant("two"), user("three")]);
    let input = replay_input(apply_context_replay(
        &mut registry,
        Some(&owner()),
        &next,
        NOW + STATE_TTL_MS,
    ));
    assert_eq!(input, json_of(&[compaction("blob"), user("three")]));
}

#[test]
fn turns_of_all_owners_are_numbered_in_one_row() {
    let mut registry = ContextRegistry::new();
    let other = ConversationIdentity::Main("other".to_string());
    let first = begin_context_turn(&mut registry, &owner());
    let second = begin_context_turn(&mut registry, &other);
    clear_all_context_management_for_tests(&mut registry);
    let third = begin_context_turn(&mut registry, &owner());
    assert_eq!((first, second, third), (1, 2, 3));
}

fn complete(
    registry: &mut ContextRegistry,
    turn: u64,
    request: &ResponsesRequest,
    position: Option<usize>,
    blob: Option<&str>,
) -> CaptureOutcome {
    capture_context_blob(
        registry,
        Some(&owner()),
        Some(turn),
        request,
        &[],
        position,
        blob,
        NOW,
    )
}

fn replayed(registry: &mut ContextRegistry, input: Vec<ResponsesInputItem>) -> ResponsesRequest {
    let outcome = apply_context_replay(registry, Some(&owner()), &request(input), NOW);
    let ReplayOutcome::Replayed(replay) = outcome else {
        panic!("expected a replay");
    };
    replay.request
}

#[test]
fn an_older_turn_without_an_item_is_answered_as_any_other() {
    let mut registry = ContextRegistry::new();
    captured(&mut registry, vec![user("one")], "blob");
    let older = begin_context_turn(&mut registry, &owner());
    let sent = replayed(&mut registry, vec![user("one"), user("two")]);
    begin_context_turn(&mut registry, &owner());
    let plain = request(vec![user("elsewhere")]);
    assert_eq!(
        complete(&mut registry, older, &plain, None, None),
        CaptureOutcome::Skipped
    );
    assert_eq!(
        complete(&mut registry, older, &sent, None, None),
        CaptureOutcome::Retained
    );
    assert_eq!(
        complete(&mut registry, older, &sent, Some(0), Some("late")),
        CaptureOutcome::Superseded
    );
    replayed(&mut registry, vec![user("one"), user("two")]);
}

#[test]
fn an_older_turn_sent_with_another_item_discards_what_is_stored() {
    let mut registry = ContextRegistry::new();
    captured(&mut registry, vec![user("one")], "blob-old");
    let older = begin_context_turn(&mut registry, &owner());
    let sent = replayed(&mut registry, vec![user("one"), user("two")]);
    let newer = begin_context_turn(&mut registry, &owner());
    let full = request(vec![user("one"), user("two")]);
    assert!(matches!(
        complete(&mut registry, newer, &full, Some(0), Some("blob-new")),
        CaptureOutcome::Captured { .. }
    ));
    assert_eq!(
        complete(&mut registry, older, &sent, Some(0), Some("late")),
        CaptureOutcome::Discarded(DiscardReason::ReplayMismatch)
    );
    assert_eq!(registry.len(), 0);
}

#[test]
fn an_older_turn_is_refused_what_cannot_be_placed_or_is_too_large() {
    let mut registry = ContextRegistry::new();
    let older = begin_context_turn(&mut registry, &owner());
    begin_context_turn(&mut registry, &owner());
    let body = request(vec![user("one")]);
    assert_eq!(
        complete(&mut registry, older, &body, None, Some("blob")),
        CaptureOutcome::Refused
    );
    let large = "x".repeat(MAX_BLOB_BYTES + 1);
    assert_eq!(
        complete(&mut registry, older, &body, Some(0), Some(&large)),
        CaptureOutcome::Discarded(DiscardReason::TooLarge)
    );
}

#[test]
fn the_newest_turn_of_an_owner_is_not_forgotten() {
    let mut registry = ContextRegistry::new();
    let turn = begin_context_turn(&mut registry, &owner());
    for i in 0..MAX_STATES + 1 {
        let other = ConversationIdentity::Main(format!("other-{i}"));
        begin_context_turn(&mut registry, &other);
    }
    clear_all_context_management_for_tests(&mut registry);
    let body = request(vec![user("one")]);
    assert!(matches!(
        complete(&mut registry, turn, &body, Some(0), Some("blob")),
        CaptureOutcome::Captured { .. }
    ));
    assert_eq!(
        complete(&mut registry, turn + 1, &body, Some(0), Some("other")),
        CaptureOutcome::Superseded
    );
}
