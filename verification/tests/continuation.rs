use codex_state::canonical::{input_items_equivalent, prompt_signature};
use codex_state::continuation::{
    abort_continuation, abort_continuation_for_owner, clear_all_continuations_for_tests,
    clear_continuation, clear_continuation_for_owner, continuation_candidate,
    continuation_candidate_for_owner, has_continuation_for_owner_for_tests,
    has_continuation_for_tests, if_current_turn, if_current_turn_for_owner, is_current_turn,
    is_current_turn_for_owner, record_continuation, record_continuation_for_owner,
    with_current_turn, with_current_turn_for_owner, ContinuationCandidate, ContinuationRegistry,
    ContinuationReservation, MAX_STATES, TTL_MS,
};
use codex_state::json::JsonValue;
use codex_state::request::{
    ConversationIdentity, ResponsesContentPart, ResponsesFunctionCallOutput, ResponsesInputItem,
    ResponsesRequest,
};

const NOW: u64 = 1_700_000_000_000;

fn main_owner(session_id: &str) -> ConversationIdentity {
    ConversationIdentity::Main(session_id.to_string())
}

fn agent_owner(session_id: &str, agent_id: &str) -> ConversationIdentity {
    ConversationIdentity::Agent(session_id.to_string(), agent_id.to_string())
}

fn same_owner(a: Option<&ConversationIdentity>, b: Option<&ConversationIdentity>) -> bool {
    match (a, b) {
        (None, None) => true,
        (Some(ConversationIdentity::Main(x)), Some(ConversationIdentity::Main(y))) => x == y,
        (Some(ConversationIdentity::Agent(x, p)), Some(ConversationIdentity::Agent(y, q))) => {
            x == y && p == q
        }
        _ => false,
    }
}

fn input(text: &str) -> ResponsesInputItem {
    ResponsesInputItem::Message {
        role: "user".to_string(),
        content: vec![ResponsesContentPart::InputText {
            text: text.to_string(),
        }],
    }
}

fn request_with_input(
    input: Vec<ResponsesInputItem>,
    extra: Option<(&str, JsonValue)>,
) -> ResponsesRequest {
    let mut other = vec![
        ("store".to_string(), JsonValue::Bool(false)),
        ("stream".to_string(), JsonValue::Bool(true)),
        (
            "text".to_string(),
            JsonValue::Object(vec![(
                "verbosity".to_string(),
                JsonValue::Text("low".to_string()),
            )]),
        ),
        ("parallel_tool_calls".to_string(), JsonValue::Bool(true)),
    ];
    if let Some((name, value)) = extra {
        other.push((name.to_string(), value));
    }
    ResponsesRequest {
        model: "gpt-5.5".to_string(),
        instructions: None,
        input,
        include_fields: None,
        context_management: None,
        client_metadata: None,
        other,
    }
}

fn start_and_record(
    registry: &mut ContinuationRegistry,
    owner: &ConversationIdentity,
    request: &ResponsesRequest,
    response_id: &str,
) {
    let reservation = continuation_candidate_for_owner(registry, Some(owner), request, true, NOW);
    record_continuation_for_owner(
        registry,
        &reservation,
        request,
        Some(response_id),
        Some(1),
        &[],
        NOW,
    );
}

fn function_call(call_id: &str, name: &str, arguments: &str) -> ResponsesInputItem {
    ResponsesInputItem::FunctionCall {
        call_id: call_id.to_string(),
        name: name.to_string(),
        arguments: arguments.to_string(),
    }
}

fn function_call_output(call_id: &str, output: &str) -> ResponsesInputItem {
    ResponsesInputItem::FunctionCallOutput {
        call_id: call_id.to_string(),
        output: ResponsesFunctionCallOutput::Text(output.to_string()),
    }
}

fn record_with_output_items(
    registry: &mut ContinuationRegistry,
    owner: &ConversationIdentity,
    request: &ResponsesRequest,
    response_id: &str,
    output_items: &[ResponsesInputItem],
) {
    let reservation = continuation_candidate_for_owner(registry, Some(owner), request, true, NOW);
    record_continuation_for_owner(
        registry,
        &reservation,
        request,
        Some(response_id),
        Some(1),
        output_items,
        NOW,
    );
}

#[test]
fn disabled_and_missing_identity_requests_are_stateless() {
    let mut registry = ContinuationRegistry::new();
    let request = request_with_input(vec![input("one")], None);
    let owner = main_owner("session-a");

    let disabled =
        continuation_candidate_for_owner(&mut registry, Some(&owner), &request, false, NOW);
    assert!(same_owner(disabled.owner(), Some(&owner)));
    assert_eq!(disabled.turn_id(), None);
    assert_eq!(disabled.candidate().input_delta_count, request.input.len());
    assert_eq!(
        disabled.candidate().disabled_reason.as_deref(),
        Some("disabled")
    );

    let missing = continuation_candidate_for_owner(&mut registry, None, &request, true, NOW);
    assert!(same_owner(missing.owner(), None));
    assert_eq!(missing.turn_id(), None);
    assert_eq!(missing.candidate().input_delta_count, request.input.len());
    assert_eq!(
        missing.candidate().disabled_reason.as_deref(),
        Some("missing_identity")
    );

    let legacy_missing = continuation_candidate(&mut registry, None, &request, true, NOW);
    assert_eq!(
        legacy_missing.disabled_reason.as_deref(),
        Some("missing_session")
    );
}

#[test]
fn sibling_agents_reserve_and_publish_independently() {
    let mut registry = ContinuationRegistry::new();
    let sibling_one = agent_owner("session-a", "agent-one");
    let sibling_two = agent_owner("session-a", "agent-two");
    let first_request = request_with_input(vec![input("one")], None);

    let first = continuation_candidate_for_owner(
        &mut registry,
        Some(&sibling_one),
        &first_request,
        true,
        NOW,
    );
    let second = continuation_candidate_for_owner(
        &mut registry,
        Some(&sibling_two),
        &first_request,
        true,
        NOW,
    );
    assert_ne!(first.turn_id(), second.turn_id());
    record_continuation_for_owner(
        &mut registry,
        &first,
        &first_request,
        Some("resp_one"),
        Some(11),
        &[],
        NOW,
    );
    record_continuation_for_owner(
        &mut registry,
        &second,
        &first_request,
        Some("resp_two"),
        Some(22),
        &[],
        NOW,
    );
    assert!(has_continuation_for_owner_for_tests(&registry, &sibling_one));
    assert!(has_continuation_for_owner_for_tests(&registry, &sibling_two));

    let next_request = request_with_input(vec![input("one"), input("two")], None);
    let first_next = continuation_candidate_for_owner(
        &mut registry,
        Some(&sibling_one),
        &next_request,
        true,
        NOW,
    );
    let second_next = continuation_candidate_for_owner(
        &mut registry,
        Some(&sibling_two),
        &next_request,
        true,
        NOW,
    );
    assert_eq!(
        first_next.candidate().previous_response_id.as_deref(),
        Some("resp_one")
    );
    assert_eq!(first_next.origin_socket_id(), Some(11));
    assert_eq!(
        second_next.candidate().previous_response_id.as_deref(),
        Some("resp_two")
    );
    assert_eq!(second_next.origin_socket_id(), Some(22));
}

#[test]
fn different_owner_completion_order_cannot_interfere() {
    let mut registry = ContinuationRegistry::new();
    let main = main_owner("session-a");
    let agent = agent_owner("session-a", "agent-a");
    let request = request_with_input(vec![input("one")], None);
    let main_reservation =
        continuation_candidate_for_owner(&mut registry, Some(&main), &request, true, NOW);
    let agent_reservation =
        continuation_candidate_for_owner(&mut registry, Some(&agent), &request, true, NOW);

    record_continuation_for_owner(
        &mut registry,
        &agent_reservation,
        &request,
        Some("resp_agent"),
        Some(1),
        &[],
        NOW,
    );
    record_continuation_for_owner(
        &mut registry,
        &main_reservation,
        &request,
        Some("resp_main"),
        Some(1),
        &[],
        NOW,
    );
    abort_continuation_for_owner(
        &mut registry,
        &ContinuationReservation::new(
            ContinuationCandidate {
                turn_id: agent_reservation.turn_id(),
                previous_response_id: None,
                input_delta: None,
                input_delta_count: 0,
                disabled_reason: None,
            },
            Some(main.clone()),
            None,
        ),
    );

    assert!(has_continuation_for_owner_for_tests(&registry, &main));
    assert!(has_continuation_for_owner_for_tests(&registry, &agent));
    let next = request_with_input(vec![input("one"), input("two")], None);
    assert_eq!(
        continuation_candidate_for_owner(&mut registry, Some(&agent), &next, true, NOW)
            .candidate()
            .previous_response_id
            .as_deref(),
        Some("resp_agent")
    );
}

#[test]
fn missing_response_id_aborts_only_the_current_owner() {
    let mut registry = ContinuationRegistry::new();
    let owner = main_owner("session-a");
    let sibling = agent_owner("session-a", "agent-a");
    let request = request_with_input(vec![input("one")], None);
    start_and_record(&mut registry, &owner, &request, "resp_main");
    start_and_record(&mut registry, &sibling, &request, "resp_agent");

    let reservation =
        continuation_candidate_for_owner(&mut registry, Some(&owner), &request, true, NOW);
    record_continuation_for_owner(&mut registry, &reservation, &request, None, Some(1), &[], NOW);

    assert!(!has_continuation_for_owner_for_tests(&registry, &owner));
    assert!(has_continuation_for_owner_for_tests(&registry, &sibling));
}

#[test]
fn missing_socket_id_does_not_publish_reusable_state() {
    let mut registry = ContinuationRegistry::new();
    let owner = main_owner("session-no-socket");
    let request = request_with_input(vec![input("one")], None);
    let reservation =
        continuation_candidate_for_owner(&mut registry, Some(&owner), &request, true, NOW);

    record_continuation_for_owner(
        &mut registry,
        &reservation,
        &request,
        Some("resp_without_socket"),
        None,
        &[],
        NOW,
    );

    assert!(!has_continuation_for_owner_for_tests(&registry, &owner));
    let next = continuation_candidate_for_owner(&mut registry, Some(&owner), &request, true, NOW);
    assert_eq!(next.candidate().previous_response_id, None);
    assert_eq!(next.origin_socket_id(), None);
}

#[test]
fn legacy_recording_without_provenance_publishes_no_reusable_state() {
    let mut registry = ContinuationRegistry::new();
    let session_id = "legacy-no-provenance";
    let request = request_with_input(vec![input("one")], None);
    let candidate = continuation_candidate(&mut registry, Some(session_id), &request, true, NOW);

    record_continuation(
        &mut registry,
        Some(session_id),
        candidate.turn_id,
        &request,
        Some("resp_legacy"),
        &[],
        NOW,
    );

    assert!(!has_continuation_for_tests(&registry, session_id));
    let next = continuation_candidate(&mut registry, Some(session_id), &request, true, NOW);
    assert_eq!(next.previous_response_id, None);
}

#[test]
fn same_owner_stale_turn_cannot_publish_clear_or_run_actions() {
    let mut registry = ContinuationRegistry::new();
    let owner = main_owner("session-a");
    let request = request_with_input(vec![input("one")], None);
    start_and_record(&mut registry, &owner, &request, "resp_1");

    let stale = continuation_candidate_for_owner(&mut registry, Some(&owner), &request, true, NOW);
    let current =
        continuation_candidate_for_owner(&mut registry, Some(&owner), &request, true, NOW);
    assert_eq!(
        current.candidate().disabled_reason.as_deref(),
        Some("superseded_turn")
    );
    record_continuation_for_owner(
        &mut registry,
        &stale,
        &request,
        Some("resp_stale"),
        Some(1),
        &[],
        NOW,
    );
    assert!(!has_continuation_for_owner_for_tests(&registry, &owner));
    record_continuation_for_owner(
        &mut registry,
        &current,
        &request,
        Some("resp_current"),
        Some(1),
        &[],
        NOW,
    );
    assert!(has_continuation_for_owner_for_tests(&registry, &owner));
    abort_continuation_for_owner(&mut registry, &stale);
    assert!(has_continuation_for_owner_for_tests(&registry, &owner));

    let mut ran = false;
    assert_eq!(
        if_current_turn_for_owner(&registry, &stale, || ran = true),
        None
    );
    assert!(!ran);
}

#[test]
fn missing_owner_or_turn_mutations_are_hard_noops() {
    let mut registry = ContinuationRegistry::new();
    let owner = main_owner("session-a");
    let request = request_with_input(vec![input("one")], None);
    start_and_record(&mut registry, &owner, &request, "resp_1");

    let missing_owner = ContinuationReservation::new(
        ContinuationCandidate {
            turn_id: Some(1),
            previous_response_id: None,
            input_delta: None,
            input_delta_count: 1,
            disabled_reason: None,
        },
        None,
        None,
    );
    let missing_turn = ContinuationReservation::new(
        ContinuationCandidate {
            turn_id: None,
            previous_response_id: None,
            input_delta: None,
            input_delta_count: 1,
            disabled_reason: None,
        },
        Some(owner.clone()),
        None,
    );
    record_continuation_for_owner(
        &mut registry,
        &missing_owner,
        &request,
        Some("ignored"),
        Some(1),
        &[],
        NOW,
    );
    record_continuation_for_owner(
        &mut registry,
        &missing_turn,
        &request,
        Some("ignored"),
        Some(1),
        &[],
        NOW,
    );
    abort_continuation_for_owner(&mut registry, &missing_owner);
    abort_continuation_for_owner(&mut registry, &missing_turn);
    clear_continuation_for_owner(&mut registry, None);
    assert!(has_continuation_for_owner_for_tests(&registry, &owner));

    let mut runs = 0;
    assert_eq!(
        if_current_turn_for_owner(&registry, &missing_owner, || runs += 1),
        None
    );
    assert_eq!(
        if_current_turn_for_owner(&registry, &missing_turn, || runs += 1),
        None
    );
    assert!(!with_current_turn_for_owner(&registry, &missing_owner, || runs += 1));
    assert!(!with_current_turn_for_owner(&registry, &missing_turn, || runs += 1));
    assert_eq!(if_current_turn(&registry, None, Some(1), || runs += 1), None);
    assert!(!with_current_turn(&registry, None, Some(1), || runs += 1));
    assert_eq!(runs, 0);
}

#[test]
fn append_only_and_prompt_guards_stay_owner_scoped() {
    let mut registry = ContinuationRegistry::new();
    let owner = main_owner("session-a");
    let request = request_with_input(vec![input("one")], None);
    start_and_record(&mut registry, &owner, &request, "resp_1");

    let appended = request_with_input(vec![input("one"), input("two")], None);
    let reservation =
        continuation_candidate_for_owner(&mut registry, Some(&owner), &appended, true, NOW);
    assert_eq!(
        reservation.candidate().previous_response_id.as_deref(),
        Some("resp_1")
    );
    assert_eq!(reservation.candidate().input_delta_count, 1);

    let full_context = reservation.full_context_retry();
    assert!(same_owner(full_context.owner(), Some(&owner)));
    assert_eq!(full_context.turn_id(), reservation.turn_id());
    assert_eq!(full_context.candidate().previous_response_id, None);
    assert!(full_context.candidate().input_delta.is_none());
    assert_eq!(full_context.origin_socket_id(), None);

    record_continuation_for_owner(
        &mut registry,
        &reservation,
        &appended,
        Some("resp_2"),
        Some(1),
        &[],
        NOW,
    );
    let changed = request_with_input(
        vec![input("one"), input("two"), input("three")],
        Some(("service_tier", JsonValue::Text("flex".to_string()))),
    );
    let reservation =
        continuation_candidate_for_owner(&mut registry, Some(&owner), &changed, true, NOW);
    assert_eq!(
        reservation.candidate().disabled_reason.as_deref(),
        Some("prompt_changed")
    );
    assert!(!has_continuation_for_owner_for_tests(&registry, &owner));
}

#[test]
fn function_call_arguments_with_reordered_keys_keep_continuation() {
    let mut registry = ContinuationRegistry::new();
    let owner = main_owner("session-a");
    let request = request_with_input(vec![input("one")], None);
    let recorded = function_call(
        "call_1",
        "Edit",
        "{\"file_path\":\"/tmp/x\",\"old_string\":\"a\",\"new_string\":\"b\"}",
    );
    record_with_output_items(&mut registry, &owner, &request, "resp_1", &[recorded]);

    let next = request_with_input(
        vec![
            input("one"),
            function_call(
                "call_1",
                "Edit",
                "{\"file_path\":\"/tmp/x\",\"new_string\":\"b\",\"old_string\":\"a\"}",
            ),
            function_call_output("call_1", "done"),
        ],
        None,
    );
    let reservation =
        continuation_candidate_for_owner(&mut registry, Some(&owner), &next, true, NOW);
    assert_eq!(reservation.candidate().disabled_reason, None);
    assert_eq!(
        reservation.candidate().previous_response_id.as_deref(),
        Some("resp_1")
    );
    assert_eq!(reservation.candidate().input_delta_count, 1);
    let delta = reservation.candidate().input_delta.clone().unwrap();
    assert_eq!(delta.len(), 1);
    assert!(matches!(
        delta[0],
        ResponsesInputItem::FunctionCallOutput { .. }
    ));
}

#[test]
fn function_call_arguments_with_different_values_are_not_append_only() {
    let mut registry = ContinuationRegistry::new();
    let owner = main_owner("session-a");
    let request = request_with_input(vec![input("one")], None);
    let recorded = function_call(
        "call_1",
        "Edit",
        "{\"file_path\":\"/tmp/x\",\"old_string\":\"a\",\"new_string\":\"b\"}",
    );
    record_with_output_items(&mut registry, &owner, &request, "resp_1", &[recorded]);

    let next = request_with_input(
        vec![
            input("one"),
            function_call(
                "call_1",
                "Edit",
                "{\"file_path\":\"/tmp/x\",\"new_string\":\"c\",\"old_string\":\"a\"}",
            ),
            function_call_output("call_1", "done"),
        ],
        None,
    );
    let reservation =
        continuation_candidate_for_owner(&mut registry, Some(&owner), &next, true, NOW);
    assert_eq!(
        reservation.candidate().disabled_reason.as_deref(),
        Some("not_append_only")
    );
    assert_eq!(reservation.candidate().previous_response_id, None);
}

#[test]
fn unparseable_function_call_arguments_require_exact_text() {
    let mut registry = ContinuationRegistry::new();
    let owner = main_owner("session-a");
    let request = request_with_input(vec![input("one")], None);
    record_with_output_items(
        &mut registry,
        &owner,
        &request,
        "resp_1",
        &[function_call("call_1", "Edit", "{not json")],
    );

    let identical = request_with_input(
        vec![
            input("one"),
            function_call("call_1", "Edit", "{not json"),
            function_call_output("call_1", "done"),
        ],
        None,
    );
    let reservation =
        continuation_candidate_for_owner(&mut registry, Some(&owner), &identical, true, NOW);
    assert_eq!(reservation.candidate().disabled_reason, None);
    assert_eq!(
        reservation.candidate().previous_response_id.as_deref(),
        Some("resp_1")
    );
    assert_eq!(reservation.candidate().input_delta_count, 1);

    record_with_output_items(
        &mut registry,
        &owner,
        &request,
        "resp_2",
        &[function_call("call_1", "Edit", "{not json")],
    );
    let spaced = request_with_input(
        vec![
            input("one"),
            function_call("call_1", "Edit", "{not json "),
            function_call_output("call_1", "done"),
        ],
        None,
    );
    let reservation =
        continuation_candidate_for_owner(&mut registry, Some(&owner), &spaced, true, NOW);
    assert_eq!(
        reservation.candidate().disabled_reason.as_deref(),
        Some("not_append_only")
    );
    assert_eq!(reservation.candidate().previous_response_id, None);
}

#[test]
fn input_items_equivalent_compares_arguments_as_json() {
    assert!(input_items_equivalent(
        &function_call("call_1", "Edit", "{\"a\": 1}"),
        &function_call("call_1", "Edit", "{\"a\":1}"),
    ));
    assert!(!input_items_equivalent(
        &function_call("call_1", "Edit", "{\"a\":1}"),
        &function_call("call_1", "Edit", "{not json"),
    ));
    assert!(!input_items_equivalent(
        &function_call("call_1", "Edit", "{\"a\":1}"),
        &function_call("call_2", "Edit", "{\"a\":1}"),
    ));
    assert!(!input_items_equivalent(
        &function_call("call_1", "Edit", "{\"a\":1}"),
        &function_call("call_1", "Write", "{\"a\":1}"),
    ));
    assert!(input_items_equivalent(&input("one"), &input("one")));
    assert!(!input_items_equivalent(&input("one"), &input("two")));
    assert!(!input_items_equivalent(
        &input("one"),
        &function_call("call_1", "Edit", "{\"a\":1}"),
    ));
}

#[test]
fn first_request_has_no_state_and_repeated_request_no_delta() {
    let mut registry = ContinuationRegistry::new();
    let owner = main_owner("session-a");
    let request = request_with_input(vec![input("one"), input("two")], None);
    let first = continuation_candidate_for_owner(&mut registry, Some(&owner), &request, true, NOW);
    assert_eq!(first.turn_id(), Some(1));
    assert_eq!(first.candidate().input_delta_count, 2);
    assert_eq!(
        first.candidate().disabled_reason.as_deref(),
        Some("missing_state")
    );
    record_continuation_for_owner(
        &mut registry,
        &first,
        &request,
        Some("resp_1"),
        Some(3),
        &[],
        NOW,
    );
    let again = continuation_candidate_for_owner(&mut registry, Some(&owner), &request, true, NOW);
    assert_eq!(again.turn_id(), Some(2));
    assert_eq!(again.candidate().input_delta_count, 0);
    assert_eq!(
        again.candidate().disabled_reason.as_deref(),
        Some("empty_delta")
    );
}

#[test]
fn stored_responses_expire_after_half_an_hour() {
    let owner = main_owner("session-a");
    let request = request_with_input(vec![input("one")], None);
    let next = request_with_input(vec![input("one"), input("two")], None);

    let mut registry = ContinuationRegistry::new();
    start_and_record(&mut registry, &owner, &request, "resp_1");
    let in_time =
        continuation_candidate_for_owner(&mut registry, Some(&owner), &next, true, NOW + TTL_MS);
    assert_eq!(
        in_time.candidate().previous_response_id.as_deref(),
        Some("resp_1")
    );

    let mut registry = ContinuationRegistry::new();
    start_and_record(&mut registry, &owner, &request, "resp_1");
    let late = continuation_candidate_for_owner(
        &mut registry,
        Some(&owner),
        &next,
        true,
        NOW + TTL_MS + 1,
    );
    assert_eq!(late.candidate().previous_response_id, None);
    assert_eq!(
        late.candidate().disabled_reason.as_deref(),
        Some("superseded_turn")
    );
}

#[test]
fn a_transcript_that_is_too_large_is_not_published() {
    let mut registry = ContinuationRegistry::new();
    let owner = main_owner("session-a");
    let large = request_with_input(vec![input(&"x".repeat(2_000_000))], None);
    let reservation =
        continuation_candidate_for_owner(&mut registry, Some(&owner), &large, true, NOW);
    assert!(is_current_turn_for_owner(&registry, &reservation));
    record_continuation_for_owner(
        &mut registry,
        &reservation,
        &large,
        Some("resp_1"),
        Some(1),
        &[],
        NOW,
    );
    assert!(!has_continuation_for_owner_for_tests(&registry, &owner));
    assert!(!is_current_turn_for_owner(&registry, &reservation));
}

#[test]
fn the_oldest_transcripts_go_when_all_together_are_too_large() {
    let mut registry = ContinuationRegistry::new();
    let request = request_with_input(vec![input(&"x".repeat(1_900_000))], None);
    for i in 0..11_u64 {
        let owner = main_owner(&format!("session-{i}"));
        let reservation =
            continuation_candidate_for_owner(&mut registry, Some(&owner), &request, true, NOW + i);
        record_continuation_for_owner(
            &mut registry,
            &reservation,
            &request,
            Some("resp"),
            Some(1),
            &[],
            NOW + i,
        );
    }
    assert!(!has_continuation_for_tests(&registry, "session-0"));
    for i in 1..11_u64 {
        assert!(has_continuation_for_tests(&registry, &format!("session-{i}")));
    }
}

#[test]
fn the_oldest_owner_goes_when_there_are_too_many() {
    let mut registry = ContinuationRegistry::new();
    let request = request_with_input(vec![], None);
    let first = continuation_candidate(&mut registry, Some("first"), &request, true, NOW);
    assert!(is_current_turn(&registry, Some("first"), first.turn_id));
    for i in 0..MAX_STATES as u64 {
        continuation_candidate(
            &mut registry,
            Some(&format!("session-{i}")),
            &request,
            true,
            NOW + 1 + i,
        );
    }
    assert!(!is_current_turn(&registry, Some("first"), first.turn_id));
    assert!(is_current_turn(&registry, Some("session-0"), Some(2)));
}

#[test]
fn current_turns_run_their_actions() {
    let mut registry = ContinuationRegistry::new();
    let request = request_with_input(vec![input("one")], None);
    let candidate = continuation_candidate(&mut registry, Some("session"), &request, true, NOW);
    assert_eq!(
        if_current_turn(&registry, Some("session"), candidate.turn_id, || 7),
        Some(7)
    );
    let mut ran = false;
    assert!(with_current_turn(
        &registry,
        Some("session"),
        candidate.turn_id,
        || ran = true
    ));
    assert!(ran);
    abort_continuation(&mut registry, Some("session"), candidate.turn_id);
    assert!(!is_current_turn(&registry, Some("session"), candidate.turn_id));
}

#[test]
fn clearing_drops_owners_and_keeps_counting_turns() {
    let mut registry = ContinuationRegistry::new();
    let owner = main_owner("session-a");
    let other = main_owner("session-b");
    let request = request_with_input(vec![input("one")], None);
    start_and_record(&mut registry, &owner, &request, "resp_1");
    start_and_record(&mut registry, &other, &request, "resp_2");
    clear_continuation(&mut registry, Some("session-a"));
    assert!(!has_continuation_for_owner_for_tests(&registry, &owner));
    assert!(has_continuation_for_owner_for_tests(&registry, &other));
    clear_all_continuations_for_tests(&mut registry);
    assert!(!has_continuation_for_owner_for_tests(&registry, &other));
    let next = continuation_candidate_for_owner(&mut registry, Some(&owner), &request, true, NOW);
    assert_eq!(next.turn_id(), Some(3));
}

#[test]
fn reservations_can_be_made_by_hand() {
    let owner = agent_owner("session", "agent");
    let turn = ContinuationReservation::for_owner_turn(Some(&owner), Some(9));
    assert!(same_owner(turn.owner(), Some(&owner)));
    assert_eq!(turn.turn_id(), Some(9));
    assert_eq!(turn.candidate().disabled_reason, None);
    let public = ContinuationReservation::from_public_candidate(turn.candidate());
    assert!(public.owner().is_none());
    assert_eq!(public.clone().into_candidate().turn_id, Some(9));
}

#[test]
fn the_signature_lists_every_member_but_the_input() {
    let mut request = request_with_input(vec![input("one")], None);
    request.instructions = Some("say \"hi\"".to_string());
    request.other.push((
        "input".to_string(),
        JsonValue::Text("not part of it".to_string()),
    ));
    assert_eq!(
        prompt_signature(&request),
        "{\"instructions\":\"say \\\"hi\\\"\",\"model\":\"gpt-5.5\",\
         \"parallel_tool_calls\":true,\"store\":false,\"stream\":true,\
         \"text\":{\"verbosity\":\"low\"}}"
    );
    let mut longer = request.clone();
    longer.input.push(input("two"));
    assert_eq!(prompt_signature(&request), prompt_signature(&longer));
    request.include_fields = Some(vec!["reasoning.encrypted_content".to_string()]);
    assert_ne!(prompt_signature(&request), prompt_signature(&longer));
}

#[test]
fn a_reserved_turn_is_current_and_spares_the_others() {
    let mut registry = ContinuationRegistry::new();
    let request = request_with_input(vec![input("one")], None);
    let (main, agent) = (main_owner("s"), agent_owner("s", "a"));
    let other = continuation_candidate_for_owner(&mut registry, Some(&agent), &request, true, NOW);
    start_and_record(&mut registry, &main, &request, "resp");
    let changed = request_with_input(vec![input("two")], None);
    let turn = continuation_candidate_for_owner(&mut registry, Some(&main), &changed, true, NOW);
    assert_eq!(
        turn.candidate().disabled_reason.as_deref(),
        Some("not_append_only")
    );
    assert!(is_current_turn_for_owner(&registry, &turn));
    assert!(is_current_turn_for_owner(&registry, &other));
    assert!(!has_continuation_for_owner_for_tests(&registry, &main));
}

#[test]
fn turn_numbers_are_not_given_twice() {
    let mut registry = ContinuationRegistry::new();
    let request = request_with_input(vec![input("one")], None);
    let mut given = Vec::new();
    for session in ["a", "b", "a", "b"] {
        let turn = continuation_candidate(&mut registry, Some(session), &request, true, NOW)
            .turn_id
            .unwrap();
        assert!(!given.contains(&turn));
        given.push(turn);
        abort_continuation(&mut registry, Some(session), Some(turn));
        clear_all_continuations_for_tests(&mut registry);
    }
    assert_eq!(given, vec![1, 2, 3, 4]);
}

#[test]
fn read_arguments_are_no_unread_text_and_calls_are_no_other_items() {
    let call = function_call("c", "n", "{\"a\": 1}");
    assert!(input_items_equivalent(
        &call,
        &function_call("c", "n", "{\"a\":1}")
    ));
    assert!(!input_items_equivalent(
        &call,
        &function_call("c", "n", "{\"a\":1")
    ));
    assert!(!input_items_equivalent(
        &call,
        &function_call("d", "n", "{\"a\": 1}")
    ));
    assert!(!input_items_equivalent(
        &call,
        &function_call("c", "m", "{\"a\": 1}")
    ));
    assert!(!input_items_equivalent(&call, &input("{\"a\": 1}")));
    assert!(!input_items_equivalent(
        &call,
        &function_call_output("c", "{\"a\": 1}")
    ));
    assert!(!input_items_equivalent(
        &ResponsesInputItem::CompactionTrigger,
        &call
    ));
}

#[test]
fn the_order_of_members_inside_a_member_does_not_change_the_signature() {
    let pair = |first: &str, second: &str| {
        JsonValue::Object(vec![
            (first.to_string(), JsonValue::Text(first.to_string())),
            (second.to_string(), JsonValue::Text(second.to_string())),
        ])
    };
    let signature = |value: JsonValue| {
        prompt_signature(&request_with_input(vec![], Some(("reasoning", value))))
    };
    assert_eq!(signature(pair("a", "b")), signature(pair("b", "a")));
    assert_ne!(signature(pair("a", "b")), signature(pair("a", "c")));
    assert_ne!(
        signature(JsonValue::Text("1".to_string())),
        signature(JsonValue::Number("1".to_string()))
    );
}

#[test]
fn an_earlier_turn_stays_superseded() {
    let mut registry = ContinuationRegistry::new();
    let request = request_with_input(vec![input("one")], None);
    let owner = main_owner("s");
    let earlier = continuation_candidate_for_owner(&mut registry, Some(&owner), &request, true, NOW);
    start_and_record(&mut registry, &owner, &request, "resp");
    assert!(!is_current_turn_for_owner(&registry, &earlier));
    clear_all_continuations_for_tests(&mut registry);
    assert!(!is_current_turn_for_owner(&registry, &earlier));
    start_and_record(&mut registry, &owner, &request, "resp");
    assert!(!is_current_turn_for_owner(&registry, &earlier));
}
