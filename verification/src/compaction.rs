//! Server compaction: asking for it, reading the answer, and putting the answer
//! in place of the summary that the client carries on with.

use crate::history;
use crate::history::{
    build_compacted_history, message_text, portable_summary_text, split_input_envelope,
    without_compaction_instruction,
};
use crate::json;
use crate::json::JsonValue;
use crate::model;
use crate::model::Duplicate;
use crate::outside;
use crate::request;
use crate::request::{ResponsesInputItem, ResponsesRequest, serialized_size};
use crate::sse;
use crate::sse::SseEvent;
use crate::table;
use crate::table::{Stored, Table};
use crate::text;
use vstd::prelude::*;
use vstd::string::*;

verus! {

/// How long, in milliseconds, a compaction is kept without being used.
pub const STATE_TTL_MS: u64 = 30 * 60 * 1_000;

/// How many compactions are kept.
pub const MAX_STATES: usize = 1_000;

/// How many bytes one compaction may take.
pub const MAX_STATE_BYTES: usize = 4 * 1024 * 1024;

/// How many bytes all compactions together may take.
pub const MAX_TOTAL_STATE_BYTES: usize = 20_000_000;

// ---------------------------------------------------------------------------
// Errors
// ---------------------------------------------------------------------------

/// Why a request to Codex failed.
#[derive(Debug)]
pub struct CodexError {
    pub message: String,
}

/// Why a compaction failed.
#[derive(Debug)]
pub enum CompactionError {
    Upstream(CodexError),
    InvalidResponse(String),
}

impl CompactionError {
    /// What the error says.
    pub open spec fn says(self) -> Seq<char> {
        match self {
            CompactionError::Upstream(error) => error.message@,
            CompactionError::InvalidResponse(message) => message@,
        }
    }

    /// What the error says.
    pub fn message(&self) -> (message: String)
        ensures
            message@ == self.says(),
    {
        match self {
            CompactionError::Upstream(error) => error.message.clone(),
            CompactionError::InvalidResponse(message) => message.clone(),
        }
    }
}

// ---------------------------------------------------------------------------
// The request
// ---------------------------------------------------------------------------

/// The items that carry tools.
pub open spec fn tool_items(items: Seq<request::Item>) -> Seq<request::Item>
    decreases items.len(),
{
    if items.len() == 0 {
        items
    } else if items.last() is AdditionalTools {
        tool_items(items.drop_last()).push(items.last())
    } else {
        tool_items(items.drop_last())
    }
}

/// The conversation that is compacted: that of a request, without the
/// instruction to compact it. `marks` says, of each part of the last item,
/// whether it is that instruction.
pub open spec fn compacted_conversation(
    asked: request::Request,
    marks: Seq<bool>,
) -> Seq<request::Item> {
    history::without_instruction(history::conversation(asked.input), marks)
}

/// The request for a compaction: the tools and the conversation of a request and
/// a trigger behind them, without instructions and without context management,
/// and with the encrypted reasoning asked for.
pub open spec fn request_for_compaction(
    asked: request::Request,
    marks: Seq<bool>,
) -> request::Request {
    request::Request {
        instructions: None,
        context_management: None,
        input: (tool_items(history::envelope(asked.input)) + compacted_conversation(
            asked,
            marks,
        )).push(request::Item::CompactionTrigger),
        include_fields: Some(seq!["reasoning.encrypted_content"@]),
        ..asked
    }
}

/// The request for a compaction of the conversation of a request.
pub fn compaction_request(body: &ResponsesRequest, marks: &[bool]) -> (asking: ResponsesRequest)
    ensures
        asking@ == request_for_compaction(body@, marks@),
{
    let (envelope, conversation) = split_input_envelope(body.input.as_slice());
    let ghost before = model::views(envelope@);
    let mut input: Vec<ResponsesInputItem> = Vec::new();
    let mut i: usize = 0;
    assert(model::views(input@) =~= tool_items(before.take(0)));
    while i < envelope.len()
        invariant
            i <= envelope@.len(),
            before == model::views(envelope@),
            model::views(input@) == tool_items(before.take(i as int)),
        decreases envelope@.len() - i,
    {
        let ghost sofar = model::views(input@);
        proof {
            let taken = before.take(i + 1);
            assert(taken.drop_last() =~= before.take(i as int));
            assert(taken.last() == envelope@[i as int]@);
        }
        if matches!(envelope[i], ResponsesInputItem::AdditionalTools { .. }) {
            let copy: ResponsesInputItem = envelope[i].duplicate();
            input.push(copy);
            assert(model::views(input@) =~= sofar.push(envelope@[i as int]@));
        }
        i = i + 1;
    }
    assert(before.take(before.len() as int) =~= before);
    let kept: Vec<ResponsesInputItem> = without_compaction_instruction(conversation, marks);
    model::append_duplicates(&mut input, kept.as_slice());
    let ghost sofar = model::views(input@);
    input.push(ResponsesInputItem::CompactionTrigger);
    assert(model::views(input@) =~= sofar.push(request::Item::CompactionTrigger));
    let mut asking: ResponsesRequest = body.without_input();
    asking.instructions = None;
    asking.context_management = None;
    asking.input = input;
    let mut fields: Vec<String> = Vec::new();
    fields.push("reasoning.encrypted_content".to_owned());
    assert(model::views(fields@) =~= seq!["reasoning.encrypted_content"@]);
    asking.include_fields = Some(fields);
    asking
}

// ---------------------------------------------------------------------------
// The answer
// ---------------------------------------------------------------------------

/// What has been read of the answer: that the compaction failed, with the reason
/// why, or whether the response is complete and what compaction items there are.
pub enum Reading {
    Failed(Seq<char>),
    Read { completed: bool, items: Seq<Seq<char>> },
}

/// A member of what may be there.
pub open spec fn member_of(value: Option<json::Json>, name: Seq<char>) -> Option<json::Json> {
    match value {
        Some(v) => json::member(v, name),
        None => None,
    }
}

/// The first of two that is there.
pub open spec fn first_of<T>(a: Option<T>, b: Option<T>) -> Option<T> {
    match a {
        Some(_) => a,
        None => b,
    }
}

/// The reason that an error event gives.
pub open spec fn failure_message(payload: json::Json) -> Seq<char> {
    let nested = member_of(
        member_of(json::member(payload, "response"@), "error"@),
        "message"@,
    );
    let plain = member_of(json::member(payload, "error"@), "message"@);
    let found = first_of(first_of(nested, plain), json::member(payload, "message"@));
    match json::as_text(found) {
        Some(message) => message,
        None => "remote compaction failed"@,
    }
}

/// The encrypted content of a compaction item that an event reports as done.
pub open spec fn done_compaction(payload: json::Json) -> Option<Seq<char>> {
    let item = json::member(payload, "item"@);
    if json::as_text(member_of(item, "type"@)) == Some("compaction"@) {
        json::as_text(member_of(item, "encrypted_content"@))
    } else {
        None
    }
}

/// What has been read after one more event. Nothing is read of an event that is
/// not JSON.
pub open spec fn read_event(
    completed: bool,
    items: Seq<Seq<char>>,
    payload: Option<json::Json>,
) -> Reading {
    match payload {
        None => Reading::Read { completed, items },
        Some(value) => {
            let kind = json::as_text(json::member(value, "type"@));
            if kind == Some("error"@) || kind == Some("response.error"@) || kind == Some(
                "response.failed"@,
            ) {
                Reading::Failed(failure_message(value))
            } else if kind == Some("response.output_item.done"@) {
                match done_compaction(value) {
                    Some(content) => Reading::Read { completed, items: items.push(content) },
                    None => Reading::Read { completed, items },
                }
            } else if kind == Some("response.completed"@) {
                Reading::Read { completed: true, items }
            } else {
                Reading::Read { completed, items }
            }
        },
    }
}

/// What is read of the events, one after the other. Nothing is read after a
/// failure.
pub open spec fn read_events(payloads: Seq<Option<json::Json>>) -> Reading
    decreases payloads.len(),
{
    if payloads.len() == 0 {
        Reading::Read { completed: false, items: Seq::empty() }
    } else {
        match read_events(payloads.drop_last()) {
            Reading::Failed(message) => Reading::Failed(message),
            Reading::Read { completed, items } => read_event(completed, items, payloads.last()),
        }
    }
}

/// The compaction item that an answer gives, or what is wrong with the answer.
pub open spec fn compaction_in(payloads: Seq<Option<json::Json>>) -> Result<
    Seq<char>,
    Seq<char>,
> {
    match read_events(payloads) {
        Reading::Failed(message) => Err(message),
        Reading::Read { completed, items } => if !completed {
            Err("remote compaction stream ended before response.completed"@)
        } else if items.len() != 1 {
            Err(
                "remote compaction expected exactly one compaction item, got "@ + text::decimal(
                    items.len(),
                ),
            )
        } else {
            Ok(items[0])
        },
    }
}

/// What an event says as JSON. The end mark is no JSON.
pub open spec fn payload_of(said: Seq<char>) -> Option<json::Json> {
    if said == "[DONE]"@ {
        None
    } else {
        outside::parsed_json(said)
    }
}

/// What the events of an answer say as JSON.
pub open spec fn payloads_in(body: Seq<u8>) -> Seq<Option<json::Json>> {
    sse::event_texts(body).map_values(|said: Seq<char>| payload_of(said))
}

/// Whether a result is the item with the given encrypted content, or an error
/// that says what is given.
pub open spec fn is_outcome(
    result: Result<ResponsesInputItem, CompactionError>,
    expected: Result<Seq<char>, Seq<char>>,
) -> bool {
    match (result, expected) {
        (Ok(item), Ok(content)) => item@ == request::Item::Compaction {
            encrypted_content: content,
        },
        (Err(error), Err(message)) => error is InvalidResponse && error.says() == message,
        _ => false,
    }
}

/// What may be there, by its view.
pub open spec fn seen_payloads(payloads: Seq<Option<JsonValue>>) -> Seq<Option<json::Json>> {
    Seq::new(payloads.len(), |i: int| model::seen(payloads[i]))
}

/// A member of what may be there.
fn member_in<'a>(value: Option<&'a JsonValue>, name: &str) -> (found: Option<&'a JsonValue>)
    ensures
        model::seen(found) == member_of(model::seen(value), name@),
{
    match value {
        Some(v) => v.get(name),
        None => None,
    }
}

/// The text that may be there.
fn text_in(value: Option<&JsonValue>) -> (found: Option<&String>)
    ensures
        model::seen(found) == json::as_text(model::seen(value)),
{
    match value {
        Some(v) => v.text(),
        None => None,
    }
}

/// Whether the text that may be there is the given one.
fn is_text(value: Option<&JsonValue>, expected: &str) -> (answer: bool)
    ensures
        answer == (json::as_text(model::seen(value)) == Some(expected@)),
{
    match text_in(value) {
        Some(found) => text::same_text(found.as_str(), expected),
        None => false,
    }
}

/// The reason that an error event gives.
fn failure_text(payload: &JsonValue) -> (message: String)
    ensures
        message@ == failure_message(payload@),
{
    let nested: Option<&JsonValue> = member_in(
        member_in(payload.get("response"), "error"),
        "message",
    );
    let plain: Option<&JsonValue> = member_in(payload.get("error"), "message");
    let found: Option<&JsonValue> = match nested {
        Some(value) => Some(value),
        None => match plain {
            Some(value) => Some(value),
            None => payload.get("message"),
        },
    };
    match text_in(found) {
        Some(message) => message.clone(),
        None => "remote compaction failed".to_owned(),
    }
}

/// The compaction item that the events of an answer give. Of each event it is
/// given what the event says as JSON, if it says any.
pub fn compaction_from_payloads(payloads: &[Option<JsonValue>]) -> (result: Result<
    ResponsesInputItem,
    CompactionError,
>)
    ensures
        is_outcome(result, compaction_in(seen_payloads(payloads@))),
{
    let ghost all = seen_payloads(payloads@);
    let mut completed: bool = false;
    let mut items: Vec<String> = Vec::new();
    let mut i: usize = 0;
    assert(model::views(items@) =~= Seq::<Seq<char>>::empty());
    assert(all.take(0) =~= Seq::<Option<json::Json>>::empty());
    while i < payloads.len()
        invariant
            i <= payloads@.len(),
            all == seen_payloads(payloads@),
            read_events(all.take(i as int)) == (Reading::Read {
                completed,
                items: model::views(items@),
            }),
        decreases payloads@.len() - i,
    {
        let ghost before = model::views(items@);
        proof {
            let taken = all.take(i + 1);
            assert(taken.drop_last() =~= all.take(i as int));
            assert(taken.last() == model::seen(payloads@[i as int]));
        }
        if let Some(payload) = &payloads[i] {
            let kind: Option<&JsonValue> = payload.get("type");
            if is_text(kind, "error") || is_text(kind, "response.error") || is_text(
                kind,
                "response.failed",
            ) {
                let message: String = failure_text(payload);
                proof {
                    lemma_failure_stands(all, i + 1);
                }
                return Err(CompactionError::InvalidResponse(message));
            }
            if is_text(kind, "response.output_item.done") {
                let item: Option<&JsonValue> = payload.get("item");
                if is_text(member_in(item, "type"), "compaction") {
                    if let Some(content) = text_in(member_in(item, "encrypted_content")) {
                        items.push(content.clone());
                        assert(model::views(items@) =~= before.push(content@));
                    }
                }
            } else if is_text(kind, "response.completed") {
                completed = true;
            }
        }
        i = i + 1;
    }
    assert(all.take(all.len() as int) =~= all);
    if !completed {
        return Err(
            CompactionError::InvalidResponse(
                "remote compaction stream ended before response.completed".to_owned(),
            ),
        );
    }
    assert(model::views(items@).len() == items@.len());
    if items.len() != 1 {
        let mut message: String =
            "remote compaction expected exactly one compaction item, got ".to_owned();
        let count: String = text::decimal_text(items.len());
        message.append(count.as_str());
        return Err(CompactionError::InvalidResponse(message));
    }
    let encrypted_content: String = items[0].clone();
    Ok(ResponsesInputItem::Compaction { encrypted_content })
}

proof fn lemma_failure_stands(payloads: Seq<Option<json::Json>>, i: int)
    requires
        0 <= i <= payloads.len(),
        read_events(payloads.take(i)) is Failed,
    ensures
        read_events(payloads) == read_events(payloads.take(i)),
    decreases payloads.len() - i,
{
    if i == payloads.len() {
        assert(payloads.take(i) =~= payloads);
    } else {
        assert(payloads.take(i + 1).drop_last() =~= payloads.take(i));
        lemma_failure_stands(payloads, i + 1);
    }
}

/// The compaction item that an answer gives.
pub fn parse_compaction_response(body: &[u8]) -> (result: Result<
    ResponsesInputItem,
    CompactionError,
>)
    ensures
        is_outcome(result, compaction_in(payloads_in(body@))),
{
    let events: Vec<SseEvent> = sse::parse_sse_events(body);
    let ghost said = sse::texts_of(events@);
    let mut payloads: Vec<Option<JsonValue>> = Vec::new();
    let mut i: usize = 0;
    while i < events.len()
        invariant
            i <= events@.len(),
            said == sse::texts_of(events@),
            payloads@.len() == i,
            forall|j: int|
                0 <= j < i ==> model::seen(#[trigger] payloads@[j]) == payload_of(said[j]),
        decreases events@.len() - i,
    {
        let payload: Option<JsonValue> = if text::same_text(events[i].data.as_str(), "[DONE]") {
            None
        } else {
            json::parse_json(events[i].data.as_str())
        };
        payloads.push(payload);
        i = i + 1;
    }
    assert(seen_payloads(payloads@) =~= payloads_in(body@));
    compaction_from_payloads(payloads.as_slice())
}

/// Whether a result is the given items, or an error that says what is given.
pub open spec fn is_history(
    result: Result<Vec<ResponsesInputItem>, CompactionError>,
    kept: Seq<request::Item>,
    expected: Result<Seq<char>, Seq<char>>,
) -> bool {
    match (result, expected) {
        (Ok(items), Ok(content)) => model::views(items@) == history::compacted(
            kept,
            request::Item::Compaction { encrypted_content: content },
        ),
        (Err(error), Err(message)) => error is InvalidResponse && error.says() == message,
        _ => false,
    }
}

/// What stands for the conversation of a request once the answer to the request
/// for its compaction has come.
pub fn finish_compaction(body: &ResponsesRequest, marks: &[bool], answer: &[u8]) -> (result: Result<
    Vec<ResponsesInputItem>,
    CompactionError,
>)
    ensures
        is_history(
            result,
            compacted_conversation(body@, marks@),
            compaction_in(payloads_in(answer@)),
        ),
{
    let (_, conversation) = split_input_envelope(body.input.as_slice());
    let kept: Vec<ResponsesInputItem> = without_compaction_instruction(conversation, marks);
    match parse_compaction_response(answer) {
        Ok(compaction) => Ok(build_compacted_history(kept.as_slice(), compaction)),
        Err(error) => Err(error),
    }
}

// ---------------------------------------------------------------------------
// Model
// ---------------------------------------------------------------------------

/// How far a compaction has come: asked for, answered, or tied to the summary
/// that the client carries on with.
pub enum Phase {
    Preparing,
    Unconfirmed,
    Anchored(Seq<char>),
}

/// A compaction.
pub struct Compaction {
    pub attempt: u64,
    pub model: Seq<char>,
    pub native_history: Seq<request::Item>,
    pub phase: Phase,
    pub updated_at: u64,
}

/// The compactions by session, and the number of the next attempt.
pub struct Compactions {
    pub states: Seq<(Seq<char>, Compaction)>,
    pub next_attempt: u64,
}

/// How many bytes a compaction takes.
pub open spec fn compaction_bytes(session: Seq<char>, state: Compaction) -> nat {
    text::utf8_len(session) + text::utf8_len(state.model) + (match state.phase {
        Phase::Anchored(summary) => text::utf8_len(summary),
        _ => 0,
    }) + request::items_bytes(state.native_history)
}

// ---------------------------------------------------------------------------
// State
// ---------------------------------------------------------------------------

enum CompactionPhase {
    Preparing,
    Unconfirmed,
    Anchored { portable_summary: String },
}

/// An attempt at a compaction, by its number.
#[derive(Debug, Clone, Copy, PartialEq, Eq, Structural)]
pub struct CompactionAttempt(u64);

impl View for CompactionAttempt {
    type V = u64;

    closed spec fn view(&self) -> u64 {
        self.0
    }
}

/// A compaction.
pub struct CompactionState {
    attempt: CompactionAttempt,
    model: String,
    native_history: Vec<ResponsesInputItem>,
    phase: CompactionPhase,
    updated_at: u64,
}

impl View for CompactionPhase {
    type V = Phase;

    closed spec fn view(&self) -> Phase {
        match *self {
            CompactionPhase::Preparing => Phase::Preparing,
            CompactionPhase::Unconfirmed => Phase::Unconfirmed,
            CompactionPhase::Anchored { portable_summary } => Phase::Anchored(portable_summary@),
        }
    }
}

impl View for CompactionState {
    type V = Compaction;

    closed spec fn view(&self) -> Compaction {
        Compaction {
            attempt: self.attempt@,
            model: self.model@,
            native_history: model::views(self.native_history@),
            phase: self.phase@,
            updated_at: self.updated_at,
        }
    }
}

/// A request in which a compaction stands in place of the summary, and the
/// attempt that the compaction is from.
#[derive(Debug)]
pub struct CompactionReplay {
    pub request: ResponsesRequest,
    pub attempt: CompactionAttempt,
}

impl Stored<String> for CompactionState {
    open spec fn stamp(value: Compaction) -> u64 {
        value.updated_at
    }

    open spec fn weight(key: Seq<char>, value: Compaction) -> nat {
        compaction_bytes(key, value)
    }

    fn stamp_of(&self) -> (stamp: u64) {
        self.updated_at
    }

    fn weight_of(key: &String, value: &Self) -> (weight: usize) {
        state_size(key.as_str(), value)
    }
}

/// How many bytes a compaction takes, as far as that can be counted.
fn state_size(session_id: &str, state: &CompactionState) -> (bytes: usize)
    ensures
        bytes == table::capped(compaction_bytes(session_id@, state@)),
{
    let summary: usize = match &state.phase {
        CompactionPhase::Anchored { portable_summary } => text::byte_length(
            portable_summary.as_str(),
        ),
        _ => 0,
    };
    text::byte_length(session_id).saturating_add(
        text::byte_length(state.model.as_str()),
    ).saturating_add(summary).saturating_add(serialized_size(state.native_history.as_slice()))
}

/// Whether the summary that a compaction is tied to is long enough.
pub open spec fn well_anchored(state: Compaction) -> bool {
    state.phase matches Phase::Anchored(summary) ==> text::utf8_len(summary)
        >= history::MIN_PORTABLE_SUMMARY_BYTES
}

/// Whether a compaction may be there: the summary that it is tied to is long
/// enough, and once it has been answered it does not take too many bytes.
pub open spec fn admissible(session: Seq<char>, state: Compaction) -> bool {
    &&& well_anchored(state)
    &&& !(state.phase is Preparing) ==> compaction_bytes(session, state) <= MAX_STATE_BYTES
}

/// Whether every compaction may be there.
pub open spec fn all_admissible(states: Seq<(Seq<char>, Compaction)>) -> bool {
    forall|i: int| 0 <= i < states.len() ==> admissible((#[trigger] states[i]).0, states[i].1)
}

/// Whether the compactions keep to what is always so: no session stands twice,
/// there are not too many, they do not take too many bytes together, and each of
/// them may be there.
pub open spec fn valid(compactions: Compactions) -> bool {
    &&& table::distinct(compactions.states)
    &&& compactions.states.len() <= MAX_STATES
    &&& table::total::<String, CompactionState>(compactions.states) <= MAX_TOTAL_STATE_BYTES
    &&& all_admissible(compactions.states)
}

/// The compactions of all sessions.
pub struct CompactionRegistry {
    states: Table<String, CompactionState>,
    next_attempt: u64,
}

impl View for CompactionRegistry {
    type V = Compactions;

    closed spec fn view(&self) -> Compactions {
        Compactions { states: self.states@, next_attempt: self.next_attempt }
    }
}

impl CompactionRegistry {
    /// Whether the registry is as it should be.
    pub closed spec fn wf(&self) -> bool {
        valid(self@)
    }

    /// A registry without compactions. Attempts are numbered from one.
    pub fn new() -> (registry: Self)
        ensures
            registry.wf(),
            registry@.states == Seq::<(Seq<char>, Compaction)>::empty(),
            registry@.next_attempt == 1,
    {
        CompactionRegistry { states: Table::new(), next_attempt: 1 }
    }
}

// ---------------------------------------------------------------------------
// Eviction
// ---------------------------------------------------------------------------

/// The compactions that are fresh, after the oldest have gone to keep to the
/// limits.
pub open spec fn settled(states: Seq<(Seq<char>, Compaction)>, now: u64) -> Seq<
    (Seq<char>, Compaction),
> {
    table::evicted::<String, CompactionState>(
        table::fresh::<String, CompactionState>(states, now, STATE_TTL_MS),
        MAX_STATES as nat,
        MAX_TOTAL_STATE_BYTES as nat,
    )
}

proof fn lemma_part_is_admissible(
    part: Seq<(Seq<char>, Compaction)>,
    whole: Seq<(Seq<char>, Compaction)>,
)
    requires
        table::part_of(part, whole),
        all_admissible(whole),
    ensures
        all_admissible(part),
{
    assert forall|i: int| 0 <= i < part.len() implies admissible(
        (#[trigger] part[i]).0,
        part[i].1,
    ) by {
        assert(whole.contains(part[i]));
        let k = choose|k: int| 0 <= k < whole.len() && whole[k] == part[i];
        assert(admissible(whole[k].0, whole[k].1));
    }
}

proof fn lemma_settled(states: Seq<(Seq<char>, Compaction)>, now: u64)
    requires
        table::distinct(states),
    ensures
        table::part_of(settled(states, now), states),
        settled(states, now).len() <= MAX_STATES,
        table::total::<String, CompactionState>(settled(states, now)) <= MAX_TOTAL_STATE_BYTES,
{
    let left = table::fresh::<String, CompactionState>(states, now, STATE_TTL_MS);
    table::lemma_fresh::<String, CompactionState>(states, now, STATE_TTL_MS);
    table::eviction_keeps_the_limits::<String, CompactionState>(
        left,
        MAX_STATES as nat,
        MAX_TOTAL_STATE_BYTES as nat,
    );
    table::lemma_part_of_part(settled(states, now), left, states);
}

/// Drops the stale compactions, and the oldest until the limits are kept.
fn evict_states(registry: &mut CompactionRegistry, now: u64)
    requires
        table::distinct(old(registry)@.states),
        all_admissible(old(registry)@.states),
    ensures
        final(registry).wf(),
        final(registry)@.states == settled(old(registry)@.states, now),
        final(registry)@.next_attempt == old(registry)@.next_attempt,
{
    proof {
        lemma_settled(registry.states@, now);
        lemma_part_is_admissible(settled(registry.states@, now), registry.states@);
    }
    registry.states.keep_fresh(now, STATE_TTL_MS);
    registry.states.evict(MAX_STATES, MAX_TOTAL_STATE_BYTES);
}

/// Takes the compaction of a session out.
fn take_state(registry: &mut CompactionRegistry, session_id: &String) -> (taken: Option<
    CompactionState,
>)
    requires
        old(registry).wf(),
    ensures
        final(registry).wf(),
        final(registry)@.states == table::without(old(registry)@.states, session_id@),
        final(registry)@.next_attempt == old(registry)@.next_attempt,
        model::seen(taken) == table::lookup(old(registry)@.states, session_id@),
        taken matches Some(state) ==> admissible(session_id@, state@),
{
    proof {
        let states = registry.states@;
        table::lemma_total_without::<String, CompactionState>(states, session_id@);
        lemma_part_is_admissible(table::without(states, session_id@), states);
        table::lemma_without_len(states, session_id@);
        if table::lookup(states, session_id@) is Some {
            table::lemma_found(states, session_id@);
            let i = choose|i: int|
                0 <= i < states.len() && states[i] == (
                    session_id@,
                    table::lookup(states, session_id@)->0,
                );
            assert(admissible(states[i].0, states[i].1));
        }
    }
    registry.states.take(session_id)
}

/// Puts the compaction of a session in.
fn put_state(registry: &mut CompactionRegistry, session_id: String, state: CompactionState)
    requires
        old(registry).wf(),
        admissible(session_id@, state@),
    ensures
        table::distinct(final(registry)@.states),
        all_admissible(final(registry)@.states),
        final(registry)@.states == table::with(old(registry)@.states, session_id@, state@),
        final(registry)@.next_attempt == old(registry)@.next_attempt,
{
    proof {
        let states = registry.states@;
        table::lemma_total_without::<String, CompactionState>(states, session_id@);
        lemma_part_is_admissible(table::without(states, session_id@), states);
    }
    registry.states.put(session_id, state);
}

// ---------------------------------------------------------------------------
// Beginning and storing
// ---------------------------------------------------------------------------

/// A compaction that has not been answered.
pub open spec fn preparing(attempt: u64, model: Seq<char>, now: u64) -> Compaction {
    Compaction {
        attempt,
        model,
        native_history: Seq::empty(),
        phase: Phase::Preparing,
        updated_at: now,
    }
}

/// The compactions after an attempt has begun: it stands in place of what the
/// session had.
pub open spec fn begun(
    compactions: Compactions,
    session: Seq<char>,
    model: Seq<char>,
    now: u64,
) -> Compactions {
    Compactions {
        states: settled(
            table::with(
                settled(compactions.states, now),
                session,
                preparing(compactions.next_attempt, model, now),
            ),
            now,
        ),
        next_attempt: table::following(compactions.next_attempt),
    }
}

/// Begins an attempt at a compaction for a session.
pub fn begin_compaction(
    registry: &mut CompactionRegistry,
    session_id: &str,
    model: &str,
    now: u64,
) -> (attempt: CompactionAttempt)
    requires
        old(registry).wf(),
    ensures
        final(registry).wf(),
        attempt@ == old(registry)@.next_attempt,
        final(registry)@ == begun(old(registry)@, session_id@, model@, now),
{
    let attempt: CompactionAttempt = CompactionAttempt(registry.next_attempt);
    registry.next_attempt = registry.next_attempt.wrapping_add(1);
    let state: CompactionState = CompactionState {
        attempt,
        model: model.to_owned(),
        native_history: Vec::new(),
        phase: CompactionPhase::Preparing,
        updated_at: now,
    };
    assert(state@.native_history =~= Seq::<request::Item>::empty());
    evict_states(registry, now);
    put_state(registry, session_id.to_owned(), state);
    evict_states(registry, now);
    attempt
}

/// What becomes of a compaction that has been changed: it is put in, unless it
/// takes too many bytes, and the limits are kept.
pub open spec fn replaced(
    states: Seq<(Seq<char>, Compaction)>,
    session: Seq<char>,
    state: Compaction,
    now: u64,
) -> Seq<(Seq<char>, Compaction)> {
    if compaction_bytes(session, state) > MAX_STATE_BYTES {
        table::without(states, session)
    } else {
        settled(table::with(states, session, state), now)
    }
}

/// What a session's compaction becomes once its answer has been read, where the
/// answer is that of the attempt that is being prepared.
pub open spec fn answered(
    current: Option<Compaction>,
    attempt: u64,
    native_history: Seq<request::Item>,
    now: u64,
) -> Option<Compaction> {
    match current {
        Some(state) => if state.attempt == attempt && state.phase is Preparing {
            Some(Compaction { native_history, phase: Phase::Unconfirmed, updated_at: now, ..state })
        } else {
            None
        },
        None => None,
    }
}

/// The compactions after an answer has been stored.
pub open spec fn stored(
    compactions: Compactions,
    session: Seq<char>,
    attempt: u64,
    native_history: Seq<request::Item>,
    now: u64,
) -> Compactions {
    let states = settled(compactions.states, now);
    Compactions {
        states: match answered(table::lookup(states, session), attempt, native_history, now) {
            Some(state) => replaced(states, session, state, now),
            None => states,
        },
        ..compactions
    }
}

/// Whether an answer is stored: it is that of the attempt that is being prepared,
/// and it is still there once the limits have been kept.
pub open spec fn stores(
    compactions: Compactions,
    session: Seq<char>,
    attempt: u64,
    native_history: Seq<request::Item>,
    now: u64,
) -> bool {
    let states = settled(compactions.states, now);
    &&& answered(table::lookup(states, session), attempt, native_history, now) is Some
    &&& table::lookup(
        stored(compactions, session, attempt, native_history, now).states,
        session,
    ) is Some
}

/// Stores the answer to an attempt, and says whether it is kept.
pub fn store_compaction(
    registry: &mut CompactionRegistry,
    session_id: &str,
    attempt: CompactionAttempt,
    native_history: Vec<ResponsesInputItem>,
    now: u64,
) -> (kept: bool)
    requires
        old(registry).wf(),
    ensures
        final(registry).wf(),
        final(registry)@ == stored(
            old(registry)@,
            session_id@,
            attempt@,
            model::views(native_history@),
            now,
        ),
        kept == stores(
            old(registry)@,
            session_id@,
            attempt@,
            model::views(native_history@),
            now,
        ),
{
    let session: String = session_id.to_owned();
    evict_states(registry, now);
    let matching: bool = match registry.states.get(&session) {
        Some(state) => state.attempt == attempt && matches!(
            state.phase,
            CompactionPhase::Preparing
        ),
        None => false,
    };
    if !matching {
        return false;
    }
    let ghost states = registry@.states;
    proof {
        table::lemma_without_twice(states, session_id@);
        table::taking_out_touches_one_key(states, session_id@, session_id@);
    }
    if let Some(state) = take_state(registry, &session) {
        let state: CompactionState = CompactionState {
            attempt: state.attempt,
            model: state.model,
            native_history,
            phase: CompactionPhase::Unconfirmed,
            updated_at: now,
        };
        if state_size(session_id, &state) > MAX_STATE_BYTES {
            return false;
        }
        put_state(registry, session.clone(), state);
        evict_states(registry, now);
    }
    registry.states.get(&session).is_some()
}

// ---------------------------------------------------------------------------
// Activation
// ---------------------------------------------------------------------------

/// The compactions without that of a session.
pub open spec fn without_session(compactions: Compactions, session: Seq<char>) -> Compactions {
    Compactions { states: table::without(compactions.states, session), ..compactions }
}

/// The compactions after an attempt has been given up.
pub open spec fn aborted(
    compactions: Compactions,
    session: Option<Seq<char>>,
    attempt: Option<u64>,
) -> Compactions {
    match (session, attempt) {
        (Some(session), Some(attempt)) => match table::lookup(compactions.states, session) {
            Some(state) => if state.attempt == attempt {
                without_session(compactions, session)
            } else {
                compactions
            },
            None => compactions,
        },
        _ => compactions,
    }
}

/// The compactions after the client has been given its own summary: the answer
/// of the attempt is tied to that summary. An attempt for another model, one that
/// has not been answered, or one with a summary that is too short is given up.
pub open spec fn activated(
    compactions: Compactions,
    session: Option<Seq<char>>,
    attempt: Option<u64>,
    model: Seq<char>,
    output: Seq<request::Item>,
    now: u64,
) -> Compactions {
    match (session, attempt) {
        (Some(session), Some(attempt)) => match history::portable_summary(output) {
            None => aborted(compactions, Some(session), Some(attempt)),
            Some(summary) => {
                let states = settled(compactions.states, now);
                Compactions {
                    states: match table::lookup(states, session) {
                        Some(state) => if state.attempt != attempt {
                            states
                        } else if state.model != model || !(state.phase is Unconfirmed) {
                            table::without(states, session)
                        } else {
                            replaced(
                                states,
                                session,
                                Compaction {
                                    phase: Phase::Anchored(summary),
                                    updated_at: now,
                                    ..state
                                },
                                now,
                            )
                        },
                        None => states,
                    },
                    ..compactions
                }
            },
        },
        _ => compactions,
    }
}

/// Whether an answer is tied to the client's summary: it was not confirmed
/// before, model and attempt are the same, the summary is long enough, and it is
/// still there once the limits have been kept.
pub open spec fn activates(
    compactions: Compactions,
    session: Option<Seq<char>>,
    attempt: Option<u64>,
    model: Seq<char>,
    output: Seq<request::Item>,
    now: u64,
) -> bool {
    match (session, attempt) {
        (Some(session), Some(attempt)) => {
            let before = table::lookup(settled(compactions.states, now), session);
            &&& history::portable_summary(output) is Some
            &&& before is Some
            &&& before->0.attempt == attempt
            &&& before->0.model == model
            &&& before->0.phase is Unconfirmed
            &&& table::lookup(
                activated(
                    compactions,
                    Some(session),
                    Some(attempt),
                    model,
                    output,
                    now,
                ).states,
                session,
            ) is Some
        },
        _ => false,
    }
}

/// The number of an attempt that may be there.
pub open spec fn seen_attempt(attempt: Option<CompactionAttempt>) -> Option<u64> {
    match attempt {
        Some(a) => Some(a@),
        None => None,
    }
}

/// Ties the answer of an attempt to the summary that the client has been given,
/// and says whether it is kept.
pub fn activate_compaction(
    registry: &mut CompactionRegistry,
    session_id: Option<&str>,
    attempt: Option<CompactionAttempt>,
    model: &str,
    output: &[ResponsesInputItem],
    now: u64,
) -> (kept: bool)
    requires
        old(registry).wf(),
    ensures
        final(registry).wf(),
        final(registry)@ == activated(
            old(registry)@,
            model::seen(session_id),
            seen_attempt(attempt),
            model@,
            model::views(output@),
            now,
        ),
        kept == activates(
            old(registry)@,
            model::seen(session_id),
            seen_attempt(attempt),
            model@,
            model::views(output@),
            now,
        ),
{
    let (session_id, attempt) = match (session_id, attempt) {
        (Some(session_id), Some(attempt)) => (session_id, attempt),
        _ => {
            return false;
        },
    };
    let portable_summary: String = match portable_summary_text(output) {
        Some(summary) => summary,
        None => {
            abort_compaction_attempt(registry, Some(session_id), Some(attempt));
            return false;
        },
    };
    let session: String = session_id.to_owned();
    evict_states(registry, now);
    let (same_attempt, ready) = match registry.states.get(&session) {
        Some(state) => (
            state.attempt == attempt,
            text::same_text(state.model.as_str(), model) && matches!(
                state.phase,
                CompactionPhase::Unconfirmed
            ),
        ),
        None => (false, false),
    };
    if !same_attempt {
        return false;
    }
    let ghost states = registry@.states;
    proof {
        table::lemma_without_twice(states, session_id@);
        table::taking_out_touches_one_key(states, session_id@, session_id@);
    }
    if let Some(state) = take_state(registry, &session) {
        if !ready {
            return false;
        }
        let state: CompactionState = CompactionState {
            attempt: state.attempt,
            model: state.model,
            native_history: state.native_history,
            phase: CompactionPhase::Anchored { portable_summary },
            updated_at: now,
        };
        if state_size(session_id, &state) > MAX_STATE_BYTES {
            return false;
        }
        put_state(registry, session.clone(), state);
        evict_states(registry, now);
    }
    registry.states.get(&session).is_some()
}

/// Gives up an attempt.
pub fn abort_compaction_attempt(
    registry: &mut CompactionRegistry,
    session_id: Option<&str>,
    attempt: Option<CompactionAttempt>,
)
    requires
        old(registry).wf(),
    ensures
        final(registry).wf(),
        final(registry)@ == aborted(
            old(registry)@,
            model::seen(session_id),
            seen_attempt(attempt),
        ),
{
    if let (Some(session_id), Some(attempt)) = (session_id, attempt) {
        let session: String = session_id.to_owned();
        let matching: bool = match registry.states.get(&session) {
            Some(state) => state.attempt == attempt,
            None => false,
        };
        if matching {
            let _ = take_state(registry, &session);
        }
    }
}

/// Drops the compaction of a session.
pub fn clear_compaction(registry: &mut CompactionRegistry, session_id: &str)
    requires
        old(registry).wf(),
    ensures
        final(registry).wf(),
        final(registry)@ == without_session(old(registry)@, session_id@),
{
    let _ = take_state(registry, &session_id.to_owned());
}

/// Drops every compaction. The numbers of attempts go on.
pub fn clear_all_compactions_for_tests(registry: &mut CompactionRegistry)
    requires
        old(registry).wf(),
    ensures
        final(registry).wf(),
        final(registry)@.states == Seq::<(Seq<char>, Compaction)>::empty(),
        final(registry)@.next_attempt == old(registry)@.next_attempt,
{
    registry.states = Table::new();
}

// ---------------------------------------------------------------------------
// Replay
// ---------------------------------------------------------------------------

/// What is to be done with the compaction of a session when a request comes: it
/// is left alone, dropped, or put in place of the summary in the request.
pub enum Decision {
    Leave,
    Drop,
    Replay(request::Request),
}

/// The input in which the native history of a compaction stands in place of the
/// first item of the conversation.
pub open spec fn replayed_input(
    input: Seq<request::Item>,
    native_history: Seq<request::Item>,
) -> Seq<request::Item> {
    history::envelope(input) + native_history + history::conversation(input).skip(1)
}

/// What is to be done with a compaction when a request comes. The compaction is
/// put in where the request is for the same model, its conversation begins with a
/// message in which the summary stands exactly once, something follows that
/// message, and the new input is not too large. Where it never can be put in
/// again, it is dropped.
pub open spec fn decision(state: Compaction, asked: request::Request) -> Decision {
    let conversation = history::conversation(asked.input);
    match state.phase {
        Phase::Anchored(summary) => {
            if state.model != asked.model {
                Decision::Drop
            } else if conversation.len() == 0 {
                Decision::Leave
            } else {
                match history::said(conversation[0]) {
                    None => Decision::Drop,
                    Some(said) => {
                        let input = replayed_input(asked.input, state.native_history);
                        if text::occurrences_from(said, summary, 0) != 1 {
                            Decision::Drop
                        } else if conversation.len() == 1 {
                            Decision::Leave
                        } else if request::items_bytes(input) > MAX_STATE_BYTES {
                            Decision::Drop
                        } else {
                            Decision::Replay(request::Request { input, ..asked })
                        }
                    },
                }
            }
        },
        _ => Decision::Leave,
    }
}

/// The compactions after a request has come.
pub open spec fn after_request(
    compactions: Compactions,
    session: Option<Seq<char>>,
    asked: request::Request,
    now: u64,
) -> Compactions {
    match session {
        None => compactions,
        Some(session) => {
            let states = settled(compactions.states, now);
            Compactions {
                states: match table::lookup(states, session) {
                    None => states,
                    Some(state) => match decision(state, asked) {
                        Decision::Leave => states,
                        Decision::Drop => table::without(states, session),
                        Decision::Replay(_) => table::with(
                            states,
                            session,
                            Compaction { updated_at: now, ..state },
                        ),
                    },
                },
                ..compactions
            }
        },
    }
}

/// The request that is sent in place of the one that has come, and the attempt
/// that the compaction in it is from.
pub open spec fn replay_of(
    compactions: Compactions,
    session: Option<Seq<char>>,
    asked: request::Request,
    now: u64,
) -> Option<(request::Request, u64)> {
    match session {
        None => None,
        Some(session) => match table::lookup(settled(compactions.states, now), session) {
            None => None,
            Some(state) => match decision(state, asked) {
                Decision::Replay(replayed) => Some((replayed, state.attempt)),
                _ => None,
            },
        },
    }
}

/// A replay that may be there, by its request and its attempt.
pub open spec fn seen_replay(replay: Option<CompactionReplay>) -> Option<
    (request::Request, u64),
> {
    match replay {
        Some(r) => Some((r.request@, r.attempt@)),
        None => None,
    }
}

/// What is to be done with a compaction when a request comes.
enum Step {
    Leave,
    Drop,
    Replay(ResponsesRequest),
}

/// What is to be done with a compaction when a request comes.
fn decide(state: &CompactionState, body: &ResponsesRequest) -> (step: Step)
    requires
        well_anchored(state@),
    ensures
        match step {
            Step::Leave => decision(state@, body@) is Leave,
            Step::Drop => decision(state@, body@) is Drop,
            Step::Replay(replayed) => decision(state@, body@) == Decision::Replay(replayed@),
        },
{
    let portable_summary: &String = match &state.phase {
        CompactionPhase::Anchored { portable_summary } => portable_summary,
        _ => {
            return Step::Leave;
        },
    };
    if !text::same_text(state.model.as_str(), body.model.as_str()) {
        return Step::Drop;
    }
    let (envelope, conversation) = split_input_envelope(body.input.as_slice());
    assert(model::views(conversation@).len() == conversation@.len());
    if conversation.len() == 0 {
        return Step::Leave;
    }
    assert(model::views(conversation@)[0] == conversation@[0]@);
    let said: String = match message_text(&conversation[0]) {
        Some(said) => said,
        None => {
            return Step::Drop;
        },
    };
    proof {
        text::lemma_empty_text_has_no_bytes();
        assert(portable_summary@.len() > 0) by {
            if portable_summary@.len() == 0 {
                assert(portable_summary@ =~= Seq::<char>::empty());
            }
        }
    }
    let count: usize = text::occurrences(
        &text::characters(said.as_str()),
        &text::characters(portable_summary.as_str()),
    );
    if count != 1 {
        return Step::Drop;
    }
    if conversation.len() == 1 {
        return Step::Leave;
    }
    let mut input: Vec<ResponsesInputItem> = model::duplicates(envelope);
    model::append_duplicates(&mut input, state.native_history.as_slice());
    let tail: &[ResponsesInputItem] = vstd::slice::slice_subrange(
        conversation,
        1,
        conversation.len(),
    );
    model::append_duplicates(&mut input, tail);
    proof {
        assert(model::views(tail@) =~= model::views(conversation@).skip(1));
        assert(model::views(input@) =~= replayed_input(
            body@.input,
            model::views(state.native_history@),
        ));
    }
    if serialized_size(input.as_slice()) > MAX_STATE_BYTES {
        return Step::Drop;
    }
    let mut replayed: ResponsesRequest = body.without_input();
    replayed.input = input;
    Step::Replay(replayed)
}

/// The request with the compaction of its session in place of the summary.
pub fn apply_compaction_replay(
    registry: &mut CompactionRegistry,
    session_id: Option<&str>,
    request: &ResponsesRequest,
    now: u64,
) -> (replay: Option<CompactionReplay>)
    requires
        old(registry).wf(),
    ensures
        final(registry).wf(),
        final(registry)@ == after_request(
            old(registry)@,
            model::seen(session_id),
            request@,
            now,
        ),
        seen_replay(replay) == replay_of(
            old(registry)@,
            model::seen(session_id),
            request@,
            now,
        ),
{
    let session_id: &str = match session_id {
        Some(session_id) => session_id,
        None => {
            return None;
        },
    };
    let session: String = session_id.to_owned();
    evict_states(registry, now);
    let ghost states = registry@.states;
    proof {
        if table::lookup(states, session@) is Some {
            table::lemma_found(states, session@);
            let i = choose|i: int|
                0 <= i < states.len() && states[i] == (
                    session@,
                    table::lookup(states, session@)->0,
                );
            assert(admissible(states[i].0, states[i].1));
        }
        table::lemma_without_twice(states, session@);
    }
    let step: Step = match registry.states.get(&session) {
        Some(state) => decide(state, request),
        None => {
            return None;
        },
    };
    match step {
        Step::Leave => None,
        Step::Drop => {
            let _ = take_state(registry, &session);
            None
        },
        Step::Replay(replayed) => match take_state(registry, &session) {
            Some(state) => {
                let attempt: CompactionAttempt = state.attempt;
                let state: CompactionState = CompactionState {
                    attempt,
                    model: state.model,
                    native_history: state.native_history,
                    phase: state.phase,
                    updated_at: now,
                };
                proof {
                    table::lemma_total_without::<String, CompactionState>(states, session@);
                    table::lemma_total_push::<String, CompactionState>(
                        table::without(states, session@),
                        (session@, state@),
                    );
                    table::lemma_without_found_len(states, session@);
                }
                put_state(registry, session, state);
                Some(CompactionReplay { request: replayed, attempt })
            },
            None => None,
        },
    }
}

// ---------------------------------------------------------------------------
// What holds of the registry
// ---------------------------------------------------------------------------

/// The limits hold of every registry: so many compactions at most, so many bytes
/// at most, and no session twice.
pub proof fn registries_keep_the_limits(registry: CompactionRegistry)
    requires
        registry.wf(),
    ensures
        valid(registry@),
{
}

proof fn lemma_settled_lookup(
    states: Seq<(Seq<char>, Compaction)>,
    now: u64,
    session: Seq<char>,
)
    requires
        table::distinct(states),
    ensures
        table::lookup(settled(states, now), session) is None || table::lookup(
            settled(states, now),
            session,
        ) == table::lookup(states, session),
        table::distinct(settled(states, now)),
{
    lemma_settled(states, now);
    table::part_holds_no_more(settled(states, now), states, session);
}

/// Where the limits are kept, settling drops nothing but what is stale.
proof fn lemma_settled_within_limits(
    states: Seq<(Seq<char>, Compaction)>,
    now: u64,
    session: Seq<char>,
)
    requires
        table::distinct(states),
        states.len() <= MAX_STATES,
        table::total::<String, CompactionState>(states) <= MAX_TOTAL_STATE_BYTES,
        table::lookup(states, session) is Some,
        table::age(now, table::lookup(states, session)->0.updated_at) <= STATE_TTL_MS,
    ensures
        table::lookup(settled(states, now), session) == table::lookup(states, session),
{
    table::lemma_fresh_total::<String, CompactionState>(states, now, STATE_TTL_MS);
    table::only_fresh_entries_stay::<String, CompactionState>(
        states,
        now,
        STATE_TTL_MS,
        session,
    );
}

/// What is left after settling is fresh.
proof fn lemma_settled_is_fresh(
    states: Seq<(Seq<char>, Compaction)>,
    now: u64,
    session: Seq<char>,
)
    requires
        table::distinct(states),
    ensures
        table::lookup(settled(states, now), session) matches Some(state) ==> table::age(
            now,
            state.updated_at,
        ) <= STATE_TTL_MS,
{
    let fresh = table::fresh::<String, CompactionState>(states, now, STATE_TTL_MS);
    table::lemma_fresh::<String, CompactionState>(states, now, STATE_TTL_MS);
    table::eviction_keeps_the_limits::<String, CompactionState>(
        fresh,
        MAX_STATES as nat,
        MAX_TOTAL_STATE_BYTES as nat,
    );
    table::part_holds_no_more(settled(states, now), fresh, session);
    table::only_fresh_entries_stay::<String, CompactionState>(states, now, STATE_TTL_MS, session);
}

/// A compaction is put in only where it has been tied to a summary, for the same
/// model, in place of the one message in which that summary stands exactly once.
/// What stands before the conversation, what follows the summary and every other
/// member of the request stay as they are.
pub proof fn replays_are_anchored(
    compactions: Compactions,
    session: Seq<char>,
    asked: request::Request,
    now: u64,
)
    requires
        valid(compactions),
        replay_of(compactions, Some(session), asked, now) is Some,
    ensures
        table::lookup(compactions.states, session) is Some,
        ({
            let state = table::lookup(compactions.states, session)->0;
            let conversation = history::conversation(asked.input);
            let (replayed, attempt) = replay_of(compactions, Some(session), asked, now)->0;
            &&& state.phase is Anchored
            &&& state.model == asked.model
            &&& attempt == state.attempt
            &&& conversation.len() > 1
            &&& history::said(conversation[0]) is Some
            &&& text::occurrences_from(
                history::said(conversation[0])->0,
                state.phase->Anchored_0,
                0,
            ) == 1
            &&& replayed == request::Request {
                input: history::envelope(asked.input) + state.native_history
                    + conversation.skip(1),
                ..asked
            }
            &&& request::items_bytes(replayed.input) <= MAX_STATE_BYTES
        }),
{
    lemma_settled_lookup(compactions.states, now, session);
}

/// An answer that has been tied to a summary is put in place of that summary in
/// every request that comes in time, is for the same model, begins with a message
/// in which the summary stands exactly once and goes on after it, as long as the
/// new input is not too large.
pub proof fn activated_compactions_are_replayed(
    compactions: Compactions,
    session: Seq<char>,
    attempt: u64,
    model: Seq<char>,
    output: Seq<request::Item>,
    now: u64,
    asked: request::Request,
    later: u64,
)
    requires
        valid(compactions),
        activates(compactions, Some(session), Some(attempt), model, output, now),
        table::age(later, now) <= STATE_TTL_MS,
        asked.model == model,
        history::conversation(asked.input).len() > 1,
        history::said(history::conversation(asked.input)[0]) is Some,
        text::occurrences_from(
            history::said(history::conversation(asked.input)[0])->0,
            history::portable_summary(output)->0,
            0,
        ) == 1,
        request::items_bytes(
            replayed_input(
                asked.input,
                table::lookup(compactions.states, session)->0.native_history,
            ),
        ) <= MAX_STATE_BYTES,
    ensures
        replay_of(
            activated(compactions, Some(session), Some(attempt), model, output, now),
            Some(session),
            asked,
            later,
        ) == Some(
            (
                request::Request {
                    input: replayed_input(
                        asked.input,
                        table::lookup(compactions.states, session)->0.native_history,
                    ),
                    ..asked
                },
                attempt,
            ),
        ),
{
    let states = settled(compactions.states, now);
    lemma_settled_lookup(compactions.states, now, session);
    let before = table::lookup(states, session)->0;
    let state = Compaction {
        phase: Phase::Anchored(history::portable_summary(output)->0),
        updated_at: now,
        ..before
    };
    let after = activated(compactions, Some(session), Some(attempt), model, output, now).states;
    table::taking_out_touches_one_key(states, session, session);
    let changed = table::with(states, session, state);
    table::with_keeps_keys_distinct(states, session, state);
    table::putting_in_touches_one_key(states, session, state, session);
    lemma_settled(changed, now);
    lemma_settled_lookup(changed, now, session);
    assert(table::lookup(after, session) == Some(state));
    lemma_settled_within_limits(after, later, session);
}

/// An answer that is stored is found again as it was stored, and waits for a
/// summary.
pub proof fn stored_answers_are_found(
    compactions: Compactions,
    session: Seq<char>,
    attempt: u64,
    native_history: Seq<request::Item>,
    now: u64,
)
    requires
        valid(compactions),
        stores(compactions, session, attempt, native_history, now),
    ensures
        table::lookup(compactions.states, session) is Some,
        table::lookup(
            stored(compactions, session, attempt, native_history, now).states,
            session,
        ) == Some(
            Compaction {
                attempt,
                model: table::lookup(compactions.states, session)->0.model,
                native_history,
                phase: Phase::Unconfirmed,
                updated_at: now,
            },
        ),
{
    let states = settled(compactions.states, now);
    lemma_settled_lookup(compactions.states, now, session);
    let state = answered(table::lookup(states, session), attempt, native_history, now)->0;
    table::taking_out_touches_one_key(states, session, session);
    table::with_keeps_keys_distinct(states, session, state);
    table::putting_in_touches_one_key(states, session, state, session);
    lemma_settled_lookup(table::with(states, session, state), now, session);
}

/// What is put in is kept where there is room for it.
proof fn lemma_kept_where_there_is_room(
    states: Seq<(Seq<char>, Compaction)>,
    session: Seq<char>,
    state: Compaction,
    now: u64,
)
    requires
        table::distinct(states),
        table::without(states, session).len() < MAX_STATES,
        table::total::<String, CompactionState>(table::without(states, session))
            + compaction_bytes(session, state) <= MAX_TOTAL_STATE_BYTES,
        state.updated_at == now,
    ensures
        table::lookup(settled(table::with(states, session, state), now), session) == Some(state),
{
    table::with_keeps_keys_distinct(states, session, state);
    table::putting_in_touches_one_key(states, session, state, session);
    table::lemma_total_push::<String, CompactionState>(
        table::without(states, session),
        (session, state),
    );
    lemma_settled_within_limits(table::with(states, session, state), now, session);
}

/// The answer to the attempt that a session is preparing is stored where it takes
/// neither too many bytes itself nor together with what is fresh of other sessions.
pub proof fn answers_are_stored_where_there_is_room(
    compactions: Compactions,
    session: Seq<char>,
    attempt: u64,
    native_history: Seq<request::Item>,
    now: u64,
)
    requires
        valid(compactions),
        ({
            let states = settled(compactions.states, now);
            let state = answered(table::lookup(states, session), attempt, native_history, now);
            &&& state is Some
            &&& compaction_bytes(session, state->0) <= MAX_STATE_BYTES
            &&& table::total::<String, CompactionState>(table::without(states, session))
                + compaction_bytes(session, state->0) <= MAX_TOTAL_STATE_BYTES
        }),
    ensures
        stores(compactions, session, attempt, native_history, now),
{
    let states = settled(compactions.states, now);
    let state = answered(table::lookup(states, session), attempt, native_history, now)->0;
    lemma_settled(compactions.states, now);
    lemma_settled_lookup(compactions.states, now, session);
    table::lemma_without_found_len(states, session);
    lemma_kept_where_there_is_room(states, session, state, now);
}

/// An answer that waits for a summary is tied to the one that the client is given,
/// where that is long enough, the model is the same, and there is room for both.
pub proof fn answers_are_activated_where_there_is_room(
    compactions: Compactions,
    session: Seq<char>,
    attempt: u64,
    model: Seq<char>,
    output: Seq<request::Item>,
    now: u64,
)
    requires
        valid(compactions),
        history::portable_summary(output) is Some,
        ({
            let states = settled(compactions.states, now);
            let before = table::lookup(states, session);
            let bytes = compaction_bytes(
                session,
                Compaction {
                    phase: Phase::Anchored(history::portable_summary(output)->0),
                    ..before->0
                },
            );
            &&& before is Some
            &&& before->0.attempt == attempt
            &&& before->0.model == model
            &&& before->0.phase is Unconfirmed
            &&& bytes <= MAX_STATE_BYTES
            &&& table::total::<String, CompactionState>(table::without(states, session)) + bytes
                <= MAX_TOTAL_STATE_BYTES
        }),
    ensures
        activates(compactions, Some(session), Some(attempt), model, output, now),
{
    let states = settled(compactions.states, now);
    let state = Compaction {
        phase: Phase::Anchored(history::portable_summary(output)->0),
        updated_at: now,
        ..table::lookup(states, session)->0
    };
    lemma_settled(compactions.states, now);
    lemma_settled_lookup(compactions.states, now, session);
    table::lemma_without_found_len(states, session);
    lemma_kept_where_there_is_room(states, session, state, now);
}

/// An attempt that is not the session's newest stores nothing, ties nothing to a
/// summary and drops nothing.
pub proof fn stale_attempts_have_no_effect(
    compactions: Compactions,
    session: Seq<char>,
    attempt: u64,
    model: Seq<char>,
    native_history: Seq<request::Item>,
    output: Seq<request::Item>,
    now: u64,
)
    requires
        valid(compactions),
        table::lookup(compactions.states, session) matches Some(state) ==> state.attempt
            != attempt,
    ensures
        !stores(compactions, session, attempt, native_history, now),
        stored(compactions, session, attempt, native_history, now).states == settled(
            compactions.states,
            now,
        ),
        !activates(compactions, Some(session), Some(attempt), model, output, now),
        activated(compactions, Some(session), Some(attempt), model, output, now) == compactions
            || activated(compactions, Some(session), Some(attempt), model, output, now).states
            == settled(compactions.states, now),
        aborted(compactions, Some(session), Some(attempt)) == compactions,
{
    lemma_settled_lookup(compactions.states, now, session);
}

/// A compaction that has been begun stands in place of what the session had.
pub proof fn beginning_supersedes(
    compactions: Compactions,
    session: Seq<char>,
    model: Seq<char>,
    now: u64,
)
    requires
        valid(compactions),
    ensures
        table::lookup(begun(compactions, session, model, now).states, session) is None
            || table::lookup(begun(compactions, session, model, now).states, session) == Some(
            preparing(compactions.next_attempt, model, now),
        ),
{
    let states = settled(compactions.states, now);
    let state = preparing(compactions.next_attempt, model, now);
    lemma_settled_lookup(compactions.states, now, session);
    table::with_keeps_keys_distinct(states, session, state);
    table::putting_in_touches_one_key(states, session, state, session);
    lemma_settled_lookup(table::with(states, session, state), now, session);
}

/// While there is room for it, an attempt that has begun is being prepared, and what
/// is fresh of every other session stays as it was.
pub proof fn begun_attempts_are_prepared(
    compactions: Compactions,
    session: Seq<char>,
    model: Seq<char>,
    now: u64,
    other: Seq<char>,
)
    requires
        valid(compactions),
        ({
            let others = table::without(settled(compactions.states, now), session);
            &&& others.len() < MAX_STATES
            &&& table::total::<String, CompactionState>(others) + compaction_bytes(
                session,
                preparing(compactions.next_attempt, model, now),
            ) <= MAX_TOTAL_STATE_BYTES
        }),
    ensures
        table::lookup(begun(compactions, session, model, now).states, session) == Some(
            preparing(compactions.next_attempt, model, now),
        ),
        other != session ==> table::lookup(begun(compactions, session, model, now).states, other)
            == table::lookup(settled(compactions.states, now), other),
{
    let states = settled(compactions.states, now);
    let state = preparing(compactions.next_attempt, model, now);
    let changed = table::with(states, session, state);
    lemma_settled_lookup(compactions.states, now, other);
    table::with_keeps_keys_distinct(states, session, state);
    table::putting_in_touches_one_key(states, session, state, other);
    table::lemma_total_push::<String, CompactionState>(
        table::without(states, session),
        (session, state),
    );
    lemma_settled_within_limits(changed, now, session);
    if other != session {
        lemma_settled_is_fresh(compactions.states, now, other);
        table::lemma_fresh_total::<String, CompactionState>(changed, now, STATE_TTL_MS);
        table::only_fresh_entries_stay::<String, CompactionState>(
            changed,
            now,
            STATE_TTL_MS,
            other,
        );
    }
}

/// Once an attempt has begun, an earlier attempt of the session stores nothing, ties
/// nothing to a summary and drops nothing, and nothing is put in for the session before
/// the new attempt has been tied to a summary.
pub proof fn earlier_attempts_are_superseded(
    compactions: Compactions,
    session: Seq<char>,
    model: Seq<char>,
    now: u64,
    earlier: u64,
    native_history: Seq<request::Item>,
    asked_model: Seq<char>,
    output: Seq<request::Item>,
    asked: request::Request,
    later: u64,
)
    requires
        valid(compactions),
        earlier != compactions.next_attempt,
    ensures
        ({
            let after = begun(compactions, session, model, now);
            &&& !stores(after, session, earlier, native_history, later)
            &&& !activates(after, Some(session), Some(earlier), asked_model, output, later)
            &&& aborted(after, Some(session), Some(earlier)) == after
            &&& replay_of(after, Some(session), asked, later) is None
        }),
{
    let after = begun(compactions, session, model, now);
    beginning_supersedes(compactions, session, model, now);
    let states = settled(compactions.states, now);
    let state = preparing(compactions.next_attempt, model, now);
    lemma_settled_lookup(compactions.states, now, session);
    table::with_keeps_keys_distinct(states, session, state);
    lemma_settled_lookup(table::with(states, session, state), now, session);
    lemma_settled_lookup(after.states, later, session);
}

/// Settling drops what is stale. Of what is fresh it lets go only where a limit is
/// exceeded, the oldest first and no more than it has to, and it leaves the others as
/// they were.
pub proof fn the_oldest_compactions_are_let_go(states: Seq<(Seq<char>, Compaction)>, now: u64)
    requires
        table::distinct(states),
    ensures
        ({
            let fresh = table::fresh::<String, CompactionState>(states, now, STATE_TTL_MS);
            let left = settled(states, now);
            &&& left.len() <= MAX_STATES
            &&& table::total::<String, CompactionState>(left) <= MAX_TOTAL_STATE_BYTES
            &&& table::part_of(left, states)
            &&& forall|i: int|
                0 <= i < left.len() ==> table::age(now, (#[trigger] left[i]).1.updated_at)
                    <= STATE_TTL_MS
            &&& fresh.len() <= MAX_STATES && table::total::<String, CompactionState>(fresh)
                <= MAX_TOTAL_STATE_BYTES ==> left == fresh
            &&& forall|i: int, j: int|
                0 <= i < fresh.len() && !left.contains(#[trigger] fresh[i]) && 0 <= j < left.len()
                    ==> fresh[i].1.updated_at <= (#[trigger] left[j]).1.updated_at
            &&& left == fresh || exists|i: int|
                0 <= i < fresh.len() && !left.contains(#[trigger] fresh[i]) && (left.len() + 1
                    > MAX_STATES || table::total::<String, CompactionState>(left)
                    + compaction_bytes(fresh[i].0, fresh[i].1) > MAX_TOTAL_STATE_BYTES)
        }),
{
    let fresh = table::fresh::<String, CompactionState>(states, now, STATE_TTL_MS);
    let left = settled(states, now);
    lemma_settled(states, now);
    table::lemma_fresh::<String, CompactionState>(states, now, STATE_TTL_MS);
    table::eviction_keeps_the_limits::<String, CompactionState>(
        fresh,
        MAX_STATES as nat,
        MAX_TOTAL_STATE_BYTES as nat,
    );
    table::eviction_goes_no_further_than_needed::<String, CompactionState>(
        fresh,
        MAX_STATES as nat,
        MAX_TOTAL_STATE_BYTES as nat,
    );
    assert forall|i: int| 0 <= i < left.len() implies table::age(
        now,
        (#[trigger] left[i]).1.updated_at,
    ) <= STATE_TTL_MS by {
        table::lemma_fresh_entry::<String, CompactionState>(states, now, STATE_TTL_MS, left[i]);
    }
}

/// What can happen to the compactions.
pub enum Event {
    Begun { session: Seq<char>, model: Seq<char>, now: u64 },
    Stored { session: Seq<char>, attempt: u64, native_history: Seq<request::Item>, now: u64 },
    Activated {
        session: Option<Seq<char>>,
        attempt: Option<u64>,
        model: Seq<char>,
        output: Seq<request::Item>,
        now: u64,
    },
    Aborted { session: Option<Seq<char>>, attempt: Option<u64> },
    Asked { session: Option<Seq<char>>, asked: request::Request, now: u64 },
    Cleared { session: Seq<char> },
    AllCleared,
}

/// The compactions after something has happened.
pub open spec fn after_event(compactions: Compactions, event: Event) -> Compactions {
    match event {
        Event::Begun { session, model, now } => begun(compactions, session, model, now),
        Event::Stored { session, attempt, native_history, now } => stored(
            compactions,
            session,
            attempt,
            native_history,
            now,
        ),
        Event::Activated { session, attempt, model, output, now } => activated(
            compactions,
            session,
            attempt,
            model,
            output,
            now,
        ),
        Event::Aborted { session, attempt } => aborted(compactions, session, attempt),
        Event::Asked { session, asked, now } => after_request(compactions, session, asked, now),
        Event::Cleared { session } => without_session(compactions, session),
        Event::AllCleared => Compactions {
            states: Seq::empty(),
            next_attempt: compactions.next_attempt,
        },
    }
}

/// The compactions after one thing has happened after the other.
pub open spec fn after_events(compactions: Compactions, events: Seq<Event>) -> Compactions
    decreases events.len(),
{
    if events.len() == 0 {
        compactions
    } else {
        after_event(after_events(compactions, events.drop_last()), events.last())
    }
}

/// How many attempts begin.
pub open spec fn beginnings(events: Seq<Event>) -> nat
    decreases events.len(),
{
    if events.len() == 0 {
        0
    } else {
        beginnings(events.drop_last()) + if events.last() is Begun {
            1nat
        } else {
            0
        }
    }
}

proof fn lemma_attempts_count_up(compactions: Compactions, events: Seq<Event>)
    requires
        compactions.next_attempt + beginnings(events) <= u64::MAX,
    ensures
        after_events(compactions, events).next_attempt == compactions.next_attempt + beginnings(
            events,
        ),
    decreases events.len(),
{
    if events.len() > 0 {
        lemma_attempts_count_up(compactions, events.drop_last());
    }
}

/// Until the numbers start again, a number that an attempt was given is given to no
/// later attempt of any session, whatever happens in between.
pub proof fn attempt_numbers_are_given_once(
    compactions: Compactions,
    session: Seq<char>,
    model: Seq<char>,
    now: u64,
    events: Seq<Event>,
)
    requires
        compactions.next_attempt + 1 + beginnings(events) <= u64::MAX,
    ensures
        compactions.next_attempt < after_events(
            begun(compactions, session, model, now),
            events,
        ).next_attempt,
{
    lemma_attempts_count_up(begun(compactions, session, model, now), events);
}

/// Whether no session stands twice and the compaction of a session, if there is one, is
/// from no attempt before a given one.
spec fn no_earlier(states: Seq<(Seq<char>, Compaction)>, session: Seq<char>, bound: u64) -> bool {
    &&& table::distinct(states)
    &&& table::lookup(states, session) matches Some(state) ==> state.attempt >= bound
}

proof fn lemma_no_earlier_settled(
    states: Seq<(Seq<char>, Compaction)>,
    session: Seq<char>,
    bound: u64,
    now: u64,
)
    requires
        no_earlier(states, session, bound),
    ensures
        no_earlier(settled(states, now), session, bound),
{
    lemma_settled_lookup(states, now, session);
}

proof fn lemma_no_earlier_without(
    states: Seq<(Seq<char>, Compaction)>,
    session: Seq<char>,
    bound: u64,
    key: Seq<char>,
)
    requires
        no_earlier(states, session, bound),
    ensures
        no_earlier(table::without(states, key), session, bound),
{
    table::taking_out_touches_one_key(states, key, session);
    table::lemma_total_without::<String, CompactionState>(states, key);
}

proof fn lemma_no_earlier_with(
    states: Seq<(Seq<char>, Compaction)>,
    session: Seq<char>,
    bound: u64,
    key: Seq<char>,
    state: Compaction,
)
    requires
        no_earlier(states, session, bound),
        key == session ==> state.attempt >= bound,
    ensures
        no_earlier(table::with(states, key, state), session, bound),
{
    table::putting_in_touches_one_key(states, key, state, session);
    table::with_keeps_keys_distinct(states, key, state);
}

proof fn lemma_no_earlier_replaced(
    states: Seq<(Seq<char>, Compaction)>,
    session: Seq<char>,
    bound: u64,
    key: Seq<char>,
    state: Compaction,
    now: u64,
)
    requires
        no_earlier(states, session, bound),
        key == session ==> state.attempt >= bound,
    ensures
        no_earlier(replaced(states, key, state, now), session, bound),
{
    lemma_no_earlier_without(states, session, bound, key);
    lemma_no_earlier_with(states, session, bound, key, state);
    lemma_no_earlier_settled(table::with(states, key, state), session, bound, now);
}

/// What happens to a session brings no attempt back.
proof fn lemma_no_earlier_after(
    compactions: Compactions,
    event: Event,
    session: Seq<char>,
    bound: u64,
)
    requires
        no_earlier(compactions.states, session, bound),
        compactions.next_attempt >= bound,
    ensures
        no_earlier(after_event(compactions, event).states, session, bound),
{
    let states = compactions.states;
    match event {
        Event::Begun { session: key, model, now } => {
            let fresh = settled(states, now);
            let state = preparing(compactions.next_attempt, model, now);
            lemma_no_earlier_settled(states, session, bound, now);
            lemma_no_earlier_with(fresh, session, bound, key, state);
            lemma_no_earlier_settled(table::with(fresh, key, state), session, bound, now);
        },
        Event::Stored { session: key, attempt, native_history, now } => {
            let fresh = settled(states, now);
            lemma_no_earlier_settled(states, session, bound, now);
            if let Some(state) = answered(
                table::lookup(fresh, key),
                attempt,
                native_history,
                now,
            ) {
                lemma_no_earlier_replaced(fresh, session, bound, key, state, now);
            }
        },
        Event::Activated { session: key, attempt, model, output, now } => {
            if let (Some(key), Some(attempt)) = (key, attempt) {
                let fresh = settled(states, now);
                lemma_no_earlier_settled(states, session, bound, now);
                lemma_no_earlier_without(states, session, bound, key);
                lemma_no_earlier_without(fresh, session, bound, key);
                if let (Some(summary), Some(state)) = (
                    history::portable_summary(output),
                    table::lookup(fresh, key),
                ) {
                    let anchored = Compaction {
                        phase: Phase::Anchored(summary),
                        updated_at: now,
                        ..state
                    };
                    lemma_no_earlier_replaced(fresh, session, bound, key, anchored, now);
                }
            }
        },
        Event::Aborted { session: key, attempt } => {
            if let Some(key) = key {
                lemma_no_earlier_without(states, session, bound, key);
            }
        },
        Event::Asked { session: key, asked, now } => {
            if let Some(key) = key {
                let fresh = settled(states, now);
                lemma_no_earlier_settled(states, session, bound, now);
                lemma_no_earlier_without(fresh, session, bound, key);
                if let Some(state) = table::lookup(fresh, key) {
                    lemma_no_earlier_with(
                        fresh,
                        session,
                        bound,
                        key,
                        Compaction { updated_at: now, ..state },
                    );
                }
            }
        },
        Event::Cleared { session: key } => {
            lemma_no_earlier_without(states, session, bound, key);
        },
        Event::AllCleared => {},
    }
}

proof fn lemma_no_earlier_after_all(
    compactions: Compactions,
    events: Seq<Event>,
    session: Seq<char>,
    bound: u64,
)
    requires
        no_earlier(compactions.states, session, bound),
        compactions.next_attempt >= bound,
        compactions.next_attempt + beginnings(events) <= u64::MAX,
    ensures
        no_earlier(after_events(compactions, events).states, session, bound),
    decreases events.len(),
{
    if events.len() > 0 {
        let shorter = events.drop_last();
        lemma_no_earlier_after_all(compactions, shorter, session, bound);
        lemma_attempts_count_up(compactions, shorter);
        lemma_no_earlier_after(
            after_events(compactions, shorter),
            events.last(),
            session,
            bound,
        );
    }
}

/// Once an attempt has begun for a session, an earlier attempt of the session stores
/// nothing, ties nothing to a summary, drops nothing and is not put in any more,
/// whatever happens from then on, until the numbers start again.
pub proof fn earlier_attempts_stay_superseded(
    compactions: Compactions,
    session: Seq<char>,
    model: Seq<char>,
    now: u64,
    earlier: u64,
    events: Seq<Event>,
    native_history: Seq<request::Item>,
    asked_model: Seq<char>,
    output: Seq<request::Item>,
    asked: request::Request,
    later: u64,
)
    requires
        valid(compactions),
        earlier < compactions.next_attempt,
        compactions.next_attempt + 1 + beginnings(events) <= u64::MAX,
    ensures
        ({
            let after = after_events(begun(compactions, session, model, now), events);
            &&& !stores(after, session, earlier, native_history, later)
            &&& !activates(after, Some(session), Some(earlier), asked_model, output, later)
            &&& aborted(after, Some(session), Some(earlier)) == after
            &&& replay_of(after, Some(session), asked, later) matches Some((_, attempt))
                ==> attempt != earlier
        }),
{
    let bound = compactions.next_attempt;
    let first = begun(compactions, session, model, now);
    let after = after_events(first, events);
    let states = settled(compactions.states, now);
    let state = preparing(bound, model, now);
    lemma_settled_lookup(compactions.states, now, session);
    table::with_keeps_keys_distinct(states, session, state);
    table::putting_in_touches_one_key(states, session, state, session);
    lemma_settled_lookup(table::with(states, session, state), now, session);
    lemma_no_earlier_after_all(first, events, session, bound);
    lemma_settled_lookup(after.states, later, session);
}

/// Once a compaction has been dropped, nothing is put in for its session.
pub proof fn dropped_compactions_are_not_replayed(
    compactions: Compactions,
    session: Seq<char>,
    asked: request::Request,
    now: u64,
)
    requires
        table::distinct(compactions.states),
        table::lookup(compactions.states, session) is None,
    ensures
        replay_of(compactions, Some(session), asked, now) is None,
{
    lemma_settled_lookup(compactions.states, now, session);
}

/// Giving up the attempt of a replay drops the compaction that was put in.
pub proof fn failed_replays_drop_their_compaction(
    compactions: Compactions,
    session: Seq<char>,
    asked: request::Request,
    now: u64,
    next: request::Request,
    later: u64,
)
    requires
        valid(compactions),
        replay_of(compactions, Some(session), asked, now) is Some,
    ensures
        ({
            let replayed = after_request(compactions, Some(session), asked, now);
            let (_, attempt) = replay_of(compactions, Some(session), asked, now)->0;
            replay_of(
                aborted(replayed, Some(session), Some(attempt)),
                Some(session),
                next,
                later,
            ) is None
        }),
{
    let states = settled(compactions.states, now);
    lemma_settled_lookup(compactions.states, now, session);
    let state = Compaction { updated_at: now, ..table::lookup(states, session)->0 };
    table::with_keeps_keys_distinct(states, session, state);
    table::putting_in_touches_one_key(states, session, state, session);
    let replayed = table::with(states, session, state);
    table::taking_out_touches_one_key(replayed, session, session);
    table::lemma_total_without::<String, CompactionState>(replayed, session);
    lemma_settled_lookup(table::without(replayed, session), later, session);
}

/// What happens in one session leaves the compaction of every other session as it
/// was, except that it may go because it is stale or to keep to the limits.
pub proof fn sessions_do_not_interfere(
    compactions: Compactions,
    session: Seq<char>,
    other: Seq<char>,
    attempt: u64,
    model: Seq<char>,
    native_history: Seq<request::Item>,
    output: Seq<request::Item>,
    asked: request::Request,
    now: u64,
)
    requires
        valid(compactions),
        other != session,
    ensures
        same_or_gone(compactions, begun(compactions, session, model, now), other),
        same_or_gone(
            compactions,
            stored(compactions, session, attempt, native_history, now),
            other,
        ),
        same_or_gone(
            compactions,
            activated(compactions, Some(session), Some(attempt), model, output, now),
            other,
        ),
        same_or_gone(compactions, after_request(compactions, Some(session), asked, now), other),
        same_or_gone(compactions, aborted(compactions, Some(session), Some(attempt)), other),
        same_or_gone(compactions, without_session(compactions, session), other),
{
    let states = settled(compactions.states, now);
    lemma_settled_lookup(compactions.states, now, other);
    table::taking_out_touches_one_key(compactions.states, session, other);
    table::taking_out_touches_one_key(states, session, other);
    assert forall|state: Compaction| #[trigger]
        table::lookup(settled(table::with(states, session, state), now), other) is None
            || table::lookup(settled(table::with(states, session, state), now), other)
            == table::lookup(states, other) by {
        table::with_keeps_keys_distinct(states, session, state);
        table::putting_in_touches_one_key(states, session, state, other);
        lemma_settled_lookup(table::with(states, session, state), now, other);
    }
    assert forall|state: Compaction| #[trigger]
        table::lookup(table::with(states, session, state), other) == table::lookup(
            states,
            other,
        ) by {
        table::putting_in_touches_one_key(states, session, state, other);
    }
}

/// Whether the compaction of a session is as it was before, or gone.
pub open spec fn same_or_gone(before: Compactions, after: Compactions, session: Seq<char>) -> bool {
    table::lookup(after.states, session) is None || table::lookup(after.states, session)
        == table::lookup(before.states, session)
}

} // verus!
