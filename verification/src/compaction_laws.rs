//! What is asked for when a conversation is compacted, what is read of the answer, and
//! where the answer stands in later requests.

use crate::compaction;
use crate::context_laws;
use crate::history;
use crate::history_laws;
use crate::json;
use crate::outside;
use crate::request;
use crate::table;
use crate::text;
use crate::text_laws;
use vstd::prelude::*;
use vstd::string::*;
use vstd::utf8::*;

verus! {

// ---------------------------------------------------------------------------
// The request
// ---------------------------------------------------------------------------

proof fn lemma_tool_items(items: Seq<request::Item>)
    ensures
        compaction::tool_items(items) == items.filter(
            |item: request::Item| item is AdditionalTools,
        ),
    decreases items.len(),
{
    reveal(Seq::filter);
    if items.len() > 0 {
        lemma_tool_items(items.drop_last());
    }
}

/// The request for a compaction carries the tools, the conversation without the
/// instruction to compact it, and a trigger behind them. It is for the same model, asks
/// for the encrypted reasoning, has neither instructions nor context management, and
/// every other member stays as it is.
pub proof fn tools_and_conversation_are_sent(
    asked: request::Request,
    before: Seq<request::Item>,
    conversation: Seq<request::Item>,
    marks: Seq<bool>,
)
    requires
        asked.input == before + conversation,
        context_laws::leading(before),
        conversation.len() > 0 ==> context_laws::beginning(conversation[0]),
    ensures
        ({
            let sent = compaction::request_for_compaction(asked, marks);
            &&& sent.input == before.filter(|item: request::Item| item is AdditionalTools)
                + history::without_instruction(conversation, marks) + seq![
                request::Item::CompactionTrigger,
            ]
            &&& sent.model == asked.model
            &&& sent.instructions is None
            &&& sent.include_fields == Some(seq!["reasoning.encrypted_content"@])
            &&& sent.context_management is None
            &&& sent.client_metadata == asked.client_metadata
            &&& sent.other == asked.other
        }),
        compaction::compacted_conversation(asked, marks) == history::without_instruction(
            conversation,
            marks,
        ),
{
    context_laws::inputs_are_parted(before, conversation);
    lemma_tool_items(before);
    assert(compaction::request_for_compaction(asked, marks).input =~= before.filter(
        |item: request::Item| item is AdditionalTools,
    ) + history::without_instruction(conversation, marks) + seq![
        request::Item::CompactionTrigger,
    ]);
}

// ---------------------------------------------------------------------------
// The answer
// ---------------------------------------------------------------------------

/// The type that an event says it is of.
pub open spec fn event_type(payload: Option<json::Json>) -> Option<Seq<char>> {
    match payload {
        Some(value) => match json::member(value, "type"@) {
            Some(json::Json::Text(t)) => Some(t),
            _ => None,
        },
        None => None,
    }
}

/// Whether an event says that the compaction failed.
pub open spec fn fails(payload: Option<json::Json>) -> bool {
    event_type(payload) == Some("error"@) || event_type(payload) == Some("response.error"@)
        || event_type(payload) == Some("response.failed"@)
}

/// Whether an event says that the response is complete.
pub open spec fn completes(payload: Option<json::Json>) -> bool {
    event_type(payload) == Some("response.completed"@)
}

/// The encrypted content of the compaction item that an event reports as done.
pub open spec fn gives(payload: Option<json::Json>) -> Option<Seq<char>> {
    if event_type(payload) == Some("response.output_item.done"@) {
        match json::member(payload->0, "item"@) {
            Some(item) => match (
                json::member(item, "type"@),
                json::member(item, "encrypted_content"@),
            ) {
                (Some(json::Json::Text(t)), Some(json::Json::Text(content))) => if t
                    == "compaction"@ {
                    Some(content)
                } else {
                    None
                },
                _ => None,
            },
            None => None,
        }
    } else {
        None
    }
}

/// The contents of the compaction items that events report as done, in order.
pub open spec fn given(payloads: Seq<Option<json::Json>>) -> Seq<Seq<char>>
    decreases payloads.len(),
{
    if payloads.len() == 0 {
        Seq::empty()
    } else {
        match gives(payloads.last()) {
            Some(content) => given(payloads.drop_last()).push(content),
            None => given(payloads.drop_last()),
        }
    }
}

/// Whether one of the events says that the response is complete.
pub open spec fn complete(payloads: Seq<Option<json::Json>>) -> bool {
    exists|i: int| 0 <= i < payloads.len() && completes(#[trigger] payloads[i])
}

proof fn lemma_types_differ()
    ensures
        "response.output_item.done"@ != "response.completed"@,
{
    reveal_strlit("response.output_item.done");
    reveal_strlit("response.completed");
    assert("response.output_item.done"@.len() == 25);
    assert("response.completed"@.len() == 18);
}

proof fn lemma_read(payloads: Seq<Option<json::Json>>)
    requires
        forall|i: int| 0 <= i < payloads.len() ==> !fails(#[trigger] payloads[i]),
    ensures
        compaction::read_events(payloads) == (compaction::Reading::Read {
            completed: complete(payloads),
            items: given(payloads),
        }),
    decreases payloads.len(),
{
    if payloads.len() > 0 {
        let shorter = payloads.drop_last();
        let last = payloads[payloads.len() - 1];
        lemma_types_differ();
        assert forall|i: int| 0 <= i < shorter.len() implies !fails(#[trigger] shorter[i]) by {
            assert(!fails(payloads[i]));
        }
        lemma_read(shorter);
        assert(!fails(last));
        if complete(shorter) {
            let i = choose|i: int| 0 <= i < shorter.len() && completes(#[trigger] shorter[i]);
            assert(completes(payloads[i]));
        }
        if completes(last) {
            assert(completes(payloads[payloads.len() - 1]));
        }
        if complete(payloads) && !completes(last) {
            let i = choose|i: int| 0 <= i < payloads.len() && completes(#[trigger] payloads[i]);
            assert(completes(shorter[i]));
        }
    }
}

/// An answer in which nothing failed, that is complete and that gives exactly one
/// compaction item, gives that item. Where it is not complete, or gives none or several,
/// it is refused and says why.
pub proof fn answers_give_one_compaction(payloads: Seq<Option<json::Json>>)
    requires
        forall|i: int| 0 <= i < payloads.len() ==> !fails(#[trigger] payloads[i]),
    ensures
        compaction::compaction_in(payloads) == if !complete(payloads) {
            Err("remote compaction stream ended before response.completed"@)
        } else if given(payloads).len() == 1 {
            Ok(given(payloads)[0])
        } else {
            Err(
                "remote compaction expected exactly one compaction item, got "@ + text::decimal(
                    given(payloads).len(),
                ),
            )
        },
{
    lemma_read(payloads);
}

/// An answer in which something failed is refused with the reason that the first failure
/// gives, whatever comes behind it.
pub proof fn failures_are_reported(
    before: Seq<Option<json::Json>>,
    failure: json::Json,
    after: Seq<Option<json::Json>>,
)
    requires
        forall|i: int| 0 <= i < before.len() ==> !fails(#[trigger] before[i]),
        fails(Some(failure)),
    ensures
        compaction::compaction_in(before.push(Some(failure)) + after) == Err::<Seq<char>, Seq<char>>(
            compaction::failure_message(failure),
        ),
    decreases after.len(),
{
    let first = before.push(Some(failure));
    if after.len() == 0 {
        lemma_read(before);
        assert(first + after =~= first);
        assert(first.drop_last() =~= before);
    } else {
        failures_are_reported(before, failure, after.drop_last());
        assert((first + after).drop_last() =~= first + after.drop_last());
        lemma_failed(before, failure, after.drop_last());
    }
}

proof fn lemma_failed(
    before: Seq<Option<json::Json>>,
    failure: json::Json,
    after: Seq<Option<json::Json>>,
)
    requires
        forall|i: int| 0 <= i < before.len() ==> !fails(#[trigger] before[i]),
        fails(Some(failure)),
    ensures
        compaction::read_events(before.push(Some(failure)) + after) is Failed,
    decreases after.len(),
{
    let first = before.push(Some(failure));
    if after.len() == 0 {
        lemma_read(before);
        assert(first + after =~= first);
        assert(first.drop_last() =~= before);
    } else {
        lemma_failed(before, failure, after.drop_last());
        assert((first + after).drop_last() =~= first + after.drop_last());
    }
}

/// What stands in an object under one name, and in that under another.
pub open spec fn within(
    value: json::Json,
    outer: Seq<char>,
    inner: Seq<char>,
) -> Option<json::Json> {
    match json::member(value, outer) {
        Some(found) => json::member(found, inner),
        None => None,
    }
}

/// A failure gives as its reason the message of the error of the response, where that is
/// there, or that of the error, where that is there, or else the message of the event.
/// Where none of them is there, or the one that is found first is no text, it is told that
/// the compaction failed.
pub proof fn failures_give_their_message(failure: json::Json)
    ensures
        ({
            let nested = match within(failure, "response"@, "error"@) {
                Some(error) => json::member(error, "message"@),
                None => None,
            };
            let plain = within(failure, "error"@, "message"@);
            let own = json::member(failure, "message"@);
            let told = compaction::failure_message(failure);
            &&& nested matches Some(json::Json::Text(message)) ==> told == message
            &&& nested is Some && !(nested->0 is Text) ==> told == "remote compaction failed"@
            &&& nested is None ==> {
                &&& plain matches Some(json::Json::Text(message)) ==> told == message
                &&& plain is Some && !(plain->0 is Text) ==> told == "remote compaction failed"@
                &&& plain is None ==> {
                    &&& own matches Some(json::Json::Text(message)) ==> told == message
                    &&& !(own matches Some(json::Json::Text(_))) ==> told
                        == "remote compaction failed"@
                }
            }
        }),
{
}

/// An event that is not JSON, or only marks the end, says nothing.
pub proof fn events_are_read_as_json(said: Seq<char>)
    ensures
        compaction::payload_of("[DONE]"@) is None,
        said != "[DONE]"@ ==> compaction::payload_of(said) == outside::parsed_json(said),
{
}

// ---------------------------------------------------------------------------
// Replay
// ---------------------------------------------------------------------------

/// An answer that has been tied to a summary is put in place of the first message of a
/// later conversation, where the summary stands in one part of that message and nowhere
/// else in it. What stands before the conversation and what follows the message stay. The
/// request has to be for the same model, to come within half an hour, and to take no more
/// than four mebibytes with the answer.
#[verifier::spinoff_prover]
pub proof fn summaries_are_replaced(
    compactions: compaction::Compactions,
    session: Seq<char>,
    attempt: u64,
    output: Seq<request::Item>,
    now: u64,
    asked: request::Request,
    before: Seq<request::Item>,
    role: Seq<char>,
    parts: Seq<request::Part>,
    part: request::Part,
    others: Seq<request::Part>,
    head: Seq<char>,
    tail: Seq<char>,
    more: Seq<request::Item>,
    later: u64,
)
    requires
        compaction::valid(compactions),
        compaction::activates(
            compactions,
            Some(session),
            Some(attempt),
            asked.model,
            output,
            now,
        ),
        later <= now + 1_800_000,
        context_laws::leading(before),
        role != "developer"@,
        more.len() > 0,
        asked.input == before + (seq![
            request::Item::Message { role, content: parts.push(part) + others },
        ] + more),
        ({
            let summary = history::portable_summary(output)->0;
            let told = history::joined_text(parts.push(part) + others);
            let at = history::joined_text(parts).len() + head.len();
            &&& part == request::Part::InputText(head + summary + tail) || part
                == request::Part::OutputText(head + summary + tail)
            &&& forall|i: int|
                0 <= i && i != at && #[trigger] (i + summary.len()) <= told.len() ==> told.subrange(
                    i,
                    i + summary.len(),
                ) != summary
        }),
        request::items_bytes(
            before + table::lookup(compactions.states, session)->0.native_history + more,
        ) <= 4_194_304,
    ensures
        compaction::replay_of(
            compaction::activated(
                compactions,
                Some(session),
                Some(attempt),
                asked.model,
                output,
                now,
            ),
            Some(session),
            asked,
            later,
        ) == Some(
            (
                request::Request {
                    input: before + table::lookup(compactions.states, session)->0.native_history
                        + more,
                    ..asked
                },
                attempt,
            ),
        ),
{
    let summary = history::portable_summary(output)->0;
    let content = parts.push(part) + others;
    let message = request::Item::Message { role, content };
    let conversation = seq![message] + more;
    let told = history::joined_text(content);
    let start = history::joined_text(parts);
    let at = (start.len() + head.len()) as int;
    context_laws::inputs_are_parted(before, conversation);
    assert(conversation.skip(1) =~= more);
    history_laws::what_a_part_says_is_found(parts, part, others, head, summary, tail);
    assert(told.subrange(at, at + summary.len()) =~= summary);
    assert(summary.len() > 0) by {
        text::lemma_empty_text_has_no_bytes();
        if summary.len() == 0 {
            assert(summary =~= Seq::<char>::empty());
        }
    }
    text_laws::single_texts_are_counted_once(told, summary, 0, at);
    history_laws::only_messages_have_a_text(message, role, content);
    assert(conversation[0] == message);
    compaction::activated_compactions_are_replayed(
        compactions,
        session,
        attempt,
        asked.model,
        output,
        now,
        asked,
        later,
    );
}

/// A compaction that is tied to a summary is dropped, and not put in, where a request is
/// for another model, or its conversation begins with something that is no message, with
/// a message in which the summary does not stand, or with one in which it stands twice.
pub proof fn lost_summaries_drop_the_compaction(
    compactions: compaction::Compactions,
    session: Seq<char>,
    asked: request::Request,
    now: u64,
    summary: Seq<char>,
    i: int,
    j: int,
)
    requires
        compaction::valid(compactions),
        ({
            let state = table::lookup(compaction::settled(compactions.states, now), session);
            let conversation = history::conversation(asked.input);
            let told = history::joined_text(conversation[0]->Message_content);
            let n = summary.len();
            &&& state is Some
            &&& state->0.phase == compaction::Phase::Anchored(summary)
            &&& n > 0
            &&& {
                ||| state->0.model != asked.model
                ||| conversation.len() > 0 && !(conversation[0] is Message)
                ||| conversation.len() > 0 && forall|k: int|
                    0 <= k && #[trigger] (k + n) <= told.len() ==> told.subrange(k, k + n)
                        != summary
                ||| conversation.len() > 0 && 0 <= i && i + n <= j && j + n <= told.len()
                    && told.subrange(i, i + n) == summary && told.subrange(j, j + n) == summary
            }
        }),
    ensures
        compaction::replay_of(compactions, Some(session), asked, now) is None,
        table::lookup(
            compaction::after_request(compactions, Some(session), asked, now).states,
            session,
        ) is None,
{
    let states = compaction::settled(compactions.states, now);
    let conversation = history::conversation(asked.input);
    table::taking_out_touches_one_key(states, session, session);
    if conversation.len() > 0 && conversation[0] is Message {
        let told = history::joined_text(conversation[0]->Message_content);
        let n = summary.len();
        if forall|k: int|
            0 <= k && #[trigger] (k + n) <= told.len() ==> told.subrange(k, k + n) != summary {
            text_laws::absent_texts_are_not_counted(told, summary, 0);
        }
        if 0 <= i && i + n <= j && j + n <= told.len() && told.subrange(i, i + n) == summary
            && told.subrange(j, j + n) == summary {
            text_laws::repeated_texts_are_counted_each(told, summary, 0, i, j);
        }
    }
}

/// A compaction that is put in counts as used, and stays as it is otherwise.
pub proof fn used_compactions_stay_fresh(
    compactions: compaction::Compactions,
    session: Seq<char>,
    asked: request::Request,
    now: u64,
)
    requires
        compaction::valid(compactions),
        compaction::replay_of(compactions, Some(session), asked, now) is Some,
    ensures
        table::lookup(compactions.states, session) is Some,
        (compaction::replay_of(compactions, Some(session), asked, now)->0).1 == table::lookup(
            compactions.states,
            session,
        )->0.attempt,
        table::lookup(
            compaction::after_request(compactions, Some(session), asked, now).states,
            session,
        ) == Some(
            compaction::Compaction {
                updated_at: now,
                ..table::lookup(compactions.states, session)->0
            },
        ),
{
    fresh_compactions_stay(compactions, session, now);
    let states = compaction::settled(compactions.states, now);
    let state = table::lookup(states, session)->0;
    table::putting_in_touches_one_key(
        states,
        session,
        compaction::Compaction { updated_at: now, ..state },
        session,
    );
}

/// A compaction stays as it is where the conversation of a request is empty, or where it
/// has not been tied to a summary. It is dropped where the request would take more than
/// four mebibytes with the answer in it.
pub proof fn compactions_wait_for_a_conversation(
    compactions: compaction::Compactions,
    session: Seq<char>,
    asked: request::Request,
    before: Seq<request::Item>,
    message: request::Item,
    more: Seq<request::Item>,
    now: u64,
)
    requires
        compaction::valid(compactions),
        table::lookup(compactions.states, session) is Some,
        now <= table::lookup(compactions.states, session)->0.updated_at + 1_800_000,
        context_laws::leading(before),
        context_laws::beginning(message),
    ensures
        ({
            let state = table::lookup(compactions.states, session)->0;
            let bare = request::Request { input: before, ..asked };
            let full = request::Request { input: before + (seq![message] + more), ..asked };
            &&& !(state.phase is Anchored) || state.model == asked.model ==> table::lookup(
                compaction::after_request(compactions, Some(session), bare, now).states,
                session,
            ) == Some(state)
            &&& !(state.phase is Anchored) ==> table::lookup(
                compaction::after_request(compactions, Some(session), full, now).states,
                session,
            ) == Some(state)
            &&& state.phase is Anchored && more.len() > 0 && request::items_bytes(
                before + state.native_history + more,
            ) > 4_194_304 ==> table::lookup(
                compaction::after_request(compactions, Some(session), full, now).states,
                session,
            ) is None
            &&& compaction::replay_of(compactions, Some(session), bare, now) is None
        }),
{
    let none = Seq::<request::Item>::empty();
    fresh_compactions_stay(compactions, session, now);
    context_laws::inputs_are_parted(before, none);
    assert(before + none =~= before);
    assert((seq![message] + more)[0] == message);
    context_laws::inputs_are_parted(before, seq![message] + more);
    assert((seq![message] + more).skip(1) =~= more);
    table::taking_out_touches_one_key(
        compaction::settled(compactions.states, now),
        session,
        session,
    );
}

/// A compaction that has not been tied to a summary, has not been used for half an hour,
/// or belongs to another session, is not put in.
pub proof fn unanchored_compactions_are_not_put_in(
    compactions: compaction::Compactions,
    session: Seq<char>,
    asked: request::Request,
    now: u64,
)
    requires
        compaction::valid(compactions),
        table::lookup(compactions.states, session) matches Some(state) ==> !(state.phase
            is Anchored) || now > state.updated_at + 1_800_000,
    ensures
        compaction::replay_of(compactions, Some(session), asked, now) is None,
        compaction::replay_of(compactions, None, asked, now) is None,
{
    if compaction::replay_of(compactions, Some(session), asked, now) is Some {
        compaction::replays_are_anchored(compactions, session, asked, now);
        compaction::the_oldest_compactions_are_let_go(compactions.states, now);
        let left = compaction::settled(compactions.states, now);
        table::lemma_found(left, session);
        table::part_holds_no_more(left, compactions.states, session);
        let state = table::lookup(left, session)->0;
        let k = choose|k: int| 0 <= k < left.len() && left[k] == (session, state);
        assert(table::age(now, left[k].1.updated_at) <= 1_800_000);
    }
}

/// No more than a thousand compactions of twenty million bytes together are kept, and
/// none that was answered takes more than four mebibytes.
pub proof fn registries_stay_small(registry: compaction::CompactionRegistry, i: int)
    requires
        registry.wf(),
        0 <= i < registry@.states.len(),
    ensures
        registry@.states.len() <= 1_000,
        ({
            let (session, state) = registry@.states[i];
            !(state.phase is Preparing) ==> encode_utf8(session).len() + encode_utf8(
                state.model,
            ).len() + request::items_bytes(state.native_history) + match state.phase {
                compaction::Phase::Anchored(summary) => encode_utf8(summary).len(),
                _ => 0,
            } <= 4_194_304
        }),
{
    compaction::registries_keep_the_limits(registry);
    assert(compaction::admissible(registry@.states[i].0, registry@.states[i].1));
}

// ---------------------------------------------------------------------------
// Attempts
// ---------------------------------------------------------------------------

/// Only what stands in the table is found once it has been settled.
proof fn lemma_settled_holds_no_more(
    compactions: compaction::Compactions,
    session: Seq<char>,
    now: u64,
)
    requires
        compaction::valid(compactions),
    ensures
        ({
            let left = table::lookup(compaction::settled(compactions.states, now), session);
            left is None || left == table::lookup(compactions.states, session)
        }),
{
    compaction::the_oldest_compactions_are_let_go(compactions.states, now);
    table::part_holds_no_more(
        compaction::settled(compactions.states, now),
        compactions.states,
        session,
    );
}

/// An attempt is numbered with the next number, and stands in place of what the session
/// had, without an answer and for its model. The number after that is the next.
pub proof fn attempts_begin_without_an_answer(
    compactions: compaction::Compactions,
    session: Seq<char>,
    model: Seq<char>,
    now: u64,
)
    requires
        compaction::valid(compactions),
    ensures
        ({
            let after = compaction::begun(compactions, session, model, now);
            &&& compactions.next_attempt < u64::MAX ==> after.next_attempt
                == compactions.next_attempt + 1
            &&& table::lookup(after.states, session) matches Some(state) ==> {
                &&& state.attempt == compactions.next_attempt
                &&& state.model == model
                &&& state.native_history.len() == 0
                &&& state.phase is Preparing
                &&& state.updated_at == now
            }
        }),
{
    compaction::beginning_supersedes(compactions, session, model, now);
}

/// An attempt that is given up leaves nothing of its session, where it is the one that the
/// session has; otherwise nothing changes. No other session is touched.
pub proof fn attempts_given_up_leave_nothing(
    compactions: compaction::Compactions,
    session: Seq<char>,
    attempt: u64,
    other: Seq<char>,
)
    requires
        compaction::valid(compactions),
    ensures
        ({
            let after = compaction::aborted(compactions, Some(session), Some(attempt));
            &&& match table::lookup(compactions.states, session) {
                Some(state) => if state.attempt == attempt {
                    table::lookup(after.states, session) is None
                } else {
                    after == compactions
                },
                None => after == compactions,
            }
            &&& other != session ==> table::lookup(after.states, other) == table::lookup(
                compactions.states,
                other,
            )
            &&& after.next_attempt == compactions.next_attempt
        }),
        compaction::aborted(compactions, None, Some(attempt)) == compactions,
        compaction::aborted(compactions, Some(session), None) == compactions,
{
    table::taking_out_touches_one_key(compactions.states, session, session);
    table::taking_out_touches_one_key(compactions.states, session, other);
}

/// An answer is stored only for the attempt that its session is preparing.
pub proof fn answers_belong_to_their_attempt(
    compactions: compaction::Compactions,
    session: Seq<char>,
    attempt: u64,
    native_history: Seq<request::Item>,
    now: u64,
)
    requires
        compaction::valid(compactions),
        match table::lookup(compactions.states, session) {
            Some(state) => state.attempt != attempt || !(state.phase is Preparing) || now
                > state.updated_at + 1_800_000,
            None => true,
        },
    ensures
        !compaction::stores(compactions, session, attempt, native_history, now),
{
    lemma_settled_holds_no_more(compactions, session, now);
    let left = compaction::settled(compactions.states, now);
    if table::lookup(left, session) is Some {
        compaction::the_oldest_compactions_are_let_go(compactions.states, now);
        table::lemma_found(left, session);
        let state = table::lookup(left, session)->0;
        let k = choose|k: int| 0 <= k < left.len() && left[k] == (session, state);
        assert(table::age(now, left[k].1.updated_at) <= 1_800_000);
    }
}

/// An answer is not tied to a summary where the client asks for another model, where the
/// answer has not come or has been tied before, or where the output has no summary: the
/// compaction of the session is then dropped.
pub proof fn unfit_answers_are_dropped(
    compactions: compaction::Compactions,
    session: Seq<char>,
    attempt: u64,
    model: Seq<char>,
    output: Seq<request::Item>,
    now: u64,
)
    requires
        compaction::valid(compactions),
        table::lookup(compactions.states, session) matches Some(state) && state.attempt == attempt
            && (state.model != model || !(state.phase is Unconfirmed)
            || history::portable_summary(output) is None),
    ensures
        table::lookup(
            compaction::activated(
                compactions,
                Some(session),
                Some(attempt),
                model,
                output,
                now,
            ).states,
            session,
        ) is None,
        !compaction::activates(compactions, Some(session), Some(attempt), model, output, now),
{
    lemma_settled_holds_no_more(compactions, session, now);
    let states = compaction::settled(compactions.states, now);
    table::taking_out_touches_one_key(states, session, session);
    table::taking_out_touches_one_key(compactions.states, session, session);
}

/// An answer of another attempt than the one that its session has is never tied to a
/// summary.
pub proof fn answers_of_other_attempts_are_not_tied(
    compactions: compaction::Compactions,
    session: Seq<char>,
    attempt: u64,
    model: Seq<char>,
    output: Seq<request::Item>,
    now: u64,
)
    requires
        compaction::valid(compactions),
        table::lookup(compactions.states, session) matches Some(state) ==> state.attempt
            != attempt,
    ensures
        !compaction::activates(compactions, Some(session), Some(attempt), model, output, now),
        !compaction::activates(compactions, None, Some(attempt), model, output, now),
        !compaction::activates(compactions, Some(session), None, model, output, now),
{
    lemma_settled_holds_no_more(compactions, session, now);
}

// ---------------------------------------------------------------------------
// Sizes
// ---------------------------------------------------------------------------

/// How many bytes a compaction takes: the name of its session, its model, the summary
/// that it is tied to, and the answer as JSON.
pub open spec fn taken(session: Seq<char>, state: compaction::Compaction) -> nat {
    encode_utf8(session).len() + encode_utf8(state.model).len() + request::items_bytes(
        state.native_history,
    ) + match state.phase {
        compaction::Phase::Anchored(summary) => encode_utf8(summary).len(),
        _ => 0,
    }
}

/// How many bytes all compactions take.
pub open spec fn taken_by_all(states: Seq<(Seq<char>, compaction::Compaction)>) -> nat
    decreases states.len(),
{
    if states.len() == 0 {
        0
    } else {
        taken_by_all(states.drop_last()) + taken(states.last().0, states.last().1)
    }
}

proof fn lemma_taken_by_all(states: Seq<(Seq<char>, compaction::Compaction)>)
    ensures
        table::total::<String, compaction::CompactionState>(states) == taken_by_all(states),
    decreases states.len(),
{
    if states.len() > 0 {
        lemma_taken_by_all(states.drop_last());
    }
}

/// The compactions of a registry do not take more than twenty million bytes together.
pub proof fn registries_do_not_grow(registry: compaction::CompactionRegistry)
    requires
        registry.wf(),
    ensures
        taken_by_all(registry@.states) <= 20_000_000,
{
    compaction::registries_keep_the_limits(registry);
    lemma_taken_by_all(registry@.states);
}

/// The answer to the attempt that a session prepares is stored where it takes no more
/// than four mebibytes, and no more than twenty million bytes together with those of other
/// sessions.
pub proof fn small_answers_are_stored(
    compactions: compaction::Compactions,
    session: Seq<char>,
    attempt: u64,
    native_history: Seq<request::Item>,
    now: u64,
)
    requires
        compaction::valid(compactions),
        ({
            let states = compaction::settled(compactions.states, now);
            let state = table::lookup(states, session)->0;
            let answered = compaction::Compaction {
                native_history,
                phase: compaction::Phase::Unconfirmed,
                ..state
            };
            &&& table::lookup(states, session) is Some
            &&& state.attempt == attempt
            &&& state.phase is Preparing
            &&& taken(session, answered) <= 4_194_304
            &&& taken_by_all(table::without(states, session)) + taken(session, answered)
                <= 20_000_000
        }),
    ensures
        compaction::stores(compactions, session, attempt, native_history, now),
{
    lemma_taken_by_all(
        table::without(compaction::settled(compactions.states, now), session),
    );
    compaction::answers_are_stored_where_there_is_room(
        compactions,
        session,
        attempt,
        native_history,
        now,
    );
}

/// An answer that waits for a summary is tied to the one that the output gives, where
/// the model is the same and both take no more than four mebibytes, and no more than twenty
/// million bytes together with those of other sessions.
pub proof fn small_answers_are_tied_to_their_summary(
    compactions: compaction::Compactions,
    session: Seq<char>,
    attempt: u64,
    model: Seq<char>,
    output: Seq<request::Item>,
    now: u64,
)
    requires
        compaction::valid(compactions),
        history::portable_summary(output) is Some,
        ({
            let states = compaction::settled(compactions.states, now);
            let state = table::lookup(states, session)->0;
            let tied = compaction::Compaction {
                phase: compaction::Phase::Anchored(history::portable_summary(output)->0),
                ..state
            };
            &&& table::lookup(states, session) is Some
            &&& state.attempt == attempt
            &&& state.model == model
            &&& state.phase is Unconfirmed
            &&& taken(session, tied) <= 4_194_304
            &&& taken_by_all(table::without(states, session)) + taken(session, tied)
                <= 20_000_000
        }),
    ensures
        compaction::activates(compactions, Some(session), Some(attempt), model, output, now),
{
    lemma_taken_by_all(
        table::without(compaction::settled(compactions.states, now), session),
    );
    compaction::answers_are_activated_where_there_is_room(
        compactions,
        session,
        attempt,
        model,
        output,
        now,
    );
}

/// What is fresh stays where there are no more than a thousand compactions of twenty
/// million bytes together.
pub proof fn fresh_compactions_stay(
    compactions: compaction::Compactions,
    session: Seq<char>,
    now: u64,
)
    requires
        compaction::valid(compactions),
    ensures
        table::lookup(compaction::settled(compactions.states, now), session) == match table::lookup(
            compactions.states,
            session,
        ) {
            Some(state) => if now <= state.updated_at + 1_800_000 {
                Some(state)
            } else {
                None
            },
            None => None,
        },
{
    let states = compactions.states;
    let fresh = table::fresh::<String, compaction::CompactionState>(states, now, 1_800_000);
    table::only_fresh_entries_stay::<String, compaction::CompactionState>(
        states,
        now,
        1_800_000,
        session,
    );
    table::lemma_fresh::<String, compaction::CompactionState>(states, now, 1_800_000);
    table::lemma_fresh_total::<String, compaction::CompactionState>(states, now, 1_800_000);
}

} // verus!
