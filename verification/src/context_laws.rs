//! What a compaction item is put in place of, said of the requests and what was
//! answered.

use crate::canonical;
use crate::context_management;
use crate::continuation_laws;
use crate::history;
use crate::item_laws;
use crate::json;
use crate::outside;
use crate::prompt_laws;
use crate::request;
use crate::table;
use vstd::prelude::*;
use vstd::string::*;
use vstd::utf8::*;

verus! {

/// Whether all items belong to what stands before a conversation: tools, and messages of
/// the developer.
pub open spec fn leading(items: Seq<request::Item>) -> bool {
    forall|i: int|
        0 <= i < items.len() ==> (#[trigger] items[i] is AdditionalTools || (items[i] is Message
            && items[i]->Message_role == "developer"@))
}

/// Whether a conversation can begin with an item.
pub open spec fn beginning(item: request::Item) -> bool {
    !(item is AdditionalTools) && !(item is Message && item->Message_role == "developer"@)
}

/// Whether no compaction item stands among the items.
pub open spec fn uncompacted(items: Seq<request::Item>) -> bool {
    forall|i: int| 0 <= i < items.len() ==> !(#[trigger] items[i] is Compaction)
}

/// An input is parted where its conversation begins.
pub proof fn inputs_are_parted(before: Seq<request::Item>, conversation: Seq<request::Item>)
    requires
        leading(before),
        conversation.len() > 0 ==> beginning(conversation[0]),
    ensures
        history::envelope(before + conversation) == before,
        history::conversation(before + conversation) == conversation,
{
    history::joining_is_undone_by_splitting(before, conversation);
}

proof fn lemma_nothing_to_take_out(items: Seq<request::Item>)
    requires
        uncompacted(items),
    ensures
        context_management::without_compactions(items) == items,
    decreases items.len(),
{
    if items.len() > 0 {
        assert(!(items[items.len() - 1] is Compaction));
        lemma_nothing_to_take_out(items.drop_last());
        assert(items.drop_last().push(items.last()) =~= items);
    }
}

/// The output before a compaction item is all that was emitted before it, and nothing
/// that was emitted after it. A compaction item that came earlier is no part of it.
pub proof fn output_is_covered_up_to_the_item(
    emitted: Seq<request::Item>,
    after: Seq<request::Item>,
    earlier: Seq<char>,
)
    requires
        uncompacted(emitted),
        emitted.len() <= usize::MAX,
    ensures
        context_management::output_before(emitted + after, Some(emitted.len() as usize)) == Some(
            emitted,
        ),
        context_management::without_compactions(
            emitted.push(request::Item::Compaction { encrypted_content: earlier }),
        ) == emitted,
        context_management::output_before(emitted, None) is None,
{
    lemma_nothing_to_take_out(emitted);
    assert((emitted + after).take(emitted.len() as int) =~= emitted);
    let item = request::Item::Compaction { encrypted_content: earlier };
    assert(emitted.push(item).drop_last() =~= emitted);
}

/// The digests of a conversation are those of its parts.
proof fn lemma_digests_add_up(a: Seq<request::Item>, b: Seq<request::Item>)
    ensures
        context_management::digests(a + b) == context_management::digests(a)
            + context_management::digests(b),
{
    let all = context_management::digests(a + b);
    let joined = context_management::digests(a) + context_management::digests(b);
    assert(all.len() == joined.len());
    assert forall|i: int| 0 <= i < all.len() implies all[i] == joined[i] by {
        if i < a.len() {
            assert((a + b)[i] == a[i]);
        } else {
            assert((a + b)[i] == b[i - a.len()]);
        }
    }
    assert(all =~= joined);
}

proof fn lemma_uncompacted(items: Seq<request::Item>)
    requires
        uncompacted(items),
    ensures
        !history::has_compaction(items),
{
}

/// A compaction item that a turn gave is put in place of exactly what was sent and what
/// was answered before the item: the next request of the owner that repeats that and goes
/// on is sent with the item and what the request adds, behind what stands before the
/// conversation. It has to come within half an hour.
#[verifier::spinoff_prover]
pub proof fn compacted_conversations_are_replayed(
    contexts: context_management::Contexts,
    owner: request::Identity,
    turn: Option<u64>,
    asked: request::Request,
    before: Seq<request::Item>,
    conversation: Seq<request::Item>,
    emitted: Seq<request::Item>,
    rest: Seq<request::Item>,
    encrypted_content: Seq<char>,
    now: u64,
    more: Seq<request::Item>,
    later: u64,
)
    requires
        context_management::valid(contexts),
        asked.input == before + conversation,
        leading(before),
        conversation.len() > 0,
        beginning(conversation[0]),
        uncompacted(conversation),
        uncompacted(emitted),
        uncompacted(more),
        emitted.len() <= usize::MAX,
        more.len() > 0,
        later <= now + 1_800_000,
        context_management::captured(
            contexts,
            Some(owner),
            turn,
            asked,
            context_management::output_before(emitted + rest, Some(emitted.len() as usize)),
            Some(encrypted_content),
            now,
        ).1 is Captured,
    ensures
        ({
            let (after, outcome) = context_management::captured(
                contexts,
                Some(owner),
                turn,
                asked,
                context_management::output_before(emitted + rest, Some(emitted.len() as usize)),
                Some(encrypted_content),
                now,
            );
            let next = request::Request {
                input: before + (conversation + emitted + more),
                ..asked
            };
            &&& outcome == context_management::CaptureOutcome::Captured {
                covered_items: (conversation.len() + emitted.len()) as usize,
                blob_bytes: encode_utf8(encrypted_content).len() as usize,
                chained: false,
            }
            &&& context_management::outcome_of(after, Some(owner), next, later)
                == context_management::Replaying::Replayed {
                request: request::Request {
                    input: before.push(request::Item::Compaction { encrypted_content }) + more,
                    ..asked
                },
                covered_items: conversation.len() + emitted.len(),
                tail_items: more.len(),
            }
        }),
{
    let full = conversation + emitted + more;
    let next = request::Request { input: before + full, ..asked };
    output_is_covered_up_to_the_item(emitted, rest, encrypted_content);
    inputs_are_parted(before, conversation);
    assert(full[0] == conversation[0]);
    inputs_are_parted(before, full);
    assert(!(conversation[0] is Compaction));
    assert(context_management::sent_blob(asked) is None);
    assert(context_management::sent_tail(asked) == conversation);
    lemma_uncompacted(conversation);
    assert(uncompacted(full)) by {
        assert forall|i: int| 0 <= i < full.len() implies !(#[trigger] full[i] is Compaction) by {
            if i < conversation.len() {
                assert(full[i] == conversation[i]);
            } else if i < conversation.len() + emitted.len() {
                assert(full[i] == emitted[i - conversation.len()]);
            } else {
                assert(full[i] == more[i - conversation.len() - emitted.len()]);
            }
        }
    }
    lemma_uncompacted(full);
    let history = context_management::captured_history(contexts, owner, asked, emitted, now);
    lemma_digests_add_up(conversation, emitted);
    assert(history =~= context_management::digests(conversation + emitted));
    assert(full.take((conversation + emitted).len() as int) =~= conversation + emitted);
    assert(full.skip((conversation + emitted).len() as int) =~= more);
    prompt_laws::signatures_leave_the_input_out(asked, before + full);
    context_management::captured_items_are_replayed(
        contexts,
        owner,
        turn,
        asked,
        emitted,
        encrypted_content,
        now,
        next,
        later,
    );
}

/// Whether the texts of two items, in the form in which items are compared, have
/// different digests where they differ.
pub open spec fn no_collision(a: request::Item, b: request::Item) -> bool {
    let x = encode_utf8(json::stable_text(canonical::canonical(a)));
    let y = encode_utf8(json::stable_text(canonical::canonical(b)));
    outside::sha256(x) == outside::sha256(y) ==> x == y
}

/// Items with the same digest are equivalent, as far as digests tell texts apart.
pub proof fn same_digests_mean_equivalent_items(a: request::Item, b: request::Item)
    requires
        context_management::digest(a) == context_management::digest(b),
        no_collision(a, b),
        canonical::proper_item(a),
        canonical::proper_item(b),
    ensures
        canonical::equivalent(a, b),
{
    encode_utf8_decode_utf8(json::stable_text(canonical::canonical(a)));
    encode_utf8_decode_utf8(json::stable_text(canonical::canonical(b)));
    canonical::same_texts_mean_equivalent_items(a, b);
}

/// A stored compaction item is not put in where something that was said, a result of a
/// call or a compaction item has been altered in the history that it covers, or is not
/// there any more, as far as digests tell items apart.
pub proof fn altered_histories_are_not_replayed(
    contexts: context_management::Contexts,
    owner: request::Identity,
    next: request::Request,
    covered: Seq<request::Item>,
    now: u64,
    i: int,
)
    requires
        context_management::valid(contexts),
        table::lookup(contexts.states, owner) matches Some(state) ==> state.covered
            == context_management::digests(covered),
        0 <= i < covered.len(),
        ({
            let conversation = history::conversation(next.input);
            i >= conversation.len() || (conversation[i] != covered[i] && item_laws::textual(
                covered[i],
            ) && !(conversation[i] is Other) && canonical::proper_item(conversation[i])
                && no_collision(conversation[i], covered[i]))
        }),
    ensures
        !(context_management::outcome_of(contexts, Some(owner), next, now) is Replayed),
{
    let conversation = history::conversation(next.input);
    if context_management::outcome_of(contexts, Some(owner), next, now) is Replayed {
        context_management::only_covered_history_is_replaced(contexts, owner, next, now);
        assert(context_management::digests(covered).len() == covered.len());
        let head = conversation.take(covered.len() as int);
        assert(context_management::digests(head)[i] == context_management::digests(covered)[i]);
        assert(head[i] == conversation[i]);
        same_digests_mean_equivalent_items(conversation[i], covered[i]);
        item_laws::textual_items_compare_whole(covered[i], conversation[i]);
    }
}

/// A compaction item that a turn gave is not put into a request that differs from that of
/// the turn in anything but the input.
pub proof fn other_prompts_are_not_replayed(
    contexts: context_management::Contexts,
    owner: request::Identity,
    turn: Option<u64>,
    asked: request::Request,
    output: Seq<request::Item>,
    encrypted_content: Seq<char>,
    now: u64,
    next: request::Request,
    name: Seq<char>,
    later: u64,
)
    requires
        context_management::valid(contexts),
        context_management::captured(
            contexts,
            Some(owner),
            turn,
            asked,
            Some(output),
            Some(encrypted_content),
            now,
        ).1 is Captured,
        prompt_laws::plain(asked),
        prompt_laws::plain(next),
        continuation_laws::other_prompt(asked, next, name),
    ensures
        !(context_management::outcome_of(
            context_management::captured(
                contexts,
                Some(owner),
                turn,
                asked,
                Some(output),
                Some(encrypted_content),
                now,
            ).0,
            Some(owner),
            next,
            later,
        ) is Replayed),
{
    let after = context_management::captured(
        contexts,
        Some(owner),
        turn,
        asked,
        Some(output),
        Some(encrypted_content),
        now,
    ).0;
    context_management::captured_items_are_stored(
        contexts,
        owner,
        turn,
        asked,
        output,
        encrypted_content,
        now,
    );
    context_management::lemma_captured_is_valid(
        contexts,
        owner,
        turn,
        asked,
        output,
        encrypted_content,
        now,
    );
    if context_management::outcome_of(after, Some(owner), next, later) is Replayed {
        context_management::only_covered_history_is_replaced(after, owner, next, later);
        prompt_laws::same_signatures_mean_same_fields(asked, next, name);
    }
}

/// What stands before the conversation has to be the same: where a message of the
/// developer has been altered, a stored compaction item is not put in, as far as digests
/// tell items apart.
pub proof fn other_envelopes_are_not_replayed(
    contexts: context_management::Contexts,
    owner: request::Identity,
    next: request::Request,
    before: Seq<request::Item>,
    now: u64,
    i: int,
)
    requires
        context_management::valid(contexts),
        table::lookup(contexts.states, owner) matches Some(state) ==> state.envelope
            == context_management::digests(before),
        ({
            let envelope = history::envelope(next.input);
            envelope.len() != before.len() || (0 <= i < before.len() && envelope[i] != before[i]
                && before[i] is Message && canonical::proper_item(envelope[i])
                && no_collision(envelope[i], before[i]))
        }),
    ensures
        !(context_management::outcome_of(contexts, Some(owner), next, now) is Replayed),
{
    let envelope = history::envelope(next.input);
    if context_management::outcome_of(contexts, Some(owner), next, now) is Replayed {
        context_management::only_covered_history_is_replaced(contexts, owner, next, now);
        let x = context_management::digests(envelope);
        let y = context_management::digests(before);
        assert(x.len() == envelope.len() && y.len() == before.len());
        assert(x[i] == y[i]);
        history::splitting_loses_nothing(next.input);
        assert(history::in_envelope(envelope[i]));
        same_digests_mean_equivalent_items(envelope[i], before[i]);
        item_laws::textual_items_compare_whole(before[i], envelope[i]);
    }
}

/// A compaction item is not put in half an hour after it was used last, into a request
/// for another model, nor into a conversation in which a compaction item stands.
pub proof fn unfit_requests_are_sent_as_they_are(
    contexts: context_management::Contexts,
    owner: request::Identity,
    next: request::Request,
    now: u64,
    i: int,
)
    requires
        context_management::valid(contexts),
        table::lookup(contexts.states, owner) matches Some(state) ==> now > state.updated_at
            + 1_800_000 || state.model != next.model || (0 <= i < history::conversation(
            next.input,
        ).len() && history::conversation(next.input)[i] is Compaction),
    ensures
        !(context_management::outcome_of(contexts, Some(owner), next, now) is Replayed),
        !(context_management::outcome_of(contexts, None, next, now) is Replayed),
{
    if context_management::outcome_of(contexts, Some(owner), next, now) is Replayed {
        context_management::only_covered_history_is_replaced(contexts, owner, next, now);
        context_management::the_oldest_items_are_let_go(contexts.states, now);
        let left = context_management::settled(contexts.states, now);
        table::lemma_found(left, owner);
        table::part_holds_no_more(left, contexts.states, owner);
        let state = table::lookup(left, owner)->0;
        let k = choose|k: int| 0 <= k < left.len() && left[k] == (owner, state);
        assert(table::age(now, left[k].1.updated_at) <= 1_800_000);
    }
}

/// An item of more than a mebibyte, or one that covers more than a hundred thousand
/// items, is not stored, and no more than a thousand items of twenty million bytes
/// together are.
pub proof fn large_items_are_not_stored(
    contexts: context_management::Contexts,
    owner: request::Identity,
    turn: Option<u64>,
    asked: request::Request,
    output: Seq<request::Item>,
    encrypted_content: Seq<char>,
    now: u64,
    registry: context_management::ContextRegistry,
)
    requires
        context_management::valid(contexts),
        encode_utf8(encrypted_content).len() > 1_048_576 || context_management::sent_tail(
            asked,
        ).len() + output.len() > 100_000,
        registry.wf(),
    ensures
        !(context_management::captured(
            contexts,
            Some(owner),
            turn,
            asked,
            Some(output),
            Some(encrypted_content),
            now,
        ).1 is Captured),
        registry@.states.len() <= 1_000,
{
    context_management::registries_keep_the_limits(registry);
}

/// A compaction item that was given in answer to a request that carried one covers what
/// the earlier item covers, what was sent behind that item, and what was answered before
/// the new item: the next request of the owner that repeats all this and goes on is sent
/// with the new item and what the request adds.
#[verifier::spinoff_prover]
pub proof fn chained_conversations_are_replayed(
    contexts: context_management::Contexts,
    owner: request::Identity,
    turn: Option<u64>,
    asked: request::Request,
    before: Seq<request::Item>,
    earlier: Seq<request::Item>,
    earlier_content: Seq<char>,
    tail: Seq<request::Item>,
    emitted: Seq<request::Item>,
    encrypted_content: Seq<char>,
    now: u64,
    more: Seq<request::Item>,
    later: u64,
)
    requires
        context_management::valid(contexts),
        table::lookup(
            context_management::settled(contexts.states, now),
            owner,
        ) matches Some(state) && state.covered == context_management::digests(earlier),
        asked.input == before + (seq![
            request::Item::Compaction { encrypted_content: earlier_content },
        ] + tail),
        leading(before),
        earlier.len() > 0,
        beginning(earlier[0]),
        uncompacted(earlier),
        uncompacted(tail),
        uncompacted(emitted),
        uncompacted(more),
        more.len() > 0,
        later <= now + 1_800_000,
        context_management::captured(
            contexts,
            Some(owner),
            turn,
            asked,
            Some(emitted),
            Some(encrypted_content),
            now,
        ).1 is Captured,
    ensures
        ({
            let (after, outcome) = context_management::captured(
                contexts,
                Some(owner),
                turn,
                asked,
                Some(emitted),
                Some(encrypted_content),
                now,
            );
            let next = request::Request {
                input: before + (earlier + tail + emitted + more),
                ..asked
            };
            &&& outcome == context_management::CaptureOutcome::Captured {
                covered_items: (earlier.len() + tail.len() + emitted.len()) as usize,
                blob_bytes: encode_utf8(encrypted_content).len() as usize,
                chained: true,
            }
            &&& context_management::outcome_of(after, Some(owner), next, later)
                == context_management::Replaying::Replayed {
                request: request::Request {
                    input: before.push(request::Item::Compaction { encrypted_content }) + more,
                    ..asked
                },
                covered_items: earlier.len() + tail.len() + emitted.len(),
                tail_items: more.len(),
            }
        }),
{
    let item = request::Item::Compaction { encrypted_content: earlier_content };
    let sent = seq![item] + tail;
    let covered = earlier + tail + emitted;
    let full = covered + more;
    let next = request::Request { input: before + full, ..asked };
    assert(sent[0] == item);
    inputs_are_parted(before, sent);
    assert(full[0] == earlier[0]);
    inputs_are_parted(before, full);
    assert(sent.skip(1) =~= tail);
    assert(context_management::sent_blob(asked) == Some(earlier_content));
    assert(context_management::sent_tail(asked) == tail);
    assert(uncompacted(full)) by {
        assert forall|i: int| 0 <= i < full.len() implies !(#[trigger] full[i] is Compaction) by {
            let n = earlier.len();
            let m = n + tail.len();
            let k = m + emitted.len();
            if i < n {
                assert(full[i] == earlier[i]);
            } else if i < m {
                assert(full[i] == tail[i - n]);
            } else if i < k {
                assert(full[i] == emitted[i - m]);
            } else {
                assert(full[i] == more[i - k]);
            }
        }
    }
    lemma_uncompacted(full);
    let history = context_management::captured_history(contexts, owner, asked, emitted, now);
    lemma_digests_add_up(earlier, tail);
    lemma_digests_add_up(earlier + tail, emitted);
    assert(history =~= context_management::digests(covered));
    assert(full.take(covered.len() as int) =~= covered);
    assert(full.skip(covered.len() as int) =~= more);
    prompt_laws::signatures_leave_the_input_out(asked, before + full);
    context_management::captured_items_are_replayed(
        contexts,
        owner,
        turn,
        asked,
        emitted,
        encrypted_content,
        now,
        next,
        later,
    );
}

/// What is fresh stays stored.
pub proof fn fresh_items_stay(
    contexts: context_management::Contexts,
    owner: request::Identity,
    now: u64,
)
    requires
        context_management::valid(contexts),
    ensures
        table::lookup(context_management::settled(contexts.states, now), owner)
            == match table::lookup(contexts.states, owner) {
            Some(state) => if now <= state.updated_at + 1_800_000 {
                Some(state)
            } else {
                None
            },
            None => None,
        },
{
    let states = contexts.states;
    table::only_fresh_entries_stay::<
        request::ConversationIdentity,
        context_management::ContextState,
    >(states, now, 1_800_000, owner);
    table::lemma_fresh_total::<
        request::ConversationIdentity,
        context_management::ContextState,
    >(states, now, 1_800_000);
}

/// How many bytes are counted for a stored item: the name of its owner, the model, the
/// signature of the prompt, a digest of thirty-two bytes for every item that it covers and
/// for every item before the conversation, and the item itself.
pub open spec fn taken(owner: request::Identity, state: context_management::Context) -> nat {
    (match owner {
        request::Identity::Main(session) => encode_utf8(session).len(),
        request::Identity::Agent(session, agent) => encode_utf8(session).len() + encode_utf8(
            agent,
        ).len(),
    }) + encode_utf8(state.model).len() + encode_utf8(state.prompt_signature).len() + (
    state.envelope.len() + state.covered.len()) * 32 + encode_utf8(state.encrypted_content).len()
}

/// How many bytes are counted for all that is stored.
pub open spec fn taken_by_all(
    states: Seq<(request::Identity, context_management::Context)>,
) -> nat
    decreases states.len(),
{
    if states.len() == 0 {
        0
    } else {
        taken_by_all(states.drop_last()) + taken(states.last().0, states.last().1)
    }
}

proof fn lemma_taken_by_all(states: Seq<(request::Identity, context_management::Context)>)
    ensures
        table::total::<request::ConversationIdentity, context_management::ContextState>(states)
            == taken_by_all(states),
    decreases states.len(),
{
    if states.len() > 0 {
        lemma_taken_by_all(states.drop_last());
    }
}

/// What a registry stores does not take more than twenty million bytes together, and no
/// stored item takes more than a mebibyte or covers more than a hundred thousand items.
pub proof fn registries_do_not_grow(registry: context_management::ContextRegistry, i: int)
    requires
        registry.wf(),
        0 <= i < registry@.states.len(),
    ensures
        taken_by_all(registry@.states) <= 20_000_000,
        encode_utf8(registry@.states[i].1.encrypted_content).len() <= 1_048_576,
        registry@.states[i].1.covered.len() <= 100_000,
{
    context_management::registries_keep_the_limits(registry);
    lemma_taken_by_all(registry@.states);
    assert(context_management::admissible(registry@.states[i].1));
}

/// The item that the newest turn of an owner gives is captured where it takes no more
/// than a mebibyte, covers no more than a hundred thousand items, and takes no more than
/// twenty million bytes together with the items of fewer than a thousand other owners.
pub proof fn small_items_are_captured(
    contexts: context_management::Contexts,
    owner: request::Identity,
    turn: u64,
    asked: request::Request,
    before: Seq<request::Item>,
    conversation: Seq<request::Item>,
    emitted: Seq<request::Item>,
    encrypted_content: Seq<char>,
    now: u64,
)
    requires
        context_management::valid(contexts),
        table::lookup(contexts.turns, owner) == Some(turn),
        asked.input == before + conversation,
        leading(before),
        conversation.len() > 0,
        beginning(conversation[0]),
        uncompacted(conversation),
        encode_utf8(encrypted_content).len() <= 1_048_576,
        conversation.len() + emitted.len() <= 100_000,
        ({
            let others = table::without(
                context_management::settled(contexts.states, now),
                owner,
            );
            let state = context_management::Context {
                model: asked.model,
                prompt_signature: canonical::signature(asked),
                envelope: context_management::digests(before),
                covered: context_management::digests(conversation)
                    + context_management::digests(emitted),
                encrypted_content,
                updated_at: now,
            };
            &&& others.len() < 1_000
            &&& taken_by_all(others) + taken(owner, state) <= 20_000_000
        }),
    ensures
        context_management::captured(
            contexts,
            Some(owner),
            Some(turn),
            asked,
            Some(emitted),
            Some(encrypted_content),
            now,
        ).1 == (context_management::CaptureOutcome::Captured {
            covered_items: (conversation.len() + emitted.len()) as usize,
            blob_bytes: encode_utf8(encrypted_content).len() as usize,
            chained: false,
        }),
{
    inputs_are_parted(before, conversation);
    assert(!(conversation[0] is Compaction));
    assert(context_management::sent_blob(asked) is None);
    lemma_uncompacted(conversation);
    lemma_taken_by_all(
        table::without(context_management::settled(contexts.states, now), owner),
    );
    let history = context_management::captured_history(contexts, owner, asked, emitted, now);
    assert(history =~= context_management::digests(conversation) + context_management::digests(
        emitted,
    ));
    context_management::items_are_captured_where_there_is_room(
        contexts,
        owner,
        Some(turn),
        asked,
        emitted,
        encrypted_content,
        now,
    );
}

/// Clearing a session drops what is stored of the session and of every agent of it, and
/// nothing of another session.
pub proof fn sessions_are_cleared_with_their_agents(
    states: Seq<(request::Identity, context_management::Context)>,
    session: Seq<char>,
    other: Seq<char>,
    agent: Seq<char>,
)
    requires
        other != session,
    ensures
        ({
            let left = table::outside_session::<
                request::ConversationIdentity,
                context_management::Context,
            >(states, session);
            &&& table::lookup(left, request::Identity::Main(session)) is None
            &&& table::lookup(left, request::Identity::Agent(session, agent)) is None
            &&& table::lookup(left, request::Identity::Main(other)) == table::lookup(
                states,
                request::Identity::Main(other),
            )
            &&& table::lookup(left, request::Identity::Agent(other, agent)) == table::lookup(
                states,
                request::Identity::Agent(other, agent),
            )
        }),
{
    table::dropping_a_session_spares_the_others::<
        request::ConversationIdentity,
        context_management::Context,
    >(states, session, request::Identity::Main(session));
    table::dropping_a_session_spares_the_others::<
        request::ConversationIdentity,
        context_management::Context,
    >(states, session, request::Identity::Agent(session, agent));
    table::dropping_a_session_spares_the_others::<
        request::ConversationIdentity,
        context_management::Context,
    >(states, session, request::Identity::Main(other));
    table::dropping_a_session_spares_the_others::<
        request::ConversationIdentity,
        context_management::Context,
    >(states, session, request::Identity::Agent(other, agent));
}

/// Where a stored item is not put in, it is told why: the first of these that holds is
/// the reason. The model, the prompt, or what stands before the conversation is another, a
/// compaction item stands in the conversation, or the conversation does not begin with
/// what the item covers. A conversation that adds nothing to that is sent as it is, and the
/// item stays.
pub proof fn items_are_discarded_for_a_reason(
    state: context_management::Context,
    asked: request::Request,
    before: Seq<request::Item>,
    conversation: Seq<request::Item>,
    i: int,
)
    requires
        asked.input == before + conversation,
        leading(before),
        conversation.len() > 0 ==> beginning(conversation[0]),
    ensures
        ({
            let outcome = context_management::replaying(state, asked);
            let fit = state.model == asked.model && state.prompt_signature
                == canonical::signature(asked);
            let plain = fit && uncompacted(conversation);
            let placed = plain && state.envelope == context_management::digests(before);
            &&& state.model != asked.model ==> outcome
                == context_management::Replaying::Discarded(
                context_management::DiscardReason::ModelChanged,
            )
            &&& state.model == asked.model && state.prompt_signature != canonical::signature(asked)
                ==> outcome == context_management::Replaying::Discarded(
                context_management::DiscardReason::PromptChanged,
            )
            &&& fit && 0 <= i < conversation.len() && conversation[i] is Compaction ==> outcome
                == context_management::Replaying::Discarded(
                context_management::DiscardReason::ForeignCompaction,
            )
            &&& plain && state.envelope != context_management::digests(before) ==> outcome
                == context_management::Replaying::Discarded(
                context_management::DiscardReason::EnvelopeChanged,
            )
            &&& placed && conversation.len() < state.covered.len() ==> outcome
                == context_management::Replaying::Discarded(
                context_management::DiscardReason::NotAppendOnly,
            )
            &&& placed && state.covered == context_management::digests(conversation) ==> outcome
                is Unchanged
        }),
{
    inputs_are_parted(before, conversation);
    if uncompacted(conversation) {
        lemma_uncompacted(conversation);
    }
    assert(conversation.take(conversation.len() as int) =~= conversation);
}

/// The reasons for which an item is discarded have different names.
pub proof fn reasons_have_their_own_names(
    a: context_management::DiscardReason,
    b: context_management::DiscardReason,
)
    ensures
        a.name() == b.name() <==> a == b,
{
    reveal_strlit("model_changed");
    reveal_strlit("prompt_changed");
    reveal_strlit("envelope_changed");
    reveal_strlit("not_append_only");
    reveal_strlit("foreign_compaction");
    reveal_strlit("replay_mismatch");
    reveal_strlit("too_large");
    assert("model_changed"@.len() == 13);
    assert("prompt_changed"@.len() == 14);
    assert("envelope_changed"@.len() == 16);
    assert("not_append_only"@.len() == 15 && "not_append_only"@[0] == 'n');
    assert("foreign_compaction"@.len() == 18);
    assert("replay_mismatch"@.len() == 15 && "replay_mismatch"@[0] == 'r');
    assert("too_large"@.len() == 9);
}

/// A turn that carried another compaction item than the one that is stored, or that
/// carried one where none is stored, discards what is stored. One that carried no item and
/// gives none changes nothing but for what is stale.
pub proof fn turns_are_told_what_became_of_their_item(
    contexts: context_management::Contexts,
    owner: request::Identity,
    turn: Option<u64>,
    asked: request::Request,
    before: Seq<request::Item>,
    conversation: Seq<request::Item>,
    sent: Seq<char>,
    output: Option<Seq<request::Item>>,
    encrypted_content: Option<Seq<char>>,
    now: u64,
)
    requires
        context_management::valid(contexts),
        leading(before),
        uncompacted(conversation),
        conversation.len() > 0 ==> beginning(conversation[0]),
    ensures
        ({
            let carried = request::Request {
                input: before + (seq![
                    request::Item::Compaction { encrypted_content: sent },
                ] + conversation),
                ..asked
            };
            let bare = request::Request { input: before + conversation, ..asked };
            let (after, outcome) = context_management::captured(
                contexts,
                Some(owner),
                turn,
                carried,
                output,
                encrypted_content,
                now,
            );
            let (kept, told) = context_management::captured(
                contexts,
                Some(owner),
                turn,
                bare,
                output,
                None,
                now,
            );
            &&& (match table::lookup(contexts.states, owner) {
                Some(state) => state.encrypted_content != sent,
                None => true,
            }) ==> outcome == context_management::CaptureOutcome::Discarded(
                context_management::DiscardReason::ReplayMismatch,
            ) && table::lookup(after.states, owner) is None
            &&& told is Skipped
            &&& table::lookup(kept.states, owner) == table::lookup(
                context_management::settled(contexts.states, now),
                owner,
            )
        }),
{
    let item = request::Item::Compaction { encrypted_content: sent };
    let all = seq![item] + conversation;
    let carried = request::Request { input: before + all, ..asked };
    assert(all[0] == item);
    inputs_are_parted(before, all);
    inputs_are_parted(before, conversation);
    assert(all.skip(1) =~= conversation);
    lemma_uncompacted(conversation);
    fresh_items_stay(contexts, owner, now);
    table::taking_out_touches_one_key(
        context_management::settled(contexts.states, now),
        owner,
        owner,
    );
}

/// An item that is put in counts as used and stays as it is otherwise, one that is
/// discarded is gone, and one that is left alone stays.
pub proof fn used_items_stay_fresh(
    contexts: context_management::Contexts,
    owner: request::Identity,
    asked: request::Request,
    now: u64,
)
    requires
        context_management::valid(contexts),
        table::lookup(contexts.states, owner) is Some,
        now <= table::lookup(contexts.states, owner)->0.updated_at + 1_800_000,
    ensures
        ({
            let state = table::lookup(contexts.states, owner)->0;
            let after = context_management::after_request(contexts, Some(owner), asked, now);
            table::lookup(after.states, owner) == match context_management::outcome_of(
                contexts,
                Some(owner),
                asked,
                now,
            ) {
                context_management::Replaying::Replayed { .. } => Some(
                    context_management::Context { updated_at: now, ..state },
                ),
                context_management::Replaying::Unchanged => Some(state),
                context_management::Replaying::Discarded(_) => None,
            }
        }),
{
    fresh_items_stay(contexts, owner, now);
    let states = context_management::settled(contexts.states, now);
    let state = table::lookup(contexts.states, owner)->0;
    table::taking_out_touches_one_key(states, owner, owner);
    table::putting_in_touches_one_key(
        states,
        owner,
        context_management::Context { updated_at: now, ..state },
        owner,
    );
}

} // verus!
