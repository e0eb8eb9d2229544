//! What of a conversation is continued, said of the requests and what was answered.

use crate::canonical;
use crate::continuation;
use crate::item_laws;
use crate::prompt_laws;
use crate::request;
use crate::table;
use vstd::prelude::*;

verus! {

/// What goes on from a conversation begins with it, and what is behind it is what it
/// adds.
pub proof fn additions_are_what_follows(prefix: Seq<request::Item>, more: Seq<request::Item>)
    ensures
        canonical::suffix_after(prefix + more, prefix) == Some(more),
{
    let all = prefix + more;
    assert forall|i: int| 0 <= i < prefix.len() implies canonical::equivalent(
        #[trigger] all[i],
        prefix[i],
    ) by {
        assert(all[i] == prefix[i]);
        canonical::equivalence_is_an_equivalence_relation(all[i], prefix[i], prefix[i]);
    }
    assert(all.skip(prefix.len() as int) =~= more);
}

/// What is found behind a prefix stands at the end of the input, and every item before
/// it is equivalent to the one in its place.
pub proof fn nothing_is_lost_behind_a_prefix(
    input: Seq<request::Item>,
    prefix: Seq<request::Item>,
    i: int,
)
    requires
        canonical::suffix_after(input, prefix) is Some,
        0 <= i < prefix.len(),
    ensures
        prefix.len() <= input.len(),
        input == input.take(prefix.len() as int) + canonical::suffix_after(input, prefix)->0,
        canonical::equivalent(input[i], prefix[i]),
{
    assert(input =~= input.take(prefix.len() as int) + input.skip(prefix.len() as int));
    assert(canonical::equivalent(input[i], prefix[i]));
}

/// A conversation is continued: where a turn has published its response, the next
/// request of the same owner that has the same other members, repeats what was sent and
/// answered and adds to it, and comes within half an hour, continues that response over
/// its socket and sends exactly what it adds.
pub proof fn conversations_are_continued(
    ledger: continuation::Ledger,
    owner: request::Identity,
    turn_id: u64,
    body: request::Request,
    response_id: Seq<char>,
    socket_id: u64,
    output: Seq<request::Item>,
    now: u64,
    more: Seq<request::Item>,
    reason: Seq<char>,
    later: u64,
)
    requires
        continuation::valid(ledger),
        continuation::current(ledger, Some(owner), Some(turn_id)),
        socket_id != 0,
        request::items_bytes(body.input + output) <= 2_000_000,
        continuation::transcript_total(table::without(ledger.owners, owner))
            + request::items_bytes(body.input + output) <= 20_000_000,
        later <= now + 1_800_000,
        more.len() > 0,
    ensures
        ({
            let after = continuation::recorded(
                ledger,
                Some(owner),
                Some(turn_id),
                continuation::publication(
                    body,
                    Some(response_id),
                    Some(socket_id),
                    output,
                    now,
                ),
            );
            let next = request::Request { input: body.input + output + more, ..body };
            continuation::reservation_for(after, Some(owner), next, true, reason, later)
                == continuation::Reservation {
                candidate: continuation::Candidate {
                    turn_id: Some(ledger.next_turn),
                    previous_response_id: Some(response_id),
                    input_delta: Some(more),
                    input_delta_count: more.len(),
                    disabled_reason: None,
                },
                owner: Some(owner),
                origin_socket_id: Some(socket_id),
            }
        }),
{
    let published = continuation::publication(
        body,
        Some(response_id),
        Some(socket_id),
        output,
        now,
    );
    let next = request::Request { input: body.input + output + more, ..body };
    continuation::publications_are_kept(ledger, owner, turn_id, published->0, owner);
    prompt_laws::signatures_leave_the_input_out(body, body.input + output + more);
    additions_are_what_follows(body.input + output, more);
}

/// A conversation in which something that was said, a result of a call or a compaction
/// item has been altered, or is not there any more, is not continued.
pub proof fn altered_conversations_are_not_continued(
    ledger: continuation::Ledger,
    owner: request::Identity,
    next: request::Request,
    enabled: bool,
    reason: Seq<char>,
    now: u64,
    i: int,
)
    requires
        continuation::stored_for(ledger, owner) is Some,
        ({
            let transcript = continuation::stored_for(ledger, owner)->0.transcript;
            &&& 0 <= i < transcript.len()
            &&& i >= next.input.len() || (next.input[i] != transcript[i] && item_laws::textual(
                transcript[i],
            ) && !(next.input[i] is Other))
        }),
    ensures
        ({
            let reservation = continuation::reservation_for(
                ledger,
                Some(owner),
                next,
                enabled,
                reason,
                now,
            );
            &&& reservation.candidate.previous_response_id is None
            &&& reservation.candidate.input_delta is None
            &&& reservation.origin_socket_id is None
        }),
{
    let transcript = continuation::stored_for(ledger, owner)->0.transcript;
    if canonical::begins_with(next.input, transcript) {
        assert(canonical::equivalent(next.input[i], transcript[i]));
        item_laws::textual_items_compare_whole(transcript[i], next.input[i]);
    }
}

/// A request that adds nothing to what is stored continues nothing.
pub proof fn repeated_conversations_are_not_continued(
    ledger: continuation::Ledger,
    owner: request::Identity,
    next: request::Request,
    enabled: bool,
    reason: Seq<char>,
    now: u64,
)
    requires
        continuation::stored_for(ledger, owner) matches Some(stored) ==> next.input.len()
            <= stored.transcript.len(),
    ensures
        ({
            let reservation = continuation::reservation_for(
                ledger,
                Some(owner),
                next,
                enabled,
                reason,
                now,
            );
            &&& reservation.candidate.previous_response_id is None
            &&& reservation.candidate.input_delta is None
            &&& reservation.origin_socket_id is None
        }),
{
}

/// Whether two requests differ in something else than their input: the model, the
/// instructions, the fields asked for, the context management, the client metadata, or
/// what stands under some other name.
pub open spec fn other_prompt(a: request::Request, b: request::Request, name: Seq<char>) -> bool {
    ||| a.model != b.model
    ||| a.instructions != b.instructions
    ||| a.include_fields != b.include_fields
    ||| !prompt_laws::same_option(a.context_management, b.context_management)
    ||| !prompt_laws::same_option(a.client_metadata, b.client_metadata)
    ||| name != "input"@ && !prompt_laws::same_option(
        prompt_laws::further(a, name),
        prompt_laws::further(b, name),
    )
}

/// A response is not continued by a request that differs from the one that it answered
/// in anything but the input.
pub proof fn other_prompts_are_not_continued(
    ledger: continuation::Ledger,
    owner: request::Identity,
    turn_id: u64,
    body: request::Request,
    response_id: Seq<char>,
    socket_id: u64,
    output: Seq<request::Item>,
    now: u64,
    next: request::Request,
    name: Seq<char>,
    reason: Seq<char>,
    later: u64,
)
    requires
        continuation::valid(ledger),
        continuation::current(ledger, Some(owner), Some(turn_id)),
        prompt_laws::plain(body),
        prompt_laws::plain(next),
        other_prompt(body, next, name),
    ensures
        ({
            let after = continuation::recorded(
                ledger,
                Some(owner),
                Some(turn_id),
                continuation::publication(
                    body,
                    Some(response_id),
                    Some(socket_id),
                    output,
                    now,
                ),
            );
            let reservation = continuation::reservation_for(
                after,
                Some(owner),
                next,
                true,
                reason,
                later,
            );
            &&& reservation.candidate.previous_response_id is None
            &&& reservation.candidate.input_delta is None
            &&& reservation.origin_socket_id is None
        }),
{
    let published = continuation::publication(
        body,
        Some(response_id),
        Some(socket_id),
        output,
        now,
    );
    let after = continuation::recorded(ledger, Some(owner), Some(turn_id), published);
    if canonical::signature(next) == canonical::signature(body) {
        prompt_laws::same_signatures_mean_same_fields(body, next, name);
    }
    table::taking_out_touches_one_key(ledger.owners, owner, owner);
    if let Some(told) = published {
        let entry = continuation::Ownership {
            continuation: Some(told),
            ..table::lookup(ledger.owners, owner)->0
        };
        table::with_keeps_keys_distinct(ledger.owners, owner, entry);
        table::putting_in_touches_one_key(ledger.owners, owner, entry, owner);
        continuation::the_oldest_owners_are_let_go(table::with(ledger.owners, owner, entry));
        table::part_holds_no_more(
            after.owners,
            table::with(ledger.owners, owner, entry),
            owner,
        );
    }
}

/// A response is not continued after half an hour.
pub proof fn old_responses_are_not_continued(
    ledger: continuation::Ledger,
    owner: request::Identity,
    next: request::Request,
    enabled: bool,
    reason: Seq<char>,
    now: u64,
)
    requires
        continuation::stored_for(ledger, owner) matches Some(stored) ==> now > stored.updated_at
            + 1_800_000,
    ensures
        ({
            let reservation = continuation::reservation_for(
                ledger,
                Some(owner),
                next,
                enabled,
                reason,
                now,
            );
            &&& reservation.candidate.previous_response_id is None
            &&& reservation.candidate.input_delta is None
            &&& reservation.origin_socket_id is None
        }),
{
}

/// A response is published with its identifier, the socket over which it came, and what
/// was sent and answered, if it came over a known socket and takes no more than two
/// million bytes; otherwise it is not published.
pub proof fn responses_are_published_with_their_transcript(
    body: request::Request,
    response_id: Seq<char>,
    socket_id: u64,
    output: Seq<request::Item>,
    now: u64,
)
    ensures
        match continuation::publication(
            body,
            Some(response_id),
            Some(socket_id),
            output,
            now,
        ) {
            Some(told) => socket_id != 0 && request::items_bytes(body.input + output) <= 2_000_000
                && told.response_id == response_id && told.socket_id == socket_id
                && told.transcript == body.input + output && told.updated_at == now,
            None => socket_id == 0 || request::items_bytes(body.input + output) > 2_000_000,
        },
{
}

/// No more than ten thousand owners are kept, and no more than twenty million bytes of
/// transcripts, none of more than two million.
pub proof fn registries_stay_small(registry: continuation::ContinuationRegistry, i: int)
    requires
        registry.wf(),
        0 <= i < registry@.owners.len(),
    ensures
        registry@.owners.len() <= 10_000,
        continuation::transcript_total(registry@.owners) <= 20_000_000,
        registry@.owners[i].1.continuation matches Some(told) ==> request::items_bytes(
            told.transcript,
        ) <= 2_000_000 && told.transcript_bytes == request::items_bytes(told.transcript)
            && told.socket_id != 0,
{
    continuation::registries_keep_the_limits(registry);
    assert(continuation::admissible(registry@.owners[i].1));
}

/// A request that continues nothing is told why, and how many items it sends. It is told
/// that this is disabled, that it belongs to nobody, that nothing is known of its owner,
/// that an earlier turn of the owner has not been answered, or was answered more than half
/// an hour ago, that the prompt has changed, that the conversation does not begin with what
/// was said, or that it adds nothing.
pub proof fn requests_are_told_why_they_continue_nothing(
    ledger: continuation::Ledger,
    owner: request::Identity,
    asked: request::Request,
    reason: Seq<char>,
    now: u64,
)
    ensures
        ({
            let disabled = continuation::reservation_for(
                ledger,
                Some(owner),
                asked,
                false,
                reason,
                now,
            );
            let nobody = continuation::reservation_for(ledger, None, asked, true, reason, now);
            let candidate = continuation::reservation_for(
                ledger,
                Some(owner),
                asked,
                true,
                reason,
                now,
            ).candidate;
            let known = table::lookup(ledger.owners, owner);
            let late = match continuation::stored_for(ledger, owner) {
                Some(stored) => now > stored.updated_at + 1_800_000,
                None => true,
            };
            let stored = continuation::stored_for(ledger, owner)->0;
            &&& disabled.candidate.disabled_reason == Some("disabled"@)
            &&& disabled.candidate.turn_id is None
            &&& disabled.candidate.input_delta_count == asked.input.len()
            &&& nobody.candidate.disabled_reason == Some(reason)
            &&& nobody.candidate.turn_id is None
            &&& nobody.candidate.input_delta_count == asked.input.len()
            &&& candidate.turn_id == Some(ledger.next_turn)
            &&& candidate.disabled_reason is None <==> candidate.previous_response_id is Some
            &&& candidate.disabled_reason is None <==> candidate.input_delta is Some
            &&& known is None ==> candidate.disabled_reason == Some("missing_state"@)
            &&& known is Some && late ==> candidate.disabled_reason == Some("superseded_turn"@)
            &&& !late && stored.prompt_signature != canonical::signature(asked)
                ==> candidate.disabled_reason == Some("prompt_changed"@)
            &&& !late && stored.prompt_signature == canonical::signature(asked)
                && asked.input.len() < stored.transcript.len() ==> candidate.disabled_reason == Some(
                "not_append_only"@,
            )
            &&& !late && stored.prompt_signature == canonical::signature(asked) && asked.input
                == stored.transcript ==> candidate.disabled_reason == Some("empty_delta"@)
                && candidate.input_delta_count == 0
            &&& known is None || late || stored.prompt_signature != canonical::signature(asked)
                || asked.input.len() < stored.transcript.len() ==> candidate.input_delta_count
                == asked.input.len()
        }),
{
    let none = Seq::<request::Item>::empty();
    if let Some(stored) = continuation::stored_for(ledger, owner) {
        additions_are_what_follows(stored.transcript, none);
        assert(stored.transcript + none =~= stored.transcript);
    }
}

/// Once the turn that an owner reserved last has been given up, or what is known of the
/// owner has been dropped, nothing is known of the owner any more. What is known of every
/// other owner stays. A turn that is not the last has no such effect.
pub proof fn nothing_is_left_of_what_is_dropped(
    ledger: continuation::Ledger,
    owner: request::Identity,
    turn_id: u64,
    other: request::Identity,
)
    requires
        table::distinct(ledger.owners),
    ensures
        table::lookup(continuation::cleared(ledger, Some(owner)).owners, owner) is None,
        other != owner ==> table::lookup(
            continuation::cleared(ledger, Some(owner)).owners,
            other,
        ) == table::lookup(ledger.owners, other),
        continuation::cleared(ledger, None) == ledger,
        continuation::cleared(ledger, Some(owner)).next_turn == ledger.next_turn,
        match table::lookup(ledger.owners, owner) {
            Some(known) => if known.current_turn == turn_id {
                continuation::aborted(ledger, Some(owner), Some(turn_id)) == continuation::cleared(
                    ledger,
                    Some(owner),
                )
            } else {
                continuation::aborted(ledger, Some(owner), Some(turn_id)) == ledger
            },
            None => continuation::aborted(ledger, Some(owner), Some(turn_id)) == ledger,
        },
        continuation::aborted(ledger, None, Some(turn_id)) == ledger,
        continuation::aborted(ledger, Some(owner), None) == ledger,
{
    table::taking_out_touches_one_key(ledger.owners, owner, owner);
    table::taking_out_touches_one_key(ledger.owners, owner, other);
}

/// A turn that is completed with nothing to publish leaves nothing of its owner, so that
/// the next request continues nothing.
pub proof fn unpublished_turns_are_not_continued(
    ledger: continuation::Ledger,
    owner: request::Identity,
    turn_id: u64,
    next: request::Request,
    reason: Seq<char>,
    now: u64,
)
    requires
        continuation::current(ledger, Some(owner), Some(turn_id)),
    ensures
        ({
            let after = continuation::recorded(ledger, Some(owner), Some(turn_id), None);
            &&& table::lookup(after.owners, owner) is None
            &&& continuation::reservation_for(
                after,
                Some(owner),
                next,
                true,
                reason,
                now,
            ).candidate.previous_response_id is None
        }),
{
    table::taking_out_touches_one_key(ledger.owners, owner, owner);
}

/// How many bytes of transcripts are stored.
pub open spec fn stored_bytes(owners: Seq<(request::Identity, continuation::Ownership)>) -> nat
    decreases owners.len(),
{
    if owners.len() == 0 {
        0
    } else {
        stored_bytes(owners.drop_last()) + match owners.last().1.continuation {
            Some(told) => told.transcript_bytes as nat,
            None => 0,
        }
    }
}

/// The bytes of all transcripts are counted together.
pub proof fn all_transcripts_are_counted(
    owners: Seq<(request::Identity, continuation::Ownership)>,
)
    ensures
        continuation::transcript_total(owners) == stored_bytes(owners),
    decreases owners.len(),
{
    if owners.len() > 0 {
        all_transcripts_are_counted(owners.drop_last());
    }
}

} // verus!
