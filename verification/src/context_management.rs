//! Replays what Codex compacted mid-stream on later turns.
//!
//! With context management Codex may compact the rendered window while it answers
//! and emit an opaque compaction item. A later request can send that item in
//! place of the history that it covers. The item arrives on an ordinary turn, so
//! no further request is made.
//!
//! Safety comes from the prefix check. What is stored is a digest of every
//! conversation item that the compaction item covers, and it is only ever put in
//! place of a conversation that begins with exactly those items, under the same
//! model and the same prompt. Anything else discards what is stored and sends the
//! full history. Of turns that overlap, only the newest may store an item.

use crate::canonical;
use crate::canonical::{canonical_input_item, prompt_signature};
use crate::history;
use crate::history::{contains_compaction, split_input_envelope};
use crate::json;
use crate::json_laws;
use crate::model;
use crate::model::Duplicate;
use crate::outside;
use crate::request;
use crate::request::{ConversationIdentity, ResponsesInputItem, ResponsesRequest};
use crate::table;
use crate::table::{Stored, Table};
use crate::text;
use vstd::prelude::*;
use vstd::string::*;
use vstd::utf8::*;

verus! {

/// How long, in milliseconds, a compaction item is kept without being used.
pub const STATE_TTL_MS: u64 = 30 * 60 * 1_000;

/// How many compaction items are kept.
pub const MAX_STATES: usize = 1_000;

/// How many bytes one compaction item may take.
pub const MAX_BLOB_BYTES: usize = 1024 * 1024;

/// How many conversation items one compaction item may cover.
pub const MAX_COVERED_ITEMS: usize = 100_000;

/// How many bytes all that is stored may take.
pub const MAX_TOTAL_STATE_BYTES: usize = 20_000_000;

/// How many bytes a digest takes.
pub const DIGEST_BYTES: usize = 32;

// ---------------------------------------------------------------------------
// Digests
// ---------------------------------------------------------------------------

/// The text of which an item's digest is taken.
pub open spec fn digested_text(item: request::Item) -> Seq<char> {
    json::stable_text(canonical::canonical(item))
}

/// The digest of an item.
pub open spec fn digest(item: request::Item) -> Seq<u8> {
    outside::sha256(encode_utf8(digested_text(item)))
}

/// The digests of items.
pub open spec fn digests(items: Seq<request::Item>) -> Seq<Seq<u8>> {
    Seq::new(items.len(), |i: int| digest(items[i]))
}

/// The digest of an item.
#[derive(Debug, Clone, Copy)]
pub struct ItemDigest {
    bytes: [u8; 32],
}

impl View for ItemDigest {
    type V = Seq<u8>;

    closed spec fn view(&self) -> Seq<u8> {
        self.bytes@
    }
}

impl Duplicate for ItemDigest {
    fn duplicate(&self) -> (copy: Self) {
        *self
    }
}

/// Whether two digests are the same.
fn same_digest(a: &ItemDigest, b: &ItemDigest) -> (same: bool)
    ensures
        same == (a@ == b@),
{
    let mut i: usize = 0;
    while i < 32
        invariant
            i <= 32,
            a.bytes@.len() == 32,
            b.bytes@.len() == 32,
            forall|j: int| 0 <= j < i ==> a.bytes@[j] == b.bytes@[j],
        decreases 32 - i,
    {
        if a.bytes[i] != b.bytes[i] {
            assert(a@[i as int] != b@[i as int]);
            return false;
        }
        i = i + 1;
    }
    assert(a@ =~= b@);
    true
}

/// The digest of an item.
pub fn item_digest(item: &ResponsesInputItem) -> (taken: ItemDigest)
    ensures
        taken@ == digest(item@),
{
    let written: String = json::stable_json(&canonical_input_item(item));
    ItemDigest { bytes: outside::digest_of(written.as_str().as_bytes()) }
}

/// Puts the digests of items behind those that are there.
fn append_digests(target: &mut Vec<ItemDigest>, items: &[ResponsesInputItem])
    ensures
        model::views(final(target)@) == model::views(old(target)@) + digests(
            model::views(items@),
        ),
{
    let ghost start = target@;
    let mut i: usize = 0;
    while i < items.len()
        invariant
            i <= items@.len(),
            target@.len() == start.len() + i,
            forall|j: int| 0 <= j < start.len() ==> (#[trigger] target@[j]) == start[j],
            forall|j: int|
                start.len() <= j < target@.len() ==> (#[trigger] target@[j])@ == digest(
                    items@[j - start.len()]@,
                ),
        decreases items@.len() - i,
    {
        target.push(item_digest(&items[i]));
        i = i + 1;
    }
    assert(model::views(target@) =~= model::views(start) + digests(model::views(items@)));
}

/// Whether the items have the given digests.
fn have_digests(items: &[ResponsesInputItem], expected: &[ItemDigest]) -> (answer: bool)
    ensures
        answer == (digests(model::views(items@)) == model::views(expected@)),
{
    let ghost taken = digests(model::views(items@));
    let ghost given = model::views(expected@);
    if items.len() != expected.len() {
        assert(taken.len() != given.len());
        return false;
    }
    let mut i: usize = 0;
    while i < items.len()
        invariant
            i <= items@.len(),
            items@.len() == expected@.len(),
            taken == digests(model::views(items@)),
            given == model::views(expected@),
            forall|j: int| 0 <= j < i ==> (#[trigger] taken[j]) == given[j],
        decreases items@.len() - i,
    {
        if !same_digest(&item_digest(&items[i]), &expected[i]) {
            assert(taken[i as int] != given[i as int]);
            return false;
        }
        assert(taken[i as int] == given[i as int]);
        i = i + 1;
    }
    assert(taken =~= given);
    true
}

// ---------------------------------------------------------------------------
// Model
// ---------------------------------------------------------------------------

/// A compaction item, with what it can be used for. `covered` holds the digests
/// of the conversation items that it stands for, in order. Where one item was
/// compacted into the next, it holds those of both, so that it matches the full
/// history that the client sends.
pub struct Context {
    pub model: Seq<char>,
    pub prompt_signature: Seq<char>,
    pub envelope: Seq<Seq<u8>>,
    pub covered: Seq<Seq<u8>>,
    pub encrypted_content: Seq<char>,
    pub updated_at: u64,
}

/// What is stored, the number of the newest turn of each owner, and the number of the
/// next turn.
pub struct Contexts {
    pub states: Seq<(request::Identity, Context)>,
    pub turns: Seq<(request::Identity, u64)>,
    pub next_turn: u64,
}

/// How many bytes the name of an owner takes.
pub open spec fn owner_bytes(owner: request::Identity) -> nat {
    match owner {
        request::Identity::Main(session) => text::utf8_len(session),
        request::Identity::Agent(session, agent) => text::utf8_len(session) + text::utf8_len(
            agent,
        ),
    }
}

/// How many bytes a compaction item takes with what is stored of it.
pub open spec fn context_bytes(owner: request::Identity, state: Context) -> nat {
    owner_bytes(owner) + text::utf8_len(state.model) + text::utf8_len(state.prompt_signature) + (
    state.envelope.len() + state.covered.len()) * (DIGEST_BYTES as nat) + text::utf8_len(
        state.encrypted_content,
    )
}

// ---------------------------------------------------------------------------
// State
// ---------------------------------------------------------------------------

/// A compaction item, with what it can be used for.
pub struct ContextState {
    model: String,
    prompt_signature: String,
    envelope: Vec<ItemDigest>,
    covered: Vec<ItemDigest>,
    encrypted_content: String,
    updated_at: u64,
}

impl View for ContextState {
    type V = Context;

    closed spec fn view(&self) -> Context {
        Context {
            model: self.model@,
            prompt_signature: self.prompt_signature@,
            envelope: model::views(self.envelope@),
            covered: model::views(self.covered@),
            encrypted_content: self.encrypted_content@,
            updated_at: self.updated_at,
        }
    }
}

/// The newest turn of an owner.
pub struct TurnState {
    number: u64,
}

impl View for TurnState {
    type V = u64;

    closed spec fn view(&self) -> u64 {
        self.number
    }
}

impl Stored<ConversationIdentity> for ContextState {
    open spec fn stamp(value: Context) -> u64 {
        value.updated_at
    }

    open spec fn weight(key: request::Identity, value: Context) -> nat {
        context_bytes(key, value)
    }

    fn stamp_of(&self) -> (stamp: u64) {
        self.updated_at
    }

    fn weight_of(key: &ConversationIdentity, value: &Self) -> (weight: usize) {
        state_size(key, value)
    }
}

/// Turns are dated by their numbers.
impl Stored<ConversationIdentity> for TurnState {
    open spec fn stamp(value: u64) -> u64 {
        value
    }

    open spec fn weight(key: request::Identity, value: u64) -> nat {
        0
    }

    fn stamp_of(&self) -> (stamp: u64) {
        self.number
    }

    fn weight_of(key: &ConversationIdentity, value: &Self) -> (weight: usize) {
        0
    }
}

/// How many bytes a compaction item takes with what is stored of it, as far as
/// that can be counted.
fn state_size(owner: &ConversationIdentity, state: &ContextState) -> (bytes: usize)
    ensures
        bytes == table::capped(context_bytes(owner@, state@)),
{
    let owner_len: usize = match owner {
        ConversationIdentity::Main(session) => text::byte_length(session.as_str()),
        ConversationIdentity::Agent(session, agent) => text::byte_length(
            session.as_str(),
        ).saturating_add(text::byte_length(agent.as_str())),
    };
    let count: usize = state.envelope.len().saturating_add(state.covered.len());
    let digest_bytes: usize = match count.checked_mul(DIGEST_BYTES) {
        Some(bytes) => bytes,
        None => usize::MAX,
    };
    owner_len.saturating_add(text::byte_length(state.model.as_str())).saturating_add(
        text::byte_length(state.prompt_signature.as_str()),
    ).saturating_add(digest_bytes).saturating_add(
        text::byte_length(state.encrypted_content.as_str()),
    )
}

/// Whether a compaction item may be stored: it does not take too many bytes, nor
/// cover too many items.
pub open spec fn admissible(state: Context) -> bool {
    text::utf8_len(state.encrypted_content) <= MAX_BLOB_BYTES && state.covered.len()
        <= MAX_COVERED_ITEMS
}

/// Whether every compaction item may be stored.
pub open spec fn all_admissible(states: Seq<(request::Identity, Context)>) -> bool {
    forall|i: int| 0 <= i < states.len() ==> admissible((#[trigger] states[i]).1)
}

/// Whether what is stored keeps to what is always so: no owner stands twice,
/// neither the items nor the bytes are too many, and each item may be stored.
pub open spec fn valid(contexts: Contexts) -> bool {
    &&& table::distinct(contexts.states)
    &&& contexts.states.len() <= MAX_STATES
    &&& table::total::<ConversationIdentity, ContextState>(contexts.states)
        <= MAX_TOTAL_STATE_BYTES
    &&& all_admissible(contexts.states)
    &&& table::distinct(contexts.turns)
}

/// The compaction items of all owners.
pub struct ContextRegistry {
    states: Table<ConversationIdentity, ContextState>,
    turns: Table<ConversationIdentity, TurnState>,
    next_turn: u64,
}

impl View for ContextRegistry {
    type V = Contexts;

    closed spec fn view(&self) -> Contexts {
        Contexts { states: self.states@, turns: self.turns@, next_turn: self.next_turn }
    }
}

impl ContextRegistry {
    /// Whether the registry is as it should be.
    pub closed spec fn wf(&self) -> bool {
        valid(self@)
    }

    /// A registry in which nothing is stored. Turns are numbered from one.
    pub fn new() -> (registry: Self)
        ensures
            registry.wf(),
            registry@.states == Seq::<(request::Identity, Context)>::empty(),
            registry@.turns == Seq::<(request::Identity, u64)>::empty(),
            registry@.next_turn == 1,
    {
        ContextRegistry { states: Table::new(), turns: Table::new(), next_turn: 1 }
    }

    /// How many compaction items are stored.
    pub fn len(&self) -> (n: usize)
        ensures
            n == self@.states.len(),
    {
        self.states.len()
    }
}

// ---------------------------------------------------------------------------
// Outcomes
// ---------------------------------------------------------------------------

/// Why a compaction item was discarded.
#[derive(Debug, Clone, Copy, PartialEq, Eq, Structural)]
pub enum DiscardReason {
    ModelChanged,
    PromptChanged,
    EnvelopeChanged,
    NotAppendOnly,
    ForeignCompaction,
    ReplayMismatch,
    TooLarge,
}

impl DiscardReason {
    /// The name of the reason.
    pub open spec fn name(self) -> Seq<char> {
        match self {
            DiscardReason::ModelChanged => "model_changed"@,
            DiscardReason::PromptChanged => "prompt_changed"@,
            DiscardReason::EnvelopeChanged => "envelope_changed"@,
            DiscardReason::NotAppendOnly => "not_append_only"@,
            DiscardReason::ForeignCompaction => "foreign_compaction"@,
            DiscardReason::ReplayMismatch => "replay_mismatch"@,
            DiscardReason::TooLarge => "too_large"@,
        }
    }

    /// The name of the reason.
    pub fn as_str(self) -> (name: &'static str)
        ensures
            name@ == self.name(),
    {
        match self {
            DiscardReason::ModelChanged => "model_changed",
            DiscardReason::PromptChanged => "prompt_changed",
            DiscardReason::EnvelopeChanged => "envelope_changed",
            DiscardReason::NotAppendOnly => "not_append_only",
            DiscardReason::ForeignCompaction => "foreign_compaction",
            DiscardReason::ReplayMismatch => "replay_mismatch",
            DiscardReason::TooLarge => "too_large",
        }
    }
}

/// A request in which a compaction item stands in place of the history that it
/// covers.
#[derive(Debug)]
pub struct ContextReplay {
    pub request: ResponsesRequest,
    pub covered_items: usize,
    pub tail_items: usize,
}

/// What comes of a request: it is sent with the compaction item, or as it is, or
/// as it is because the compaction item was discarded.
#[derive(Debug)]
pub enum ReplayOutcome {
    Replayed(Box<ContextReplay>),
    Unchanged,
    Discarded(DiscardReason),
}

/// What comes of a completed turn. Its compaction item was stored, the one that
/// it was sent with was kept, there was nothing to store, what the item covers
/// could not be told, a newer turn had begun, or what was stored was discarded.
#[derive(Debug, Clone, Copy, PartialEq, Eq, Structural)]
pub enum CaptureOutcome {
    Captured { covered_items: usize, blob_bytes: usize, chained: bool },
    Retained,
    Skipped,
    Refused,
    Superseded,
    Discarded(DiscardReason),
}

/// What comes of a request.
pub enum Replaying {
    Replayed { request: request::Request, covered_items: nat, tail_items: nat },
    Unchanged,
    Discarded(DiscardReason),
}

impl View for ReplayOutcome {
    type V = Replaying;

    open spec fn view(&self) -> Replaying {
        match *self {
            ReplayOutcome::Replayed(replay) => Replaying::Replayed {
                request: replay.request@,
                covered_items: replay.covered_items as nat,
                tail_items: replay.tail_items as nat,
            },
            ReplayOutcome::Unchanged => Replaying::Unchanged,
            ReplayOutcome::Discarded(reason) => Replaying::Discarded(reason),
        }
    }
}

// ---------------------------------------------------------------------------
// Shape and eviction
// ---------------------------------------------------------------------------

/// Why a compaction item cannot be used with a request, for reasons that do not
/// lie in the history that it covers. `items` are the conversation, or what of it
/// follows the compaction item.
pub open spec fn shape_problem(
    state: Context,
    asked: request::Request,
    items: Seq<request::Item>,
) -> Option<DiscardReason> {
    if state.model != asked.model {
        Some(DiscardReason::ModelChanged)
    } else if state.prompt_signature != canonical::signature(asked) {
        Some(DiscardReason::PromptChanged)
    } else if history::has_compaction(items) {
        Some(DiscardReason::ForeignCompaction)
    } else if digests(history::envelope(asked.input)) != state.envelope {
        Some(DiscardReason::EnvelopeChanged)
    } else {
        None
    }
}

/// Why a compaction item cannot be used with a request.
fn check_shape(
    state: &ContextState,
    body: &ResponsesRequest,
    envelope: &[ResponsesInputItem],
    conversation: &[ResponsesInputItem],
) -> (checked: Result<(), DiscardReason>)
    requires
        model::views(envelope@) == history::envelope(body@.input),
    ensures
        match checked {
            Ok(_) => shape_problem(state@, body@, model::views(conversation@)) is None,
            Err(reason) => shape_problem(state@, body@, model::views(conversation@)) == Some(
                reason,
            ),
        },
{
    if !text::same_text(state.model.as_str(), body.model.as_str()) {
        return Err(DiscardReason::ModelChanged);
    }
    let signature: String = prompt_signature(body);
    if !text::same_text(state.prompt_signature.as_str(), signature.as_str()) {
        return Err(DiscardReason::PromptChanged);
    }
    if contains_compaction(conversation) {
        return Err(DiscardReason::ForeignCompaction);
    }
    if !have_digests(envelope, state.envelope.as_slice()) {
        return Err(DiscardReason::EnvelopeChanged);
    }
    Ok(())
}

/// What is stored and fresh, after the oldest have gone to keep to the limits.
pub open spec fn settled(states: Seq<(request::Identity, Context)>, now: u64) -> Seq<
    (request::Identity, Context),
> {
    table::evicted::<ConversationIdentity, ContextState>(
        table::fresh::<ConversationIdentity, ContextState>(states, now, STATE_TTL_MS),
        MAX_STATES as nat,
        MAX_TOTAL_STATE_BYTES as nat,
    )
}

proof fn lemma_part_is_admissible(
    part: Seq<(request::Identity, Context)>,
    whole: Seq<(request::Identity, Context)>,
)
    requires
        table::part_of(part, whole),
        all_admissible(whole),
    ensures
        all_admissible(part),
{
    assert forall|i: int| 0 <= i < part.len() implies admissible((#[trigger] part[i]).1) by {
        assert(whole.contains(part[i]));
        let k = choose|k: int| 0 <= k < whole.len() && whole[k] == part[i];
        assert(admissible(whole[k].1));
    }
}

proof fn lemma_settled(states: Seq<(request::Identity, Context)>, now: u64)
    requires
        table::distinct(states),
    ensures
        table::part_of(settled(states, now), states),
        settled(states, now).len() <= MAX_STATES,
        table::total::<ConversationIdentity, ContextState>(settled(states, now))
            <= MAX_TOTAL_STATE_BYTES,
{
    let left = table::fresh::<ConversationIdentity, ContextState>(states, now, STATE_TTL_MS);
    table::lemma_fresh::<ConversationIdentity, ContextState>(states, now, STATE_TTL_MS);
    table::eviction_keeps_the_limits::<ConversationIdentity, ContextState>(
        left,
        MAX_STATES as nat,
        MAX_TOTAL_STATE_BYTES as nat,
    );
    table::lemma_part_of_part(settled(states, now), left, states);
}

/// The same with other compaction items.
pub open spec fn with_states(
    contexts: Contexts,
    states: Seq<(request::Identity, Context)>,
) -> Contexts {
    Contexts { states, ..contexts }
}

/// Drops what is stale, and the oldest until the limits are kept.
fn evict_states(registry: &mut ContextRegistry, now: u64)
    requires
        table::distinct(old(registry)@.states),
        all_admissible(old(registry)@.states),
        table::distinct(old(registry)@.turns),
    ensures
        final(registry).wf(),
        final(registry)@ == with_states(old(registry)@, settled(old(registry)@.states, now)),
{
    proof {
        lemma_settled(registry.states@, now);
        lemma_part_is_admissible(settled(registry.states@, now), registry.states@);
    }
    registry.states.keep_fresh(now, STATE_TTL_MS);
    registry.states.evict(MAX_STATES, MAX_TOTAL_STATE_BYTES);
}

/// Takes the compaction item of an owner out.
fn remove_state(registry: &mut ContextRegistry, owner: &ConversationIdentity) -> (taken: Option<
    ContextState,
>)
    requires
        old(registry).wf(),
    ensures
        final(registry).wf(),
        final(registry)@ == with_states(
            old(registry)@,
            table::without(old(registry)@.states, owner@),
        ),
        model::seen(taken) == table::lookup(old(registry)@.states, owner@),
{
    proof {
        table::lemma_total_without::<ConversationIdentity, ContextState>(
            registry.states@,
            owner@,
        );
        table::lemma_without_len(registry.states@, owner@);
        lemma_part_is_admissible(table::without(registry.states@, owner@), registry.states@);
    }
    registry.states.take(owner)
}

/// The compaction item with the time at which it was used last.
pub open spec fn used(state: Context, now: u64) -> Context {
    Context { updated_at: now, ..state }
}

/// Notes that the compaction item of an owner has been used.
fn touch_state(registry: &mut ContextRegistry, owner: &ConversationIdentity, now: u64)
    requires
        old(registry).wf(),
        table::lookup(old(registry)@.states, owner@) is Some,
    ensures
        final(registry).wf(),
        final(registry)@ == with_states(
            old(registry)@,
            table::with(
                old(registry)@.states,
                owner@,
                used(table::lookup(old(registry)@.states, owner@)->0, now),
            ),
        ),
{
    let ghost states = registry@.states;
    proof {
        table::lemma_without_twice(states, owner@);
        table::lemma_total_without::<ConversationIdentity, ContextState>(states, owner@);
        table::lemma_without_found_len(states, owner@);
        table::lemma_found(states, owner@);
        let i = choose|i: int|
            0 <= i < states.len() && states[i] == (owner@, table::lookup(states, owner@)->0);
        assert(admissible(states[i].1));
    }
    if let Some(state) = remove_state(registry, owner) {
        let state: ContextState = ContextState {
            model: state.model,
            prompt_signature: state.prompt_signature,
            envelope: state.envelope,
            covered: state.covered,
            encrypted_content: state.encrypted_content,
            updated_at: now,
        };
        proof {
            table::lemma_total_push::<ConversationIdentity, ContextState>(
                table::without(states, owner@),
                (owner@, state@),
            );
        }
        registry.states.put(owner.duplicate(), state);
    }
}

// ---------------------------------------------------------------------------
// Replay
// ---------------------------------------------------------------------------

/// The input in which a compaction item stands in place of the first items of the
/// conversation.
pub open spec fn replayed_input(
    input: Seq<request::Item>,
    encrypted_content: Seq<char>,
    covered: int,
) -> Seq<request::Item> {
    history::envelope(input).push(request::Item::Compaction { encrypted_content })
        + history::conversation(input).skip(covered)
}

/// Whether a conversation begins with items that have the given digests.
pub open spec fn begins_with_digests(
    items: Seq<request::Item>,
    covered: Seq<Seq<u8>>,
) -> bool {
    covered.len() <= items.len() && digests(items.take(covered.len() as int)) == covered
}

/// What comes of a request for whose owner a compaction item is stored. The item
/// is put in where model, prompt and envelope are the same, no other compaction
/// item stands in the conversation, and the conversation begins with exactly what
/// the item covers and goes on from there.
pub open spec fn replaying(state: Context, asked: request::Request) -> Replaying {
    let conversation = history::conversation(asked.input);
    match shape_problem(state, asked, conversation) {
        Some(reason) => Replaying::Discarded(reason),
        None => if !begins_with_digests(conversation, state.covered) {
            Replaying::Discarded(DiscardReason::NotAppendOnly)
        } else if conversation.len() == state.covered.len() {
            Replaying::Unchanged
        } else {
            Replaying::Replayed {
                request: request::Request {
                    input: replayed_input(
                        asked.input,
                        state.encrypted_content,
                        state.covered.len() as int,
                    ),
                    ..asked
                },
                covered_items: state.covered.len(),
                tail_items: (conversation.len() - state.covered.len()) as nat,
            }
        },
    }
}

/// What comes of a request.
pub open spec fn outcome_of(
    contexts: Contexts,
    owner: Option<request::Identity>,
    asked: request::Request,
    now: u64,
) -> Replaying {
    match owner {
        None => Replaying::Unchanged,
        Some(identity) => match table::lookup(settled(contexts.states, now), identity) {
            None => Replaying::Unchanged,
            Some(state) => replaying(state, asked),
        },
    }
}

/// What is stored after a request has come.
pub open spec fn after_request(
    contexts: Contexts,
    owner: Option<request::Identity>,
    asked: request::Request,
    now: u64,
) -> Contexts {
    match owner {
        None => contexts,
        Some(identity) => {
            let states = settled(contexts.states, now);
            with_states(
                contexts,
                match table::lookup(states, identity) {
                    None => states,
                    Some(state) => match replaying(state, asked) {
                        Replaying::Discarded(_) => table::without(states, identity),
                        Replaying::Unchanged => states,
                        Replaying::Replayed { .. } => table::with(
                            states,
                            identity,
                            used(state, now),
                        ),
                    },
                },
            )
        },
    }
}

/// What comes of a request for whose owner a compaction item is stored.
fn replay_with(state: &ContextState, body: &ResponsesRequest) -> (outcome: ReplayOutcome)
    ensures
        outcome@ == replaying(state@, body@),
{
    let (envelope, conversation) = split_input_envelope(body.input.as_slice());
    let ghost items = model::views(conversation@);
    assert(items.len() == conversation@.len());
    if let Err(reason) = check_shape(state, body, envelope, conversation) {
        return ReplayOutcome::Discarded(reason);
    }
    let covered_items: usize = state.covered.len();
    assert(state@.covered.len() == covered_items);
    if conversation.len() < covered_items {
        return ReplayOutcome::Discarded(DiscardReason::NotAppendOnly);
    }
    let head: &[ResponsesInputItem] = vstd::slice::slice_subrange(conversation, 0, covered_items);
    let tail: &[ResponsesInputItem] = vstd::slice::slice_subrange(
        conversation,
        covered_items,
        conversation.len(),
    );
    assert(model::views(head@) =~= items.take(covered_items as int));
    assert(model::views(tail@) =~= items.skip(covered_items as int));
    if !have_digests(head, state.covered.as_slice()) {
        return ReplayOutcome::Discarded(DiscardReason::NotAppendOnly);
    }
    if tail.len() == 0 {
        return ReplayOutcome::Unchanged;
    }
    let mut input: Vec<ResponsesInputItem> = model::duplicates(envelope);
    let ghost before = model::views(input@);
    input.push(
        ResponsesInputItem::Compaction { encrypted_content: state.encrypted_content.clone() },
    );
    assert(model::views(input@) =~= before.push(
        request::Item::Compaction { encrypted_content: state.encrypted_content@ },
    ));
    model::append_duplicates(&mut input, tail);
    let mut replayed: ResponsesRequest = body.without_input();
    replayed.input = input;
    ReplayOutcome::Replayed(
        Box::new(ContextReplay { request: replayed, covered_items, tail_items: tail.len() }),
    )
}

/// Puts the stored compaction item in place of the history that it covers, where
/// the request begins with exactly that history and goes on from there.
pub fn apply_context_replay(
    registry: &mut ContextRegistry,
    owner: Option<&ConversationIdentity>,
    request: &ResponsesRequest,
    now: u64,
) -> (outcome: ReplayOutcome)
    requires
        old(registry).wf(),
    ensures
        final(registry).wf(),
        final(registry)@ == after_request(old(registry)@, model::seen(owner), request@, now),
        outcome@ == outcome_of(old(registry)@, model::seen(owner), request@, now),
{
    let owner: &ConversationIdentity = match owner {
        Some(owner) => owner,
        None => {
            return ReplayOutcome::Unchanged;
        },
    };
    evict_states(registry, now);
    let outcome: ReplayOutcome = match registry.states.get(owner) {
        Some(state) => replay_with(state, request),
        None => {
            return ReplayOutcome::Unchanged;
        },
    };
    match &outcome {
        ReplayOutcome::Discarded(_) => {
            let _ = remove_state(registry, owner);
        },
        ReplayOutcome::Unchanged => {},
        ReplayOutcome::Replayed(_) => {
            touch_state(registry, owner, now);
        },
    }
    outcome
}

// ---------------------------------------------------------------------------
// Turns
// ---------------------------------------------------------------------------

/// The newest turn of an owner.
pub open spec fn newest_turn(contexts: Contexts, owner: request::Identity) -> Option<u64> {
    table::lookup(contexts.turns, owner)
}

/// Whether a turn of an owner has been followed by a newer one.
pub open spec fn superseded(
    contexts: Contexts,
    owner: request::Identity,
    turn: Option<u64>,
) -> bool {
    newest_turn(contexts, owner) is Some && newest_turn(contexts, owner) != turn
}

/// What is known after a turn of an owner has begun.
pub open spec fn begun(contexts: Contexts, owner: request::Identity) -> Contexts {
    Contexts {
        turns: table::with(contexts.turns, owner, contexts.next_turn),
        next_turn: table::following(contexts.next_turn),
        ..contexts
    }
}

/// Begins a turn of an owner. It is the owner's newest. The number of the newest turn
/// is kept of every owner, since a turn may take any time.
pub fn begin_context_turn(registry: &mut ContextRegistry, owner: &ConversationIdentity) -> (turn:
    u64)
    requires
        old(registry).wf(),
    ensures
        final(registry).wf(),
        final(registry)@ == begun(old(registry)@, owner@),
        turn == old(registry)@.next_turn,
{
    let number: u64 = registry.next_turn;
    registry.next_turn = number.wrapping_add(1);
    registry.turns.put(owner.duplicate(), TurnState { number });
    number
}

// ---------------------------------------------------------------------------
// Capture
// ---------------------------------------------------------------------------

/// The compaction item that a request was sent with: the first item of its
/// conversation, where that is one.
pub open spec fn sent_blob(asked: request::Request) -> Option<Seq<char>> {
    let conversation = history::conversation(asked.input);
    if conversation.len() > 0 {
        match conversation[0] {
            request::Item::Compaction { encrypted_content } => Some(encrypted_content),
            _ => None,
        }
    } else {
        None
    }
}

/// The conversation of a request but for the compaction item that it was sent
/// with.
pub open spec fn sent_tail(asked: request::Request) -> Seq<request::Item> {
    if sent_blob(asked) is Some {
        history::conversation(asked.input).skip(1)
    } else {
        history::conversation(asked.input)
    }
}

/// The items but for the compaction items among them, which are no part of the
/// history that a client sends.
pub open spec fn without_compactions(items: Seq<request::Item>) -> Seq<request::Item>
    decreases items.len(),
{
    if items.len() == 0 {
        items
    } else if items.last() is Compaction {
        without_compactions(items.drop_last())
    } else {
        without_compactions(items.drop_last()).push(items.last())
    }
}

/// The output that was emitted before a compaction item, where that can be told:
/// the item has a position in the output.
pub open spec fn output_before(
    output: Seq<request::Item>,
    position: Option<usize>,
) -> Option<Seq<request::Item>> {
    match position {
        Some(at) => if at <= output.len() {
            Some(without_compactions(output.take(at as int)))
        } else {
            None
        },
        None => None,
    }
}

/// The digests of what a new compaction item covers: the history that the item
/// covers that the request was sent with, the rest of the conversation, and the
/// output that came before the new item.
pub open spec fn covered_by(
    before: Seq<Seq<u8>>,
    asked: request::Request,
    output: Seq<request::Item>,
) -> Seq<Seq<u8>> {
    before + digests(sent_tail(asked)) + digests(output)
}

/// A new compaction item, with what it can be used for.
pub open spec fn new_context(
    asked: request::Request,
    covered: Seq<Seq<u8>>,
    encrypted_content: Seq<char>,
    now: u64,
) -> Context {
    Context {
        model: asked.model,
        prompt_signature: canonical::signature(asked),
        envelope: digests(history::envelope(asked.input)),
        covered,
        encrypted_content,
        updated_at: now,
    }
}

/// What is stored, and what is said of it, once a turn has given a new compaction
/// item. Only the newest turn of an owner stores one. `before` are the digests of what
/// the item covers that the turn was sent with.
pub open spec fn storing(
    states: Seq<(request::Identity, Context)>,
    owner: request::Identity,
    newest: bool,
    asked: request::Request,
    before: Seq<Seq<u8>>,
    output: Option<Seq<request::Item>>,
    encrypted_content: Seq<char>,
    now: u64,
) -> (Seq<(request::Identity, Context)>, CaptureOutcome) {
    match output {
        None => (table::without(states, owner), CaptureOutcome::Refused),
        Some(emitted) => {
            let covered = covered_by(before, asked, emitted);
            if text::utf8_len(encrypted_content) > MAX_BLOB_BYTES || covered.len()
                > MAX_COVERED_ITEMS {
                (
                    table::without(states, owner),
                    CaptureOutcome::Discarded(DiscardReason::TooLarge),
                )
            } else if !newest {
                (states, CaptureOutcome::Superseded)
            } else {
                let kept = settled(
                    table::with(
                        states,
                        owner,
                        new_context(asked, covered, encrypted_content, now),
                    ),
                    now,
                );
                (
                    kept,
                    if table::lookup(kept, owner) is Some {
                        CaptureOutcome::Captured {
                            covered_items: covered.len() as usize,
                            blob_bytes: text::utf8_len(encrypted_content) as usize,
                            chained: sent_blob(asked) is Some,
                        }
                    } else {
                        CaptureOutcome::Discarded(DiscardReason::TooLarge)
                    },
                )
            }
        },
    }
}

/// What is stored, and what is said of it, once a turn of an owner is complete.
pub open spec fn capturing(
    states: Seq<(request::Identity, Context)>,
    owner: request::Identity,
    newest: bool,
    asked: request::Request,
    output: Option<Seq<request::Item>>,
    encrypted_content: Option<Seq<char>>,
    now: u64,
) -> (Seq<(request::Identity, Context)>, CaptureOutcome) {
    match sent_blob(asked) {
        Some(sent) => match table::lookup(states, owner) {
            None => (states, CaptureOutcome::Discarded(DiscardReason::ReplayMismatch)),
            Some(state) => if state.encrypted_content != sent || shape_problem(
                state,
                asked,
                sent_tail(asked),
            ) is Some {
                (
                    table::without(states, owner),
                    CaptureOutcome::Discarded(DiscardReason::ReplayMismatch),
                )
            } else {
                match encrypted_content {
                    None => (
                        table::with(states, owner, used(state, now)),
                        CaptureOutcome::Retained,
                    ),
                    Some(content) => storing(
                        states,
                        owner,
                        newest,
                        asked,
                        state.covered,
                        output,
                        content,
                        now,
                    ),
                }
            },
        },
        None => match encrypted_content {
            None => (states, CaptureOutcome::Skipped),
            Some(content) => storing(
                states,
                owner,
                newest,
                asked,
                Seq::empty(),
                output,
                content,
                now,
            ),
        },
    }
}

/// What is stored, and what is said of it, once a turn is complete.
pub open spec fn captured(
    contexts: Contexts,
    owner: Option<request::Identity>,
    turn: Option<u64>,
    asked: request::Request,
    output: Option<Seq<request::Item>>,
    encrypted_content: Option<Seq<char>>,
    now: u64,
) -> (Contexts, CaptureOutcome) {
    match owner {
        None => (contexts, CaptureOutcome::Skipped),
        Some(identity) => if history::has_compaction(sent_tail(asked)) {
            (contexts, CaptureOutcome::Skipped)
        } else {
            let (states, outcome) = capturing(
                settled(contexts.states, now),
                identity,
                !superseded(contexts, identity, turn),
                asked,
                output,
                encrypted_content,
                now,
            );
            (with_states(contexts, states), outcome)
        },
    }
}

/// Whether a turn of an owner has been followed by a newer one.
fn is_superseded(
    registry: &ContextRegistry,
    owner: &ConversationIdentity,
    turn: Option<u64>,
) -> (answer: bool)
    requires
        registry.wf(),
    ensures
        answer == superseded(registry@, owner@, turn),
{
    match (registry.turns.get(owner), turn) {
        (Some(newest), Some(number)) => newest.number != number,
        (Some(_), None) => true,
        (None, _) => false,
    }
}

/// Stores a new compaction item, where it comes from the newest turn.
fn store_context(
    registry: &mut ContextRegistry,
    owner: &ConversationIdentity,
    newest: bool,
    body: &ResponsesRequest,
    tail: &[ResponsesInputItem],
    before: Vec<ItemDigest>,
    output: Option<&[ResponsesInputItem]>,
    encrypted_content: &str,
    chained: bool,
    now: u64,
) -> (outcome: CaptureOutcome)
    requires
        old(registry).wf(),
        model::views(tail@) == sent_tail(body@),
        chained == (sent_blob(body@) is Some),
    ensures
        final(registry).wf(),
        final(registry)@ == with_states(
            old(registry)@,
            storing(
                old(registry)@.states,
                owner@,
                newest,
                body@,
                model::views(before@),
                seen_slice(output),
                encrypted_content@,
                now,
            ).0,
        ),
        outcome == storing(
            old(registry)@.states,
            owner@,
            newest,
            body@,
            model::views(before@),
            seen_slice(output),
            encrypted_content@,
            now,
        ).1,
{
    let emitted: &[ResponsesInputItem] = match output {
        Some(emitted) => emitted,
        None => {
            let _ = remove_state(registry, owner);
            return CaptureOutcome::Refused;
        },
    };
    let mut covered: Vec<ItemDigest> = before;
    append_digests(&mut covered, tail);
    append_digests(&mut covered, emitted);
    let ghost all = covered_by(model::views(before@), body@, model::views(emitted@));
    assert(model::views(covered@) == all);
    assert(all.len() == covered@.len());
    let blob_bytes: usize = text::byte_length(encrypted_content);
    let covered_items: usize = covered.len();
    if blob_bytes > MAX_BLOB_BYTES || covered_items > MAX_COVERED_ITEMS {
        let _ = remove_state(registry, owner);
        return CaptureOutcome::Discarded(DiscardReason::TooLarge);
    }
    if !newest {
        return CaptureOutcome::Superseded;
    }
    let (envelope, _) = split_input_envelope(body.input.as_slice());
    let mut envelope_digests: Vec<ItemDigest> = Vec::new();
    append_digests(&mut envelope_digests, envelope);
    assert(model::views(envelope_digests@) =~= digests(history::envelope(body@.input)));
    let state: ContextState = ContextState {
        model: body.model.clone(),
        prompt_signature: prompt_signature(body),
        envelope: envelope_digests,
        covered,
        encrypted_content: encrypted_content.to_owned(),
        updated_at: now,
    };
    proof {
        table::lemma_total_without::<ConversationIdentity, ContextState>(
            registry.states@,
            owner@,
        );
        lemma_part_is_admissible(table::without(registry.states@, owner@), registry.states@);
    }
    registry.states.put(owner.duplicate(), state);
    evict_states(registry, now);
    if registry.states.get(owner).is_some() {
        CaptureOutcome::Captured { covered_items, blob_bytes, chained }
    } else {
        CaptureOutcome::Discarded(DiscardReason::TooLarge)
    }
}

/// The items that may be there.
pub open spec fn seen_slice(items: Option<&[ResponsesInputItem]>) -> Option<Seq<request::Item>> {
    match items {
        Some(v) => Some(model::views(v@)),
        None => None,
    }
}

/// The output that was emitted before a compaction item, where that can be told.
fn emitted_before(output: &[ResponsesInputItem], position: Option<usize>) -> (emitted: Option<
    Vec<ResponsesInputItem>,
>)
    ensures
        match emitted {
            Some(items) => output_before(model::views(output@), position) == Some(
                model::views(items@),
            ),
            None => output_before(model::views(output@), position) is None,
        },
{
    let at: usize = match position {
        Some(at) if at <= output.len() => at,
        _ => {
            return None;
        },
    };
    let ghost all = model::views(output@);
    let mut items: Vec<ResponsesInputItem> = Vec::new();
    let mut i: usize = 0;
    assert(model::views(items@) =~= without_compactions(all.take(0)));
    while i < at
        invariant
            i <= at <= output@.len(),
            all == model::views(output@),
            model::views(items@) == without_compactions(all.take(i as int)),
        decreases at - i,
    {
        let ghost before = model::views(items@);
        proof {
            let taken = all.take(i + 1);
            assert(taken.drop_last() =~= all.take(i as int));
            assert(taken.last() == output@[i as int]@);
        }
        if !matches!(output[i], ResponsesInputItem::Compaction { .. }) {
            let copy: ResponsesInputItem = output[i].duplicate();
            items.push(copy);
            assert(model::views(items@) =~= before.push(output@[i as int]@));
        }
        i = i + 1;
    }
    Some(items)
}

/// Records the compaction item that a completed turn produced, under what it
/// covers: the conversation that the request carried and the output emitted
/// before the item.
///
/// `request` is what was sent upstream. Where it was itself sent with a stored
/// item, the new item covers the history of the old one too. `position` says how
/// much of `output` was emitted before the item. `turn` is the number that the
/// owner's turn was given when it began, and nothing for an owner of which no turn
/// has begun.
pub fn capture_context_blob(
    registry: &mut ContextRegistry,
    owner: Option<&ConversationIdentity>,
    turn: Option<u64>,
    request: &ResponsesRequest,
    output: &[ResponsesInputItem],
    position: Option<usize>,
    encrypted_content: Option<&str>,
    now: u64,
) -> (outcome: CaptureOutcome)
    requires
        old(registry).wf(),
    ensures
        final(registry).wf(),
        final(registry)@ == captured(
            old(registry)@,
            model::seen(owner),
            turn,
            request@,
            output_before(model::views(output@), position),
            model::seen(encrypted_content),
            now,
        ).0,
        outcome == captured(
            old(registry)@,
            model::seen(owner),
            turn,
            request@,
            output_before(model::views(output@), position),
            model::seen(encrypted_content),
            now,
        ).1,
{
    let owner: &ConversationIdentity = match owner {
        Some(owner) => owner,
        None => {
            return CaptureOutcome::Skipped;
        },
    };
    let newest: bool = !is_superseded(registry, owner, turn);
    let (envelope, conversation) = split_input_envelope(request.input.as_slice());
    let ghost items = model::views(conversation@);
    assert(items.len() == conversation@.len());
    let mut sent: Option<&String> = None;
    let mut tail: &[ResponsesInputItem] = conversation;
    if conversation.len() > 0 {
        assert(items[0] == conversation@[0]@);
        if let ResponsesInputItem::Compaction { encrypted_content } = &conversation[0] {
            sent = Some(encrypted_content);
            tail = vstd::slice::slice_subrange(conversation, 1, conversation.len());
            assert(model::views(tail@) =~= items.skip(1));
        }
    }
    if contains_compaction(tail) {
        return CaptureOutcome::Skipped;
    }
    let before_item: Option<Vec<ResponsesInputItem>> = emitted_before(output, position);
    let emitted: Option<&[ResponsesInputItem]> = match &before_item {
        Some(items) => Some(items.as_slice()),
        None => None,
    };
    evict_states(registry, now);
    match sent {
        Some(sent) => {
            let (known, matching, before) = match registry.states.get(owner) {
                Some(state) => (
                    true,
                    text::same_text(state.encrypted_content.as_str(), sent.as_str())
                        && check_shape(state, request, envelope, tail).is_ok(),
                    model::duplicates(state.covered.as_slice()),
                ),
                None => (false, false, Vec::new()),
            };
            if !known {
                return CaptureOutcome::Discarded(DiscardReason::ReplayMismatch);
            }
            if !matching {
                let _ = remove_state(registry, owner);
                return CaptureOutcome::Discarded(DiscardReason::ReplayMismatch);
            }
            match encrypted_content {
                None => {
                    touch_state(registry, owner, now);
                    CaptureOutcome::Retained
                },
                Some(content) => store_context(
                    registry,
                    owner,
                    newest,
                    request,
                    tail,
                    before,
                    emitted,
                    content,
                    true,
                    now,
                ),
            }
        },
        None => match encrypted_content {
            None => CaptureOutcome::Skipped,
            Some(content) => {
                let before: Vec<ItemDigest> = Vec::new();
                assert(model::views(before@) =~= Seq::<Seq<u8>>::empty());
                store_context(
                    registry,
                    owner,
                    newest,
                    request,
                    tail,
                    before,
                    emitted,
                    content,
                    false,
                    now,
                )
            },
        },
    }
}

// ---------------------------------------------------------------------------
// Clearing
// ---------------------------------------------------------------------------

/// Drops what is stored of every owner that belongs to a session, its agents
/// among them.
pub fn clear_session_context(registry: &mut ContextRegistry, session_id: &str)
    requires
        old(registry).wf(),
    ensures
        final(registry).wf(),
        final(registry)@ == with_states(
            old(registry)@,
            table::outside_session::<ConversationIdentity, Context>(
                old(registry)@.states,
                session_id@,
            ),
        ),
{
    proof {
        table::lemma_outside_session_total::<ConversationIdentity, ContextState>(
            registry.states@,
            session_id@,
        );
        table::lemma_outside_session::<ConversationIdentity, Context>(
            registry.states@,
            session_id@,
        );
        lemma_part_is_admissible(
            table::outside_session::<ConversationIdentity, Context>(
                registry.states@,
                session_id@,
            ),
            registry.states@,
        );
    }
    registry.states.drop_session(session_id);
}

/// Drops all that is stored. Turns go on.
pub fn clear_all_context_management_for_tests(registry: &mut ContextRegistry)
    requires
        old(registry).wf(),
    ensures
        final(registry).wf(),
        final(registry)@.states == Seq::<(request::Identity, Context)>::empty(),
        final(registry)@.turns == old(registry)@.turns,
        final(registry)@.next_turn == old(registry)@.next_turn,
{
    registry.states = Table::new();
}

// ---------------------------------------------------------------------------
// What holds of the registry
// ---------------------------------------------------------------------------

/// The limits hold of every registry: so many compaction items at most, so many
/// bytes at most, and no owner twice.
pub proof fn registries_keep_the_limits(registry: ContextRegistry)
    requires
        registry.wf(),
    ensures
        valid(registry@),
{
}

proof fn lemma_settled_lookup(
    states: Seq<(request::Identity, Context)>,
    now: u64,
    owner: request::Identity,
)
    requires
        table::distinct(states),
    ensures
        table::lookup(settled(states, now), owner) is None || table::lookup(
            settled(states, now),
            owner,
        ) == table::lookup(states, owner),
        table::distinct(settled(states, now)),
{
    lemma_settled(states, now);
    table::part_holds_no_more(settled(states, now), states, owner);
}

proof fn lemma_settled_within_limits(
    states: Seq<(request::Identity, Context)>,
    now: u64,
    owner: request::Identity,
)
    requires
        table::distinct(states),
        states.len() <= MAX_STATES,
        table::total::<ConversationIdentity, ContextState>(states) <= MAX_TOTAL_STATE_BYTES,
        table::lookup(states, owner) is Some,
        table::age(now, table::lookup(states, owner)->0.updated_at) <= STATE_TTL_MS,
    ensures
        table::lookup(settled(states, now), owner) == table::lookup(states, owner),
{
    table::lemma_fresh_total::<ConversationIdentity, ContextState>(states, now, STATE_TTL_MS);
    table::only_fresh_entries_stay::<ConversationIdentity, ContextState>(
        states,
        now,
        STATE_TTL_MS,
        owner,
    );
}

/// Settling drops what is stale. Of what is fresh it lets go only where a limit is
/// exceeded, the oldest first and no more than it has to, and it leaves the others as
/// they were.
pub proof fn the_oldest_items_are_let_go(states: Seq<(request::Identity, Context)>, now: u64)
    requires
        table::distinct(states),
    ensures
        ({
            let fresh = table::fresh::<ConversationIdentity, ContextState>(
                states,
                now,
                STATE_TTL_MS,
            );
            let left = settled(states, now);
            &&& left.len() <= MAX_STATES
            &&& table::total::<ConversationIdentity, ContextState>(left) <= MAX_TOTAL_STATE_BYTES
            &&& table::part_of(left, states)
            &&& forall|i: int|
                0 <= i < left.len() ==> table::age(now, (#[trigger] left[i]).1.updated_at)
                    <= STATE_TTL_MS
            &&& fresh.len() <= MAX_STATES && table::total::<ConversationIdentity, ContextState>(
                fresh,
            ) <= MAX_TOTAL_STATE_BYTES ==> left == fresh
            &&& forall|i: int, j: int|
                0 <= i < fresh.len() && !left.contains(#[trigger] fresh[i]) && 0 <= j < left.len()
                    ==> fresh[i].1.updated_at <= (#[trigger] left[j]).1.updated_at
            &&& left == fresh || exists|i: int|
                0 <= i < fresh.len() && !left.contains(#[trigger] fresh[i]) && (left.len() + 1
                    > MAX_STATES || table::total::<ConversationIdentity, ContextState>(left)
                    + context_bytes(fresh[i].0, fresh[i].1) > MAX_TOTAL_STATE_BYTES)
        }),
{
    let fresh = table::fresh::<ConversationIdentity, ContextState>(states, now, STATE_TTL_MS);
    let left = settled(states, now);
    lemma_settled(states, now);
    table::lemma_fresh::<ConversationIdentity, ContextState>(states, now, STATE_TTL_MS);
    table::eviction_keeps_the_limits::<ConversationIdentity, ContextState>(
        fresh,
        MAX_STATES as nat,
        MAX_TOTAL_STATE_BYTES as nat,
    );
    table::eviction_goes_no_further_than_needed::<ConversationIdentity, ContextState>(
        fresh,
        MAX_STATES as nat,
        MAX_TOTAL_STATE_BYTES as nat,
    );
    assert forall|i: int| 0 <= i < left.len() implies table::age(
        now,
        (#[trigger] left[i]).1.updated_at,
    ) <= STATE_TTL_MS by {
        table::lemma_fresh_entry::<ConversationIdentity, ContextState>(
            states,
            now,
            STATE_TTL_MS,
            left[i],
        );
    }
}

/// A compaction item is put in only for the owner for whom it was stored, under
/// the same model, prompt and envelope, and only where the conversation begins
/// with items that have exactly the digests of what it covers, holds no other
/// compaction item and goes on from there. Nothing but that history changes.
pub proof fn only_covered_history_is_replaced(
    contexts: Contexts,
    owner: request::Identity,
    asked: request::Request,
    now: u64,
)
    requires
        valid(contexts),
        outcome_of(contexts, Some(owner), asked, now) is Replayed,
    ensures
        table::lookup(contexts.states, owner) is Some,
        ({
            let state = table::lookup(contexts.states, owner)->0;
            let conversation = history::conversation(asked.input);
            let covered = state.covered.len() as int;
            &&& state.model == asked.model
            &&& state.prompt_signature == canonical::signature(asked)
            &&& state.envelope == digests(history::envelope(asked.input))
            &&& !history::has_compaction(conversation)
            &&& covered < conversation.len()
            &&& digests(conversation.take(covered)) == state.covered
            &&& outcome_of(contexts, Some(owner), asked, now) == Replaying::Replayed {
                request: request::Request {
                    input: history::envelope(asked.input).push(
                        request::Item::Compaction { encrypted_content: state.encrypted_content },
                    ) + conversation.skip(covered),
                    ..asked
                },
                covered_items: covered as nat,
                tail_items: (conversation.len() - covered) as nat,
            }
        }),
{
    lemma_settled_lookup(contexts.states, now, owner);
}

/// Whether two items are told apart by their digests if they differ in the form in
/// which items are compared.
pub open spec fn told_apart(a: request::Item, b: request::Item) -> bool {
    digest(a) == digest(b) ==> encode_utf8(digested_text(a)) == encode_utf8(digested_text(b))
}

/// Where items are told apart by their digests, a conversation that begins with
/// the digests of a history begins with items equivalent to those of that history.
pub proof fn covered_history_is_matched(items: Seq<request::Item>, covered: Seq<request::Item>)
    requires
        begins_with_digests(items, digests(covered)),
        forall|i: int|
            0 <= i < covered.len() ==> told_apart(items[i], #[trigger] covered[i])
                && canonical::proper_item(items[i]) && canonical::proper_item(covered[i]),
    ensures
        canonical::begins_with(items, covered),
{
    let head = items.take(digests(covered).len() as int);
    assert(digests(covered).len() == covered.len());
    assert forall|i: int| 0 <= i < covered.len() implies canonical::equivalent(
        #[trigger] items[i],
        covered[i],
    ) by {
        assert(digests(head)[i] == digests(covered)[i]);
        assert(head[i] == items[i]);
        assert(told_apart(items[i], covered[i]));
        encode_utf8_decode_utf8(digested_text(items[i]));
        encode_utf8_decode_utf8(digested_text(covered[i]));
        canonical::same_texts_mean_equivalent_items(items[i], covered[i]);
    }
}

/// Equivalent items have the same digest, unless a negative zero stands in one of
/// them.
pub proof fn equivalent_items_share_their_digest(a: request::Item, b: request::Item)
    requires
        canonical::equivalent(a, b),
        !json_laws::has_negative_zero(canonical::canonical(a)),
        !json_laws::has_negative_zero(canonical::canonical(b)),
    ensures
        digest(a) == digest(b),
{
    json_laws::same_values_have_same_stable_text(canonical::canonical(a), canonical::canonical(b));
}

/// A discarded compaction item is gone: the next request of the owner is sent as
/// it is.
pub proof fn discarded_items_are_gone(
    contexts: Contexts,
    owner: request::Identity,
    asked: request::Request,
    now: u64,
    next: request::Request,
    later: u64,
)
    requires
        valid(contexts),
        outcome_of(contexts, Some(owner), asked, now) is Discarded,
    ensures
        outcome_of(
            after_request(contexts, Some(owner), asked, now),
            Some(owner),
            next,
            later,
        ) is Unchanged,
{
    let states = settled(contexts.states, now);
    lemma_settled_lookup(contexts.states, now, owner);
    table::taking_out_touches_one_key(states, owner, owner);
    table::lemma_total_without::<ConversationIdentity, ContextState>(states, owner);
    lemma_settled_lookup(table::without(states, owner), later, owner);
}

/// A turn that has been followed by a newer one stores no item. It is answered as the
/// newest turn would be, unless its item would be stored: it is then refused as
/// superseded, and what is stored and fresh stays as it is.
pub proof fn only_the_newest_turn_stores(
    contexts: Contexts,
    owner: request::Identity,
    turn: Option<u64>,
    asked: request::Request,
    output: Option<Seq<request::Item>>,
    encrypted_content: Option<Seq<char>>,
    now: u64,
)
    requires
        superseded(contexts, owner, turn),
    ensures
        ({
            let older = captured(
                contexts,
                Some(owner),
                turn,
                asked,
                output,
                encrypted_content,
                now,
            );
            let newest = captured(
                contexts,
                Some(owner),
                newest_turn(contexts, owner),
                asked,
                output,
                encrypted_content,
                now,
            );
            &&& !(older.1 is Captured)
            &&& newest.1 is Captured ==> older.1 is Superseded
            &&& older.1 is Superseded ==> older.0 == with_states(
                contexts,
                settled(contexts.states, now),
            )
            &&& !(older.1 is Superseded) ==> older == newest
        }),
{
}

/// A turn that was sent with the stored compaction item and gives no new one keeps the
/// item, even where a newer turn has begun.
pub proof fn replayed_turns_keep_the_item(
    contexts: Contexts,
    owner: request::Identity,
    turn: Option<u64>,
    asked: request::Request,
    output: Option<Seq<request::Item>>,
    now: u64,
)
    requires
        !history::has_compaction(sent_tail(asked)),
        sent_blob(asked) is Some,
        ({
            let stored = table::lookup(settled(contexts.states, now), owner);
            &&& stored is Some
            &&& stored->0.encrypted_content == sent_blob(asked)->0
            &&& shape_problem(stored->0, asked, sent_tail(asked)) is None
        }),
    ensures
        ({
            let (after, outcome) = captured(
                contexts,
                Some(owner),
                turn,
                asked,
                output,
                None,
                now,
            );
            &&& outcome is Retained
            &&& table::lookup(after.states, owner) == Some(
                used(table::lookup(settled(contexts.states, now), owner)->0, now),
            )
        }),
{
    let states = settled(contexts.states, now);
    table::putting_in_touches_one_key(
        states,
        owner,
        used(table::lookup(states, owner)->0, now),
        owner,
    );
}

/// A turn that has begun is the owner's newest, and the newest turn of every other
/// owner stays what it was.
pub proof fn begun_turns_are_newest(
    contexts: Contexts,
    owner: request::Identity,
    other: request::Identity,
)
    ensures
        newest_turn(begun(contexts, owner), owner) == Some(contexts.next_turn),
        other != owner ==> newest_turn(begun(contexts, owner), other) == newest_turn(
            contexts,
            other,
        ),
{
    table::putting_in_touches_one_key(contexts.turns, owner, contexts.next_turn, other);
}

/// What can happen to what is stored.
pub enum Event {
    Begun { owner: request::Identity },
    Asked { owner: Option<request::Identity>, asked: request::Request, now: u64 },
    Completed {
        owner: Option<request::Identity>,
        turn: Option<u64>,
        asked: request::Request,
        output: Option<Seq<request::Item>>,
        encrypted_content: Option<Seq<char>>,
        now: u64,
    },
    SessionCleared { session: Seq<char> },
    AllCleared,
}

/// What is stored after something has happened.
pub open spec fn after_event(contexts: Contexts, event: Event) -> Contexts {
    match event {
        Event::Begun { owner } => begun(contexts, owner),
        Event::Asked { owner, asked, now } => after_request(contexts, owner, asked, now),
        Event::Completed { owner, turn, asked, output, encrypted_content, now } => captured(
            contexts,
            owner,
            turn,
            asked,
            output,
            encrypted_content,
            now,
        ).0,
        Event::SessionCleared { session } => with_states(
            contexts,
            table::outside_session::<ConversationIdentity, Context>(contexts.states, session),
        ),
        Event::AllCleared => with_states(contexts, Seq::empty()),
    }
}

/// What is stored after one thing has happened after the other.
pub open spec fn after_events(contexts: Contexts, events: Seq<Event>) -> Contexts
    decreases events.len(),
{
    if events.len() == 0 {
        contexts
    } else {
        after_event(after_events(contexts, events.drop_last()), events.last())
    }
}

/// How many turns begin.
pub open spec fn beginnings(events: Seq<Event>) -> nat
    decreases events.len(),
{
    if events.len() == 0 {
        0
    } else {
        beginnings(events.drop_last()) + if events.last() is Begun {
            1nat
        } else {
            0
        }
    }
}

proof fn lemma_turns_count_up(contexts: Contexts, events: Seq<Event>)
    requires
        contexts.next_turn + beginnings(events) <= u64::MAX,
    ensures
        after_events(contexts, events).next_turn == contexts.next_turn + beginnings(events),
    decreases events.len(),
{
    if events.len() > 0 {
        lemma_turns_count_up(contexts, events.drop_last());
    }
}

/// Until the numbers start again, a number that a turn was given is given to no later
/// turn of any owner, whatever happens in between.
pub proof fn turn_numbers_are_given_once(
    contexts: Contexts,
    owner: request::Identity,
    events: Seq<Event>,
)
    requires
        contexts.next_turn + 1 + beginnings(events) <= u64::MAX,
    ensures
        contexts.next_turn < after_events(begun(contexts, owner), events).next_turn,
{
    lemma_turns_count_up(begun(contexts, owner), events);
}

/// Once a turn has begun, every earlier turn of its owner is superseded, whatever
/// happens from then on, until the numbers start again.
pub proof fn earlier_turns_stay_superseded(
    contexts: Contexts,
    owner: request::Identity,
    earlier: u64,
    events: Seq<Event>,
)
    requires
        earlier < contexts.next_turn,
        contexts.next_turn + 1 + beginnings(events) <= u64::MAX,
    ensures
        superseded(after_events(begun(contexts, owner), events), owner, Some(earlier)),
{
    lemma_newest_turns_go_up(contexts, owner, events);
}

proof fn lemma_newest_turns_go_up(contexts: Contexts, owner: request::Identity, events: Seq<Event>)
    requires
        contexts.next_turn + 1 + beginnings(events) <= u64::MAX,
    ensures
        newest_turn(after_events(begun(contexts, owner), events), owner) matches Some(turn)
            && turn >= contexts.next_turn,
    decreases events.len(),
{
    if events.len() == 0 {
        begun_turns_are_newest(contexts, owner, owner);
    } else {
        let before = after_events(begun(contexts, owner), events.drop_last());
        lemma_newest_turns_go_up(contexts, owner, events.drop_last());
        lemma_turns_count_up(begun(contexts, owner), events.drop_last());
        if let Event::Begun { owner: other } = events.last() {
            begun_turns_are_newest(before, other, owner);
        }
    }
}

/// A completed turn is skipped exactly if nothing is known of its owner, a compaction
/// item stands behind the first item of its conversation, or it was sent without one
/// and gave none.
pub proof fn what_is_skipped(
    contexts: Contexts,
    owner: Option<request::Identity>,
    turn: Option<u64>,
    asked: request::Request,
    output: Option<Seq<request::Item>>,
    encrypted_content: Option<Seq<char>>,
    now: u64,
)
    ensures
        (captured(contexts, owner, turn, asked, output, encrypted_content, now).1 is Skipped) == (
        owner is None || history::has_compaction(sent_tail(asked)) || (sent_blob(asked) is None
            && encrypted_content is None)),
{
}

/// A turn that is skipped leaves the outcome of every later request as it was, and
/// what is stored after it, for every owner.
pub proof fn skipped_turns_change_no_outcome(
    contexts: Contexts,
    owner: Option<request::Identity>,
    turn: Option<u64>,
    asked: request::Request,
    output: Option<Seq<request::Item>>,
    encrypted_content: Option<Seq<char>>,
    now: u64,
    other: Option<request::Identity>,
    next: request::Request,
    later: u64,
)
    requires
        valid(contexts),
        captured(contexts, owner, turn, asked, output, encrypted_content, now).1 is Skipped,
        now <= later,
    ensures
        ({
            let after = captured(
                contexts,
                owner,
                turn,
                asked,
                output,
                encrypted_content,
                now,
            ).0;
            &&& outcome_of(after, other, next, later) == outcome_of(contexts, other, next, later)
            &&& other is Some ==> after_request(after, other, next, later) == after_request(
                contexts,
                other,
                next,
                later,
            )
        }),
{
    table::lemma_fresh_total::<ConversationIdentity, ContextState>(
        contexts.states,
        now,
        STATE_TTL_MS,
    );
    table::lemma_fresh_later::<ConversationIdentity, ContextState>(
        contexts.states,
        now,
        later,
        STATE_TTL_MS,
    );
}

/// What the history that a captured compaction item covers is: the history of the
/// item that the turn was sent with, if any, the rest of the conversation, and the
/// output that came before the item.
pub open spec fn captured_history(
    contexts: Contexts,
    owner: request::Identity,
    asked: request::Request,
    output: Seq<request::Item>,
    now: u64,
) -> Seq<Seq<u8>> {
    covered_by(
        match sent_blob(asked) {
            Some(_) => table::lookup(settled(contexts.states, now), owner)->0.covered,
            None => Seq::empty(),
        },
        asked,
        output,
    )
}

/// A captured compaction item is stored under exactly the history that it covers.
pub proof fn captured_items_are_stored(
    contexts: Contexts,
    owner: request::Identity,
    turn: Option<u64>,
    asked: request::Request,
    output: Seq<request::Item>,
    encrypted_content: Seq<char>,
    now: u64,
)
    requires
        valid(contexts),
        captured(
            contexts,
            Some(owner),
            turn,
            asked,
            Some(output),
            Some(encrypted_content),
            now,
        ).1 is Captured,
    ensures
        table::lookup(
            captured(
                contexts,
                Some(owner),
                turn,
                asked,
                Some(output),
                Some(encrypted_content),
                now,
            ).0.states,
            owner,
        ) == Some(
            new_context(
                asked,
                captured_history(contexts, owner, asked, output, now),
                encrypted_content,
                now,
            ),
        ),
{
    let states = settled(contexts.states, now);
    let state = new_context(
        asked,
        captured_history(contexts, owner, asked, output, now),
        encrypted_content,
        now,
    );
    lemma_settled_lookup(contexts.states, now, owner);
    table::with_keeps_keys_distinct(states, owner, state);
    table::putting_in_touches_one_key(states, owner, state, owner);
    lemma_settled_lookup(table::with(states, owner, state), now, owner);
}

/// What is stored once an item has been captured keeps to what is always so.
pub proof fn lemma_captured_is_valid(
    contexts: Contexts,
    owner: request::Identity,
    turn: Option<u64>,
    asked: request::Request,
    output: Seq<request::Item>,
    encrypted_content: Seq<char>,
    now: u64,
)
    requires
        valid(contexts),
        captured(
            contexts,
            Some(owner),
            turn,
            asked,
            Some(output),
            Some(encrypted_content),
            now,
        ).1 is Captured,
    ensures
        valid(
            captured(
                contexts,
                Some(owner),
                turn,
                asked,
                Some(output),
                Some(encrypted_content),
                now,
            ).0,
        ),
{
    let states = settled(contexts.states, now);
    let state = new_context(
        asked,
        captured_history(contexts, owner, asked, output, now),
        encrypted_content,
        now,
    );
    let changed = table::with(states, owner, state);
    lemma_settled(contexts.states, now);
    lemma_part_is_admissible(states, contexts.states);
    table::lemma_total_without::<ConversationIdentity, ContextState>(states, owner);
    lemma_part_is_admissible(table::without(states, owner), states);
    table::with_keeps_keys_distinct(states, owner, state);
    assert(all_admissible(changed));
    lemma_settled(changed, now);
    lemma_part_is_admissible(settled(changed, now), changed);
}

/// The compaction item of an owner's newest turn is captured where what it covers can be told,
/// it does not take too many bytes nor cover too many items, and there is room for it
/// beside what is fresh of other owners. A turn that was sent with a stored item has to
/// have been sent with the one that is stored.
pub proof fn items_are_captured_where_there_is_room(
    contexts: Contexts,
    owner: request::Identity,
    turn: Option<u64>,
    asked: request::Request,
    output: Seq<request::Item>,
    encrypted_content: Seq<char>,
    now: u64,
)
    requires
        valid(contexts),
        !superseded(contexts, owner, turn),
        !history::has_compaction(sent_tail(asked)),
        sent_blob(asked) matches Some(sent) ==> {
            let stored = table::lookup(settled(contexts.states, now), owner);
            &&& stored is Some
            &&& stored->0.encrypted_content == sent
            &&& shape_problem(stored->0, asked, sent_tail(asked)) is None
        },
        ({
            let others = table::without(settled(contexts.states, now), owner);
            let state = new_context(
                asked,
                captured_history(contexts, owner, asked, output, now),
                encrypted_content,
                now,
            );
            &&& admissible(state)
            &&& others.len() < MAX_STATES
            &&& table::total::<ConversationIdentity, ContextState>(others) + context_bytes(
                owner,
                state,
            ) <= MAX_TOTAL_STATE_BYTES
        }),
    ensures
        captured(
            contexts,
            Some(owner),
            turn,
            asked,
            Some(output),
            Some(encrypted_content),
            now,
        ).1 == (CaptureOutcome::Captured {
            covered_items: captured_history(contexts, owner, asked, output, now).len() as usize,
            blob_bytes: text::utf8_len(encrypted_content) as usize,
            chained: sent_blob(asked) is Some,
        }),
{
    let states = settled(contexts.states, now);
    let state = new_context(
        asked,
        captured_history(contexts, owner, asked, output, now),
        encrypted_content,
        now,
    );
    lemma_settled_lookup(contexts.states, now, owner);
    table::with_keeps_keys_distinct(states, owner, state);
    table::putting_in_touches_one_key(states, owner, state, owner);
    table::lemma_total_push::<ConversationIdentity, ContextState>(
        table::without(states, owner),
        (owner, state),
    );
    lemma_settled_within_limits(table::with(states, owner, state), now, owner);
}

/// The input with a compaction item in it splits where the input did, and its
/// conversation begins with the item.
proof fn lemma_replayed_input_splits(
    input: Seq<request::Item>,
    encrypted_content: Seq<char>,
    covered: int,
)
    requires
        0 <= covered <= history::conversation(input).len(),
    ensures
        history::envelope(replayed_input(input, encrypted_content, covered)) == history::envelope(
            input,
        ),
        history::conversation(replayed_input(input, encrypted_content, covered)) == seq![
            request::Item::Compaction { encrypted_content },
        ] + history::conversation(input).skip(covered),
{
    let behind = seq![request::Item::Compaction { encrypted_content }] + history::conversation(
        input,
    ).skip(covered);
    history::splitting_loses_nothing(input);
    history::joining_is_undone_by_splitting(history::envelope(input), behind);
    assert(replayed_input(input, encrypted_content, covered) =~= history::envelope(input)
        + behind);
}

/// What follows in a conversation without compaction items holds none either.
proof fn lemma_tail_has_no_compaction(conversation: Seq<request::Item>, covered: int)
    requires
        0 <= covered <= conversation.len(),
        !history::has_compaction(conversation),
    ensures
        !history::has_compaction(conversation.skip(covered)),
{
    let tail = conversation.skip(covered);
    if history::has_compaction(tail) {
        let i = choose|i: int| 0 <= i < tail.len() && (#[trigger] tail[i]) is Compaction;
        assert(conversation[covered + i] is Compaction);
    }
}

/// The digests of a conversation are those of its two parts.
#[verifier::spinoff_prover]
proof fn lemma_digests_split(conversation: Seq<request::Item>, covered: int)
    requires
        0 <= covered <= conversation.len(),
    ensures
        digests(conversation) == digests(conversation.take(covered)) + digests(
            conversation.skip(covered),
        ),
{
    let all = digests(conversation);
    let first = digests(conversation.take(covered));
    let rest = digests(conversation.skip(covered));
    let joined = first + rest;
    assert(joined.len() == all.len());
    assert forall|i: int| 0 <= i < all.len() implies all[i] == joined[i] by {
        assert(all[i] == digest(conversation[i]));
        if i < covered {
            assert(conversation.take(covered)[i] == conversation[i]);
            assert(joined[i] == first[i]);
        } else {
            assert(conversation.skip(covered)[i - covered] == conversation[i]);
            assert(joined[i] == rest[i - covered]);
        }
    }
    assert(all =~= joined);
}

/// A turn that was sent with a stored compaction item is recognised as such when it
/// is complete, and a new item that it gives covers the full history of the client
/// and the output that came before the item, though the request did not carry it.
pub proof fn chained_items_cover_the_full_history(
    state: Context,
    asked: request::Request,
    output: Seq<request::Item>,
)
    requires
        replaying(state, asked) is Replayed,
    ensures
        ({
            let sent = replaying(state, asked)->request;
            &&& sent_blob(sent) == Some(state.encrypted_content)
            &&& shape_problem(state, sent, sent_tail(sent)) is None
            &&& !history::has_compaction(sent_tail(sent))
            &&& covered_by(state.covered, sent, output) == digests(
                history::conversation(asked.input),
            ) + digests(output)
        }),
{
    let sent = replaying(state, asked)->request;
    let conversation = history::conversation(asked.input);
    let covered = state.covered.len() as int;
    let tail = conversation.skip(covered);
    lemma_replayed_input_splits(asked.input, state.encrypted_content, covered);
    assert(sent_tail(sent) =~= tail);
    lemma_tail_has_no_compaction(conversation, covered);
    canonical::signature_ignores_the_input(asked, sent);
    lemma_digests_split(conversation, covered);
}

/// A turn that was sent with another compaction item than the one that is stored
/// stores nothing, and what is stored is discarded.
pub proof fn mismatched_replays_discard_the_item(
    contexts: Contexts,
    owner: request::Identity,
    turn: Option<u64>,
    asked: request::Request,
    output: Option<Seq<request::Item>>,
    encrypted_content: Option<Seq<char>>,
    now: u64,
)
    requires
        !history::has_compaction(sent_tail(asked)),
        sent_blob(asked) is Some,
        match table::lookup(settled(contexts.states, now), owner) {
            Some(state) => state.encrypted_content != sent_blob(asked)->0,
            None => true,
        },
    ensures
        ({
            let (after, outcome) = captured(
                contexts,
                Some(owner),
                turn,
                asked,
                output,
                encrypted_content,
                now,
            );
            &&& outcome == CaptureOutcome::Discarded(DiscardReason::ReplayMismatch)
            &&& table::lookup(after.states, owner) is None
        }),
{
    table::taking_out_touches_one_key(settled(contexts.states, now), owner, owner);
}

/// A captured compaction item is put into every later request of the owner that
/// comes in time, has the same model, prompt and envelope, and whose conversation,
/// free of other compaction items, begins with exactly the history that the item
/// covers and goes on from there.
pub proof fn captured_items_are_replayed(
    contexts: Contexts,
    owner: request::Identity,
    turn: Option<u64>,
    asked: request::Request,
    output: Seq<request::Item>,
    encrypted_content: Seq<char>,
    now: u64,
    next: request::Request,
    later: u64,
)
    requires
        valid(contexts),
        captured(
            contexts,
            Some(owner),
            turn,
            asked,
            Some(output),
            Some(encrypted_content),
            now,
        ).1 is Captured,
        table::age(later, now) <= STATE_TTL_MS,
        next.model == asked.model,
        canonical::signature(next) == canonical::signature(asked),
        digests(history::envelope(next.input)) == digests(history::envelope(asked.input)),
        !history::has_compaction(history::conversation(next.input)),
        begins_with_digests(
            history::conversation(next.input),
            captured_history(contexts, owner, asked, output, now),
        ),
        history::conversation(next.input).len() > captured_history(
            contexts,
            owner,
            asked,
            output,
            now,
        ).len(),
    ensures
        ({
            let after = captured(
                contexts,
                Some(owner),
                turn,
                asked,
                Some(output),
                Some(encrypted_content),
                now,
            ).0;
            let covered = captured_history(contexts, owner, asked, output, now).len();
            outcome_of(after, Some(owner), next, later) == Replaying::Replayed {
                request: request::Request {
                    input: replayed_input(next.input, encrypted_content, covered as int),
                    ..next
                },
                covered_items: covered,
                tail_items: (history::conversation(next.input).len() - covered) as nat,
            }
        }),
{
    captured_items_are_stored(contexts, owner, turn, asked, output, encrypted_content, now);
    let states = settled(contexts.states, now);
    let state = new_context(
        asked,
        captured_history(contexts, owner, asked, output, now),
        encrypted_content,
        now,
    );
    lemma_settled_lookup(contexts.states, now, owner);
    table::with_keeps_keys_distinct(states, owner, state);
    lemma_settled(table::with(states, owner, state), now);
    lemma_settled_within_limits(
        settled(table::with(states, owner, state), now),
        later,
        owner,
    );
}

/// Where it cannot be told what a compaction item covers, nothing is stored, and
/// the next request of the owner is sent as it is.
pub proof fn unplaced_items_are_refused(
    contexts: Contexts,
    owner: request::Identity,
    turn: Option<u64>,
    asked: request::Request,
    encrypted_content: Seq<char>,
    now: u64,
    next: request::Request,
    later: u64,
)
    requires
        valid(contexts),
        sent_blob(asked) is None,
        !history::has_compaction(sent_tail(asked)),
    ensures
        ({
            let (after, outcome) = captured(
                contexts,
                Some(owner),
                turn,
                asked,
                None,
                Some(encrypted_content),
                now,
            );
            &&& outcome is Refused
            &&& outcome_of(after, Some(owner), next, later) is Unchanged
        }),
{
    let states = settled(contexts.states, now);
    lemma_settled_lookup(contexts.states, now, owner);
    table::taking_out_touches_one_key(states, owner, owner);
    table::lemma_total_without::<ConversationIdentity, ContextState>(states, owner);
    lemma_settled_lookup(table::without(states, owner), later, owner);
}

/// A request that the covered history is all of is sent as it is, and the
/// compaction item is kept for the next one.
pub proof fn repeated_requests_keep_the_item(
    contexts: Contexts,
    owner: request::Identity,
    asked: request::Request,
    now: u64,
)
    requires
        valid(contexts),
        table::lookup(settled(contexts.states, now), owner) is Some,
        outcome_of(contexts, Some(owner), asked, now) is Unchanged,
    ensures
        table::lookup(after_request(contexts, Some(owner), asked, now).states, owner)
            == table::lookup(settled(contexts.states, now), owner),
{
}

/// Clearing a session drops what is stored of the session and of its agents, and
/// leaves what is stored of every other session as it was.
pub proof fn clearing_a_session_spares_the_others(
    contexts: Contexts,
    session: Seq<char>,
    owner: request::Identity,
)
    ensures
        table::lookup(
            table::outside_session::<ConversationIdentity, Context>(contexts.states, session),
            owner,
        ) == if request::session_of(owner) == session {
            None
        } else {
            table::lookup(contexts.states, owner)
        },
{
    table::dropping_a_session_spares_the_others::<ConversationIdentity, Context>(
        contexts.states,
        session,
        owner,
    );
}

/// What one owner does leaves what is stored of every other owner as it was,
/// except that it may go because it is stale or to keep to the limits.
pub proof fn owners_do_not_interfere(
    contexts: Contexts,
    owner: request::Identity,
    other: request::Identity,
    turn: Option<u64>,
    asked: request::Request,
    output: Option<Seq<request::Item>>,
    encrypted_content: Option<Seq<char>>,
    now: u64,
)
    requires
        valid(contexts),
        other != owner,
    ensures
        same_or_gone(contexts, after_request(contexts, Some(owner), asked, now), other),
        same_or_gone(
            contexts,
            captured(contexts, Some(owner), turn, asked, output, encrypted_content, now).0,
            other,
        ),
        same_or_gone(contexts, begun(contexts, owner), other),
{
    let states = settled(contexts.states, now);
    lemma_settled_lookup(contexts.states, now, other);
    table::taking_out_touches_one_key(states, owner, other);
    assert forall|state: Context| #[trigger]
        table::lookup(settled(table::with(states, owner, state), now), other) is None
            || table::lookup(settled(table::with(states, owner, state), now), other)
            == table::lookup(states, other) by {
        table::with_keeps_keys_distinct(states, owner, state);
        table::putting_in_touches_one_key(states, owner, state, other);
        lemma_settled_lookup(table::with(states, owner, state), now, other);
    }
    assert forall|state: Context| #[trigger]
        table::lookup(table::with(states, owner, state), other) == table::lookup(
            states,
            other,
        ) by {
        table::putting_in_touches_one_key(states, owner, state, other);
    }
}

/// Whether what is stored of an owner is as it was before, or gone.
pub open spec fn same_or_gone(
    before: Contexts,
    after: Contexts,
    owner: request::Identity,
) -> bool {
    table::lookup(after.states, owner) is None || table::lookup(after.states, owner)
        == table::lookup(before.states, owner)
}

} // verus!
