//! Which stored response a request may continue.
//!
//! Every conversation has an owner. A turn of an owner is reserved before its
//! request is sent, and only the turn that was reserved last may publish what a
//! later turn can continue.

use crate::canonical;
use crate::canonical::{input_suffix_after_prefix, prompt_signature};
use crate::json;
use crate::model;
use crate::model::Duplicate;
use crate::request;
use crate::request::{ConversationIdentity, ResponsesInputItem, ResponsesRequest, serialized_size};
use crate::table;
use crate::table::{Stored, Table};
use crate::text;
use vstd::prelude::*;
use vstd::string::*;

verus! {

/// How long, in milliseconds, a stored response can be continued.
pub const TTL_MS: u64 = 30 * 60 * 1000;

/// How many owners are kept.
pub const MAX_STATES: usize = 10_000;

/// How many bytes the transcript of one owner may take.
pub const MAX_OWNER_TRANSCRIPT_BYTES: u64 = 2_000_000;

/// How many bytes all transcripts together may take.
pub const MAX_TOTAL_TRANSCRIPT_BYTES: u64 = 20_000_000;

// ---------------------------------------------------------------------------
// Model
// ---------------------------------------------------------------------------

/// What a later turn can continue.
pub struct Continuation {
    pub response_id: Seq<char>,
    pub socket_id: u64,
    pub prompt_signature: Seq<char>,
    pub transcript: Seq<request::Item>,
    pub transcript_bytes: u64,
    pub updated_at: u64,
}

/// What is known of an owner.
pub struct Ownership {
    pub current_turn: u64,
    pub continuation: Option<Continuation>,
    pub updated_at: u64,
}

/// What is known of all owners, and the number of the next turn.
pub struct Ledger {
    pub owners: Seq<(request::Identity, Ownership)>,
    pub next_turn: u64,
}

/// What a turn may continue, or why it may not.
pub struct Candidate {
    pub turn_id: Option<u64>,
    pub previous_response_id: Option<Seq<char>>,
    pub input_delta: Option<Seq<request::Item>>,
    pub input_delta_count: nat,
    pub disabled_reason: Option<Seq<char>>,
}

/// A turn that was reserved.
pub struct Reservation {
    pub candidate: Candidate,
    pub owner: Option<request::Identity>,
    pub origin_socket_id: Option<u64>,
}

// ---------------------------------------------------------------------------
// State
// ---------------------------------------------------------------------------

struct ContinuationState {
    response_id: String,
    socket_id: u64,
    prompt_signature: String,
    transcript: Vec<ResponsesInputItem>,
    transcript_bytes: u64,
    updated_at: u64,
}

/// What is known of an owner.
pub struct OwnerState {
    current_turn: u64,
    continuation: Option<ContinuationState>,
    updated_at: u64,
}

impl View for ContinuationState {
    type V = Continuation;

    closed spec fn view(&self) -> Continuation {
        Continuation {
            response_id: self.response_id@,
            socket_id: self.socket_id,
            prompt_signature: self.prompt_signature@,
            transcript: model::views(self.transcript@),
            transcript_bytes: self.transcript_bytes,
            updated_at: self.updated_at,
        }
    }
}

impl View for OwnerState {
    type V = Ownership;

    closed spec fn view(&self) -> Ownership {
        Ownership {
            current_turn: self.current_turn,
            continuation: model::seen(self.continuation),
            updated_at: self.updated_at,
        }
    }
}

/// How many bytes the transcript of an owner takes.
pub open spec fn owner_bytes(owner: Ownership) -> u64 {
    match owner.continuation {
        Some(continuation) => continuation.transcript_bytes,
        None => 0,
    }
}

impl Stored<ConversationIdentity> for OwnerState {
    open spec fn stamp(value: Ownership) -> u64 {
        value.updated_at
    }

    open spec fn weight(key: request::Identity, value: Ownership) -> nat {
        owner_bytes(value) as nat
    }

    fn stamp_of(&self) -> (stamp: u64) {
        self.updated_at
    }

    fn weight_of(key: &ConversationIdentity, value: &Self) -> (weight: usize) {
        let bytes: u64 = value.transcript_bytes();
        if bytes > usize::MAX as u64 {
            usize::MAX
        } else {
            bytes as usize
        }
    }
}

impl OwnerState {
    /// How many bytes the transcript takes.
    fn transcript_bytes(&self) -> (bytes: u64)
        ensures
            bytes == owner_bytes(self@),
    {
        match &self.continuation {
            Some(continuation) => continuation.transcript_bytes,
            None => 0,
        }
    }
}

/// How many bytes the transcripts of all owners take.
pub open spec fn transcript_total(owners: Seq<(request::Identity, Ownership)>) -> nat {
    table::total::<ConversationIdentity, OwnerState>(owners)
}

/// Whether a stored response may be there: it came over a known socket, and its
/// transcript is as large as it says and no larger than is allowed.
pub open spec fn admissible(owner: Ownership) -> bool {
    owner.continuation matches Some(continuation) ==> {
        &&& continuation.socket_id != 0
        &&& continuation.transcript_bytes == request::items_bytes(continuation.transcript)
        &&& continuation.transcript_bytes <= MAX_OWNER_TRANSCRIPT_BYTES
    }
}

/// Whether a ledger keeps to what is always so: no owner stands twice, there are
/// not too many, and what is stored of each is admissible and not too large
/// together.
pub open spec fn valid(ledger: Ledger) -> bool {
    &&& table::distinct(ledger.owners)
    &&& ledger.owners.len() <= MAX_STATES
    &&& transcript_total(ledger.owners) <= MAX_TOTAL_TRANSCRIPT_BYTES
    &&& all_admissible(ledger.owners)
}

/// Whether what is stored of every owner is admissible.
pub open spec fn all_admissible(owners: Seq<(request::Identity, Ownership)>) -> bool {
    forall|i: int| 0 <= i < owners.len() ==> admissible((#[trigger] owners[i]).1)
}

/// The owners of conversations and what each of them can continue.
pub struct ContinuationRegistry {
    owners: Table<ConversationIdentity, OwnerState>,
    total_transcript_bytes: u64,
    next_turn: u64,
}

impl View for ContinuationRegistry {
    type V = Ledger;

    closed spec fn view(&self) -> Ledger {
        Ledger { owners: self.owners@, next_turn: self.next_turn }
    }
}

impl ContinuationRegistry {
    /// Whether the registry is as it should be: it is valid, and the running
    /// total is the size of all transcripts.
    pub closed spec fn wf(&self) -> bool {
        &&& valid(self@)
        &&& self.total_transcript_bytes == transcript_total(self.owners@)
    }
}

// ---------------------------------------------------------------------------
// Candidates and reservations
// ---------------------------------------------------------------------------

/// What a turn may continue, or why it may not.
#[derive(Debug)]
pub struct ContinuationCandidate {
    pub turn_id: Option<u64>,
    pub previous_response_id: Option<String>,
    pub input_delta: Option<Vec<ResponsesInputItem>>,
    pub input_delta_count: usize,
    pub disabled_reason: Option<String>,
}

/// The items that may be there.
pub open spec fn seen_items(items: Option<Vec<ResponsesInputItem>>) -> Option<
    Seq<request::Item>,
> {
    match items {
        Some(v) => Some(model::views(v@)),
        None => None,
    }
}

impl View for ContinuationCandidate {
    type V = Candidate;

    open spec fn view(&self) -> Candidate {
        Candidate {
            turn_id: self.turn_id,
            previous_response_id: model::seen(self.previous_response_id),
            input_delta: seen_items(self.input_delta),
            input_delta_count: self.input_delta_count as nat,
            disabled_reason: model::seen(self.disabled_reason),
        }
    }
}

impl Clone for ContinuationCandidate {
    fn clone(&self) -> (copy: Self)
        ensures
            copy@ == self@,
    {
        let input_delta: Option<Vec<ResponsesInputItem>> = match &self.input_delta {
            Some(items) => Some(model::duplicates(items.as_slice())),
            None => None,
        };
        ContinuationCandidate {
            turn_id: self.turn_id,
            previous_response_id: model::duplicate_option(&self.previous_response_id),
            input_delta,
            input_delta_count: self.input_delta_count,
            disabled_reason: model::duplicate_option(&self.disabled_reason),
        }
    }
}

/// A turn that was reserved.
#[derive(Debug)]
pub struct ContinuationReservation {
    candidate: ContinuationCandidate,
    owner: Option<ConversationIdentity>,
    origin_socket_id: Option<u64>,
}

impl View for ContinuationReservation {
    type V = Reservation;

    closed spec fn view(&self) -> Reservation {
        Reservation {
            candidate: self.candidate@,
            owner: model::seen(self.owner),
            origin_socket_id: self.origin_socket_id,
        }
    }
}

/// A candidate that continues nothing, with the reason why.
pub open spec fn declined(turn_id: Option<u64>, count: nat, reason: Seq<char>) -> Candidate {
    Candidate {
        turn_id,
        previous_response_id: None,
        input_delta: None,
        input_delta_count: count,
        disabled_reason: Some(reason),
    }
}

/// A candidate that continues nothing, with the reason why.
fn decline(turn_id: Option<u64>, count: usize, reason: &str) -> (candidate: ContinuationCandidate)
    ensures
        candidate@ == declined(turn_id, count as nat, reason@),
{
    ContinuationCandidate {
        turn_id,
        previous_response_id: None,
        input_delta: None,
        input_delta_count: count,
        disabled_reason: Some(reason.to_owned()),
    }
}

/// A copy of an owner that may be there.
fn duplicate_owner(owner: Option<&ConversationIdentity>) -> (copy: Option<ConversationIdentity>)
    ensures
        model::seen(copy) == model::seen(owner),
{
    match owner {
        Some(identity) => Some(identity.duplicate()),
        None => None,
    }
}

impl ContinuationReservation {
    /// A reservation of what is given.
    pub fn new(
        candidate: ContinuationCandidate,
        owner: Option<ConversationIdentity>,
        origin_socket_id: Option<u64>,
    ) -> (reservation: Self)
        ensures
            reservation@ == (Reservation {
                candidate: candidate@,
                owner: model::seen(owner),
                origin_socket_id,
            }),
    {
        ContinuationReservation { candidate, owner, origin_socket_id }
    }

    /// A reservation without an owner.
    pub fn from_public_candidate(candidate: &ContinuationCandidate) -> (reservation: Self)
        ensures
            reservation@ == (Reservation {
                candidate: candidate@,
                owner: None,
                origin_socket_id: None,
            }),
    {
        ContinuationReservation::new(candidate.clone(), None, None)
    }

    /// A reservation that says no more than who owns which turn.
    pub fn for_owner_turn(
        owner: Option<&ConversationIdentity>,
        turn_id: Option<u64>,
    ) -> (reservation: Self)
        ensures
            reservation@ == (Reservation {
                candidate: Candidate {
                    turn_id,
                    previous_response_id: None,
                    input_delta: None,
                    input_delta_count: 0,
                    disabled_reason: None,
                },
                owner: model::seen(owner),
                origin_socket_id: None,
            }),
    {
        ContinuationReservation::new(
            ContinuationCandidate {
                turn_id,
                previous_response_id: None,
                input_delta: None,
                input_delta_count: 0,
                disabled_reason: None,
            },
            duplicate_owner(owner),
            None,
        )
    }

    /// What the turn may continue.
    pub fn candidate(&self) -> (candidate: &ContinuationCandidate)
        ensures
            candidate@ == self@.candidate,
    {
        &self.candidate
    }

    /// Who the turn belongs to.
    pub fn owner(&self) -> (owner: Option<&ConversationIdentity>)
        ensures
            model::seen(owner) == self@.owner,
    {
        match &self.owner {
            Some(identity) => Some(identity),
            None => None,
        }
    }

    /// The number of the turn.
    pub fn turn_id(&self) -> (turn_id: Option<u64>)
        ensures
            turn_id == self@.candidate.turn_id,
    {
        self.candidate.turn_id
    }

    /// The socket over which the response came that the turn continues.
    pub fn origin_socket_id(&self) -> (socket_id: Option<u64>)
        ensures
            socket_id == self@.origin_socket_id,
    {
        self.origin_socket_id
    }

    /// What the turn may continue.
    pub fn into_candidate(self) -> (candidate: ContinuationCandidate)
        ensures
            candidate@ == self@.candidate,
    {
        self.candidate
    }

    /// The same turn with its full input and nothing to continue.
    pub fn full_context_retry(&self) -> (reservation: Self)
        ensures
            reservation@ == (Reservation {
                candidate: Candidate {
                    previous_response_id: None,
                    input_delta: None,
                    disabled_reason: Some("full_context_retry"@),
                    ..self@.candidate
                },
                owner: self@.owner,
                origin_socket_id: None,
            }),
    {
        let mut candidate: ContinuationCandidate = self.candidate.clone();
        candidate.previous_response_id = None;
        candidate.input_delta = None;
        candidate.disabled_reason = Some("full_context_retry".to_owned());
        ContinuationReservation::new(candidate, model::duplicate_option(&self.owner), None)
    }
}

impl Clone for ContinuationReservation {
    fn clone(&self) -> (copy: Self)
        ensures
            copy@ == self@,
    {
        ContinuationReservation {
            candidate: self.candidate.clone(),
            owner: model::duplicate_option(&self.owner),
            origin_socket_id: self.origin_socket_id,
        }
    }
}

/// The owner that stands for a session itself.
pub open spec fn session_owner(session_id: Option<Seq<char>>) -> Option<request::Identity> {
    match session_id {
        Some(session) => Some(request::Identity::Main(session)),
        None => None,
    }
}

/// The owner that stands for a session itself.
fn owner_of_session(session_id: Option<&str>) -> (owner: Option<ConversationIdentity>)
    ensures
        model::seen(owner) == session_owner(model::seen(session_id)),
{
    match session_id {
        Some(session) => Some(ConversationIdentity::Main(session.to_owned())),
        None => None,
    }
}

// ---------------------------------------------------------------------------
// Reserving a turn
// ---------------------------------------------------------------------------

/// The owners after the oldest have gone to keep to the limits.
pub open spec fn trimmed_owners(owners: Seq<(request::Identity, Ownership)>) -> Seq<
    (request::Identity, Ownership),
> {
    table::evicted::<ConversationIdentity, OwnerState>(
        owners,
        MAX_STATES as nat,
        MAX_TOTAL_TRANSCRIPT_BYTES as nat,
    )
}

/// The ledger after a turn has been reserved for an owner: it is the owner's
/// current turn, and what the owner had stored is gone.
pub open spec fn reserved(ledger: Ledger, owner: request::Identity, now: u64) -> Ledger {
    Ledger {
        owners: trimmed_owners(
            table::with(
                ledger.owners,
                owner,
                Ownership {
                    current_turn: ledger.next_turn,
                    continuation: None,
                    updated_at: now,
                },
            ),
        ),
        next_turn: table::following(ledger.next_turn),
    }
}

/// What a turn may continue, given what its owner had stored and whether the
/// owner had a turn before.
pub open spec fn candidate_from(
    turn_id: u64,
    body: request::Request,
    state: Option<Continuation>,
    superseded: bool,
    now: u64,
) -> (Candidate, Option<u64>) {
    let all = body.input.len();
    match state {
        Some(stored) if table::age(now, stored.updated_at) <= TTL_MS => {
            if canonical::signature(body) != stored.prompt_signature {
                (declined(Some(turn_id), all, "prompt_changed"@), None)
            } else {
                match canonical::suffix_after(body.input, stored.transcript) {
                    None => (declined(Some(turn_id), all, "not_append_only"@), None),
                    Some(suffix) => if suffix.len() == 0 {
                        (declined(Some(turn_id), 0, "empty_delta"@), None)
                    } else {
                        (
                            Candidate {
                                turn_id: Some(turn_id),
                                previous_response_id: Some(stored.response_id),
                                input_delta: Some(suffix),
                                input_delta_count: suffix.len(),
                                disabled_reason: None,
                            },
                            Some(stored.socket_id),
                        )
                    },
                }
            }
        },
        _ => (
            declined(
                Some(turn_id),
                all,
                if superseded {
                    "superseded_turn"@
                } else {
                    "missing_state"@
                },
            ),
            None,
        ),
    }
}

/// What an owner has stored.
pub open spec fn stored_for(ledger: Ledger, owner: request::Identity) -> Option<Continuation> {
    match table::lookup(ledger.owners, owner) {
        Some(entry) => entry.continuation,
        None => None,
    }
}

/// The reservation that a request gets.
pub open spec fn reservation_for(
    ledger: Ledger,
    owner: Option<request::Identity>,
    body: request::Request,
    enabled: bool,
    missing_owner_reason: Seq<char>,
    now: u64,
) -> Reservation {
    if !enabled {
        Reservation {
            candidate: declined(None, body.input.len(), "disabled"@),
            owner,
            origin_socket_id: None,
        }
    } else {
        match owner {
            None => Reservation {
                candidate: declined(None, body.input.len(), missing_owner_reason),
                owner: None,
                origin_socket_id: None,
            },
            Some(identity) => {
                let (candidate, origin_socket_id) = candidate_from(
                    ledger.next_turn,
                    body,
                    stored_for(ledger, identity),
                    table::lookup(ledger.owners, identity) is Some,
                    now,
                );
                Reservation { candidate, owner: Some(identity), origin_socket_id }
            },
        }
    }
}

/// The ledger after a request has got its reservation.
pub open spec fn ledger_after_candidate(
    ledger: Ledger,
    owner: Option<request::Identity>,
    enabled: bool,
    now: u64,
) -> Ledger {
    match owner {
        Some(identity) if enabled => reserved(ledger, identity, now),
        _ => ledger,
    }
}

proof fn lemma_part_is_admissible(
    part: Seq<(request::Identity, Ownership)>,
    whole: Seq<(request::Identity, Ownership)>,
)
    requires
        table::part_of(part, whole),
        all_admissible(whole),
    ensures
        all_admissible(part),
{
    assert forall|i: int| 0 <= i < part.len() implies admissible((#[trigger] part[i]).1) by {
        assert(whole.contains(part[i]));
        let k = choose|k: int| 0 <= k < whole.len() && whole[k] == part[i];
        assert(admissible(whole[k].1));
    }
}

impl ContinuationRegistry {
    /// A registry that knows of no owner. Turns are numbered from one.
    pub fn new() -> (registry: Self)
        ensures
            registry.wf(),
            registry@.owners == Seq::<(request::Identity, Ownership)>::empty(),
            registry@.next_turn == 1,
    {
        ContinuationRegistry { owners: Table::new(), total_transcript_bytes: 0, next_turn: 1 }
    }

    /// Lets the oldest owners go until the limits are kept.
    fn evict_oldest(&mut self)
        requires
            table::distinct(old(self).owners@),
            all_admissible(old(self).owners@),
            old(self).total_transcript_bytes == transcript_total(old(self).owners@),
        ensures
            final(self)@.owners == trimmed_owners(old(self)@.owners),
            final(self)@.next_turn == old(self)@.next_turn,
            final(self).wf(),
    {
        while self.owners.len() > MAX_STATES || self.total_transcript_bytes
            > MAX_TOTAL_TRANSCRIPT_BYTES
            invariant
                table::distinct(self.owners@),
                all_admissible(self.owners@),
                self.total_transcript_bytes == transcript_total(self.owners@),
                trimmed_owners(old(self)@.owners) == trimmed_owners(self.owners@),
                self.next_turn == old(self).next_turn,
            decreases self.owners@.len(),
        {
            let ghost before = self.owners@;
            let taken: Option<OwnerState> = self.owners.take_oldest();
            if let Some(state) = taken {
                proof {
                    let at = table::oldest::<ConversationIdentity, OwnerState>(before);
                    table::lemma_total_remove::<ConversationIdentity, OwnerState>(before, at);
                    table::lemma_remove_is_part(before, at);
                    lemma_part_is_admissible(self.owners@, before);
                }
                self.total_transcript_bytes = self.total_transcript_bytes.saturating_sub(
                    state.transcript_bytes(),
                );
            }
        }
    }

    /// Takes an owner out, and what is stored for it out of the running total.
    fn take_owner(&mut self, owner: &ConversationIdentity) -> (taken: Option<OwnerState>)
        requires
            old(self).wf(),
        ensures
            final(self).wf(),
            final(self)@.owners == table::without(old(self)@.owners, owner@),
            final(self)@.next_turn == old(self)@.next_turn,
            model::seen(taken) == table::lookup(old(self)@.owners, owner@),
    {
        proof {
            table::lemma_total_without::<ConversationIdentity, OwnerState>(
                self.owners@,
                owner@,
            );
            lemma_part_is_admissible(table::without(self.owners@, owner@), self.owners@);
            table::lemma_without_len(self.owners@, owner@);
        }
        let taken: Option<OwnerState> = self.owners.take(owner);
        if let Some(state) = &taken {
            self.total_transcript_bytes = self.total_transcript_bytes.saturating_sub(
                state.transcript_bytes(),
            );
        }
        taken
    }

    /// Puts an owner in, and what is stored for it into the running total.
    fn put_owner(&mut self, owner: &ConversationIdentity, state: OwnerState)
        requires
            old(self).wf(),
            table::lookup(old(self)@.owners, owner@) is None,
            admissible(state@),
        ensures
            final(self).wf(),
            final(self)@.owners == trimmed_owners(
                table::with(old(self)@.owners, owner@, state@),
            ),
            final(self)@.next_turn == old(self)@.next_turn,
    {
        let bytes: u64 = state.transcript_bytes();
        proof {
            table::lemma_total_without::<ConversationIdentity, OwnerState>(
                self.owners@,
                owner@,
            );
            lemma_part_is_admissible(table::without(self.owners@, owner@), self.owners@);
            table::lemma_total_push::<ConversationIdentity, OwnerState>(
                table::without(self.owners@, owner@),
                (owner@, state@),
            );
        }
        self.owners.put(owner.duplicate(), state);
        self.total_transcript_bytes = self.total_transcript_bytes + bytes;
        self.evict_oldest();
    }
}

/// What a request of a session may continue.
pub fn continuation_candidate(
    registry: &mut ContinuationRegistry,
    session_id: Option<&str>,
    body: &ResponsesRequest,
    enabled: bool,
    now: u64,
) -> (candidate: ContinuationCandidate)
    requires
        old(registry).wf(),
    ensures
        final(registry).wf(),
        final(registry)@ == ledger_after_candidate(
            old(registry)@,
            session_owner(model::seen(session_id)),
            enabled,
            now,
        ),
        candidate@ == reservation_for(
            old(registry)@,
            session_owner(model::seen(session_id)),
            body@,
            enabled,
            "missing_session"@,
            now,
        ).candidate,
{
    let owner: Option<ConversationIdentity> = owner_of_session(session_id);
    continuation_candidate_inner(
        registry,
        owner.as_ref(),
        body,
        enabled,
        "missing_session",
        now,
    ).into_candidate()
}

/// Reserves a turn for the owner of a request.
pub fn continuation_candidate_for_owner(
    registry: &mut ContinuationRegistry,
    owner: Option<&ConversationIdentity>,
    body: &ResponsesRequest,
    enabled: bool,
    now: u64,
) -> (reservation: ContinuationReservation)
    requires
        old(registry).wf(),
    ensures
        final(registry).wf(),
        final(registry)@ == ledger_after_candidate(
            old(registry)@,
            model::seen(owner),
            enabled,
            now,
        ),
        reservation@ == reservation_for(
            old(registry)@,
            model::seen(owner),
            body@,
            enabled,
            "missing_identity"@,
            now,
        ),
{
    continuation_candidate_inner(registry, owner, body, enabled, "missing_identity", now)
}

fn continuation_candidate_inner(
    registry: &mut ContinuationRegistry,
    owner: Option<&ConversationIdentity>,
    body: &ResponsesRequest,
    enabled: bool,
    missing_owner_reason: &str,
    now: u64,
) -> (reservation: ContinuationReservation)
    requires
        old(registry).wf(),
    ensures
        final(registry).wf(),
        final(registry)@ == ledger_after_candidate(
            old(registry)@,
            model::seen(owner),
            enabled,
            now,
        ),
        reservation@ == reservation_for(
            old(registry)@,
            model::seen(owner),
            body@,
            enabled,
            missing_owner_reason@,
            now,
        ),
{
    if !enabled {
        return ContinuationReservation::new(
            decline(None, body.input.len(), "disabled"),
            duplicate_owner(owner),
            None,
        );
    }
    let identity: &ConversationIdentity = match owner {
        Some(identity) => identity,
        None => {
            return ContinuationReservation::new(
                decline(None, body.input.len(), missing_owner_reason),
                None,
                None,
            );
        },
    };
    let turn_id: u64 = registry.next_turn;
    registry.next_turn = turn_id.wrapping_add(1);
    let existing: Option<OwnerState> = registry.take_owner(identity);
    proof {
        table::taking_out_touches_one_key(old(registry)@.owners, identity@, identity@);
        table::lemma_without_twice(old(registry)@.owners, identity@);
    }
    registry.put_owner(
        identity,
        OwnerState { current_turn: turn_id, continuation: None, updated_at: now },
    );
    let superseded_turn: bool = existing.is_some();
    let state: Option<ContinuationState> = match existing {
        Some(entry) => entry.continuation,
        None => None,
    };
    continuation_candidate_from_state(identity, turn_id, body, state, superseded_turn, now)
}

fn continuation_candidate_from_state(
    owner: &ConversationIdentity,
    turn_id: u64,
    body: &ResponsesRequest,
    state: Option<ContinuationState>,
    superseded_turn: bool,
    now: u64,
) -> (reservation: ContinuationReservation)
    ensures
        reservation@.candidate == candidate_from(
            turn_id,
            body@,
            model::seen(state),
            superseded_turn,
            now,
        ).0,
        reservation@.owner == Some(owner@),
        reservation@.origin_socket_id == candidate_from(
            turn_id,
            body@,
            model::seen(state),
            superseded_turn,
            now,
        ).1,
{
    let all: usize = body.input.len();
    let stored: ContinuationState = match state {
        Some(stored) if now.saturating_sub(stored.updated_at) <= TTL_MS => stored,
        _ => {
            let reason: &str = if superseded_turn {
                "superseded_turn"
            } else {
                "missing_state"
            };
            return ContinuationReservation::new(
                decline(Some(turn_id), all, reason),
                Some(owner.duplicate()),
                None,
            );
        },
    };
    let signature: String = prompt_signature(body);
    if !text::same_text(signature.as_str(), stored.prompt_signature.as_str()) {
        return ContinuationReservation::new(
            decline(Some(turn_id), all, "prompt_changed"),
            Some(owner.duplicate()),
            None,
        );
    }
    let suffix: Vec<ResponsesInputItem> = match input_suffix_after_prefix(
        body.input.as_slice(),
        stored.transcript.as_slice(),
    ) {
        Some(suffix) => suffix,
        None => {
            return ContinuationReservation::new(
                decline(Some(turn_id), all, "not_append_only"),
                Some(owner.duplicate()),
                None,
            );
        },
    };
    assert(model::views(suffix@).len() == suffix@.len());
    if suffix.len() == 0 {
        return ContinuationReservation::new(
            decline(Some(turn_id), 0, "empty_delta"),
            Some(owner.duplicate()),
            None,
        );
    }
    let count: usize = suffix.len();
    ContinuationReservation::new(
        ContinuationCandidate {
            turn_id: Some(turn_id),
            previous_response_id: Some(stored.response_id),
            input_delta: Some(suffix),
            input_delta_count: count,
            disabled_reason: None,
        },
        Some(owner.duplicate()),
        Some(stored.socket_id),
    )
}

// ---------------------------------------------------------------------------
// Publishing and giving up
// ---------------------------------------------------------------------------

/// Whether a turn is the one that its owner reserved last.
pub open spec fn current(
    ledger: Ledger,
    owner: Option<request::Identity>,
    turn_id: Option<u64>,
) -> bool {
    match (owner, turn_id) {
        (Some(identity), Some(turn)) => match table::lookup(ledger.owners, identity) {
            Some(entry) => entry.current_turn == turn,
            None => false,
        },
        _ => false,
    }
}

/// The ledger without an owner.
pub open spec fn ledger_without(ledger: Ledger, owner: request::Identity) -> Ledger {
    Ledger { owners: table::without(ledger.owners, owner), next_turn: ledger.next_turn }
}

/// The ledger after a turn has been given up: its owner is gone where the turn
/// was current.
pub open spec fn aborted(
    ledger: Ledger,
    owner: Option<request::Identity>,
    turn_id: Option<u64>,
) -> Ledger {
    if current(ledger, owner, turn_id) {
        ledger_without(ledger, owner->0)
    } else {
        ledger
    }
}

/// What a completed turn has to store, where it can be stored: the response has
/// an identifier, it came over a known socket, and the transcript is not too
/// large.
pub open spec fn publication(
    body: request::Request,
    response_id: Option<Seq<char>>,
    socket_id: Option<u64>,
    output: Seq<request::Item>,
    now: u64,
) -> Option<Continuation> {
    let transcript = body.input + output;
    match (response_id, socket_id) {
        (Some(response_id), Some(socket_id)) => {
            if socket_id != 0 && request::items_bytes(transcript) <= MAX_OWNER_TRANSCRIPT_BYTES {
                Some(
                    Continuation {
                        response_id,
                        socket_id,
                        prompt_signature: canonical::signature(body),
                        transcript,
                        transcript_bytes: request::items_bytes(transcript) as u64,
                        updated_at: now,
                    },
                )
            } else {
                None
            }
        },
        _ => None,
    }
}

/// The ledger after a completed turn has been recorded. Only the current turn
/// has an effect. It publishes what it has to store, or its owner is gone.
pub open spec fn recorded(
    ledger: Ledger,
    owner: Option<request::Identity>,
    turn_id: Option<u64>,
    published: Option<Continuation>,
) -> Ledger {
    if current(ledger, owner, turn_id) {
        match published {
            Some(continuation) => Ledger {
                owners: trimmed_owners(
                    table::with(
                        ledger.owners,
                        owner->0,
                        Ownership {
                            continuation: Some(continuation),
                            ..table::lookup(ledger.owners, owner->0)->0
                        },
                    ),
                ),
                next_turn: ledger.next_turn,
            },
            None => ledger_without(ledger, owner->0),
        }
    } else {
        ledger
    }
}

/// Records a completed turn of a session. A response that came over no known
/// socket cannot be continued, so nothing is published.
pub fn record_continuation(
    registry: &mut ContinuationRegistry,
    session_id: Option<&str>,
    turn_id: Option<u64>,
    request_body: &ResponsesRequest,
    response_id: Option<&str>,
    output_items: &[ResponsesInputItem],
    now: u64,
)
    requires
        old(registry).wf(),
    ensures
        final(registry).wf(),
        final(registry)@ == recorded(
            old(registry)@,
            session_owner(model::seen(session_id)),
            turn_id,
            None,
        ),
{
    let candidate: ContinuationCandidate = decline(
        turn_id,
        request_body.input.len(),
        "legacy_recording_without_socket",
    );
    let reservation: ContinuationReservation = ContinuationReservation::new(
        candidate,
        owner_of_session(session_id),
        None,
    );
    record_continuation_for_owner(
        registry,
        &reservation,
        request_body,
        response_id,
        None,
        output_items,
        now,
    );
}

/// Records a completed turn.
pub fn record_continuation_for_owner(
    registry: &mut ContinuationRegistry,
    reservation: &ContinuationReservation,
    request_body: &ResponsesRequest,
    response_id: Option<&str>,
    socket_id: Option<u64>,
    output_items: &[ResponsesInputItem],
    now: u64,
)
    requires
        old(registry).wf(),
    ensures
        final(registry).wf(),
        final(registry)@ == recorded(
            old(registry)@,
            reservation@.owner,
            reservation@.candidate.turn_id,
            publication(
                request_body@,
                model::seen(response_id),
                socket_id,
                model::views(output_items@),
                now,
            ),
        ),
{
    let (owner, turn_id) = match (reservation.owner(), reservation.turn_id()) {
        (Some(owner), Some(turn_id)) => (owner, turn_id),
        _ => {
            return ;
        },
    };
    let (response, socket) = match (response_id, socket_id) {
        (Some(response), Some(socket)) if socket != 0 => (response, socket),
        _ => {
            abort_continuation_inner(registry, Some(owner), Some(turn_id));
            return ;
        },
    };
    let mut transcript: Vec<ResponsesInputItem> = model::duplicates(
        request_body.input.as_slice(),
    );
    model::append_duplicates(&mut transcript, output_items);
    assert(model::views(transcript@) == request_body@.input + model::views(output_items@));
    let transcript_bytes: u64 = serialized_size(transcript.as_slice()) as u64;
    if transcript_bytes > MAX_OWNER_TRANSCRIPT_BYTES {
        abort_continuation_inner(registry, Some(owner), Some(turn_id));
        return ;
    }
    let state: ContinuationState = ContinuationState {
        response_id: response.to_owned(),
        socket_id: socket,
        prompt_signature: prompt_signature(request_body),
        transcript,
        transcript_bytes,
        updated_at: now,
    };
    if !is_current_turn_inner(registry, Some(owner), Some(turn_id)) {
        return ;
    }
    if let Some(entry) = registry.take_owner(owner) {
        proof {
            table::taking_out_touches_one_key(old(registry)@.owners, owner@, owner@);
            table::lemma_without_twice(old(registry)@.owners, owner@);
        }
        registry.put_owner(
            owner,
            OwnerState {
                current_turn: entry.current_turn,
                continuation: Some(state),
                updated_at: entry.updated_at,
            },
        );
    }
}

/// Gives up a turn of a session.
pub fn abort_continuation(
    registry: &mut ContinuationRegistry,
    session_id: Option<&str>,
    turn_id: Option<u64>,
)
    requires
        old(registry).wf(),
    ensures
        final(registry).wf(),
        final(registry)@ == aborted(
            old(registry)@,
            session_owner(model::seen(session_id)),
            turn_id,
        ),
{
    let owner: Option<ConversationIdentity> = owner_of_session(session_id);
    abort_continuation_inner(registry, owner.as_ref(), turn_id);
}

/// Gives up a turn.
pub fn abort_continuation_for_owner(
    registry: &mut ContinuationRegistry,
    reservation: &ContinuationReservation,
)
    requires
        old(registry).wf(),
    ensures
        final(registry).wf(),
        final(registry)@ == aborted(
            old(registry)@,
            reservation@.owner,
            reservation@.candidate.turn_id,
        ),
{
    abort_continuation_inner(registry, reservation.owner(), reservation.turn_id());
}

fn abort_continuation_inner(
    registry: &mut ContinuationRegistry,
    owner: Option<&ConversationIdentity>,
    turn_id: Option<u64>,
)
    requires
        old(registry).wf(),
    ensures
        final(registry).wf(),
        final(registry)@ == aborted(old(registry)@, model::seen(owner), turn_id),
{
    if is_current_turn_inner(registry, owner, turn_id) {
        if let Some(identity) = owner {
            let _ = registry.take_owner(identity);
        }
    }
}

// ---------------------------------------------------------------------------
// The current turn
// ---------------------------------------------------------------------------

/// Does something if a turn of a session is current.
pub fn if_current_turn<T, F: FnOnce() -> T>(
    registry: &ContinuationRegistry,
    session_id: Option<&str>,
    turn_id: Option<u64>,
    action: F,
) -> (outcome: Option<T>)
    requires
        registry.wf(),
        current(registry@, session_owner(model::seen(session_id)), turn_id) ==> call_requires(
            action,
            (),
        ),
    ensures
        match outcome {
            Some(value) => current(
                registry@,
                session_owner(model::seen(session_id)),
                turn_id,
            ) && call_ensures(action, (), value),
            None => !current(registry@, session_owner(model::seen(session_id)), turn_id),
        },
{
    let owner: Option<ConversationIdentity> = owner_of_session(session_id);
    if_current_turn_inner(registry, owner.as_ref(), turn_id, action)
}

/// Does something if a turn is current.
pub fn if_current_turn_for_owner<T, F: FnOnce() -> T>(
    registry: &ContinuationRegistry,
    reservation: &ContinuationReservation,
    action: F,
) -> (outcome: Option<T>)
    requires
        registry.wf(),
        current(registry@, reservation@.owner, reservation@.candidate.turn_id) ==> call_requires(
            action,
            (),
        ),
    ensures
        match outcome {
            Some(value) => current(
                registry@,
                reservation@.owner,
                reservation@.candidate.turn_id,
            ) && call_ensures(action, (), value),
            None => !current(registry@, reservation@.owner, reservation@.candidate.turn_id),
        },
{
    if_current_turn_inner(registry, reservation.owner(), reservation.turn_id(), action)
}

fn if_current_turn_inner<T, F: FnOnce() -> T>(
    registry: &ContinuationRegistry,
    owner: Option<&ConversationIdentity>,
    turn_id: Option<u64>,
    action: F,
) -> (outcome: Option<T>)
    requires
        registry.wf(),
        current(registry@, model::seen(owner), turn_id) ==> call_requires(action, ()),
    ensures
        match outcome {
            Some(value) => current(registry@, model::seen(owner), turn_id) && call_ensures(
                action,
                (),
                value,
            ),
            None => !current(registry@, model::seen(owner), turn_id),
        },
{
    if is_current_turn_inner(registry, owner, turn_id) {
        Some(action())
    } else {
        None
    }
}

/// Does something if a turn of a session is current, and says whether it was.
pub fn with_current_turn<F: FnOnce()>(
    registry: &ContinuationRegistry,
    session_id: Option<&str>,
    turn_id: Option<u64>,
    action: F,
) -> (done: bool)
    requires
        registry.wf(),
        current(registry@, session_owner(model::seen(session_id)), turn_id) ==> call_requires(
            action,
            (),
        ),
    ensures
        done == current(registry@, session_owner(model::seen(session_id)), turn_id),
        done ==> call_ensures(action, (), ()),
{
    if_current_turn(registry, session_id, turn_id, action).is_some()
}

/// Does something if a turn is current, and says whether it was.
pub fn with_current_turn_for_owner<F: FnOnce()>(
    registry: &ContinuationRegistry,
    reservation: &ContinuationReservation,
    action: F,
) -> (done: bool)
    requires
        registry.wf(),
        current(registry@, reservation@.owner, reservation@.candidate.turn_id) ==> call_requires(
            action,
            (),
        ),
    ensures
        done == current(registry@, reservation@.owner, reservation@.candidate.turn_id),
        done ==> call_ensures(action, (), ()),
{
    if_current_turn_for_owner(registry, reservation, action).is_some()
}

/// Whether a turn of a session is current.
pub fn is_current_turn(
    registry: &ContinuationRegistry,
    session_id: Option<&str>,
    turn_id: Option<u64>,
) -> (answer: bool)
    requires
        registry.wf(),
    ensures
        answer == current(registry@, session_owner(model::seen(session_id)), turn_id),
{
    let owner: Option<ConversationIdentity> = owner_of_session(session_id);
    is_current_turn_inner(registry, owner.as_ref(), turn_id)
}

/// Whether a turn is current.
pub fn is_current_turn_for_owner(
    registry: &ContinuationRegistry,
    reservation: &ContinuationReservation,
) -> (answer: bool)
    requires
        registry.wf(),
    ensures
        answer == current(registry@, reservation@.owner, reservation@.candidate.turn_id),
{
    is_current_turn_inner(registry, reservation.owner(), reservation.turn_id())
}

fn is_current_turn_inner(
    registry: &ContinuationRegistry,
    owner: Option<&ConversationIdentity>,
    turn_id: Option<u64>,
) -> (answer: bool)
    requires
        registry.wf(),
    ensures
        answer == current(registry@, model::seen(owner), turn_id),
{
    match (owner, turn_id) {
        (Some(identity), Some(turn)) => match registry.owners.get(identity) {
            Some(entry) => entry.current_turn == turn,
            None => false,
        },
        _ => false,
    }
}

// ---------------------------------------------------------------------------
// Clearing
// ---------------------------------------------------------------------------

/// The ledger after what is known of an owner has been dropped.
pub open spec fn cleared(ledger: Ledger, owner: Option<request::Identity>) -> Ledger {
    match owner {
        Some(identity) => ledger_without(ledger, identity),
        None => ledger,
    }
}

/// Drops what is known of a session itself.
pub fn clear_continuation(registry: &mut ContinuationRegistry, session_id: Option<&str>)
    requires
        old(registry).wf(),
    ensures
        final(registry).wf(),
        final(registry)@ == cleared(old(registry)@, session_owner(model::seen(session_id))),
{
    let owner: Option<ConversationIdentity> = owner_of_session(session_id);
    clear_continuation_for_owner(registry, owner.as_ref());
}

/// Drops what is known of an owner.
pub fn clear_continuation_for_owner(
    registry: &mut ContinuationRegistry,
    owner: Option<&ConversationIdentity>,
)
    requires
        old(registry).wf(),
    ensures
        final(registry).wf(),
        final(registry)@ == cleared(old(registry)@, model::seen(owner)),
{
    if let Some(identity) = owner {
        let _ = registry.take_owner(identity);
    }
}

/// Whether a session itself has stored what it can continue.
pub fn has_continuation_for_tests(registry: &ContinuationRegistry, session_id: &str) -> (answer:
    bool)
    requires
        registry.wf(),
    ensures
        answer == (stored_for(registry@, request::Identity::Main(session_id@)) is Some),
{
    let owner: ConversationIdentity = ConversationIdentity::Main(session_id.to_owned());
    has_continuation_for_owner_for_tests(registry, &owner)
}

/// Whether an owner has stored what it can continue.
pub fn has_continuation_for_owner_for_tests(
    registry: &ContinuationRegistry,
    owner: &ConversationIdentity,
) -> (answer: bool)
    requires
        registry.wf(),
    ensures
        answer == (stored_for(registry@, owner@) is Some),
{
    match registry.owners.get(owner) {
        Some(entry) => entry.continuation.is_some(),
        None => false,
    }
}

/// Drops what is known of every owner. The numbers of turns go on.
pub fn clear_all_continuations_for_tests(registry: &mut ContinuationRegistry)
    requires
        old(registry).wf(),
    ensures
        final(registry).wf(),
        final(registry)@.owners == Seq::<(request::Identity, Ownership)>::empty(),
        final(registry)@.next_turn == old(registry)@.next_turn,
{
    registry.owners = Table::new();
    registry.total_transcript_bytes = 0;
}

// ---------------------------------------------------------------------------
// What holds of the registry
// ---------------------------------------------------------------------------

/// The limits hold of every registry: so many owners at most, so many bytes at
/// most, no owner twice, and nothing stored that came over no known socket.
pub proof fn registries_keep_the_limits(registry: ContinuationRegistry)
    requires
        registry.wf(),
    ensures
        valid(registry@),
{
}

proof fn lemma_trimmed(owners: Seq<(request::Identity, Ownership)>, owner: request::Identity)
    requires
        table::distinct(owners),
    ensures
        table::lookup(trimmed_owners(owners), owner) is None || table::lookup(
            trimmed_owners(owners),
            owner,
        ) == table::lookup(owners, owner),
{
    table::eviction_keeps_the_limits::<ConversationIdentity, OwnerState>(
        owners,
        MAX_STATES as nat,
        MAX_TOTAL_TRANSCRIPT_BYTES as nat,
    );
    table::part_holds_no_more(trimmed_owners(owners), owners, owner);
}

/// A request that may not continue anything, or whose owner is not known, leaves
/// no trace.
pub proof fn stateless_requests_leave_no_trace(
    ledger: Ledger,
    owner: Option<request::Identity>,
    body: request::Request,
    enabled: bool,
    reason: Seq<char>,
    now: u64,
)
    requires
        !enabled || owner is None,
    ensures
        ledger_after_candidate(ledger, owner, enabled, now) == ledger,
        reservation_for(ledger, owner, body, enabled, reason, now).candidate.turn_id is None,
        reservation_for(
            ledger,
            owner,
            body,
            enabled,
            reason,
            now,
        ).candidate.previous_response_id is None,
{
}

/// Reserving a turn takes what the owner had stored, and no earlier turn of the
/// owner is current any more.
pub proof fn reserving_supersedes(
    ledger: Ledger,
    owner: request::Identity,
    now: u64,
    earlier: u64,
)
    requires
        valid(ledger),
        earlier != ledger.next_turn,
    ensures
        stored_for(reserved(ledger, owner, now), owner) is None,
        !current(reserved(ledger, owner, now), Some(owner), Some(earlier)),
        table::lookup(reserved(ledger, owner, now).owners, owner) is Some ==> current(
            reserved(ledger, owner, now),
            Some(owner),
            Some(ledger.next_turn),
        ),
{
    let entry = Ownership {
        current_turn: ledger.next_turn,
        continuation: None,
        updated_at: now,
    };
    table::with_keeps_keys_distinct(ledger.owners, owner, entry);
    table::putting_in_touches_one_key(ledger.owners, owner, entry, owner);
    lemma_trimmed(table::with(ledger.owners, owner, entry), owner);
}

/// While there is room for the owner, the turn that was reserved is current, what the
/// owner had stored is gone even if it could not be used, and every other owner is as
/// it was.
pub proof fn reserved_turns_are_current(
    ledger: Ledger,
    owner: request::Identity,
    now: u64,
    other: request::Identity,
)
    requires
        valid(ledger),
        ledger.owners.len() < MAX_STATES || table::lookup(ledger.owners, owner) is Some,
    ensures
        current(reserved(ledger, owner, now), Some(owner), Some(ledger.next_turn)),
        stored_for(reserved(ledger, owner, now), owner) is None,
        other != owner ==> table::lookup(reserved(ledger, owner, now).owners, other)
            == table::lookup(ledger.owners, other),
{
    let entry = Ownership {
        current_turn: ledger.next_turn,
        continuation: None,
        updated_at: now,
    };
    table::putting_in_touches_one_key(ledger.owners, owner, entry, other);
    table::lemma_total_without::<ConversationIdentity, OwnerState>(ledger.owners, owner);
    table::lemma_total_push::<ConversationIdentity, OwnerState>(
        table::without(ledger.owners, owner),
        (owner, entry),
    );
    table::lemma_without_len(ledger.owners, owner);
    if table::lookup(ledger.owners, owner) is Some {
        table::lemma_without_found_len(ledger.owners, owner);
    }
}

/// Keeping to the limits lets owners go only where a limit is exceeded, the oldest
/// first and no more than it has to, and leaves the others as they were.
pub proof fn the_oldest_owners_are_let_go(owners: Seq<(request::Identity, Ownership)>)
    requires
        table::distinct(owners),
    ensures
        trimmed_owners(owners).len() <= MAX_STATES,
        transcript_total(trimmed_owners(owners)) <= MAX_TOTAL_TRANSCRIPT_BYTES,
        table::part_of(trimmed_owners(owners), owners),
        owners.len() <= MAX_STATES && transcript_total(owners) <= MAX_TOTAL_TRANSCRIPT_BYTES
            ==> trimmed_owners(owners) == owners,
        forall|i: int, j: int|
            0 <= i < owners.len() && !trimmed_owners(owners).contains(#[trigger] owners[i]) && 0
                <= j < trimmed_owners(owners).len() ==> owners[i].1.updated_at <= (
            #[trigger] trimmed_owners(owners)[j]).1.updated_at,
        trimmed_owners(owners) == owners || exists|i: int|
            0 <= i < owners.len() && !trimmed_owners(owners).contains(#[trigger] owners[i]) && (
            trimmed_owners(owners).len() + 1 > MAX_STATES || transcript_total(
                trimmed_owners(owners),
            ) + owner_bytes(owners[i].1) > MAX_TOTAL_TRANSCRIPT_BYTES),
{
    table::eviction_keeps_the_limits::<ConversationIdentity, OwnerState>(
        owners,
        MAX_STATES as nat,
        MAX_TOTAL_TRANSCRIPT_BYTES as nat,
    );
    table::eviction_goes_no_further_than_needed::<ConversationIdentity, OwnerState>(
        owners,
        MAX_STATES as nat,
        MAX_TOTAL_TRANSCRIPT_BYTES as nat,
    );
}

/// What can happen to a ledger.
pub enum Event {
    Reserved { owner: request::Identity, now: u64 },
    Recorded {
        owner: Option<request::Identity>,
        turn_id: Option<u64>,
        published: Option<Continuation>,
    },
    Aborted { owner: Option<request::Identity>, turn_id: Option<u64> },
    Cleared { owner: Option<request::Identity> },
    AllCleared,
}

/// The ledger after something has happened.
pub open spec fn after_event(ledger: Ledger, event: Event) -> Ledger {
    match event {
        Event::Reserved { owner, now } => reserved(ledger, owner, now),
        Event::Recorded { owner, turn_id, published } => recorded(
            ledger,
            owner,
            turn_id,
            published,
        ),
        Event::Aborted { owner, turn_id } => aborted(ledger, owner, turn_id),
        Event::Cleared { owner } => cleared(ledger, owner),
        Event::AllCleared => Ledger { owners: Seq::empty(), next_turn: ledger.next_turn },
    }
}

/// The ledger after one thing has happened after the other.
pub open spec fn after_events(ledger: Ledger, events: Seq<Event>) -> Ledger
    decreases events.len(),
{
    if events.len() == 0 {
        ledger
    } else {
        after_event(after_events(ledger, events.drop_last()), events.last())
    }
}

/// How many turns are reserved.
pub open spec fn reservations(events: Seq<Event>) -> nat
    decreases events.len(),
{
    if events.len() == 0 {
        0
    } else {
        reservations(events.drop_last()) + if events.last() is Reserved {
            1nat
        } else {
            0
        }
    }
}

proof fn lemma_turns_count_up(ledger: Ledger, events: Seq<Event>)
    requires
        ledger.next_turn + reservations(events) <= u64::MAX,
    ensures
        after_events(ledger, events).next_turn == ledger.next_turn + reservations(events),
    decreases events.len(),
{
    if events.len() > 0 {
        lemma_turns_count_up(ledger, events.drop_last());
    }
}

/// Until the numbers start again, a number that a turn was given is given to no later
/// turn of any owner, whatever happens in between.
pub proof fn turn_numbers_are_given_once(
    ledger: Ledger,
    owner: request::Identity,
    now: u64,
    events: Seq<Event>,
)
    requires
        ledger.next_turn + 1 + reservations(events) <= u64::MAX,
    ensures
        ledger.next_turn < after_events(reserved(ledger, owner, now), events).next_turn,
{
    lemma_turns_count_up(reserved(ledger, owner, now), events);
}

/// Whether no owner stands twice and the current turn of an owner, if it has one, is not
/// before a given one.
spec fn no_earlier(
    owners: Seq<(request::Identity, Ownership)>,
    owner: request::Identity,
    bound: u64,
) -> bool {
    &&& table::distinct(owners)
    &&& table::lookup(owners, owner) matches Some(entry) ==> entry.current_turn >= bound
}

proof fn lemma_no_earlier_without(
    owners: Seq<(request::Identity, Ownership)>,
    owner: request::Identity,
    bound: u64,
    key: request::Identity,
)
    requires
        no_earlier(owners, owner, bound),
    ensures
        no_earlier(table::without(owners, key), owner, bound),
{
    table::taking_out_touches_one_key(owners, key, owner);
    table::lemma_total_without::<ConversationIdentity, OwnerState>(owners, key);
}

proof fn lemma_no_earlier_with(
    owners: Seq<(request::Identity, Ownership)>,
    owner: request::Identity,
    bound: u64,
    key: request::Identity,
    entry: Ownership,
)
    requires
        no_earlier(owners, owner, bound),
        key == owner ==> entry.current_turn >= bound,
    ensures
        no_earlier(trimmed_owners(table::with(owners, key, entry)), owner, bound),
{
    let changed = table::with(owners, key, entry);
    table::putting_in_touches_one_key(owners, key, entry, owner);
    table::with_keeps_keys_distinct(owners, key, entry);
    lemma_trimmed(changed, owner);
    the_oldest_owners_are_let_go(changed);
}

/// What happens to a ledger makes no earlier turn of an owner current.
proof fn lemma_no_earlier_after(
    ledger: Ledger,
    event: Event,
    owner: request::Identity,
    bound: u64,
)
    requires
        no_earlier(ledger.owners, owner, bound),
        ledger.next_turn >= bound,
    ensures
        no_earlier(after_event(ledger, event).owners, owner, bound),
{
    match event {
        Event::Reserved { owner: key, now } => {
            let entry = Ownership {
                current_turn: ledger.next_turn,
                continuation: None,
                updated_at: now,
            };
            lemma_no_earlier_with(ledger.owners, owner, bound, key, entry);
        },
        Event::Recorded { owner: key, turn_id, published } => {
            if current(ledger, key, turn_id) {
                lemma_no_earlier_without(ledger.owners, owner, bound, key->0);
                let entry = Ownership {
                    continuation: published,
                    ..table::lookup(ledger.owners, key->0)->0
                };
                lemma_no_earlier_with(ledger.owners, owner, bound, key->0, entry);
            }
        },
        Event::Aborted { owner: key, turn_id } => {
            if let Some(key) = key {
                lemma_no_earlier_without(ledger.owners, owner, bound, key);
            }
        },
        Event::Cleared { owner: key } => {
            if let Some(key) = key {
                lemma_no_earlier_without(ledger.owners, owner, bound, key);
            }
        },
        Event::AllCleared => {},
    }
}

proof fn lemma_no_earlier_after_all(
    ledger: Ledger,
    events: Seq<Event>,
    owner: request::Identity,
    bound: u64,
)
    requires
        no_earlier(ledger.owners, owner, bound),
        ledger.next_turn >= bound,
        ledger.next_turn + reservations(events) <= u64::MAX,
    ensures
        no_earlier(after_events(ledger, events).owners, owner, bound),
    decreases events.len(),
{
    if events.len() > 0 {
        let shorter = events.drop_last();
        lemma_no_earlier_after_all(ledger, shorter, owner, bound);
        lemma_turns_count_up(ledger, shorter);
        lemma_no_earlier_after(after_events(ledger, shorter), events.last(), owner, bound);
    }
}

/// Once a turn has been reserved, no earlier turn of its owner becomes current again,
/// whatever happens from then on, until the numbers start again.
pub proof fn earlier_turns_stay_superseded(
    ledger: Ledger,
    owner: request::Identity,
    now: u64,
    earlier: u64,
    events: Seq<Event>,
)
    requires
        valid(ledger),
        earlier < ledger.next_turn,
        ledger.next_turn + 1 + reservations(events) <= u64::MAX,
    ensures
        !current(
            after_events(reserved(ledger, owner, now), events),
            Some(owner),
            Some(earlier),
        ),
{
    let entry = Ownership {
        current_turn: ledger.next_turn,
        continuation: None,
        updated_at: now,
    };
    let changed = table::with(ledger.owners, owner, entry);
    table::putting_in_touches_one_key(ledger.owners, owner, entry, owner);
    table::with_keeps_keys_distinct(ledger.owners, owner, entry);
    lemma_trimmed(changed, owner);
    the_oldest_owners_are_let_go(changed);
    lemma_no_earlier_after_all(reserved(ledger, owner, now), events, owner, ledger.next_turn);
}

/// A turn that is not current publishes nothing and drops nothing.
pub proof fn stale_turns_have_no_effect(
    ledger: Ledger,
    owner: Option<request::Identity>,
    turn_id: Option<u64>,
    published: Option<Continuation>,
)
    requires
        !current(ledger, owner, turn_id),
    ensures
        recorded(ledger, owner, turn_id, published) == ledger,
        aborted(ledger, owner, turn_id) == ledger,
{
}

/// What one owner does leaves every other owner as it was, except that keeping
/// to the limits may let another owner go.
pub proof fn owners_do_not_interfere(
    ledger: Ledger,
    owner: request::Identity,
    other: request::Identity,
    turn_id: Option<u64>,
    published: Option<Continuation>,
    now: u64,
)
    requires
        valid(ledger),
        other != owner,
    ensures
        table::lookup(reserved(ledger, owner, now).owners, other) is None || table::lookup(
            reserved(ledger, owner, now).owners,
            other,
        ) == table::lookup(ledger.owners, other),
        table::lookup(recorded(ledger, Some(owner), turn_id, published).owners, other) is None
            || table::lookup(recorded(ledger, Some(owner), turn_id, published).owners, other)
            == table::lookup(ledger.owners, other),
        table::lookup(aborted(ledger, Some(owner), turn_id).owners, other) == table::lookup(
            ledger.owners,
            other,
        ),
        table::lookup(cleared(ledger, Some(owner)).owners, other) == table::lookup(
            ledger.owners,
            other,
        ),
{
    let entry = Ownership {
        current_turn: ledger.next_turn,
        continuation: None,
        updated_at: now,
    };
    table::with_keeps_keys_distinct(ledger.owners, owner, entry);
    table::putting_in_touches_one_key(ledger.owners, owner, entry, other);
    lemma_trimmed(table::with(ledger.owners, owner, entry), other);
    table::taking_out_touches_one_key(ledger.owners, owner, other);
    if current(ledger, Some(owner), turn_id) && published is Some {
        let next = Ownership {
            continuation: published,
            ..table::lookup(ledger.owners, owner)->0
        };
        table::with_keeps_keys_distinct(ledger.owners, owner, next);
        table::putting_in_touches_one_key(ledger.owners, owner, next, other);
        lemma_trimmed(table::with(ledger.owners, owner, next), other);
    }
}

/// A stored response is offered only to a request of the same owner that has the
/// stored signature, whose input goes on from the stored transcript, and which comes
/// in time. It is offered with the socket over which it came and
/// with what the request adds.
pub proof fn only_safe_extensions_are_continued(
    ledger: Ledger,
    owner: request::Identity,
    body: request::Request,
    reason: Seq<char>,
    now: u64,
)
    requires
        valid(ledger),
        reservation_for(
            ledger,
            Some(owner),
            body,
            true,
            reason,
            now,
        ).candidate.previous_response_id is Some,
    ensures
        stored_for(ledger, owner) is Some,
        ({
            let stored = stored_for(ledger, owner)->0;
            let reservation = reservation_for(ledger, Some(owner), body, true, reason, now);
            &&& reservation.candidate.previous_response_id == Some(stored.response_id)
            &&& reservation.origin_socket_id == Some(stored.socket_id)
            &&& stored.socket_id != 0
            &&& canonical::signature(body) == stored.prompt_signature
            &&& canonical::begins_with(body.input, stored.transcript)
            &&& reservation.candidate.input_delta == Some(
                body.input.skip(stored.transcript.len() as int),
            )
            &&& reservation.candidate.input_delta->0.len() > 0
            &&& table::age(now, stored.updated_at) <= TTL_MS
        }),
{
    table::lemma_found(ledger.owners, owner);
    let i = choose|i: int|
        0 <= i < ledger.owners.len() && ledger.owners[i] == (
            owner,
            table::lookup(ledger.owners, owner)->0,
        );
    assert(admissible(ledger.owners[i].1));
}

/// What a turn published is offered only to a request whose members but for the input
/// are the same, and whose input goes on from what the turn was sent and gave.
pub proof fn only_same_prompts_are_continued(
    ledger: Ledger,
    owner: request::Identity,
    turn_id: u64,
    body: request::Request,
    response_id: Seq<char>,
    socket_id: u64,
    output: Seq<request::Item>,
    now: u64,
    next: request::Request,
    reason: Seq<char>,
    later: u64,
)
    requires
        canonical::plain_prompt(body),
        canonical::plain_prompt(next),
        ({
            let published = publication(body, Some(response_id), Some(socket_id), output, now);
            let after = recorded(ledger, Some(owner), Some(turn_id), published);
            &&& published is Some
            &&& stored_for(after, owner) == published
            &&& reservation_for(
                after,
                Some(owner),
                next,
                true,
                reason,
                later,
            ).candidate.previous_response_id is Some
        }),
    ensures
        json::same_json(
            json::Json::Object(canonical::prompt_members(next)),
            json::Json::Object(canonical::prompt_members(body)),
        ),
        canonical::begins_with(next.input, body.input + output),
{
    canonical::same_signatures_mean_same_prompts(next, body);
}

/// What the current turn publishes is kept, and every other owner stays as it was,
/// unless all transcripts together become too large.
pub proof fn publications_are_kept(
    ledger: Ledger,
    owner: request::Identity,
    turn_id: u64,
    continuation: Continuation,
    other: request::Identity,
)
    requires
        valid(ledger),
        current(ledger, Some(owner), Some(turn_id)),
        transcript_total(table::without(ledger.owners, owner)) + continuation.transcript_bytes
            <= MAX_TOTAL_TRANSCRIPT_BYTES,
    ensures
        stored_for(
            recorded(ledger, Some(owner), Some(turn_id), Some(continuation)),
            owner,
        ) == Some(continuation),
        other != owner ==> table::lookup(
            recorded(ledger, Some(owner), Some(turn_id), Some(continuation)).owners,
            other,
        ) == table::lookup(ledger.owners, other),
{
    let entry = Ownership {
        continuation: Some(continuation),
        ..table::lookup(ledger.owners, owner)->0
    };
    table::putting_in_touches_one_key(ledger.owners, owner, entry, other);
    table::lemma_total_push::<ConversationIdentity, OwnerState>(
        table::without(ledger.owners, owner),
        (owner, entry),
    );
    table::lemma_without_found_len(ledger.owners, owner);
}

/// What a turn published, a later request of the same owner continues, if it has
/// the same other members, goes on from the transcript and comes in time.
pub proof fn published_responses_are_continued(
    ledger: Ledger,
    owner: request::Identity,
    turn_id: u64,
    body: request::Request,
    response_id: Seq<char>,
    socket_id: u64,
    output: Seq<request::Item>,
    now: u64,
    next: request::Request,
    reason: Seq<char>,
    later: u64,
)
    requires
        current(ledger, Some(owner), Some(turn_id)),
        ({
            let published = publication(body, Some(response_id), Some(socket_id), output, now);
            &&& published is Some
            &&& stored_for(
                recorded(ledger, Some(owner), Some(turn_id), published),
                owner,
            ) == published
        }),
        table::age(later, now) <= TTL_MS,
        canonical::signature(next) == canonical::signature(body),
        canonical::begins_with(next.input, body.input + output),
        next.input.len() > (body.input + output).len(),
    ensures
        ({
            let after = recorded(
                ledger,
                Some(owner),
                Some(turn_id),
                publication(body, Some(response_id), Some(socket_id), output, now),
            );
            reservation_for(after, Some(owner), next, true, reason, later) == Reservation {
                candidate: Candidate {
                    turn_id: Some(after.next_turn),
                    previous_response_id: Some(response_id),
                    input_delta: Some(next.input.skip((body.input + output).len() as int)),
                    input_delta_count: (next.input.len() - (body.input + output).len()) as nat,
                    disabled_reason: None,
                },
                owner: Some(owner),
                origin_socket_id: Some(socket_id),
            }
        }),
{
}

/// A response without an identifier, or one that came over no known socket, is
/// never published: its owner has nothing stored afterwards.
pub proof fn unidentified_responses_are_not_published(
    ledger: Ledger,
    owner: request::Identity,
    turn_id: u64,
    body: request::Request,
    response_id: Option<Seq<char>>,
    socket_id: Option<u64>,
    output: Seq<request::Item>,
    now: u64,
)
    requires
        response_id is None || socket_id is None || socket_id == Some(0u64),
        current(ledger, Some(owner), Some(turn_id)),
    ensures
        stored_for(
            recorded(
                ledger,
                Some(owner),
                Some(turn_id),
                publication(body, response_id, socket_id, output, now),
            ),
            owner,
        ) is None,
{
    table::taking_out_touches_one_key(ledger.owners, owner, owner);
}

} // verus!
