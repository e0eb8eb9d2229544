//! Codex quota telemetry, handed on to the client.
//!
//! Codex says how much of a subscription is spent in two places: in `x-codex-*`
//! headers of an HTTP response, and in the `codex.rate_limits` event of the
//! WebSocket transport. The newest of either is kept and stamped onto every
//! response under the header names that Codex itself uses. A response that goes
//! out before any telemetry has arrived carries the previous snapshot, or none.

use crate::json;
use crate::json::JsonValue;
use crate::model;
use crate::outside;
use crate::text;
use vstd::prelude::*;
use vstd::string::*;
use vstd::utf8::*;

verus! {

// ---------------------------------------------------------------------------
// Headers
// ---------------------------------------------------------------------------

/// A header: its name, its value and whether the value is sensitive.
#[derive(Debug)]
pub struct Header {
    name: String,
    value: Vec<u8>,
    sensitive: bool,
}

impl View for Header {
    type V = (Seq<char>, Seq<u8>, bool);

    closed spec fn view(&self) -> (Seq<char>, Seq<u8>, bool) {
        (self.name@, self.value@, self.sensitive)
    }
}

/// Whether name and value of a header can stand in a message.
pub open spec fn well_formed(header: (Seq<char>, Seq<u8>, bool)) -> bool {
    outside::header_name(header.0) && outside::header_value(header.1)
}

/// Whether all headers can stand in a message.
pub open spec fn all_well_formed(headers: Seq<(Seq<char>, Seq<u8>, bool)>) -> bool {
    forall|i: int| 0 <= i < headers.len() ==> well_formed(#[trigger] headers[i])
}

/// The header that a name and a value make, where both can be read.
pub open spec fn made_header(name: Seq<char>, value: Seq<char>) -> Option<
    (Seq<char>, Seq<u8>, bool),
> {
    if outside::readable_name(name) && outside::header_value(encode_utf8(value)) {
        Some((name.map_values(|c: char| outside::lower_case(c)), encode_utf8(value), false))
    } else {
        None
    }
}

/// A made header can stand in a message.
proof fn lemma_made_header(name: Seq<char>, value: Seq<char>)
    ensures
        made_header(name, value) matches Some(header) ==> well_formed(header),
{
    if outside::readable_name(name) {
        let lower = name.map_values(|c: char| outside::lower_case(c));
        assert forall|i: int| 0 <= i < lower.len() implies outside::token_char(#[trigger] lower[i])
            && outside::lower_case(lower[i]) == lower[i] by {
            assert(outside::token_char(name[i]));
        }
    }
}

impl Header {
    /// The header that a name and a value make, where both can be read.
    pub fn new(name: &str, value: &str) -> (made: Option<Header>)
        ensures
            model::seen(made) == made_header(name@, value@),
            made matches Some(header) ==> well_formed(header@),
    {
        proof {
            lemma_made_header(name@, value@);
        }
        let name: Option<String> = outside::parse_name(name);
        let value: Option<Vec<u8>> = outside::parse_value(value);
        match (name, value) {
            (Some(name), Some(value)) => Some(Header { name, value, sensitive: false }),
            _ => None,
        }
    }

    /// The name of the header.
    pub fn name(&self) -> (name: &String)
        ensures
            name@ == self@.0,
    {
        &self.name
    }

    /// The value of the header.
    pub fn value(&self) -> (value: &Vec<u8>)
        ensures
            value@ == self@.1,
    {
        &self.value
    }

    /// Whether the value is sensitive.
    pub fn is_sensitive(&self) -> (answer: bool)
        ensures
            answer == self@.2,
    {
        self.sensitive
    }
}

/// The headers with one more behind them, where name and value make one.
pub open spec fn pushed(
    headers: Seq<(Seq<char>, Seq<u8>, bool)>,
    name: Seq<char>,
    value: Seq<char>,
) -> Seq<(Seq<char>, Seq<u8>, bool)> {
    match made_header(name, value) {
        Some(header) => headers.push(header),
        None => headers,
    }
}

/// Puts a header behind the others, where name and value make one.
pub fn push_header(headers: &mut Vec<Header>, name: &str, value: &str)
    requires
        all_well_formed(model::views(old(headers)@)),
    ensures
        model::views(final(headers)@) == pushed(model::views(old(headers)@), name@, value@),
        all_well_formed(model::views(final(headers)@)),
{
    let ghost before = model::views(headers@);
    if let Some(header) = Header::new(name, value) {
        let ghost added = header@;
        headers.push(header);
        assert(model::views(headers@) =~= before.push(added));
    }
}

// ---------------------------------------------------------------------------
// Telemetry in a response head
// ---------------------------------------------------------------------------

/// Whether a header name describes the subscription rather than a window.
pub open spec fn plan_name(name: Seq<char>) -> bool {
    name == "x-codex-plan-type"@ || name == "x-codex-active-limit"@
}

/// Whether a header name ends as those do that carry a window's numbers.
pub open spec fn window_name(name: Seq<char>) -> bool {
    text::ends_with(name, "-used-percent"@) || text::ends_with(name, "-window-minutes"@)
        || text::ends_with(name, "-reset-at"@) || text::ends_with(name, "-reset-after-seconds"@)
        || text::ends_with(name, "-limit-name"@) || text::ends_with(
        name,
        "-over-secondary-limit-percent"@,
    )
}

/// Whether a header name reports quota rather than protocol state. Codex sends
/// several families of limits and a few opaque continuation headers that share
/// the prefix; only the former are quota.
pub open spec fn quota_name(name: Seq<char>) -> bool {
    text::starts_with(name, "x-codex-"@) && (plan_name(name) || text::starts_with(
        name,
        "x-codex-credits-"@,
    ) || window_name(name))
}

/// Whether a header name reports quota rather than protocol state.
pub fn is_quota_header(name: &str) -> (answer: bool)
    ensures
        answer == quota_name(name@),
{
    let chars: Vec<char> = text::characters(name);
    if !text::has_prefix(&chars, "x-codex-") {
        return false;
    }
    text::same_text(name, "x-codex-plan-type") || text::same_text(name, "x-codex-active-limit")
        || text::has_prefix(&chars, "x-codex-credits-") || text::has_suffix(
        &chars,
        "-used-percent",
    ) || text::has_suffix(&chars, "-window-minutes") || text::has_suffix(&chars, "-reset-at")
        || text::has_suffix(&chars, "-reset-after-seconds") || text::has_suffix(
        &chars,
        "-limit-name",
    ) || text::has_suffix(&chars, "-over-secondary-limit-percent")
}

/// The headers that report quota.
pub open spec fn quota_headers(headers: Seq<(Seq<char>, Seq<u8>, bool)>) -> Seq<
    (Seq<char>, Seq<u8>, bool),
>
    decreases headers.len(),
{
    if headers.len() == 0 {
        headers
    } else if quota_name(headers.last().0) {
        quota_headers(headers.drop_last()).push(headers.last())
    } else {
        quota_headers(headers.drop_last())
    }
}

/// The quota headers of an upstream response head.
pub fn telemetry_headers(headers: &http::HeaderMap) -> (found: Vec<Header>)
    ensures
        model::views(found@) == quota_headers(outside::header_entries(*headers)),
        all_well_formed(model::views(found@)),
{
    let ghost all = outside::header_entries(*headers);
    let entries: Vec<(String, Vec<u8>, bool)> = outside::list_headers(headers);
    let ghost list = entries@;
    let mut found: Vec<Header> = Vec::new();
    assert(model::views(found@) =~= quota_headers(all.take(0)));
    for entry in it: entries.into_iter()
        invariant
            it.seq() == list,
            list.len() == all.len(),
            forall|i: int|
                0 <= i < list.len() ==> all[i] == ((#[trigger] list[i]).0@, list[i].1@, list[i].2)
                    && outside::header_name(list[i].0@) && outside::header_value(list[i].1@),
            model::views(found@) == quota_headers(all.take(it.index() as int)),
            all_well_formed(model::views(found@)),
    {
        let ghost before = model::views(found@);
        proof {
            let taken = all.take(it.index() + 1);
            assert(taken.drop_last() =~= all.take(it.index() as int));
            assert(taken.last() == (entry.0@, entry.1@, entry.2));
        }
        if is_quota_header(entry.0.as_str()) {
            let header: Header = Header { name: entry.0, value: entry.1, sensitive: entry.2 };
            let ghost added = header@;
            found.push(header);
            assert(model::views(found@) =~= before.push(added));
        }
    }
    assert(all.take(all.len() as int) =~= all);
    found
}

// ---------------------------------------------------------------------------
// Telemetry in an event
// ---------------------------------------------------------------------------

/// How many numbers an event can report: four of each of two windows.
pub const EVENT_NUMBERS: usize = 8;

/// The window that a number belongs to.
pub open spec fn window_of(k: int) -> Seq<char> {
    if k < 4 {
        "primary"@
    } else {
        "secondary"@
    }
}

/// The field of a window in which a number stands.
pub open spec fn field_of(k: int) -> Seq<char> {
    if k % 4 == 0 {
        "used_percent"@
    } else if k % 4 == 1 {
        "window_minutes"@
    } else if k % 4 == 2 {
        "reset_at"@
    } else {
        "reset_after_seconds"@
    }
}

/// The name of the header that carries a number.
pub open spec fn header_of(k: int) -> Seq<char> {
    if k == 0 {
        "x-codex-primary-used-percent"@
    } else if k == 1 {
        "x-codex-primary-window-minutes"@
    } else if k == 2 {
        "x-codex-primary-reset-at"@
    } else if k == 3 {
        "x-codex-primary-reset-after-seconds"@
    } else if k == 4 {
        "x-codex-secondary-used-percent"@
    } else if k == 5 {
        "x-codex-secondary-window-minutes"@
    } else if k == 6 {
        "x-codex-secondary-reset-at"@
    } else {
        "x-codex-secondary-reset-after-seconds"@
    }
}

/// A number that an event reports, as it is written there.
pub open spec fn event_number(payload: json::Json, k: int) -> Option<Seq<char>> {
    match json::member(payload, "rate_limits"@) {
        Some(limits) => match json::member(limits, window_of(k)) {
            Some(window) => match json::member(window, field_of(k)) {
                Some(json::Json::Number(number)) => Some(number),
                _ => None,
            },
            None => None,
        },
        None => None,
    }
}

/// The numbers that an event reports, as they are written there.
pub open spec fn event_number_list(payload: json::Json) -> Seq<Option<Seq<char>>> {
    Seq::new(EVENT_NUMBERS as nat, |k: int| event_number(payload, k))
}

/// The texts that may be there, by their views.
pub open spec fn seen_list(texts: Seq<Option<String>>) -> Seq<Option<Seq<char>>> {
    Seq::new(texts.len(), |i: int| model::seen(texts[i]))
}

/// The headers that carry the first `n` of the numbers that an event reports, each
/// as it has been formatted.
pub open spec fn number_headers(
    payload: json::Json,
    formatted: Seq<Option<Seq<char>>>,
    n: int,
) -> Seq<(Seq<char>, Seq<u8>, bool)>
    decreases n,
{
    if n <= 0 {
        Seq::empty()
    } else {
        let before = number_headers(payload, formatted, n - 1);
        if event_number(payload, n - 1) is Some && n - 1 < formatted.len() && formatted[n
            - 1] is Some {
            pushed(before, header_of(n - 1), formatted[n - 1]->0)
        } else {
            before
        }
    }
}

/// The headers that say what an event reports: its numbers, and the plan. The
/// event names further families of limits by label where headers name them by
/// identifier, so only the default family and the plan are told.
pub open spec fn headers_of_event(
    payload: json::Json,
    formatted: Seq<Option<Seq<char>>>,
) -> Seq<(Seq<char>, Seq<u8>, bool)> {
    let numbers = number_headers(payload, formatted, EVENT_NUMBERS as int);
    match json::as_text(json::member(payload, "plan_type"@)) {
        Some(plan) => pushed(numbers, "x-codex-plan-type"@, plan),
        None => numbers,
    }
}

/// The window that a number belongs to.
fn window_text(k: usize) -> (window: &'static str)
    ensures
        window@ == window_of(k as int),
{
    if k < 4 {
        "primary"
    } else {
        "secondary"
    }
}

/// The field of a window in which a number stands.
fn field_text(k: usize) -> (field: &'static str)
    ensures
        field@ == field_of(k as int),
{
    match k % 4 {
        0 => "used_percent",
        1 => "window_minutes",
        2 => "reset_at",
        _ => "reset_after_seconds",
    }
}

/// The name of the header that carries a number.
fn header_text(k: usize) -> (name: &'static str)
    ensures
        name@ == header_of(k as int),
{
    match k {
        0 => "x-codex-primary-used-percent",
        1 => "x-codex-primary-window-minutes",
        2 => "x-codex-primary-reset-at",
        3 => "x-codex-primary-reset-after-seconds",
        4 => "x-codex-secondary-used-percent",
        5 => "x-codex-secondary-window-minutes",
        6 => "x-codex-secondary-reset-at",
        _ => "x-codex-secondary-reset-after-seconds",
    }
}

/// A number that an event reports, as it is written there.
fn read_number(payload: &JsonValue, k: usize) -> (number: Option<String>)
    ensures
        model::seen(number) == event_number(payload@, k as int),
{
    let limits: &JsonValue = match payload.get("rate_limits") {
        Some(limits) => limits,
        None => {
            return None;
        },
    };
    let window: &JsonValue = match limits.get(window_text(k)) {
        Some(window) => window,
        None => {
            return None;
        },
    };
    match window.get(field_text(k)) {
        Some(JsonValue::Number(number)) => Some(number.clone()),
        _ => None,
    }
}

/// The numbers that an event reports, as they are written there.
pub fn event_numbers(payload: &JsonValue) -> (numbers: Vec<Option<String>>)
    ensures
        seen_list(numbers@) == event_number_list(payload@),
{
    let mut numbers: Vec<Option<String>> = Vec::new();
    let mut k: usize = 0;
    while k < EVENT_NUMBERS
        invariant
            k <= EVENT_NUMBERS,
            numbers@.len() == k,
            forall|j: int|
                0 <= j < k ==> model::seen(#[trigger] numbers@[j]) == event_number(payload@, j),
        decreases EVENT_NUMBERS - k,
    {
        numbers.push(read_number(payload, k));
        k = k + 1;
    }
    assert(seen_list(numbers@) =~= event_number_list(payload@));
    numbers
}

/// The headers that say what a `codex.rate_limits` event reports. `formatted`
/// holds the numbers of the event, each as it is to stand in its header.
pub fn event_headers(payload: &JsonValue, formatted: &[Option<String>]) -> (headers: Vec<Header>)
    ensures
        model::views(headers@) == headers_of_event(payload@, seen_list(formatted@)),
        all_well_formed(model::views(headers@)),
{
    let ghost given = seen_list(formatted@);
    let mut headers: Vec<Header> = Vec::new();
    let mut k: usize = 0;
    assert(model::views(headers@) =~= number_headers(payload@, given, 0));
    while k < EVENT_NUMBERS
        invariant
            k <= EVENT_NUMBERS,
            given == seen_list(formatted@),
            model::views(headers@) == number_headers(payload@, given, k as int),
            all_well_formed(model::views(headers@)),
        decreases EVENT_NUMBERS - k,
    {
        if read_number(payload, k).is_some() && k < formatted.len() {
            assert(given[k as int] == model::seen(formatted@[k as int]));
            if let Some(number) = &formatted[k] {
                push_header(&mut headers, header_text(k), number.as_str());
            }
        }
        k = k + 1;
    }
    if let Some(JsonValue::Text(plan)) = payload.get("plan_type") {
        push_header(&mut headers, "x-codex-plan-type", plan.as_str());
    }
    headers
}

// ---------------------------------------------------------------------------
// The snapshot
// ---------------------------------------------------------------------------

/// The newest telemetry.
#[derive(Debug)]
pub struct QuotaSnapshot {
    headers: Vec<Header>,
}

impl View for QuotaSnapshot {
    type V = Seq<(Seq<char>, Seq<u8>, bool)>;

    closed spec fn view(&self) -> Seq<(Seq<char>, Seq<u8>, bool)> {
        model::views(self.headers@)
    }
}

impl QuotaSnapshot {
    /// Whether the headers can stand in a message.
    pub open spec fn wf(&self) -> bool {
        all_well_formed(self@)
    }

    /// A snapshot taken before any telemetry has arrived.
    pub fn new() -> (snapshot: Self)
        ensures
            snapshot.wf(),
            snapshot@ == Seq::<(Seq<char>, Seq<u8>, bool)>::empty(),
    {
        let snapshot: Self = QuotaSnapshot { headers: Vec::new() };
        assert(snapshot@ =~= Seq::<(Seq<char>, Seq<u8>, bool)>::empty());
        snapshot
    }

    /// How many headers there are.
    pub fn len(&self) -> (n: usize)
        ensures
            n == self@.len(),
    {
        self.headers.len()
    }
}

/// The newest telemetry once more has arrived. Nothing at all says nothing about
/// the quota, so the previous answer stands.
pub open spec fn recorded(
    snapshot: Seq<(Seq<char>, Seq<u8>, bool)>,
    headers: Seq<(Seq<char>, Seq<u8>, bool)>,
) -> Seq<(Seq<char>, Seq<u8>, bool)> {
    if headers.len() == 0 {
        snapshot
    } else {
        headers
    }
}

/// Keeps headers as the newest snapshot, unless there are none.
pub fn record(snapshot: &mut QuotaSnapshot, headers: Vec<Header>)
    requires
        old(snapshot).wf(),
        all_well_formed(model::views(headers@)),
    ensures
        final(snapshot).wf(),
        final(snapshot)@ == recorded(old(snapshot)@, model::views(headers@)),
{
    if headers.len() > 0 {
        snapshot.headers = headers;
    }
}

/// Headers with those of a snapshot behind them, but for those that are there
/// already.
pub open spec fn stamped(
    entries: Seq<(Seq<char>, Seq<u8>, bool)>,
    snapshot: Seq<(Seq<char>, Seq<u8>, bool)>,
) -> Seq<(Seq<char>, Seq<u8>, bool)>
    decreases snapshot.len(),
{
    if snapshot.len() == 0 {
        entries
    } else {
        let before = stamped(entries, snapshot.drop_last());
        if outside::names_header(before, snapshot.last().0) {
            before
        } else {
            before.push(snapshot.last())
        }
    }
}

/// Stamping more takes no header away.
proof fn lemma_stamped_grows(
    entries: Seq<(Seq<char>, Seq<u8>, bool)>,
    snapshot: Seq<(Seq<char>, Seq<u8>, bool)>,
    k: int,
)
    requires
        0 <= k <= snapshot.len(),
    ensures
        stamped(entries, snapshot.take(k)).len() <= stamped(entries, snapshot).len(),
    decreases snapshot.len(),
{
    if k < snapshot.len() {
        lemma_stamped_grows(entries, snapshot.drop_last(), k);
        assert(snapshot.drop_last().take(k) =~= snapshot.take(k));
    } else {
        assert(snapshot.take(k) =~= snapshot);
    }
}

/// Whether headers are what stamping leaves once the target has refused a header of
/// the snapshot: those before it have been stamped, it is not among them, and there
/// are so many headers that one more may be refused.
pub open spec fn stamped_until_refused(
    entries: Seq<(Seq<char>, Seq<u8>, bool)>,
    snapshot: Seq<(Seq<char>, Seq<u8>, bool)>,
    left: Seq<(Seq<char>, Seq<u8>, bool)>,
) -> bool {
    exists|k: int|
        0 <= k < snapshot.len() && left == stamped(entries, #[trigger] snapshot.take(k))
            && !outside::names_header(left, snapshot[k].0) && left.len() > outside::MAX_HEADERS
}

/// Adds the newest snapshot to the headers of a response, leaving any header that
/// the response already has alone. It stops at a header that the response has no room
/// for, and says whether there was room for all.
pub fn stamp(snapshot: &QuotaSnapshot, target: &mut http::HeaderMap) -> (done: bool)
    requires
        snapshot.wf(),
    ensures
        done ==> outside::header_entries(*final(target)) == stamped(
            outside::header_entries(*old(target)),
            snapshot@,
        ),
        !done ==> stamped_until_refused(
            outside::header_entries(*old(target)),
            snapshot@,
            outside::header_entries(*final(target)),
        ),
        stamped(outside::header_entries(*old(target)), snapshot@).len() <= outside::MAX_HEADERS
            ==> done,
{
    let ghost start = outside::header_entries(*target);
    let ghost all = snapshot@;
    let mut i: usize = 0;
    assert(stamped(start, all.take(0)) =~= start);
    while i < snapshot.headers.len()
        invariant
            i <= snapshot.headers@.len(),
            snapshot.wf(),
            all == snapshot@,
            all == model::views(snapshot.headers@),
            start == outside::header_entries(*old(target)),
            outside::header_entries(*target) == stamped(start, all.take(i as int)),
        decreases snapshot.headers@.len() - i,
    {
        let header: &Header = &snapshot.headers[i];
        proof {
            let taken = all.take(i + 1);
            assert(taken.drop_last() =~= all.take(i as int));
            assert(taken.last() == header@);
            assert(well_formed(all[i as int]));
            lemma_stamped_grows(start, all, i as int);
        }
        if !outside::has_header(target, header.name.as_str()) && !outside::insert_header(
            target,
            header.name.as_str(),
            header.value.as_slice(),
            header.sensitive,
        ) {
            return false;
        }
        i = i + 1;
    }
    assert(all.take(all.len() as int) =~= all);
    true
}

// ---------------------------------------------------------------------------
// What holds of it
// ---------------------------------------------------------------------------

/// Of a response head exactly the quota headers are kept.
pub proof fn exactly_the_quota_headers_are_kept(
    headers: Seq<(Seq<char>, Seq<u8>, bool)>,
    header: (Seq<char>, Seq<u8>, bool),
)
    ensures
        quota_headers(headers).contains(header) == (headers.contains(header) && quota_name(
            header.0,
        )),
    decreases headers.len(),
{
    if headers.len() > 0 {
        let shorter = headers.drop_last();
        let kept = quota_headers(shorter);
        exactly_the_quota_headers_are_kept(shorter, header);
        lemma_push_contains(shorter, headers.last(), header);
        lemma_push_contains(kept, headers.last(), header);
        assert(shorter.push(headers.last()) =~= headers);
    }
}

proof fn lemma_push_contains<T>(items: Seq<T>, last: T, item: T)
    ensures
        items.push(last).contains(item) == (items.contains(item) || item == last),
{
    let longer = items.push(last);
    if items.contains(item) {
        let i = choose|i: int| 0 <= i < items.len() && items[i] == item;
        assert(longer[i] == item);
    }
    if item == last {
        assert(longer[items.len() as int] == item);
    }
    if longer.contains(item) && item != last {
        let i = choose|i: int| 0 <= i < longer.len() && longer[i] == item;
        assert(items[i] == item);
    }
}

/// Stamping leaves the headers that a response has as they are, and adds only
/// headers of the snapshot.
pub proof fn stamping_leaves_headers_alone(
    entries: Seq<(Seq<char>, Seq<u8>, bool)>,
    snapshot: Seq<(Seq<char>, Seq<u8>, bool)>,
)
    ensures
        entries.len() <= stamped(entries, snapshot).len(),
        stamped(entries, snapshot).take(entries.len() as int) == entries,
        forall|i: int|
            entries.len() <= i < stamped(entries, snapshot).len() ==> snapshot.contains(
                #[trigger] stamped(entries, snapshot)[i],
            ),
    decreases snapshot.len(),
{
    if snapshot.len() > 0 {
        let shorter = snapshot.drop_last();
        let before = stamped(entries, shorter);
        let after = stamped(entries, snapshot);
        stamping_leaves_headers_alone(entries, shorter);
        assert(after.take(entries.len() as int) =~= before.take(entries.len() as int));
        assert(shorter.push(snapshot.last()) =~= snapshot);
        assert forall|i: int| entries.len() <= i < after.len() implies snapshot.contains(
            #[trigger] after[i],
        ) by {
            lemma_push_contains(shorter, snapshot.last(), after[i]);
            if i < before.len() {
                assert(shorter.contains(before[i]));
            }
        }
    } else {
        assert(entries.take(entries.len() as int) =~= entries);
    }
}

proof fn lemma_push_keeps_names(
    entries: Seq<(Seq<char>, Seq<u8>, bool)>,
    header: (Seq<char>, Seq<u8>, bool),
    name: Seq<char>,
)
    requires
        outside::names_header(entries, name) || header.0 == name,
    ensures
        outside::names_header(entries.push(header), name),
{
    let longer = entries.push(header);
    if header.0 == name {
        assert(longer[entries.len() as int].0 == name);
    } else {
        let i = choose|i: int| 0 <= i < entries.len() && (#[trigger] entries[i]).0 == name;
        assert(longer[i].0 == name);
    }
}

/// After stamping, a response has a header of every name in the snapshot.
pub proof fn stamping_adds_every_name(
    entries: Seq<(Seq<char>, Seq<u8>, bool)>,
    snapshot: Seq<(Seq<char>, Seq<u8>, bool)>,
    i: int,
)
    requires
        0 <= i < snapshot.len(),
    ensures
        outside::names_header(stamped(entries, snapshot), snapshot[i].0),
    decreases snapshot.len(),
{
    let shorter = snapshot.drop_last();
    let before = stamped(entries, shorter);
    if i < shorter.len() {
        stamping_adds_every_name(entries, shorter, i);
    }
    if !outside::names_header(before, snapshot.last().0) {
        lemma_push_keeps_names(before, snapshot.last(), snapshot[i].0);
    }
}

proof fn lemma_nothing_to_stamp(
    entries: Seq<(Seq<char>, Seq<u8>, bool)>,
    snapshot: Seq<(Seq<char>, Seq<u8>, bool)>,
)
    requires
        forall|i: int|
            0 <= i < snapshot.len() ==> outside::names_header(entries, (#[trigger] snapshot[i]).0),
    ensures
        stamped(entries, snapshot) == entries,
    decreases snapshot.len(),
{
    if snapshot.len() > 0 {
        assert(outside::names_header(entries, snapshot[snapshot.len() - 1].0));
        lemma_nothing_to_stamp(entries, snapshot.drop_last());
    }
}

/// The headers of a name.
pub open spec fn named(
    entries: Seq<(Seq<char>, Seq<u8>, bool)>,
    name: Seq<char>,
) -> Seq<(Seq<char>, Seq<u8>, bool)>
    decreases entries.len(),
{
    if entries.len() == 0 {
        entries
    } else if entries.last().0 == name {
        named(entries.drop_last(), name).push(entries.last())
    } else {
        named(entries.drop_last(), name)
    }
}

proof fn lemma_named(entries: Seq<(Seq<char>, Seq<u8>, bool)>, name: Seq<char>)
    ensures
        (named(entries, name).len() > 0) == outside::names_header(entries, name),
    decreases entries.len(),
{
    if entries.len() > 0 {
        let shorter = entries.drop_last();
        lemma_named(shorter, name);
        if entries.last().0 == name {
            assert(entries[entries.len() - 1].0 == name);
        } else {
            if outside::names_header(shorter, name) {
                let i = choose|i: int| 0 <= i < shorter.len() && (#[trigger] shorter[i]).0 == name;
                assert(entries[i].0 == name);
            }
            if outside::names_header(entries, name) {
                let i = choose|i: int| 0 <= i < entries.len() && (#[trigger] entries[i]).0 == name;
                assert(shorter[i].0 == name);
            }
        }
    }
}

/// Of a name that a response has, stamping leaves exactly the headers that were there.
/// Of any other name it adds the first header that the snapshot has, and no more.
pub proof fn stamping_adds_the_first_of_a_name(
    entries: Seq<(Seq<char>, Seq<u8>, bool)>,
    snapshot: Seq<(Seq<char>, Seq<u8>, bool)>,
    name: Seq<char>,
)
    ensures
        named(stamped(entries, snapshot), name) == if outside::names_header(entries, name)
            || !outside::names_header(snapshot, name) {
            named(entries, name)
        } else {
            seq![named(snapshot, name)[0]]
        },
    decreases snapshot.len(),
{
    lemma_named(entries, name);
    lemma_named(snapshot, name);
    if snapshot.len() > 0 {
        let shorter = snapshot.drop_last();
        let before = stamped(entries, shorter);
        let header = snapshot.last();
        stamping_adds_the_first_of_a_name(entries, shorter, name);
        lemma_named(before, name);
        lemma_named(shorter, name);
        assert(before.push(header).drop_last() =~= before);
        if header.0 == name && !outside::names_header(before, name) {
            assert(named(entries, name) =~= Seq::empty());
            assert(named(shorter, name) =~= Seq::empty());
            assert(named(before, name).push(header) =~= seq![header]);
        }
    }
}

/// Whether no name stands twice.
pub open spec fn distinct_headers(headers: Seq<(Seq<char>, Seq<u8>, bool)>) -> bool {
    forall|i: int, j: int|
        0 <= i < j < headers.len() ==> (#[trigger] headers[i]).0 != (#[trigger] headers[j]).0
}

proof fn lemma_named_once(headers: Seq<(Seq<char>, Seq<u8>, bool)>, i: int)
    requires
        distinct_headers(headers),
        0 <= i < headers.len(),
    ensures
        named(headers, headers[i].0) == seq![headers[i]],
    decreases headers.len(),
{
    let shorter = headers.drop_last();
    if i < shorter.len() {
        lemma_named_once(shorter, i);
    } else {
        lemma_named(shorter, headers[i].0);
        if outside::names_header(shorter, headers[i].0) {
            let k = choose|k: int|
                0 <= k < shorter.len() && (#[trigger] shorter[k]).0 == headers[i].0;
            assert(headers[k].0 == headers[i].0);
        }
        assert(named(shorter, headers[i].0) =~= Seq::empty());
        assert(named(headers, headers[i].0) =~= seq![headers[i]]);
    }
}

/// Where no name stands twice in the snapshot, each of its headers that a response
/// does not have stands in the stamped response once, with exactly its value.
pub proof fn stamping_adds_each_header_once(
    entries: Seq<(Seq<char>, Seq<u8>, bool)>,
    snapshot: Seq<(Seq<char>, Seq<u8>, bool)>,
    i: int,
)
    requires
        distinct_headers(snapshot),
        0 <= i < snapshot.len(),
    ensures
        named(stamped(entries, snapshot), snapshot[i].0) == if outside::names_header(
            entries,
            snapshot[i].0,
        ) {
            named(entries, snapshot[i].0)
        } else {
            seq![snapshot[i]]
        },
{
    stamping_adds_the_first_of_a_name(entries, snapshot, snapshot[i].0);
    lemma_named_once(snapshot, i);
}

/// Stamping a response twice is stamping it once.
pub proof fn stamping_twice_is_stamping_once(
    entries: Seq<(Seq<char>, Seq<u8>, bool)>,
    snapshot: Seq<(Seq<char>, Seq<u8>, bool)>,
)
    ensures
        stamped(stamped(entries, snapshot), snapshot) == stamped(entries, snapshot),
{
    assert forall|i: int| 0 <= i < snapshot.len() implies outside::names_header(
        stamped(entries, snapshot),
        (#[trigger] snapshot[i]).0,
    ) by {
        stamping_adds_every_name(entries, snapshot, i);
    }
    lemma_nothing_to_stamp(stamped(entries, snapshot), snapshot);
}

/// The headers that say what an event reports have the names that Codex itself
/// uses for quota.
pub proof fn event_headers_have_quota_names(k: int)
    requires
        0 <= k < EVENT_NUMBERS,
    ensures
        quota_name(header_of(k)),
        quota_name("x-codex-plan-type"@),
{
    reveal_strlit("x-codex-");
    reveal_strlit("x-codex-plan-type");
    reveal_strlit("-used-percent");
    reveal_strlit("-window-minutes");
    reveal_strlit("-reset-at");
    reveal_strlit("-reset-after-seconds");
    reveal_strlit("x-codex-primary-used-percent");
    reveal_strlit("x-codex-primary-window-minutes");
    reveal_strlit("x-codex-primary-reset-at");
    reveal_strlit("x-codex-primary-reset-after-seconds");
    reveal_strlit("x-codex-secondary-used-percent");
    reveal_strlit("x-codex-secondary-window-minutes");
    reveal_strlit("x-codex-secondary-reset-at");
    reveal_strlit("x-codex-secondary-reset-after-seconds");
    let name = header_of(k);
    let plan = "x-codex-plan-type"@;
    assert(plan.subrange(0, 8) =~= "x-codex-"@);
    assert(name.subrange(0, 8) =~= "x-codex-"@);
    if k % 4 == 0 {
        assert(name.subrange(name.len() - 13, name.len() as int) =~= "-used-percent"@);
    } else if k % 4 == 1 {
        assert(name.subrange(name.len() - 15, name.len() as int) =~= "-window-minutes"@);
    } else if k % 4 == 2 {
        assert(name.subrange(name.len() - 9, name.len() as int) =~= "-reset-at"@);
    } else {
        assert(name.subrange(name.len() - 20, name.len() as int) =~= "-reset-after-seconds"@);
    }
}

} // verus!
