//! Which headers tell of a quota, and what an event says in headers.

use crate::json;
use crate::outside;
use crate::rate_limits;
use crate::text;
use crate::text_laws;
use vstd::prelude::*;
use vstd::string::*;
use vstd::utf8::*;

verus! {

/// A name with hyphens in place of underscores.
pub open spec fn hyphenated(name: Seq<char>) -> Seq<char> {
    name.map_values(
        |c: char|
            if c == '_' {
                '-'
            } else {
                c
            },
    )
}

/// The window and the field that the number with an index stands in: four fields of the
/// primary window, and the same four of the secondary one.
pub open spec fn place(k: int) -> (Seq<char>, Seq<char>) {
    (
        if k < 4 {
            "primary"@
        } else {
            "secondary"@
        },
        if k == 0 || k == 4 {
            "used_percent"@
        } else if k == 1 || k == 5 {
            "window_minutes"@
        } else if k == 2 || k == 6 {
            "reset_at"@
        } else {
            "reset_after_seconds"@
        },
    )
}

/// The header that carries a number names the window and the field that the number
/// stands in, with hyphens in place of underscores.
pub proof fn headers_name_window_and_field(k: int)
    requires
        0 <= k < 8,
    ensures
        rate_limits::header_of(k) == "x-codex-"@ + place(k).0 + "-"@ + hyphenated(place(k).1),
{
    reveal_strlit("x-codex-");
    reveal_strlit("-");
    reveal_strlit("primary");
    reveal_strlit("secondary");
    reveal_strlit("used_percent");
    reveal_strlit("window_minutes");
    reveal_strlit("reset_at");
    reveal_strlit("reset_after_seconds");
    reveal_strlit("x-codex-primary-used-percent");
    reveal_strlit("x-codex-primary-window-minutes");
    reveal_strlit("x-codex-primary-reset-at");
    reveal_strlit("x-codex-primary-reset-after-seconds");
    reveal_strlit("x-codex-secondary-used-percent");
    reveal_strlit("x-codex-secondary-window-minutes");
    reveal_strlit("x-codex-secondary-reset-at");
    reveal_strlit("x-codex-secondary-reset-after-seconds");
    assert(rate_limits::header_of(k) =~= "x-codex-"@ + place(k).0 + "-"@ + hyphenated(place(k).1));
}

/// No two numbers stand in the same header, and none in that of the plan.
pub proof fn headers_of_numbers_differ(j: int, k: int)
    requires
        0 <= j < k < 8,
    ensures
        rate_limits::header_of(j) != rate_limits::header_of(k),
        rate_limits::header_of(j) != "x-codex-plan-type"@,
        rate_limits::header_of(k) != "x-codex-plan-type"@,
{
    reveal_strlit("x-codex-plan-type");
    reveal_strlit("x-codex-primary-used-percent");
    reveal_strlit("x-codex-primary-window-minutes");
    reveal_strlit("x-codex-primary-reset-at");
    reveal_strlit("x-codex-primary-reset-after-seconds");
    reveal_strlit("x-codex-secondary-used-percent");
    reveal_strlit("x-codex-secondary-window-minutes");
    reveal_strlit("x-codex-secondary-reset-at");
    reveal_strlit("x-codex-secondary-reset-after-seconds");
    assert("x-codex-plan-type"@.len() == 17);
    assert("x-codex-primary-used-percent"@.len() == 28);
    assert("x-codex-primary-window-minutes"@.len() == 30 && "x-codex-primary-window-minutes"@[8]
        == 'p');
    assert("x-codex-primary-reset-at"@.len() == 24);
    assert("x-codex-primary-reset-after-seconds"@.len() == 35);
    assert("x-codex-secondary-used-percent"@.len() == 30 && "x-codex-secondary-used-percent"@[8]
        == 's');
    assert("x-codex-secondary-window-minutes"@.len() == 32);
    assert("x-codex-secondary-reset-at"@.len() == 26);
    assert("x-codex-secondary-reset-after-seconds"@.len() == 37);
}

/// The number that an event reports of a field of a window is the number that stands
/// there in its rate limits, and none where no number stands there.
pub proof fn numbers_are_read_where_they_stand(payload: json::Json, k: int)
    requires
        0 <= k < 8,
    ensures
        rate_limits::event_number(payload, k) == match json::member(payload, "rate_limits"@) {
            Some(limits) => match json::member(limits, place(k).0) {
                Some(window) => match json::member(window, place(k).1) {
                    Some(json::Json::Number(number)) => Some(number),
                    _ => None,
                },
                None => None,
            },
            None => None,
        },
        rate_limits::event_number_list(payload).len() == 8,
        rate_limits::event_number_list(payload)[k] == rate_limits::event_number(payload, k),
{
}

/// Names of headers that are written in small letters, digits and hyphens stand in a
/// header as they are, with the bytes of the value.
proof fn lemma_made(name: Seq<char>, value: Seq<char>)
    requires
        1 <= name.len() <= 65535,
        forall|i: int|
            0 <= i < name.len() ==> (('a' <= #[trigger] name[i] && name[i] <= 'z') || name[i]
                == '-'),
    ensures
        rate_limits::made_header(name, value) == if outside::header_value(encode_utf8(value)) {
            Some((name, encode_utf8(value), false))
        } else {
            None
        },
{
    assert(name.map_values(|c: char| outside::lower_case(c)) =~= name);
    assert forall|i: int| 0 <= i < name.len() implies outside::token_char(#[trigger] name[i]) by {}
}

proof fn lemma_header_letters(k: int)
    requires
        0 <= k < 8,
    ensures
        ({
            let name = rate_limits::header_of(k);
            &&& 1 <= name.len() <= 65535
            &&& forall|i: int|
                0 <= i < name.len() ==> (('a' <= #[trigger] name[i] && name[i] <= 'z') || name[i]
                    == '-')
        }),
{
    reveal_strlit("x-codex-primary-used-percent");
    reveal_strlit("x-codex-primary-window-minutes");
    reveal_strlit("x-codex-primary-reset-at");
    reveal_strlit("x-codex-primary-reset-after-seconds");
    reveal_strlit("x-codex-secondary-used-percent");
    reveal_strlit("x-codex-secondary-window-minutes");
    reveal_strlit("x-codex-secondary-reset-at");
    reveal_strlit("x-codex-secondary-reset-after-seconds");
}

/// Whether a header is the one that carries the number with an index.
pub open spec fn carries(
    payload: json::Json,
    formatted: Seq<Option<Seq<char>>>,
    k: int,
    header: (Seq<char>, Seq<u8>, bool),
) -> bool {
    &&& 0 <= k < 8
    &&& k < formatted.len()
    &&& rate_limits::event_number(payload, k) is Some
    &&& formatted[k] is Some
    &&& outside::header_value(encode_utf8(formatted[k]->0))
    &&& header == (rate_limits::header_of(k), encode_utf8(formatted[k]->0), false)
}

proof fn lemma_number_headers(
    payload: json::Json,
    formatted: Seq<Option<Seq<char>>>,
    n: int,
    header: (Seq<char>, Seq<u8>, bool),
)
    requires
        0 <= n <= 8,
    ensures
        rate_limits::number_headers(payload, formatted, n).contains(header) == exists|k: int|
            k < n && #[trigger] carries(payload, formatted, k, header),
    decreases n,
{
    let all = rate_limits::number_headers(payload, formatted, n);
    if n > 0 {
        let before = rate_limits::number_headers(payload, formatted, n - 1);
        lemma_number_headers(payload, formatted, n - 1, header);
        if rate_limits::event_number(payload, n - 1) is Some && n - 1 < formatted.len()
            && formatted[n - 1] is Some {
            lemma_header_letters(n - 1);
            lemma_made(rate_limits::header_of(n - 1), formatted[n - 1]->0);
            if outside::header_value(encode_utf8(formatted[n - 1]->0)) {
                let last = (
                    rate_limits::header_of(n - 1),
                    encode_utf8(formatted[n - 1]->0),
                    false,
                );
                assert(all == before.push(last));
                lemma_push_contains(before, last, header);
                if header == last {
                    assert(carries(payload, formatted, n - 1, header));
                }
            }
        }
        if exists|k: int| k < n && #[trigger] carries(payload, formatted, k, header) {
            let k = choose|k: int| k < n && #[trigger] carries(payload, formatted, k, header);
            if k < n - 1 {
                assert(before.contains(header));
            }
        }
    }
}

proof fn lemma_push_contains<T>(items: Seq<T>, last: T, item: T)
    ensures
        items.push(last).contains(item) == (items.contains(item) || item == last),
{
    let longer = items.push(last);
    if items.contains(item) {
        let i = choose|i: int| 0 <= i < items.len() && items[i] == item;
        assert(longer[i] == item);
    }
    if item == last {
        assert(longer[items.len() as int] == item);
    }
    if longer.contains(item) && item != last {
        let i = choose|i: int| 0 <= i < longer.len() && longer[i] == item;
        assert(items[i] == item);
    }
}

/// An event is told in exactly these headers: one for each number that it reports, with
/// the name of its window and its field and the number as it has been formatted, and one
/// for the plan. What cannot stand in a header is left out.
pub proof fn events_are_told_in_headers(
    payload: json::Json,
    formatted: Seq<Option<Seq<char>>>,
    header: (Seq<char>, Seq<u8>, bool),
)
    ensures
        rate_limits::headers_of_event(payload, formatted).contains(header) == ((exists|k: int|
            #[trigger] carries(payload, formatted, k, header)) || (json::member(
            payload,
            "plan_type"@,
        ) matches Some(json::Json::Text(plan)) && outside::header_value(encode_utf8(plan))
            && header == ("x-codex-plan-type"@, encode_utf8(plan), false))),
{
    reveal_strlit("x-codex-plan-type");
    lemma_number_headers(payload, formatted, 8, header);
    let numbers = rate_limits::number_headers(payload, formatted, 8);
    if let Some(json::Json::Text(plan)) = json::member(payload, "plan_type"@) {
        lemma_made("x-codex-plan-type"@, plan);
        lemma_push_contains(
            numbers,
            ("x-codex-plan-type"@, encode_utf8(plan), false),
            header,
        );
    }
}

proof fn lemma_number_headers_differ(
    payload: json::Json,
    formatted: Seq<Option<Seq<char>>>,
    n: int,
)
    requires
        0 <= n <= 8,
    ensures
        rate_limits::distinct_headers(rate_limits::number_headers(payload, formatted, n)),
    decreases n,
{
    let all = rate_limits::number_headers(payload, formatted, n);
    if n > 0 {
        let before = rate_limits::number_headers(payload, formatted, n - 1);
        lemma_number_headers_differ(payload, formatted, n - 1);
        if all != before {
            lemma_header_letters(n - 1);
            lemma_made(rate_limits::header_of(n - 1), formatted[n - 1]->0);
            assert forall|i: int, j: int| 0 <= i < j < all.len() implies (#[trigger] all[i]).0 != (
            #[trigger] all[j]).0 by {
                if j < before.len() {
                    assert(before[i].0 != before[j].0);
                } else {
                    lemma_number_headers(payload, formatted, n - 1, before[i]);
                    assert(before.contains(before[i]));
                    let k = choose|k: int|
                        k < n - 1 && #[trigger] carries(payload, formatted, k, before[i]);
                    headers_of_numbers_differ(k, n - 1);
                }
            }
        }
    }
}

/// No header of an event is named twice.
pub proof fn headers_of_an_event_differ(payload: json::Json, formatted: Seq<Option<Seq<char>>>)
    ensures
        rate_limits::distinct_headers(rate_limits::headers_of_event(payload, formatted)),
{
    reveal_strlit("x-codex-plan-type");
    lemma_number_headers_differ(payload, formatted, 8);
    let numbers = rate_limits::number_headers(payload, formatted, 8);
    let all = rate_limits::headers_of_event(payload, formatted);
    if let Some(json::Json::Text(plan)) = json::member(payload, "plan_type"@) {
        lemma_made("x-codex-plan-type"@, plan);
        if all != numbers {
            assert forall|i: int, j: int| 0 <= i < j < all.len() implies (#[trigger] all[i]).0 != (
            #[trigger] all[j]).0 by {
                if j < numbers.len() {
                    assert(numbers[i].0 != numbers[j].0);
                } else {
                    lemma_number_headers(payload, formatted, 8, numbers[i]);
                    assert(numbers.contains(numbers[i]));
                    let k = choose|k: int|
                        k < 8 && #[trigger] carries(payload, formatted, k, numbers[i]);
                    if k < 7 {
                        headers_of_numbers_differ(k, 7);
                    } else {
                        headers_of_numbers_differ(0, 7);
                    }
                }
            }
        }
    }
}

proof fn lemma_numbers_in_order(
    payload: json::Json,
    formatted: Seq<Option<Seq<char>>>,
    n: int,
    i: int,
    j: int,
    a: int,
    b: int,
)
    requires
        0 <= n <= 8,
        0 <= i < j < rate_limits::number_headers(payload, formatted, n).len(),
        0 <= a < 8,
        0 <= b < 8,
        rate_limits::number_headers(payload, formatted, n)[i].0 == rate_limits::header_of(a),
        rate_limits::number_headers(payload, formatted, n)[j].0 == rate_limits::header_of(b),
    ensures
        a < b,
    decreases n,
{
    let all = rate_limits::number_headers(payload, formatted, n);
    let before = rate_limits::number_headers(payload, formatted, n - 1);
    if n > 0 {
        if j < before.len() {
            assert(before[i] == all[i] && before[j] == all[j]);
            lemma_numbers_in_order(payload, formatted, n - 1, i, j, a, b);
        } else {
            lemma_header_letters(n - 1);
            lemma_made(rate_limits::header_of(n - 1), formatted[n - 1]->0);
            assert(all[j].0 == rate_limits::header_of(n - 1));
            lemma_number_headers(payload, formatted, n - 1, before[i]);
            assert(before.contains(before[i]));
            let k = choose|k: int| k < n - 1 && #[trigger] carries(payload, formatted, k, before[i]);
            lemma_same_header(a, k);
            lemma_same_header(b, n - 1);
        }
    }
}

proof fn lemma_same_header(j: int, k: int)
    requires
        0 <= j < 8,
        0 <= k < 8,
        rate_limits::header_of(j) == rate_limits::header_of(k),
    ensures
        j == k,
{
    if j < k {
        headers_of_numbers_differ(j, k);
    } else if k < j {
        headers_of_numbers_differ(k, j);
    }
}

/// The numbers of an event are told in their order, those of the primary window before
/// those of the secondary, and the plan behind them.
pub proof fn numbers_are_told_in_order(
    payload: json::Json,
    formatted: Seq<Option<Seq<char>>>,
    i: int,
    j: int,
    a: int,
    b: int,
)
    requires
        0 <= i < j < rate_limits::headers_of_event(payload, formatted).len(),
        0 <= a < 8,
        0 <= b < 8,
        rate_limits::headers_of_event(payload, formatted)[i].0 == rate_limits::header_of(a),
    ensures
        rate_limits::headers_of_event(payload, formatted)[j].0 == rate_limits::header_of(b) ==> a
            < b,
        rate_limits::headers_of_event(payload, formatted)[j].0 == "x-codex-plan-type"@ ==> j
            == rate_limits::headers_of_event(payload, formatted).len() - 1,
{
    reveal_strlit("x-codex-plan-type");
    let numbers = rate_limits::number_headers(payload, formatted, 8);
    let all = rate_limits::headers_of_event(payload, formatted);
    if b < 7 {
        headers_of_numbers_differ(b, 7);
    } else {
        headers_of_numbers_differ(0, 7);
    }
    if let Some(json::Json::Text(plan)) = json::member(payload, "plan_type"@) {
        lemma_made("x-codex-plan-type"@, plan);
    }
    if j < numbers.len() {
        lemma_number_headers(payload, formatted, 8, numbers[j]);
        assert(numbers.contains(numbers[j]));
        let k = choose|k: int| k < 8 && #[trigger] carries(payload, formatted, k, numbers[j]);
        if k < 7 {
            headers_of_numbers_differ(k, 7);
        } else {
            headers_of_numbers_differ(0, 7);
        }
        assert(all[j] == numbers[j]);
    }
    if all[j].0 == rate_limits::header_of(b) {
        assert(j < numbers.len());
        assert(numbers[i] == all[i] && numbers[j] == all[j]);
        lemma_numbers_in_order(payload, formatted, 8, i, j, a, b);
    }
}

/// Of a response head the headers that report quota are kept, all of them, as they are
/// and in order.
pub proof fn all_quota_headers_are_kept(headers: Seq<(Seq<char>, Seq<u8>, bool)>)
    ensures
        rate_limits::quota_headers(headers) == headers.filter(
            |header: (Seq<char>, Seq<u8>, bool)| rate_limits::quota_name(header.0),
        ),
    decreases headers.len(),
{
    reveal(Seq::filter);
    if headers.len() > 0 {
        all_quota_headers_are_kept(headers.drop_last());
    }
}

/// Headers of Codex that carry the numbers of a window, of whatever family, report
/// quota.
pub proof fn numbers_of_every_family_are_quota(family: Seq<char>)
    ensures
        rate_limits::quota_name("x-codex-"@ + family + "-used-percent"@),
        rate_limits::quota_name("x-codex-"@ + family + "-window-minutes"@),
        rate_limits::quota_name("x-codex-"@ + family + "-reset-at"@),
        rate_limits::quota_name("x-codex-"@ + family + "-reset-after-seconds"@),
        rate_limits::quota_name("x-codex-"@ + family + "-limit-name"@),
        rate_limits::quota_name("x-codex-"@ + family + "-over-secondary-limit-percent"@),
{
    lemma_between("x-codex-"@, family, "-used-percent"@);
    lemma_between("x-codex-"@, family, "-window-minutes"@);
    lemma_between("x-codex-"@, family, "-reset-at"@);
    lemma_between("x-codex-"@, family, "-reset-after-seconds"@);
    lemma_between("x-codex-"@, family, "-limit-name"@);
    lemma_between("x-codex-"@, family, "-over-secondary-limit-percent"@);
}

proof fn lemma_between(a: Seq<char>, b: Seq<char>, c: Seq<char>)
    ensures
        text::starts_with(a + b + c, a),
        text::ends_with(a + b + c, c),
{
    text_laws::beginnings_and_ends_are_found(a + b, c, a);
    text_laws::beginnings_and_ends_are_found(a, b + c, a);
    assert(a + b + c =~= a + (b + c));
}

/// Headers of Codex that tell of the plan, the active limit or the credits report quota.
pub proof fn plans_and_credits_are_quota(rest: Seq<char>)
    ensures
        rate_limits::quota_name("x-codex-plan-type"@),
        rate_limits::quota_name("x-codex-active-limit"@),
        rate_limits::quota_name("x-codex-credits-"@ + rest),
{
    reveal_strlit("x-codex-");
    reveal_strlit("x-codex-plan-type");
    reveal_strlit("x-codex-active-limit");
    reveal_strlit("x-codex-credits-");
    assert("x-codex-plan-type"@.subrange(0, 8) =~= "x-codex-"@);
    assert("x-codex-active-limit"@.subrange(0, 8) =~= "x-codex-"@);
    text_laws::beginnings_and_ends_are_found("x-codex-credits-"@, rest, rest);
    assert(("x-codex-credits-"@ + rest).subrange(0, 8) =~= "x-codex-"@);
}

/// Nothing but that reports quota.
pub proof fn nothing_else_is_quota(name: Seq<char>)
    requires
        rate_limits::quota_name(name),
    ensures
        name.len() >= 8 && name.take(8) == "x-codex-"@,
        name == "x-codex-plan-type"@ || name == "x-codex-active-limit"@ || text::starts_with(
            name,
            "x-codex-credits-"@,
        ) || text::ends_with(name, "-used-percent"@) || text::ends_with(name, "-window-minutes"@)
            || text::ends_with(name, "-reset-at"@) || text::ends_with(
            name,
            "-reset-after-seconds"@,
        ) || text::ends_with(name, "-limit-name"@) || text::ends_with(
            name,
            "-over-secondary-limit-percent"@,
        ),
{
    reveal_strlit("x-codex-");
    assert(name.take(8) =~= name.subrange(0, 8));
}

/// The newest telemetry takes the place of what was there, and nothing at all leaves it.
pub proof fn the_newest_telemetry_stands(
    before: Seq<(Seq<char>, Seq<u8>, bool)>,
    headers: Seq<(Seq<char>, Seq<u8>, bool)>,
)
    ensures
        headers.len() > 0 ==> rate_limits::recorded(before, headers) == headers,
        rate_limits::recorded(before, Seq::empty()) == before,
{
}

} // verus!
