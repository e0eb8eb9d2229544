//! What the signature of a request tells of the request, said of its fields.

use crate::canonical;
use crate::json;
use crate::json_laws;
use crate::request;
use crate::table;
use vstd::prelude::*;
use vstd::string::*;

verus! {

/// Whether a name is that of a field of its own.
pub open spec fn own_field(name: Seq<char>) -> bool {
    name == "model"@ || name == "instructions"@ || name == "include"@ || name
        == "context_management"@ || name == "client_metadata"@
}

/// Whether the JSON value that may be there is one that can be read.
pub open spec fn proper_option(value: Option<json::Json>) -> bool {
    value matches Some(v) ==> json::proper(v)
}

/// Whether the fields of a request are such as can be read: no further member is named
/// twice, or like a field of its own, the names stand in a JSON text as they are, and
/// the values can be read.
pub open spec fn plain(request: request::Request) -> bool {
    &&& proper_option(request.context_management)
    &&& proper_option(request.client_metadata)
    &&& json::distinct_names(request.other)
    &&& forall|i: int|
        0 <= i < request.other.len() ==> {
            let member = #[trigger] request.other[i];
            &&& !own_field(member.0)
            &&& json::escaped_all(member.0) == member.0
            &&& json::proper(member.1)
        }
}

/// Whether two JSON values that may be there are the same.
pub open spec fn same_option(a: Option<json::Json>, b: Option<json::Json>) -> bool {
    match (a, b) {
        (Some(v), Some(w)) => json::same_json(v, w),
        (None, None) => true,
        _ => false,
    }
}

/// What stands in the further members of a request under a name.
pub open spec fn further(request: request::Request, name: Seq<char>) -> Option<json::Json> {
    json::member(json::Json::Object(request.other), name)
}

/// What a member of the prompt of a request can be.
spec fn prompt_member(request: request::Request, member: (Seq<char>, json::Json)) -> bool {
    ||| member == ("model"@, json::Json::Text(request.model))
    ||| request.instructions is Some && member == (
        "instructions"@,
        json::Json::Text(request.instructions->0),
    )
    ||| request.include_fields is Some && member == (
        "include"@,
        canonical::texts_json(request.include_fields->0),
    )
    ||| request.context_management is Some && member == (
        "context_management"@,
        request.context_management->0,
    )
    ||| request.client_metadata is Some && member == (
        "client_metadata"@,
        request.client_metadata->0,
    )
    ||| member.0 != "input"@ && request.other.contains(member)
}

proof fn lemma_without_contains<V>(
    entries: Seq<(Seq<char>, V)>,
    name: Seq<char>,
    entry: (Seq<char>, V),
)
    ensures
        table::without(entries, name).contains(entry) == (entry.0 != name && entries.contains(
            entry,
        )),
    decreases entries.len(),
{
    if entries.len() > 0 {
        let shorter = entries.drop_last();
        let rest = table::without(shorter, name);
        lemma_without_contains(shorter, name, entry);
        lemma_push_contains(shorter, entries.last(), entry);
        lemma_push_contains(rest, entries.last(), entry);
        assert(shorter.push(entries.last()) =~= entries);
    }
}

proof fn lemma_push_contains<T>(items: Seq<T>, last: T, item: T)
    ensures
        items.push(last).contains(item) == (items.contains(item) || item == last),
{
    let longer = items.push(last);
    if items.contains(item) {
        let i = choose|i: int| 0 <= i < items.len() && items[i] == item;
        assert(longer[i] == item);
    }
    if item == last {
        assert(longer[items.len() as int] == item);
    }
    if longer.contains(item) && item != last {
        let i = choose|i: int| 0 <= i < longer.len() && longer[i] == item;
        assert(items[i] == item);
    }
}

proof fn lemma_plus_contains<T>(a: Seq<T>, b: Seq<T>, item: T)
    ensures
        (a + b).contains(item) == (a.contains(item) || b.contains(item)),
{
    if a.contains(item) {
        let i = choose|i: int| 0 <= i < a.len() && a[i] == item;
        assert((a + b)[i] == item);
    }
    if b.contains(item) {
        let i = choose|i: int| 0 <= i < b.len() && b[i] == item;
        assert((a + b)[a.len() + i] == item);
    }
    if (a + b).contains(item) {
        let i = choose|i: int| 0 <= i < (a + b).len() && (a + b)[i] == item;
        if i < a.len() {
            assert(a[i] == item);
        } else {
            assert(b[i - a.len()] == item);
        }
    }
}

proof fn lemma_optional_contains(
    name: Seq<char>,
    value: Option<json::Json>,
    member: (Seq<char>, json::Json),
)
    ensures
        canonical::optional_member(name, value).contains(member) == (value is Some && member == (
            name,
            value->0,
        )),
{
    if value is Some {
        assert(canonical::optional_member(name, value)[0] == (name, value->0));
    }
}

/// The optional fields of a request, as members.
spec fn optional_fields(request: request::Request) -> (
    Option<json::Json>,
    Option<json::Json>,
) {
    (
        match request.instructions {
            Some(t) => Some(json::Json::Text(t)),
            None => None,
        },
        match request.include_fields {
            Some(t) => Some(canonical::texts_json(t)),
            None => None,
        },
    )
}

/// Every field but the input is a member of the prompt, and nothing else is.
proof fn lemma_prompt_members(request: request::Request, member: (Seq<char>, json::Json))
    ensures
        canonical::prompt_members(request).contains(member) == prompt_member(request, member),
{
    let (instructions, fields) = optional_fields(request);
    let first = seq![("model"@, json::Json::Text(request.model))];
    let a = canonical::optional_member("instructions"@, instructions);
    let b = canonical::optional_member("include"@, fields);
    let c = canonical::optional_member("context_management"@, request.context_management);
    let d = canonical::optional_member("client_metadata"@, request.client_metadata);
    let e = table::without(request.other, "input"@);
    assert(canonical::prompt_members(request) == first + a + b + c + d + e);
    lemma_plus_contains(first + a + b + c + d, e, member);
    lemma_plus_contains(first + a + b + c, d, member);
    lemma_plus_contains(first + a + b, c, member);
    lemma_plus_contains(first + a, b, member);
    lemma_plus_contains(first, a, member);
    lemma_optional_contains("instructions"@, instructions, member);
    lemma_optional_contains("include"@, fields, member);
    lemma_optional_contains("context_management"@, request.context_management, member);
    lemma_optional_contains("client_metadata"@, request.client_metadata, member);
    lemma_without_contains(request.other, "input"@, member);
    assert(first[0] == ("model"@, json::Json::Text(request.model)));
    assert(first.contains(member) == (member == first[0]));
}

proof fn lemma_field_names()
    ensures
        json::escaped_all("model"@) == "model"@,
        json::escaped_all("instructions"@) == "instructions"@,
        json::escaped_all("include"@) == "include"@,
        json::escaped_all("context_management"@) == "context_management"@,
        json::escaped_all("client_metadata"@) == "client_metadata"@,
        "model"@ != "instructions"@,
        "model"@ != "include"@,
        "model"@ != "context_management"@,
        "model"@ != "client_metadata"@,
        "instructions"@ != "include"@,
        "instructions"@ != "context_management"@,
        "instructions"@ != "client_metadata"@,
        "include"@ != "context_management"@,
        "include"@ != "client_metadata"@,
        "context_management"@ != "client_metadata"@,
        !own_field("input"@),
{
    reveal_strlit("model");
    reveal_strlit("instructions");
    reveal_strlit("include");
    reveal_strlit("context_management");
    reveal_strlit("client_metadata");
    reveal_strlit("input");
    assert("model"@.len() == 5 && "model"@[0] == 'm');
    assert("instructions"@.len() == 12);
    assert("include"@.len() == 7);
    assert("context_management"@.len() == 18);
    assert("client_metadata"@.len() == 15);
    assert("input"@.len() == 5 && "input"@[0] == 'i');
    lemma_plain_letters("model"@);
    lemma_plain_letters("instructions"@);
    lemma_plain_letters("include"@);
    lemma_plain_letters("context_management"@);
    lemma_plain_letters("client_metadata"@);
}

proof fn lemma_plain_letters(s: Seq<char>)
    requires
        forall|i: int| 0 <= i < s.len() ==> ('_' <= #[trigger] s[i] && s[i] <= 'z'),
    ensures
        json::escaped_all(s) == s,
    decreases s.len(),
{
    if s.len() > 0 {
        lemma_plain_letters(s.drop_last());
        assert('_' <= s[s.len() - 1]);
        assert(s.drop_last() + seq![s.last()] =~= s);
    } else {
        assert(json::escaped_all(s) =~= s);
    }
}

proof fn lemma_disjoint_names(
    a: Seq<(Seq<char>, json::Json)>,
    b: Seq<(Seq<char>, json::Json)>,
)
    requires
        json::distinct_names(a),
        json::distinct_names(b),
        forall|i: int, j: int|
            0 <= i < a.len() && 0 <= j < b.len() ==> (#[trigger] a[i]).0 != (#[trigger] b[j]).0,
    ensures
        json::distinct_names(a + b),
{
    let all = a + b;
    assert forall|i: int, j: int| 0 <= i < j < all.len() implies (#[trigger] all[i]).0 != (
    #[trigger] all[j]).0 by {
        if j < a.len() {
            assert(a[i].0 != a[j].0);
        } else if i < a.len() {
            assert(a[i].0 != b[j - a.len()].0);
        } else {
            assert(b[i - a.len()].0 != b[j - a.len()].0);
        }
    }
}

proof fn lemma_without_distinct<V>(entries: Seq<(Seq<char>, V)>, name: Seq<char>)
    requires
        json::distinct_names(entries),
    ensures
        json::distinct_names(table::without(entries, name)),
    decreases entries.len(),
{
    if entries.len() > 0 {
        let shorter = entries.drop_last();
        let rest = table::without(shorter, name);
        lemma_without_distinct(shorter, name);
        let left = table::without(entries, name);
        assert forall|i: int, j: int| 0 <= i < j < left.len() implies (#[trigger] left[i]).0 != (
        #[trigger] left[j]).0 by {
            if j < rest.len() {
                assert(rest[i].0 != rest[j].0);
            } else {
                lemma_without_contains(shorter, name, rest[i]);
                assert(rest.contains(rest[i]));
                let k = choose|k: int| 0 <= k < shorter.len() && shorter[k] == rest[i];
                assert(entries[k].0 != entries[entries.len() - 1].0);
            }
        }
    }
}

/// The members of the prompt of a plain request can be read, and their names stand in a
/// JSON text as they are.
pub proof fn plain_requests_have_plain_prompts(request: request::Request)
    requires
        plain(request),
    ensures
        canonical::plain_prompt(request),
{
    let members = canonical::prompt_members(request);
    let (instructions, fields) = optional_fields(request);
    let first = seq![("model"@, json::Json::Text(request.model))];
    let a = canonical::optional_member("instructions"@, instructions);
    let b = canonical::optional_member("include"@, fields);
    let c = canonical::optional_member("context_management"@, request.context_management);
    let d = canonical::optional_member("client_metadata"@, request.client_metadata);
    let e = table::without(request.other, "input"@);
    lemma_field_names();
    lemma_without_distinct(request.other, "input"@);
    assert forall|j: int| 0 <= j < e.len() implies !own_field((#[trigger] e[j]).0) by {
        lemma_without_contains(request.other, "input"@, e[j]);
        assert(e.contains(e[j]));
        let k = choose|k: int| 0 <= k < request.other.len() && request.other[k] == e[j];
        assert(!own_field(request.other[k].0));
    }
    lemma_disjoint_names(first, a);
    lemma_disjoint_names(first + a, b);
    lemma_disjoint_names(first + a + b, c);
    lemma_disjoint_names(first + a + b + c, d);
    let fixed = first + a + b + c + d;
    assert forall|i: int| 0 <= i < fixed.len() implies own_field((#[trigger] fixed[i]).0) by {
        assert(fixed.contains(fixed[i]));
        lemma_plus_contains(first + a + b + c, d, fixed[i]);
        lemma_plus_contains(first + a + b, c, fixed[i]);
        lemma_plus_contains(first + a, b, fixed[i]);
        lemma_plus_contains(first, a, fixed[i]);
        lemma_optional_contains("instructions"@, instructions, fixed[i]);
        lemma_optional_contains("include"@, fields, fixed[i]);
        lemma_optional_contains("context_management"@, request.context_management, fixed[i]);
        lemma_optional_contains("client_metadata"@, request.client_metadata, fixed[i]);
    }
    lemma_disjoint_names(fixed, e);
    assert(members == fixed + e);
    assert forall|i: int| 0 <= i < members.len() implies json::proper((#[trigger] members[i]).1)
        && json::escaped_all(members[i].0) == members[i].0 by {
        assert(members.contains(members[i]));
        lemma_prompt_members(request, members[i]);
        if members[i].0 != "input"@ && request.other.contains(members[i]) {
            let k = choose|k: int| 0 <= k < request.other.len() && request.other[k] == members[i];
            assert(json::proper(request.other[k].1));
        } else if request.include_fields is Some && members[i] == (
            "include"@,
            canonical::texts_json(request.include_fields->0),
        ) {
            let items = canonical::texts_json(request.include_fields->0)->Array_0;
            assert forall|k: int| 0 <= k < items.len() implies json::proper(#[trigger] items[k]) by {
                assert(items[k] is Text);
            }
        }
    }
}

/// A member of the prompt of one request stands in the prompt of another with the same
/// signature too.
proof fn lemma_shared_member(
    a: request::Request,
    b: request::Request,
    member: (Seq<char>, json::Json),
) -> (found: (Seq<char>, json::Json))
    requires
        plain(a),
        plain(b),
        canonical::signature(a) == canonical::signature(b),
        prompt_member(a, member),
    ensures
        prompt_member(b, found),
        found.0 == member.0,
        json::same_json(member.1, found.1),
{
    plain_requests_have_plain_prompts(a);
    plain_requests_have_plain_prompts(b);
    canonical::same_signatures_mean_same_prompts(a, b);
    let x = canonical::prompt_members(a);
    let y = canonical::prompt_members(b);
    lemma_prompt_members(a, member);
    let i = choose|i: int| 0 <= i < x.len() && x[i] == member;
    json_laws::same_objects_have_the_same_members(x, y, i);
    let j = choose|j: int| 0 <= j < y.len() && #[trigger] json_laws::same_member(x[i], y[j]);
    assert(y.contains(y[j]));
    lemma_prompt_members(b, y[j]);
    y[j]
}

proof fn lemma_further(request: request::Request, name: Seq<char>)
    requires
        json::distinct_names(request.other),
    ensures
        further(request, name) matches Some(v) ==> request.other.contains((name, v)),
        forall|v: json::Json| #[trigger]
            request.other.contains((name, v)) ==> further(request, name) == Some(v),
{
    let other = request.other;
    if exists|i: int| 0 <= i < other.len() && (#[trigger] other[i]).0 == name {
        let i = choose|i: int| 0 <= i < other.len() && (#[trigger] other[i]).0 == name;
        let before = other.take(i);
        let after = other.skip(i + 1);
        assert(other =~= before.push((name, other[i].1)) + after);
        assert forall|k: int| 0 <= k < before.len() implies (#[trigger] before[k]).0 != name by {
            assert(other[k].0 != other[i].0);
        }
        json_laws::members_are_found_by_name(before, name, other[i].1, after);
        assert(further(request, name) == Some(other[i].1));
        assert forall|v: json::Json| #[trigger] other.contains((name, v)) implies further(
            request,
            name,
        ) == Some(v) by {
            let k = choose|k: int| 0 <= k < other.len() && other[k] == (name, v);
            if k < i {
                assert(other[k].0 != other[i].0);
            } else if i < k {
                assert(other[i].0 != other[k].0);
            }
        }
    } else {
        json_laws::members_are_found_by_name(other, name, json::Json::Null, other);
    }
}

/// Of requests with the same signature, what one has the other has.
proof fn lemma_shared_fields(a: request::Request, b: request::Request, name: Seq<char>)
    requires
        plain(a),
        plain(b),
        canonical::signature(a) == canonical::signature(b),
    ensures
        a.model == b.model,
        a.instructions matches Some(t) ==> b.instructions == Some(t),
        a.include_fields matches Some(t) ==> b.include_fields == Some(t),
        a.context_management is Some ==> same_option(a.context_management, b.context_management),
        a.client_metadata is Some ==> same_option(a.client_metadata, b.client_metadata),
        name != "input"@ && further(a, name) is Some ==> same_option(
            further(a, name),
            further(b, name),
        ),
{
    lemma_field_names();
    lemma_further(a, name);
    lemma_further(b, name);
    assert forall|v: json::Json| #[trigger] b.other.contains((name, v)) implies !own_field(
        name,
    ) by {
        let k = choose|k: int| 0 <= k < b.other.len() && b.other[k] == (name, v);
        assert(!own_field(b.other[k].0));
    }
    assert forall|m: (Seq<char>, json::Json)| #[trigger] b.other.contains(m) implies !own_field(
        m.0,
    ) by {
        let k = choose|k: int| 0 <= k < b.other.len() && b.other[k] == m;
        assert(!own_field(b.other[k].0));
    }
    assert forall|m: (Seq<char>, json::Json)| #[trigger] a.other.contains(m) implies !own_field(
        m.0,
    ) by {
        let k = choose|k: int| 0 <= k < a.other.len() && a.other[k] == m;
        assert(!own_field(a.other[k].0));
    }
    let found = lemma_shared_member(a, b, ("model"@, json::Json::Text(a.model)));
    assert(found == ("model"@, json::Json::Text(b.model)));
    if let Some(t) = a.instructions {
        let found = lemma_shared_member(a, b, ("instructions"@, json::Json::Text(t)));
        assert(b.instructions is Some);
        assert(found.1 == json::Json::Text(b.instructions->0));
    }
    if let Some(t) = a.include_fields {
        let found = lemma_shared_member(a, b, ("include"@, canonical::texts_json(t)));
        assert(b.include_fields is Some);
        let u = b.include_fields->0;
        assert(found.1 == canonical::texts_json(u));
        let x = canonical::texts_json(t)->Array_0;
        let y = canonical::texts_json(u)->Array_0;
        json_laws::arrays_compare_by_their_elements(x, y);
        assert forall|i: int| 0 <= i < t.len() implies t[i] == u[i] by {
            assert(json::same_json(x[i], y[i]));
        }
        assert(t =~= u);
    }
    if let Some(v) = a.context_management {
        let found = lemma_shared_member(a, b, ("context_management"@, v));
        assert(b.context_management is Some);
    }
    if let Some(v) = a.client_metadata {
        let found = lemma_shared_member(a, b, ("client_metadata"@, v));
        assert(b.client_metadata is Some);
    }
    if name != "input"@ {
        if let Some(v) = further(a, name) {
            let found = lemma_shared_member(a, b, (name, v));
            assert(b.other.contains(found));
            assert(b.other.contains((name, found.1)));
        }
    }
}

/// Every field of a request but its input takes part in its signature: requests with the
/// same signature have the same model, the same instructions, ask for the same fields,
/// and have the same context management, the same client metadata and, under every name
/// but that of the input, the same further member, or none.
pub proof fn same_signatures_mean_same_fields(
    a: request::Request,
    b: request::Request,
    name: Seq<char>,
)
    requires
        plain(a),
        plain(b),
        canonical::signature(a) == canonical::signature(b),
    ensures
        a.model == b.model,
        a.instructions == b.instructions,
        a.include_fields == b.include_fields,
        same_option(a.context_management, b.context_management),
        same_option(a.client_metadata, b.client_metadata),
        name != "input"@ ==> same_option(further(a, name), further(b, name)),
{
    lemma_shared_fields(a, b, name);
    lemma_shared_fields(b, a, name);
}

/// Requests that differ in their input alone have the same signature.
pub proof fn signatures_leave_the_input_out(
    request: request::Request,
    input: Seq<request::Item>,
)
    ensures
        canonical::signature(request::Request { input, ..request }) == canonical::signature(
            request,
        ),
{
    canonical::signature_ignores_the_input(request, request::Request { input, ..request });
}

} // verus!
