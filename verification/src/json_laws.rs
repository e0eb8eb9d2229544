//! What holds of the order of members, of stable texts and of sameness.

use crate::json;
use crate::text;
use vstd::multiset::*;
use vstd::prelude::*;
use vstd::seq_lib::*;

verus! {

/// Whether the names stand in ascending order.
pub open spec fn ascending<V>(entries: Seq<(Seq<char>, V)>) -> bool {
    forall|i: int, j: int|
        0 <= i <= j < entries.len() ==> text::text_le(
            (#[trigger] entries[i]).0,
            (#[trigger] entries[j]).0,
        )
}

proof fn lemma_insert<V>(sorted: Seq<(Seq<char>, V)>, entry: (Seq<char>, V))
    requires
        ascending(sorted),
    ensures
        ascending(json::insert_by_name(sorted, entry)),
        json::insert_by_name(sorted, entry).to_multiset() == sorted.to_multiset().insert(entry),
        json::insert_by_name(sorted, entry).len() == sorted.len() + 1,
    decreases sorted.len(),
{
    broadcast use group_to_multiset_ensures;

    let out = json::insert_by_name(sorted, entry);
    if sorted.len() == 0 || text::text_le(sorted.last().0, entry.0) {
        assert forall|i: int, j: int| 0 <= i <= j < out.len() implies text::text_le(
            (#[trigger] out[i]).0,
            (#[trigger] out[j]).0,
        ) by {
            text::lemma_text_order(entry.0, entry.0, entry.0);
            if i < sorted.len() && j == sorted.len() {
                assert(text::text_le(sorted[i].0, sorted[sorted.len() - 1].0));
                text::lemma_text_order(sorted[i].0, sorted.last().0, entry.0);
            }
        }
    } else {
        let shorter = sorted.drop_last();
        lemma_insert(shorter, entry);
        let placed = json::insert_by_name(shorter, entry);
        assert(sorted =~= shorter.push(sorted.last()));
        assert(out.to_multiset() =~= sorted.to_multiset().insert(entry));
        assert forall|i: int, j: int| 0 <= i <= j < out.len() implies text::text_le(
            (#[trigger] out[i]).0,
            (#[trigger] out[j]).0,
        ) by {
            text::lemma_text_order(sorted.last().0, entry.0, entry.0);
            if i < placed.len() && j == placed.len() {
                assert(placed.to_multiset().contains(placed[i]));
                if placed[i] != entry {
                    assert(shorter.to_multiset().contains(placed[i]));
                    assert(shorter.contains(placed[i]));
                    let k = choose|k: int| 0 <= k < shorter.len() && shorter[k] == placed[i];
                    assert(text::text_le(sorted[k].0, sorted[sorted.len() - 1].0));
                }
            }
        }
    }
}

/// Sorting by name keeps every entry and puts the names in ascending order.
pub proof fn sorting_orders_and_keeps_entries<V>(entries: Seq<(Seq<char>, V)>)
    ensures
        ascending(json::sort_by_name(entries)),
        json::sort_by_name(entries).to_multiset() == entries.to_multiset(),
        json::sort_by_name(entries).len() == entries.len(),
    decreases entries.len(),
{
    broadcast use group_to_multiset_ensures;

    if entries.len() > 0 {
        sorting_orders_and_keeps_entries(entries.drop_last());
        lemma_insert(json::sort_by_name(entries.drop_last()), entries.last());
        assert(entries =~= entries.drop_last().push(entries.last()));
    }
}

proof fn lemma_same_entries_same_names<V>(a: Seq<(Seq<char>, V)>, b: Seq<(Seq<char>, V)>)
    requires
        a.to_multiset() == b.to_multiset(),
        json::distinct_names(a),
    ensures
        a.len() == b.len(),
        json::distinct_names(b),
{
    broadcast use group_to_multiset_ensures;

    a.to_multiset_ensures();
    b.to_multiset_ensures();
    assert forall|i: int, j: int| 0 <= i < j < b.len() implies (#[trigger] b[i]).0 != (
    #[trigger] b[j]).0 by {
        assert(a.to_multiset().contains(b[i]));
        assert(a.to_multiset().contains(b[j]));
        let x = choose|x: int| 0 <= x < a.len() && a[x] == b[i];
        let y = choose|y: int| 0 <= y < a.len() && a[y] == b[j];
        if b[i] == b[j] {
            a.lemma_multiset_has_no_duplicates();
            assert(a.no_duplicates());
            let rest = b.remove(j);
            rest.to_multiset_ensures();
            assert(rest[i] == b[i]);
            assert(rest.contains(b[i]));
            assert(rest.to_multiset() =~= b.to_multiset().remove(b[j]));
            assert(rest.to_multiset().count(b[i]) > 0);
            assert(a.to_multiset().count(b[i]) >= 2);
        }
    }
}

proof fn lemma_ascending_is_unique<V>(a: Seq<(Seq<char>, V)>, b: Seq<(Seq<char>, V)>)
    requires
        ascending(a),
        ascending(b),
        a.to_multiset() == b.to_multiset(),
        json::distinct_names(a),
    ensures
        a == b,
    decreases a.len(),
{
    broadcast use group_to_multiset_ensures;

    lemma_same_entries_same_names(a, b);
    if a.len() == 0 {
        assert(a =~= b);
    } else {
        let x = a.last();
        let y = b.last();
        assert(b.to_multiset().contains(a[a.len() - 1]));
        assert(a.to_multiset().contains(b[b.len() - 1]));
        let i = choose|i: int| 0 <= i < b.len() && b[i] == x;
        let j = choose|j: int| 0 <= j < a.len() && a[j] == y;
        assert(text::text_le(b[i].0, b[b.len() - 1].0));
        assert(text::text_le(a[j].0, a[a.len() - 1].0));
        text::lemma_text_order(x.0, y.0, y.0);
        assert(x.0 == y.0);
        assert(a[j].0 == a[a.len() - 1].0);
        assert(x == y);
        assert(a =~= a.drop_last().push(x));
        assert(b =~= b.drop_last().push(x));
        a.drop_last().to_multiset_ensures();
        b.drop_last().to_multiset_ensures();
        assert(a.drop_last().to_multiset() =~= a.to_multiset().remove(x));
        assert(b.drop_last().to_multiset() =~= b.to_multiset().remove(x));
        lemma_ascending_is_unique(a.drop_last(), b.drop_last());
    }
}

/// The order in which the entries come does not matter to sorting, as long as
/// no name stands twice.
pub proof fn sorting_forgets_order<V>(a: Seq<(Seq<char>, V)>, b: Seq<(Seq<char>, V)>)
    requires
        a.to_multiset() == b.to_multiset(),
        json::distinct_names(a),
    ensures
        json::sort_by_name(a) == json::sort_by_name(b),
{
    sorting_orders_and_keeps_entries(a);
    sorting_orders_and_keeps_entries(b);
    lemma_same_entries_same_names(a, json::sort_by_name(a));
    lemma_ascending_is_unique(json::sort_by_name(a), json::sort_by_name(b));
}

proof fn lemma_sort_ascending<V>(entries: Seq<(Seq<char>, V)>)
    requires
        ascending(entries),
    ensures
        json::sort_by_name(entries) == entries,
    decreases entries.len(),
{
    if entries.len() > 0 {
        let shorter = entries.drop_last();
        lemma_sort_ascending(shorter);
        if shorter.len() > 0 {
            assert(text::text_le(entries[entries.len() - 2].0, entries[entries.len() - 1].0));
        }
        assert(shorter.push(entries.last()) =~= entries);
    }
}

/// Entries with the same names and values of another kind.
pub open spec fn mapped<V, W>(entries: Seq<(Seq<char>, V)>, f: spec_fn(V) -> W) -> Seq<
    (Seq<char>, W),
> {
    Seq::new(entries.len(), |i: int| (entries[i].0, f(entries[i].1)))
}

proof fn lemma_insert_mapped<V, W>(
    sorted: Seq<(Seq<char>, V)>,
    entry: (Seq<char>, V),
    f: spec_fn(V) -> W,
)
    ensures
        mapped(json::insert_by_name(sorted, entry), f) == json::insert_by_name(
            mapped(sorted, f),
            (entry.0, f(entry.1)),
        ),
    decreases sorted.len(),
{
    let left = mapped(json::insert_by_name(sorted, entry), f);
    let right = json::insert_by_name(mapped(sorted, f), (entry.0, f(entry.1)));
    if sorted.len() == 0 || text::text_le(sorted.last().0, entry.0) {
        assert(left =~= right);
    } else {
        lemma_insert_mapped(sorted.drop_last(), entry, f);
        assert(mapped(sorted, f).drop_last() =~= mapped(sorted.drop_last(), f));
        assert(left =~= right);
    }
}

/// Sorting looks at the names alone.
pub proof fn lemma_sort_mapped<V, W>(entries: Seq<(Seq<char>, V)>, f: spec_fn(V) -> W)
    ensures
        mapped(json::sort_by_name(entries), f) == json::sort_by_name(mapped(entries, f)),
    decreases entries.len(),
{
    if entries.len() == 0 {
        assert(mapped(json::sort_by_name(entries), f) =~= json::sort_by_name(mapped(entries, f)));
    } else {
        lemma_sort_mapped(entries.drop_last(), f);
        lemma_insert_mapped(json::sort_by_name(entries.drop_last()), entries.last(), f);
        assert(mapped(entries, f).drop_last() =~= mapped(entries.drop_last(), f));
    }
}

/// Named texts are members with their values replaced by texts.
pub proof fn lemma_named_texts_mapped(members: Seq<(Seq<char>, json::Json)>)
    ensures
        json::named_texts(members) == mapped(members, |v: json::Json| json::stable_text(v)),
{
    json::lemma_named_texts(members);
    assert(json::named_texts(members) =~= mapped(members, |v: json::Json| json::stable_text(v)));
}

/// Named normal forms are members with their values replaced by normal forms.
pub proof fn lemma_named_forms_mapped(members: Seq<(Seq<char>, json::Json)>)
    ensures
        json::named_forms(members) == mapped(members, |v: json::Json| json::normal_form(v)),
{
    json::lemma_named_forms(members);
    assert(json::named_forms(members) =~= mapped(members, |v: json::Json| json::normal_form(v)));
}

/// The order of an object's members matters neither to its stable text nor to
/// sameness.
pub proof fn member_order_does_not_matter(
    a: Seq<(Seq<char>, json::Json)>,
    b: Seq<(Seq<char>, json::Json)>,
)
    requires
        a.to_multiset() == b.to_multiset(),
        json::distinct_names(a),
    ensures
        json::stable_text(json::Json::Object(a)) == json::stable_text(json::Json::Object(b)),
        json::same_json(json::Json::Object(a), json::Json::Object(b)),
{
    sorting_forgets_order(a, b);
    lemma_named_texts_mapped(a);
    lemma_named_texts_mapped(b);
    lemma_sort_mapped(a, |v: json::Json| json::stable_text(v));
    lemma_sort_mapped(b, |v: json::Json| json::stable_text(v));
    lemma_named_forms_mapped(a);
    lemma_named_forms_mapped(b);
    lemma_sort_mapped(a, |v: json::Json| json::normal_form(v));
    lemma_sort_mapped(b, |v: json::Json| json::normal_form(v));
}

/// Whether a negative zero stands anywhere in a JSON value.
pub open spec fn has_negative_zero(value: json::Json) -> bool
    decreases value,
{
    match value {
        json::Json::Number(t) => t == "-0.0"@,
        json::Json::Array(items) => exists|i: int|
            0 <= i < items.len() && has_negative_zero(#[trigger] items[i]),
        json::Json::Object(members) => exists|i: int|
            0 <= i < members.len() && has_negative_zero((#[trigger] members[i]).1),
        _ => false,
    }
}

/// A value without a negative zero has the stable text of its normal form.
pub proof fn normal_form_keeps_stable_text(value: json::Json)
    requires
        !has_negative_zero(value),
    ensures
        json::stable_text(json::normal_form(value)) == json::stable_text(value),
    decreases value,
{
    match value {
        json::Json::Array(items) => {
            json::lemma_normal_forms(items);
            json::lemma_stable_texts(items);
            json::lemma_stable_texts(json::normal_forms(items));
            assert forall|i: int| 0 <= i < items.len() implies json::stable_text(
                #[trigger] json::normal_forms(items)[i],
            ) == json::stable_text(items[i]) by {
                assert(!has_negative_zero(items[i]));
                normal_form_keeps_stable_text(items[i]);
            }
            assert(json::stable_texts(json::normal_forms(items)) =~= json::stable_texts(items));
        },
        json::Json::Object(members) => {
            let text_of = |v: json::Json| json::stable_text(v);
            let forms = json::named_forms(members);
            json::lemma_named_forms(members);
            assert forall|i: int| 0 <= i < members.len() implies json::stable_text(
                (#[trigger] forms[i]).1,
            ) == json::stable_text(members[i].1) by {
                assert(!has_negative_zero(members[i].1));
                normal_form_keeps_stable_text(members[i].1);
            }
            assert(mapped(forms, text_of) =~= mapped(members, text_of));
            lemma_named_texts_mapped(members);
            lemma_named_texts_mapped(json::sort_by_name(forms));
            lemma_sort_mapped(forms, text_of);
            sorting_orders_and_keeps_entries(mapped(members, text_of));
            lemma_sort_ascending(json::sort_by_name(mapped(members, text_of)));
        },
        _ => {},
    }
}

/// Values that are the same and hold no negative zero have the same stable
/// text.
pub proof fn same_values_have_same_stable_text(a: json::Json, b: json::Json)
    requires
        json::same_json(a, b),
        !has_negative_zero(a),
        !has_negative_zero(b),
    ensures
        json::stable_text(a) == json::stable_text(b),
{
    normal_form_keeps_stable_text(a);
    normal_form_keeps_stable_text(b);
}

/// Whether two members have the same name and the same value.
pub open spec fn same_member(a: (Seq<char>, json::Json), b: (Seq<char>, json::Json)) -> bool {
    a.0 == b.0 && json::same_json(a.1, b.1)
}

/// Truth values and texts are the same only if they are equal, and numbers only if they
/// are written alike or are both zero.
pub proof fn plain_values_compare_whole(
    b: bool,
    c: bool,
    s: Seq<char>,
    t: Seq<char>,
    m: Seq<char>,
    n: Seq<char>,
)
    ensures
        json::same_json(json::Json::Bool(b), json::Json::Bool(c)) == (b == c),
        json::same_json(json::Json::Text(s), json::Json::Text(t)) == (s == t),
        json::same_json(json::Json::Number(m), json::Json::Number(n)) == (m == n || ((m == "0.0"@
            || m == "-0.0"@) && (n == "0.0"@ || n == "-0.0"@))),
{
}

/// Values of different kinds are never the same.
pub proof fn kinds_of_values_differ(a: json::Json, b: json::Json)
    requires
        json::same_json(a, b),
    ensures
        (a is Null) == (b is Null),
        (a is Bool) == (b is Bool),
        (a is Number) == (b is Number),
        (a is Text) == (b is Text),
        (a is Array) == (b is Array),
        (a is Object) == (b is Object),
{
}

/// Arrays are the same exactly if they have as many elements and each is the same as
/// the one in its place.
pub proof fn arrays_compare_by_their_elements(a: Seq<json::Json>, b: Seq<json::Json>)
    ensures
        json::same_json(json::Json::Array(a), json::Json::Array(b)) == (a.len() == b.len()
            && forall|i: int|
            0 <= i < a.len() ==> json::same_json(#[trigger] a[i], b[i])),
{
    json::lemma_normal_forms(a);
    json::lemma_normal_forms(b);
    let x = json::normal_forms(a);
    let y = json::normal_forms(b);
    if a.len() == b.len() && forall|i: int|
        0 <= i < a.len() ==> json::same_json(#[trigger] a[i], b[i]) {
        assert forall|i: int| 0 <= i < x.len() implies x[i] == y[i] by {
            assert(json::same_json(a[i], b[i]));
        }
        assert(x =~= y);
    }
    if json::same_json(json::Json::Array(a), json::Json::Array(b)) {
        assert forall|i: int| 0 <= i < a.len() implies json::same_json(#[trigger] a[i], b[i]) by {
            assert(x[i] == y[i]);
        }
    }
}

/// A member of one of two objects that are the same stands in the other too.
pub proof fn same_objects_have_the_same_members(
    a: Seq<(Seq<char>, json::Json)>,
    b: Seq<(Seq<char>, json::Json)>,
    i: int,
)
    requires
        json::same_json(json::Json::Object(a), json::Json::Object(b)),
        0 <= i < a.len(),
    ensures
        a.len() == b.len(),
        exists|j: int| 0 <= j < b.len() && #[trigger] same_member(a[i], b[j]),
{
    let x = json::named_forms(a);
    let y = json::named_forms(b);
    json::lemma_named_forms(a);
    json::lemma_named_forms(b);
    sorting_orders_and_keeps_entries(x);
    sorting_orders_and_keeps_entries(y);
    x.to_multiset_ensures();
    y.to_multiset_ensures();
    assert(x.contains(x[i]));
    assert(x.to_multiset().count(x[i]) > 0);
    assert(y.contains(x[i]));
    let j = choose|j: int| 0 <= j < y.len() && y[j] == x[i];
    assert(same_member(a[i], b[j]));
}

/// Objects with as many members, no name twice, of which each stands in the other too,
/// are the same.
pub proof fn objects_with_the_same_members_are_the_same(
    a: Seq<(Seq<char>, json::Json)>,
    b: Seq<(Seq<char>, json::Json)>,
)
    requires
        a.len() == b.len(),
        json::distinct_names(a),
        json::distinct_names(b),
        forall|i: int|
            0 <= i < a.len() ==> exists|j: int|
                0 <= j < b.len() && same_member(#[trigger] a[i], #[trigger] b[j]),
    ensures
        json::same_json(json::Json::Object(a), json::Json::Object(b)),
{
    let x = json::named_forms(a);
    let y = json::named_forms(b);
    json::lemma_named_forms(a);
    json::lemma_named_forms(b);
    assert(json::distinct_names(x)) by {
        assert forall|i: int, j: int| 0 <= i < j < x.len() implies (#[trigger] x[i]).0 != (
        #[trigger] x[j]).0 by {
            assert(a[i].0 != a[j].0);
        }
    }
    assert(json::distinct_names(y)) by {
        assert forall|i: int, j: int| 0 <= i < j < y.len() implies (#[trigger] y[i]).0 != (
        #[trigger] y[j]).0 by {
            assert(b[i].0 != b[j].0);
        }
    }
    assert forall|e: (Seq<char>, json::Json)| x.contains(e) implies y.contains(e) by {
        let i = choose|i: int| 0 <= i < x.len() && x[i] == e;
        assert(a[i].0 == x[i].0);
        let j = choose|j: int| 0 <= j < b.len() && same_member(a[i], #[trigger] b[j]);
        assert(y[j] == e);
    }
    lemma_included_is_all(x, y);
    sorting_forgets_order(x, y);
}

/// Of two sequences as long as each other and without repetition, one whose elements all
/// stand in the other holds exactly the elements of the other.
proof fn lemma_included_is_all<V>(x: Seq<(Seq<char>, V)>, y: Seq<(Seq<char>, V)>)
    requires
        x.len() == y.len(),
        json::distinct_names(x),
        json::distinct_names(y),
        forall|e: (Seq<char>, V)| x.contains(e) ==> y.contains(e),
    ensures
        x.to_multiset() == y.to_multiset(),
    decreases x.len(),
{
    broadcast use group_to_multiset_ensures;

    if x.len() > 0 {
        let e = x.last();
        assert(x.contains(e)) by {
            assert(x[x.len() - 1] == e);
        }
        let j = choose|j: int| 0 <= j < y.len() && y[j] == e;
        let rest = y.remove(j);
        let shorter = x.drop_last();
        assert forall|f: (Seq<char>, V)| shorter.contains(f) implies rest.contains(f) by {
            let i = choose|i: int| 0 <= i < shorter.len() && shorter[i] == f;
            assert(x[i] == f);
            assert(x.contains(f));
            assert(x[i].0 != x[x.len() - 1].0);
            let k = choose|k: int| 0 <= k < y.len() && y[k] == f;
            if k < j {
                assert(rest[k] == f);
            } else {
                assert(rest[k - 1] == f);
            }
        }
        lemma_included_is_all(shorter, rest);
        assert(x =~= shorter.push(e));
        y.to_multiset_ensures();
        assert(rest.to_multiset() =~= y.to_multiset().remove(y[j]));
        assert(y.to_multiset() =~= rest.to_multiset().insert(e)) by {
            assert(y.to_multiset().count(e) > 0);
        }
    } else {
        assert(x =~= y);
    }
}

/// What stands under a name is the value of a member with that name before which none
/// has it, and nothing where no member has it.
pub proof fn members_are_found_by_name(
    before: Seq<(Seq<char>, json::Json)>,
    name: Seq<char>,
    value: json::Json,
    after: Seq<(Seq<char>, json::Json)>,
)
    requires
        forall|i: int| 0 <= i < before.len() ==> (#[trigger] before[i]).0 != name,
    ensures
        json::member(json::Json::Object(before), name) is None,
        json::member(json::Json::Object(before.push((name, value)) + after), name) == Some(value),
    decreases before.len(),
{
    let all = before.push((name, value)) + after;
    if before.len() == 0 {
        assert(all[0] == (name, value));
    } else {
        members_are_found_by_name(before.drop_first(), name, value, after);
        assert(before[0].0 != name);
        assert(all[0] == before[0]);
        assert(all.drop_first() =~= before.drop_first().push((name, value)) + after);
    }
}

/// Where no name stands twice, every member is found under its name.
pub proof fn every_member_is_found(members: Seq<(Seq<char>, json::Json)>, i: int)
    requires
        json::distinct_names(members),
        0 <= i < members.len(),
    ensures
        json::member(json::Json::Object(members), members[i].0) == Some(members[i].1),
{
    let before = members.take(i);
    let after = members.skip(i + 1);
    assert forall|k: int| 0 <= k < before.len() implies (#[trigger] before[k]).0
        != members[i].0 by {
        assert(before[k] == members[k]);
    }
    members_are_found_by_name(before, members[i].0, members[i].1, after);
    assert(before.push(members[i]) + after =~= members);
}

/// Nothing but an object has members, and nothing but a string holds a text.
pub proof fn only_objects_have_members(value: json::Json, name: Seq<char>)
    ensures
        !(value is Object) ==> json::member(value, name) is None,
        json::as_text(Some(value)) is Some == (value is Text),
        value matches json::Json::Text(t) ==> json::as_text(Some(value)) == Some(t),
        json::as_text(None) is None,
{
}

} // verus!
