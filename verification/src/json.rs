//! JSON values, their stable text and when two of them are the same.

use crate::model;
use crate::outside;
use crate::text;
use vstd::prelude::*;
use vstd::string::*;

verus! {

/// A JSON value as a mathematical tree. A number is its text.
pub enum Json {
    Null,
    Bool(bool),
    Number(Seq<char>),
    Text(Seq<char>),
    Array(Seq<Json>),
    Object(Seq<(Seq<char>, Json)>),
}

/// A JSON value. A number is held as the text that `serde_json` writes for it.
#[derive(Debug)]
pub enum JsonValue {
    Null,
    Bool(bool),
    Number(String),
    Text(String),
    Array(Vec<JsonValue>),
    Object(Vec<(String, JsonValue)>),
}

impl View for JsonValue {
    type V = Json;

    open spec fn view(&self) -> Json {
        tree_of(*self)
    }
}

/// The tree that a JSON value stands for.
pub open spec fn tree_of(value: JsonValue) -> Json
    decreases value,
{
    match value {
        JsonValue::Null => Json::Null,
        JsonValue::Bool(b) => Json::Bool(b),
        JsonValue::Number(t) => Json::Number(t@),
        JsonValue::Text(t) => Json::Text(t@),
        JsonValue::Array(items) => Json::Array(
            Seq::new(
                items@.len(),
                |i: int|
                    if 0 <= i < items@.len() {
                        tree_of(items@[i])
                    } else {
                        Json::Null
                    },
            ),
        ),
        JsonValue::Object(members) => Json::Object(
            Seq::new(
                members@.len(),
                |i: int|
                    if 0 <= i < members@.len() {
                        (members@[i].0@, tree_of(members@[i].1))
                    } else {
                        (Seq::empty(), Json::Null)
                    },
            ),
        ),
    }
}

/// An array or an object shows its elements by their views.
pub proof fn lemma_tree_of(value: JsonValue)
    ensures
        value matches JsonValue::Array(items) ==> value@ == Json::Array(model::views(items@)),
        value matches JsonValue::Object(members) ==> value@ == Json::Object(model::named_views(members@)),
{
    match value {
        JsonValue::Array(items) => {
            assert(value@->Array_0 =~= model::views(items@));
        },
        JsonValue::Object(members) => {
            assert(value@->Object_0 =~= model::named_views(members@));
        },
        _ => {},
    }
}

/// An element of an array or an object is smaller than the array or the object.
proof fn lemma_parts_are_smaller(value: JsonValue, i: int)
    ensures
        value matches JsonValue::Array(items) ==> 0 <= i < items@.len() ==> decreases_to!(
            value => items@[i]
        ),
        value matches JsonValue::Object(members) ==> 0 <= i < members@.len() ==> decreases_to!(
            value => members@[i].1
        ),
{
    match value {
        JsonValue::Array(items) => {
            if 0 <= i < items@.len() {
                assert(decreases_to!(value => value->Array_0));
                assert(decreases_to!(items => items@));
                assert(decreases_to!(items@ => items@[i]));
            }
        },
        JsonValue::Object(members) => {
            if 0 <= i < members@.len() {
                assert(decreases_to!(value => value->Object_0));
                assert(decreases_to!(members => members@));
                assert(decreases_to!(members@ => members@[i]));
                assert(decreases_to!(members@[i] => members@[i].1));
            }
        },
        _ => {},
    }
}

impl Clone for JsonValue {
    fn clone(&self) -> (copy: Self)
        ensures
            copy@ == self@,
        decreases self,
    {
        proof {
            lemma_tree_of(*self);
        }
        match self {
            JsonValue::Null => JsonValue::Null,
            JsonValue::Bool(b) => JsonValue::Bool(*b),
            JsonValue::Number(t) => JsonValue::Number(t.clone()),
            JsonValue::Text(t) => JsonValue::Text(t.clone()),
            JsonValue::Array(items) => {
                let mut copies: Vec<JsonValue> = Vec::new();
                let mut i: usize = 0;
                while i < items.len()
                    invariant
                        *self == JsonValue::Array(*items),
                        i <= items@.len(),
                        copies@.len() == i,
                        forall|j: int| 0 <= j < i ==> (#[trigger] copies@[j])@ == items@[j]@,
                    decreases items@.len() - i,
                {
                    proof {
                        lemma_parts_are_smaller(*self, i as int);
                    }
                    let copy: JsonValue = items[i].clone();
                    copies.push(copy);
                    i = i + 1;
                }
                let copy: JsonValue = JsonValue::Array(copies);
                proof {
                    lemma_tree_of(copy);
                    assert(model::views(copies@) =~= model::views(items@));
                }
                copy
            },
            JsonValue::Object(members) => {
                let mut copies: Vec<(String, JsonValue)> = Vec::new();
                let mut i: usize = 0;
                while i < members.len()
                    invariant
                        *self == JsonValue::Object(*members),
                        i <= members@.len(),
                        copies@.len() == i,
                        forall|j: int|
                            0 <= j < i ==> (#[trigger] copies@[j]).0@ == members@[j].0@
                                && copies@[j].1@ == members@[j].1@,
                    decreases members@.len() - i,
                {
                    proof {
                        lemma_parts_are_smaller(*self, i as int);
                    }
                    let copy: JsonValue = members[i].1.clone();
                    copies.push((members[i].0.clone(), copy));
                    i = i + 1;
                }
                let copy: JsonValue = JsonValue::Object(copies);
                proof {
                    lemma_tree_of(copy);
                    assert(model::named_views(copies@) =~= model::named_views(members@));
                }
                copy
            },
        }
    }
}

// ---------------------------------------------------------------------------
// Order of members
// ---------------------------------------------------------------------------

/// `sorted` with `entry` placed after every entry whose name is not after its
/// own.
pub open spec fn insert_by_name<V>(sorted: Seq<(Seq<char>, V)>, entry: (Seq<char>, V)) -> Seq<
    (Seq<char>, V),
>
    decreases sorted.len(),
{
    if sorted.len() == 0 || text::text_le(sorted.last().0, entry.0) {
        sorted.push(entry)
    } else {
        insert_by_name(sorted.drop_last(), entry).push(sorted.last())
    }
}

/// The entries in ascending order of name.
pub open spec fn sort_by_name<V>(entries: Seq<(Seq<char>, V)>) -> Seq<(Seq<char>, V)>
    decreases entries.len(),
{
    if entries.len() == 0 {
        entries
    } else {
        insert_by_name(sort_by_name(entries.drop_last()), entries.last())
    }
}

proof fn lemma_insert_position<V>(
    sorted: Seq<(Seq<char>, V)>,
    entry: (Seq<char>, V),
    position: int,
)
    requires
        0 <= position <= sorted.len(),
        position == 0 || text::text_le(sorted[position - 1].0, entry.0),
        forall|k: int|
            position <= k < sorted.len() ==> !text::text_le((#[trigger] sorted[k]).0, entry.0),
    ensures
        insert_by_name(sorted, entry) == sorted.insert(position, entry),
    decreases sorted.len(),
{
    if position == sorted.len() {
        assert(sorted.insert(position, entry) =~= sorted.push(entry));
    } else {
        lemma_insert_position(sorted.drop_last(), entry, position);
        assert(sorted.drop_last().insert(position, entry).push(sorted.last()) =~= sorted.insert(
            position,
            entry,
        ));
    }
}

/// The entries in ascending order of name.
pub fn sorted_by_name<T: View>(entries: Vec<(String, T)>) -> (sorted: Vec<(String, T)>)
    ensures
        model::named_views(sorted@) == sort_by_name(model::named_views(entries@)),
{
    let ghost all = model::named_views(entries@);
    let mut sorted: Vec<(String, T)> = Vec::new();
    assert(model::named_views(sorted@) =~= sort_by_name(all.take(0)));
    for entry in it: entries.into_iter()
        invariant
            it.seq() == entries@,
            all == model::named_views(entries@),
            model::named_views(sorted@) == sort_by_name(all.take(it.index() as int)),
    {
        let ghost before = model::named_views(sorted@);
        let ghost placed = (entry.0@, entry.1@);
        let mut position: usize = sorted.len();
        while position > 0 && !text::not_after(sorted[position - 1].0.as_str(), entry.0.as_str())
            invariant
                position <= sorted@.len(),
                before == model::named_views(sorted@),
                placed == (entry.0@, entry.1@),
                forall|k: int|
                    position <= k < before.len() ==> !text::text_le(
                        (#[trigger] before[k]).0,
                        placed.0,
                    ),
            decreases position,
        {
            position = position - 1;
            assert(before[position as int].0 == sorted@[position as int].0@);
        }
        proof {
            if position > 0 {
                assert(before[position - 1].0 == sorted@[position - 1].0@);
            }
            lemma_insert_position(before, placed, position as int);
            let taken = all.take(it.index() + 1);
            assert(taken.drop_last() =~= all.take(it.index() as int));
            assert(taken.last() == placed);
        }
        sorted.insert(position, entry);
        assert(model::named_views(sorted@) =~= before.insert(position as int, placed));
    }
    assert(all.take(all.len() as int) =~= all);
    sorted
}

/// Whether no name stands twice.
pub open spec fn distinct_names<V>(entries: Seq<(Seq<char>, V)>) -> bool {
    forall|i: int, j: int|
        0 <= i < j < entries.len() ==> (#[trigger] entries[i]).0 != (#[trigger] entries[j]).0
}

/// Whether a character can stand in the text of a number.
pub open spec fn number_char(c: char) -> bool {
    ('0' <= c && c <= '9') || c == '+' || c == '-' || c == '.' || c == 'e' || c == 'E'
}

/// Whether a text can be that of a number.
pub open spec fn number_text(t: Seq<char>) -> bool {
    t.len() > 0 && forall|i: int| 0 <= i < t.len() ==> number_char(#[trigger] t[i])
}

/// Whether a value is one that can be read: its numbers are written as numbers
/// are, and no object names a member twice.
pub open spec fn proper(value: Json) -> bool
    decreases value,
{
    match value {
        Json::Number(t) => number_text(t),
        Json::Array(items) => forall|i: int| 0 <= i < items.len() ==> proper(#[trigger] items[i]),
        Json::Object(members) => distinct_names(members) && forall|i: int|
            0 <= i < members.len() ==> proper((#[trigger] members[i]).1),
        _ => true,
    }
}

// ---------------------------------------------------------------------------
// Stable text
// ---------------------------------------------------------------------------

/// The lower-case hexadecimal digit of a number below sixteen.
pub open spec fn hex_digit(n: int) -> char {
    if n < 10 {
        (48 + n) as char
    } else {
        (87 + n) as char
    }
}

/// A character as it stands in a JSON string.
pub open spec fn escaped(c: char) -> Seq<char> {
    if c == '"' {
        seq!['\\', '"']
    } else if c == '\\' {
        seq!['\\', '\\']
    } else if c == '\u{8}' {
        seq!['\\', 'b']
    } else if c == '\t' {
        seq!['\\', 't']
    } else if c == '\n' {
        seq!['\\', 'n']
    } else if c == '\u{c}' {
        seq!['\\', 'f']
    } else if c == '\r' {
        seq!['\\', 'r']
    } else if (c as int) < 0x20 {
        seq!['\\', 'u', '0', '0', hex_digit(c as int / 16), hex_digit(c as int % 16)]
    } else {
        seq![c]
    }
}

/// The characters of `s` as they stand in a JSON string.
pub open spec fn escaped_all(s: Seq<char>) -> Seq<char>
    decreases s.len(),
{
    if s.len() == 0 {
        Seq::empty()
    } else {
        escaped_all(s.drop_last()) + escaped(s.last())
    }
}

/// `s` as a JSON string.
pub open spec fn quoted(s: Seq<char>) -> Seq<char> {
    seq!['"'] + escaped_all(s) + seq!['"']
}

/// Texts with a comma between one and the next.
pub open spec fn comma_joined(texts: Seq<Seq<char>>) -> Seq<char>
    decreases texts.len(),
{
    if texts.len() == 0 {
        Seq::empty()
    } else if texts.len() == 1 {
        texts[0]
    } else {
        comma_joined(texts.drop_last()) + ","@ + texts.last()
    }
}

/// A member of an object: its name as a JSON string, a colon and its text.
pub open spec fn member_text(member: (Seq<char>, Seq<char>)) -> Seq<char> {
    quoted(member.0) + ":"@ + member.1
}

/// The text of a JSON value without white space and with the members of every
/// object in ascending order of name.
pub open spec fn stable_text(value: Json) -> Seq<char>
    decreases value,
{
    match value {
        Json::Null => "null"@,
        Json::Bool(b) => if b {
            "true"@
        } else {
            "false"@
        },
        Json::Number(t) => t,
        Json::Text(t) => quoted(t),
        Json::Array(items) => "["@ + comma_joined(stable_texts(items)) + "]"@,
        Json::Object(members) => {
            "{"@ + comma_joined(
                sort_by_name(named_texts(members)).map_values(
                    |member: (Seq<char>, Seq<char>)| member_text(member),
                ),
            ) + "}"@
        },
    }
}

/// The stable texts of JSON values.
pub open spec fn stable_texts(items: Seq<Json>) -> Seq<Seq<char>>
    decreases items,
{
    if items.len() == 0 {
        Seq::empty()
    } else {
        stable_texts(items.drop_last()).push(stable_text(items[items.len() - 1]))
    }
}

/// Names with the stable texts of the values they stand for.
pub open spec fn named_texts(members: Seq<(Seq<char>, Json)>) -> Seq<(Seq<char>, Seq<char>)>
    decreases members,
{
    if members.len() == 0 {
        Seq::empty()
    } else {
        named_texts(members.drop_last()).push(
            (members[members.len() - 1].0, stable_text(members[members.len() - 1].1)),
        )
    }
}

/// There is one stable text for each value.
pub proof fn lemma_stable_texts(items: Seq<Json>)
    ensures
        stable_texts(items).len() == items.len(),
        forall|i: int|
            0 <= i < items.len() ==> #[trigger] stable_texts(items)[i] == stable_text(items[i]),
    decreases items.len(),
{
    if items.len() > 0 {
        lemma_stable_texts(items.drop_last());
    }
}

/// There is one named text for each member.
pub proof fn lemma_named_texts(members: Seq<(Seq<char>, Json)>)
    ensures
        named_texts(members).len() == members.len(),
        forall|i: int|
            0 <= i < members.len() ==> #[trigger] named_texts(members)[i] == (
                members[i].0,
                stable_text(members[i].1),
            ),
    decreases members.len(),
{
    if members.len() > 0 {
        lemma_named_texts(members.drop_last());
    }
}

/// One more text is joined on with a comma, unless it is the first.
pub proof fn lemma_comma_joined_step(texts: Seq<Seq<char>>, i: int)
    requires
        0 <= i < texts.len(),
    ensures
        comma_joined(texts.take(i + 1)) == if i == 0 {
            texts[0]
        } else {
            comma_joined(texts.take(i)) + ","@ + texts[i]
        },
{
    assert(texts.take(i + 1).drop_last() =~= texts.take(i));
    assert(texts.take(i + 1).last() == texts[i]);
}

/// Appends the stable text of `value` to `out`.
#[verifier::spinoff_prover]
fn write_stable(value: &JsonValue, out: &mut String)
    ensures
        final(out)@ == old(out)@ + stable_text(value@),
    decreases value,
{
    let ghost start = out@;
    proof {
        lemma_tree_of(*value);
    }
    match value {
        JsonValue::Null => {
            out.append("null");
        },
        JsonValue::Bool(b) => {
            if *b {
                out.append("true");
            } else {
                out.append("false");
            }
        },
        JsonValue::Number(t) => {
            out.append(t.as_str());
        },
        JsonValue::Text(t) => {
            let quoted: String = outside::quote(t.as_str());
            out.append(quoted.as_str());
        },
        JsonValue::Array(items) => {
            let ghost texts = stable_texts(model::views(items@));
            proof {
                lemma_stable_texts(model::views(items@));
            }
            out.append("[");
            let mut i: usize = 0;
            assert(out@ =~= start + "["@ + comma_joined(texts.take(0)));
            while i < items.len()
                invariant
                    *value == JsonValue::Array(*items),
                    i <= items@.len(),
                    texts.len() == items@.len(),
                    forall|j: int|
                        0 <= j < texts.len() ==> #[trigger] texts[j] == stable_text(items@[j]@),
                    out@ == start + "["@ + comma_joined(texts.take(i as int)),
                decreases items@.len() - i,
            {
                proof {
                    lemma_parts_are_smaller(*value, i as int);
                    lemma_comma_joined_step(texts, i as int);
                }
                if i > 0 {
                    out.append(",");
                }
                write_stable(&items[i], out);
                i = i + 1;
                assert(out@ =~= start + "["@ + comma_joined(texts.take(i as int)));
            }
            assert(texts.take(texts.len() as int) =~= texts);
            out.append("]");
            assert(out@ =~= start + stable_text(value@));
        },
        JsonValue::Object(members) => {
            let mut parts: Vec<(String, String)> = Vec::new();
            let mut i: usize = 0;
            while i < members.len()
                invariant
                    *value == JsonValue::Object(*members),
                    i <= members@.len(),
                    parts@.len() == i,
                    forall|j: int|
                        0 <= j < i ==> (#[trigger] parts@[j]).0@ == members@[j].0@
                            && parts@[j].1@ == stable_text(members@[j].1@),
                decreases members@.len() - i,
            {
                proof {
                    lemma_parts_are_smaller(*value, i as int);
                }
                let mut part: String = String::new();
                write_stable(&members[i].1, &mut part);
                assert(part@ =~= stable_text(members@[i as int].1@));
                parts.push((members[i].0.clone(), part));
                i = i + 1;
            }
            proof {
                lemma_named_texts(model::named_views(members@));
            }
            assert(model::named_views(parts@) =~= named_texts(model::named_views(members@)));
            let sorted: Vec<(String, String)> = sorted_by_name(parts);
            let ghost texts = model::named_views(sorted@).map_values(
                |member: (Seq<char>, Seq<char>)| member_text(member),
            );
            out.append("{");
            let mut k: usize = 0;
            assert(out@ =~= start + "{"@ + comma_joined(texts.take(0)));
            while k < sorted.len()
                invariant
                    k <= sorted@.len(),
                    texts == model::named_views(sorted@).map_values(
                        |member: (Seq<char>, Seq<char>)| member_text(member),
                    ),
                    out@ == start + "{"@ + comma_joined(texts.take(k as int)),
                decreases sorted@.len() - k,
            {
                proof {
                    lemma_comma_joined_step(texts, k as int);
                    assert(texts[k as int] == member_text(model::named_views(sorted@)[k as int]));
                }
                if k > 0 {
                    out.append(",");
                }
                let name: String = outside::quote(sorted[k].0.as_str());
                out.append(name.as_str());
                out.append(":");
                out.append(sorted[k].1.as_str());
                k = k + 1;
                assert(out@ =~= start + "{"@ + comma_joined(texts.take(k as int)));
            }
            assert(texts.take(texts.len() as int) =~= texts);
            out.append("}");
            assert(out@ =~= start + stable_text(value@));
        },
    }
}

/// The text of a JSON value without white space and with the members of every
/// object in ascending order of name.
pub fn stable_json(value: &JsonValue) -> (written: String)
    ensures
        written@ == stable_text(value@),
{
    let mut written: String = String::new();
    write_stable(value, &mut written);
    assert(written@ =~= stable_text(value@));
    written
}

// ---------------------------------------------------------------------------
// Sameness
// ---------------------------------------------------------------------------

/// A number text with negative zero written as zero.
pub open spec fn number_form(t: Seq<char>) -> Seq<char> {
    if t == "-0.0"@ {
        "0.0"@
    } else {
        t
    }
}

/// The form in which JSON values are compared: the members of every object in
/// ascending order of name, and zero without a sign.
pub open spec fn normal_form(value: Json) -> Json
    decreases value,
{
    match value {
        Json::Number(t) => Json::Number(number_form(t)),
        Json::Array(items) => Json::Array(normal_forms(items)),
        Json::Object(members) => Json::Object(sort_by_name(named_forms(members))),
        _ => value,
    }
}

/// The normal forms of JSON values.
pub open spec fn normal_forms(items: Seq<Json>) -> Seq<Json>
    decreases items,
{
    if items.len() == 0 {
        Seq::empty()
    } else {
        normal_forms(items.drop_last()).push(normal_form(items[items.len() - 1]))
    }
}

/// Names with the normal forms of the values they stand for.
pub open spec fn named_forms(members: Seq<(Seq<char>, Json)>) -> Seq<(Seq<char>, Json)>
    decreases members,
{
    if members.len() == 0 {
        Seq::empty()
    } else {
        named_forms(members.drop_last()).push(
            (members[members.len() - 1].0, normal_form(members[members.len() - 1].1)),
        )
    }
}

/// Whether two JSON values are the same: equal but for the order of members
/// and the sign of zero.
pub open spec fn same_json(a: Json, b: Json) -> bool {
    normal_form(a) == normal_form(b)
}

/// There is one normal form for each value.
pub proof fn lemma_normal_forms(items: Seq<Json>)
    ensures
        normal_forms(items).len() == items.len(),
        forall|i: int|
            0 <= i < items.len() ==> #[trigger] normal_forms(items)[i] == normal_form(items[i]),
    decreases items.len(),
{
    if items.len() > 0 {
        lemma_normal_forms(items.drop_last());
    }
}

/// There is one named normal form for each member.
pub proof fn lemma_named_forms(members: Seq<(Seq<char>, Json)>)
    ensures
        named_forms(members).len() == members.len(),
        forall|i: int|
            0 <= i < members.len() ==> #[trigger] named_forms(members)[i] == (
                members[i].0,
                normal_form(members[i].1),
            ),
    decreases members.len(),
{
    if members.len() > 0 {
        lemma_named_forms(members.drop_last());
    }
}

/// The form in which a JSON value is compared.
fn normalized(value: &JsonValue) -> (form: JsonValue)
    ensures
        form@ == normal_form(value@),
    decreases value,
{
    proof {
        lemma_tree_of(*value);
    }
    match value {
        JsonValue::Number(t) => {
            if text::same_text(t.as_str(), "-0.0") {
                JsonValue::Number("0.0".to_owned())
            } else {
                JsonValue::Number(t.clone())
            }
        },
        JsonValue::Array(items) => {
            let mut forms: Vec<JsonValue> = Vec::new();
            let mut i: usize = 0;
            while i < items.len()
                invariant
                    *value == JsonValue::Array(*items),
                    i <= items@.len(),
                    forms@.len() == i,
                    forall|j: int|
                        0 <= j < i ==> (#[trigger] forms@[j])@ == normal_form(items@[j]@),
                decreases items@.len() - i,
            {
                proof {
                    lemma_parts_are_smaller(*value, i as int);
                }
                let form: JsonValue = normalized(&items[i]);
                forms.push(form);
                i = i + 1;
            }
            let form: JsonValue = JsonValue::Array(forms);
            proof {
                lemma_tree_of(form);
                lemma_normal_forms(model::views(items@));
                assert(model::views(forms@) =~= normal_forms(model::views(items@)));
            }
            form
        },
        JsonValue::Object(members) => {
            let mut forms: Vec<(String, JsonValue)> = Vec::new();
            let mut i: usize = 0;
            while i < members.len()
                invariant
                    *value == JsonValue::Object(*members),
                    i <= members@.len(),
                    forms@.len() == i,
                    forall|j: int|
                        0 <= j < i ==> (#[trigger] forms@[j]).0@ == members@[j].0@
                            && forms@[j].1@ == normal_form(members@[j].1@),
                decreases members@.len() - i,
            {
                proof {
                    lemma_parts_are_smaller(*value, i as int);
                }
                let form: JsonValue = normalized(&members[i].1);
                forms.push((members[i].0.clone(), form));
                i = i + 1;
            }
            proof {
                lemma_named_forms(model::named_views(members@));
                assert(model::named_views(forms@) =~= named_forms(model::named_views(members@)));
            }
            let form: JsonValue = JsonValue::Object(sorted_by_name(forms));
            proof {
                lemma_tree_of(form);
            }
            form
        },
        _ => value.clone(),
    }
}

/// Whether two JSON values stand for the same tree, member order included.
fn same_tree(a: &JsonValue, b: &JsonValue) -> (same: bool)
    ensures
        same == (a@ == b@),
    decreases a,
{
    proof {
        lemma_tree_of(*a);
        lemma_tree_of(*b);
    }
    match (a, b) {
        (JsonValue::Null, JsonValue::Null) => true,
        (JsonValue::Bool(x), JsonValue::Bool(y)) => *x == *y,
        (JsonValue::Number(x), JsonValue::Number(y)) => text::same_text(x.as_str(), y.as_str()),
        (JsonValue::Text(x), JsonValue::Text(y)) => text::same_text(x.as_str(), y.as_str()),
        (JsonValue::Array(x), JsonValue::Array(y)) => {
            if x.len() != y.len() {
                assert(model::views(x@).len() != model::views(y@).len());
                return false;
            }
            let mut i: usize = 0;
            while i < x.len()
                invariant
                    *a == JsonValue::Array(*x),
                    *b == JsonValue::Array(*y),
                    a@ == Json::Array(model::views(x@)),
                    b@ == Json::Array(model::views(y@)),
                    i <= x@.len(),
                    x@.len() == y@.len(),
                    forall|j: int| 0 <= j < i ==> (#[trigger] x@[j])@ == y@[j]@,
                decreases x@.len() - i,
            {
                proof {
                    lemma_parts_are_smaller(*a, i as int);
                }
                if !same_tree(&x[i], &y[i]) {
                    assert(model::views(x@)[i as int] != model::views(y@)[i as int]);
                    return false;
                }
                i = i + 1;
            }
            assert(model::views(x@) =~= model::views(y@));
            true
        },
        (JsonValue::Object(x), JsonValue::Object(y)) => {
            if x.len() != y.len() {
                assert(model::named_views(x@).len() != model::named_views(y@).len());
                return false;
            }
            let mut i: usize = 0;
            while i < x.len()
                invariant
                    *a == JsonValue::Object(*x),
                    *b == JsonValue::Object(*y),
                    a@ == Json::Object(model::named_views(x@)),
                    b@ == Json::Object(model::named_views(y@)),
                    i <= x@.len(),
                    x@.len() == y@.len(),
                    forall|j: int|
                        0 <= j < i ==> (#[trigger] x@[j]).0@ == y@[j].0@ && x@[j].1@ == y@[j].1@,
                decreases x@.len() - i,
            {
                proof {
                    lemma_parts_are_smaller(*a, i as int);
                }
                if !text::same_text(x[i].0.as_str(), y[i].0.as_str()) || !same_tree(
                    &x[i].1,
                    &y[i].1,
                ) {
                    assert(model::named_views(x@)[i as int] != model::named_views(y@)[i as int]);
                    return false;
                }
                i = i + 1;
            }
            assert(model::named_views(x@) =~= model::named_views(y@));
            true
        },
        _ => false,
    }
}

/// Whether two JSON values are the same: equal but for the order of members
/// and the sign of zero.
pub fn json_eq(a: &JsonValue, b: &JsonValue) -> (same: bool)
    ensures
        same == same_json(a@, b@),
{
    same_tree(&normalized(a), &normalized(b))
}

// ---------------------------------------------------------------------------
// Reading
// ---------------------------------------------------------------------------

/// Turns a document of `serde_json` into a JSON value.
pub fn from_document(document: serde_json::Value) -> (value: JsonValue)
    ensures
        value@ == outside::document_tree(document),
        proper(value@),
    decreases outside::document_tree(document),
{
    let ghost tree = outside::document_tree(document);
    match outside::open_document(document) {
        outside::DocumentParts::Null => JsonValue::Null,
        outside::DocumentParts::Bool(b) => JsonValue::Bool(b),
        outside::DocumentParts::Number(t) => JsonValue::Number(t),
        outside::DocumentParts::Text(t) => JsonValue::Text(t),
        outside::DocumentParts::Array(items) => {
            let mut values: Vec<JsonValue> = Vec::new();
            for item in it: items.into_iter()
                invariant
                    it.seq() == items@,
                    tree == outside::document_tree(document),
                    tree == Json::Array(
                        Seq::new(items@.len(), |i: int| outside::document_tree(items@[i])),
                    ),
                    values@.len() == it.index(),
                    forall|j: int|
                        0 <= j < it.index() ==> (#[trigger] values@[j])@ == outside::document_tree(
                            items@[j],
                        ) && proper(values@[j]@),
            {
                proof {
                    let parts = tree->Array_0;
                    assert(parts[it.index() as int] == outside::document_tree(item));
                    assert(decreases_to!(tree => tree->Array_0));
                    assert(decreases_to!(parts => parts[it.index() as int]));
                }
                let value: JsonValue = from_document(item);
                values.push(value);
            }
            let value: JsonValue = JsonValue::Array(values);
            proof {
                lemma_tree_of(value);
                assert(model::views(values@) =~= tree->Array_0);
            }
            value
        },
        outside::DocumentParts::Object(members) => {
            let mut values: Vec<(String, JsonValue)> = Vec::new();
            for member in it: members.into_iter()
                invariant
                    it.seq() == members@,
                    tree == outside::document_tree(document),
                    tree == Json::Object(
                        Seq::new(
                            members@.len(),
                            |i: int| (members@[i].0@, outside::document_tree(members@[i].1)),
                        ),
                    ),
                    values@.len() == it.index(),
                    forall|j: int|
                        0 <= j < it.index() ==> (#[trigger] values@[j]).0@ == members@[j].0@
                            && values@[j].1@ == outside::document_tree(members@[j].1) && proper(
                            values@[j].1@,
                        ),
            {
                proof {
                    let parts = tree->Object_0;
                    assert(parts[it.index() as int].1 == outside::document_tree(member.1));
                    assert(decreases_to!(tree => tree->Object_0));
                    assert(decreases_to!(parts => parts[it.index() as int]));
                    assert(decreases_to!(parts[it.index() as int] => parts[it.index() as int].1));
                }
                let value: JsonValue = from_document(member.1);
                values.push((member.0, value));
            }
            let value: JsonValue = JsonValue::Object(values);
            proof {
                lemma_tree_of(value);
                assert(model::named_views(values@) =~= tree->Object_0);
            }
            value
        },
    }
}

/// Reads a text as one JSON value.
pub fn parse_json(text: &str) -> (value: Option<JsonValue>)
    ensures
        match value {
            Some(v) => outside::parsed_json(text@) == Some(v@) && proper(v@),
            None => outside::parsed_json(text@) is None,
        },
{
    match outside::parse_document(text) {
        Some(document) => Some(from_document(document)),
        None => None,
    }
}

/// The value of the first of some members that has the given name.
pub open spec fn first_named<V>(members: Seq<(Seq<char>, V)>, name: Seq<char>) -> Option<V>
    decreases members.len(),
{
    if members.len() == 0 {
        None
    } else if members[0].0 == name {
        Some(members[0].1)
    } else {
        first_named(members.drop_first(), name)
    }
}

/// The member of an object with the given name. Nothing but an object has
/// members.
pub open spec fn member(value: Json, name: Seq<char>) -> Option<Json> {
    match value {
        Json::Object(members) => first_named(members, name),
        _ => None,
    }
}

/// The text that a JSON string holds.
pub open spec fn as_text(value: Option<Json>) -> Option<Seq<char>> {
    match value {
        Some(Json::Text(t)) => Some(t),
        _ => None,
    }
}

impl JsonValue {
    /// The member of an object with the given name.
    pub fn get(&self, name: &str) -> (found: Option<&JsonValue>)
        ensures
            model::seen(found) == member(self@, name@),
    {
        proof {
            lemma_tree_of(*self);
        }
        match self {
            JsonValue::Object(members) => {
                let ghost all = model::named_views(members@);
                let mut i: usize = 0;
                assert(all.skip(0) =~= all);
                while i < members.len()
                    invariant
                        i <= members@.len(),
                        all == model::named_views(members@),
                        self@ == Json::Object(all),
                        first_named(all, name@) == first_named(all.skip(i as int), name@),
                    decreases members@.len() - i,
                {
                    if text::same_text(members[i].0.as_str(), name) {
                        return Some(&members[i].1);
                    }
                    assert(all.skip(i as int).drop_first() =~= all.skip(i + 1));
                    i = i + 1;
                }
                None
            },
            _ => None,
        }
    }

    /// The text that a JSON string holds.
    pub fn text(&self) -> (found: Option<&String>)
        ensures
            model::seen(found) == as_text(Some(self@)),
    {
        match self {
            JsonValue::Text(t) => Some(t),
            _ => None,
        }
    }
}

} // verus!
