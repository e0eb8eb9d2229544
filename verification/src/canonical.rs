//! The form in which conversation items are compared across turns, and the
//! signature of all of a request but its input.

use crate::json;
use crate::json::JsonValue;
use crate::json_laws;
use crate::json_text_laws;
use crate::model;
use crate::outside;
use crate::request;
use crate::request::{ResponsesInputItem, ResponsesRequest};
use crate::table;
use crate::text;
use vstd::prelude::*;
use vstd::string::*;

verus! {

/// An item whose arguments, where it is a function call and they were read as
/// JSON, are the stable text of what was read.
pub open spec fn with_arguments(item: request::Item, parsed: Option<json::Json>) -> request::Item {
    match (item, parsed) {
        (request::Item::FunctionCall { call_id, name, .. }, Some(value)) => {
            request::Item::FunctionCall { call_id, name, arguments: json::stable_text(value) }
        },
        _ => item,
    }
}

/// What the arguments of a function call are as JSON.
pub open spec fn parsed_arguments(item: request::Item) -> Option<json::Json> {
    match item {
        request::Item::FunctionCall { arguments, .. } => outside::parsed_json(arguments),
        _ => None,
    }
}

/// The form in which items are compared.
pub open spec fn canonical(item: request::Item) -> json::Json {
    request::item_json(with_arguments(item, parsed_arguments(item)))
}

/// Whether two items are the same in the form in which they are compared.
pub open spec fn equivalent(a: request::Item, b: request::Item) -> bool {
    json::same_json(canonical(a), canonical(b))
}

/// An item as JSON, with the arguments of a function call replaced by the stable
/// text of what they were read as.
pub fn item_with_arguments(item: &ResponsesInputItem, parsed: Option<&JsonValue>) -> (value:
    JsonValue)
    ensures
        value@ == request::item_json(with_arguments(item@, model::seen(parsed))),
{
    match (item, parsed) {
        (ResponsesInputItem::FunctionCall { call_id, name, .. }, Some(read)) => {
            let changed: ResponsesInputItem = ResponsesInputItem::FunctionCall {
                call_id: call_id.clone(),
                name: name.clone(),
                arguments: json::stable_json(read),
            };
            request::item_value(&changed)
        },
        _ => request::item_value(item),
    }
}

/// The form in which transcript items are compared across turns.
///
/// The arguments of a function call are a JSON text. A recorded transcript keeps
/// the text that the model streamed, while the next request writes the client's
/// parsed input anew. Arguments that can be read are taken by their stable text,
/// so that a difference in the text alone does not matter.
pub fn canonical_input_item(item: &ResponsesInputItem) -> (value: JsonValue)
    ensures
        value@ == canonical(item@),
        parsed_arguments(item@) matches Some(v) ==> json::proper(v),
{
    let parsed: Option<JsonValue> = match item {
        ResponsesInputItem::FunctionCall { arguments, .. } => json::parse_json(arguments.as_str()),
        _ => None,
    };
    match parsed {
        Some(read) => item_with_arguments(item, Some(&read)),
        None => item_with_arguments(item, None),
    }
}

/// Compares two transcript items for append-only prefix purposes.
pub fn input_items_equivalent(a: &ResponsesInputItem, b: &ResponsesInputItem) -> (same: bool)
    ensures
        same == equivalent(a@, b@),
        parsed_arguments(a@) matches Some(v) ==> json::proper(v),
        parsed_arguments(b@) matches Some(w) ==> json::proper(w),
{
    json::json_eq(&canonical_input_item(a), &canonical_input_item(b))
}

/// Whether `input` begins with items equivalent to those of `prefix`.
pub open spec fn begins_with(input: Seq<request::Item>, prefix: Seq<request::Item>) -> bool {
    &&& prefix.len() <= input.len()
    &&& forall|i: int| 0 <= i < prefix.len() ==> equivalent(#[trigger] input[i], prefix[i])
}

/// What follows `prefix` in `input`, where `input` begins with it.
pub open spec fn suffix_after(
    input: Seq<request::Item>,
    prefix: Seq<request::Item>,
) -> Option<Seq<request::Item>> {
    if begins_with(input, prefix) {
        Some(input.skip(prefix.len() as int))
    } else {
        None
    }
}

/// The items from a place on.
pub fn items_from(items: &[ResponsesInputItem], from: usize) -> (rest: Vec<ResponsesInputItem>)
    requires
        from <= items@.len(),
    ensures
        model::views(rest@) == model::views(items@).skip(from as int),
{
    let rest: Vec<ResponsesInputItem> = model::duplicates(
        vstd::slice::slice_subrange(items, from, items.len()),
    );
    assert(model::views(rest@) =~= model::views(items@).skip(from as int));
    rest
}

/// What follows `prefix` in `input`, where `input` begins with items equivalent
/// to those of `prefix`.
pub fn input_suffix_after_prefix(
    input: &[ResponsesInputItem],
    prefix: &[ResponsesInputItem],
) -> (suffix: Option<Vec<ResponsesInputItem>>)
    ensures
        match suffix {
            Some(items) => suffix_after(model::views(input@), model::views(prefix@)) == Some(
                model::views(items@),
            ),
            None => suffix_after(model::views(input@), model::views(prefix@)) is None,
        },
{
    if prefix.len() > input.len() {
        return None;
    }
    let ghost all = model::views(input@);
    let ghost first = model::views(prefix@);
    let mut i: usize = 0;
    while i < prefix.len()
        invariant
            i <= prefix@.len() <= input@.len(),
            all == model::views(input@),
            first == model::views(prefix@),
            forall|j: int| 0 <= j < i ==> equivalent(#[trigger] all[j], first[j]),
        decreases prefix@.len() - i,
    {
        if !input_items_equivalent(&input[i], &prefix[i]) {
            assert(!equivalent(all[i as int], first[i as int]));
            return None;
        }
        assert(equivalent(all[i as int], first[i as int]));
        i = i + 1;
    }
    assert(begins_with(all, first));
    Some(items_from(input, prefix.len()))
}

// ---------------------------------------------------------------------------
// Signature
// ---------------------------------------------------------------------------

/// A member that is there or not.
pub open spec fn optional_member(name: Seq<char>, value: Option<json::Json>) -> Seq<
    (Seq<char>, json::Json),
> {
    match value {
        Some(v) => seq![(name, v)],
        None => Seq::empty(),
    }
}

/// Texts as one JSON array.
pub open spec fn texts_json(texts: Seq<Seq<char>>) -> json::Json {
    json::Json::Array(Seq::new(texts.len(), |i: int| json::Json::Text(texts[i])))
}

/// The members of a request but for its input.
pub open spec fn prompt_members(request: request::Request) -> Seq<(Seq<char>, json::Json)> {
    seq![("model"@, json::Json::Text(request.model))] + optional_member(
        "instructions"@,
        match request.instructions {
            Some(t) => Some(json::Json::Text(t)),
            None => None,
        },
    ) + optional_member(
        "include"@,
        match request.include_fields {
            Some(t) => Some(texts_json(t)),
            None => None,
        },
    ) + optional_member("context_management"@, request.context_management) + optional_member(
        "client_metadata"@,
        request.client_metadata,
    ) + table::without(request.other, "input"@)
}

/// A member of a signature: its name between double quotes, a colon and its
/// text.
pub open spec fn signature_member(member: (Seq<char>, Seq<char>)) -> Seq<char> {
    "\""@ + member.0 + "\":"@ + member.1
}

/// A text that is the same for two requests whose members but for the input are
/// the same.
pub open spec fn signature(request: request::Request) -> Seq<char> {
    "{"@ + json::comma_joined(
        json::sort_by_name(json::named_texts(prompt_members(request))).map_values(
            |member: (Seq<char>, Seq<char>)| signature_member(member),
        ),
    ) + "}"@
}

/// The members of a request but for its input.
fn prompt_values(body: &ResponsesRequest) -> (members: Vec<(String, JsonValue)>)
    ensures
        model::named_views(members@) == prompt_members(body@),
{
    let mut members: Vec<(String, JsonValue)> = Vec::new();
    members.push(("model".to_owned(), JsonValue::Text(body.model.clone())));
    let ghost sofar = seq![("model"@, json::Json::Text(body.model@))];
    assert(model::named_views(members@) =~= sofar);
    if let Some(t) = &body.instructions {
        members.push(("instructions".to_owned(), JsonValue::Text(t.clone())));
    }
    let ghost sofar = sofar + optional_member(
        "instructions"@,
        match body@.instructions {
            Some(t) => Some(json::Json::Text(t)),
            None => None,
        },
    );
    assert(model::named_views(members@) =~= sofar);
    if let Some(texts) = &body.include_fields {
        let value: JsonValue = texts_value(texts.as_slice());
        members.push(("include".to_owned(), value));
    }
    let ghost sofar = sofar + optional_member(
        "include"@,
        match body@.include_fields {
            Some(t) => Some(texts_json(t)),
            None => None,
        },
    );
    assert(model::named_views(members@) =~= sofar);
    if let Some(value) = &body.context_management {
        members.push(("context_management".to_owned(), value.clone()));
    }
    let ghost sofar = sofar + optional_member("context_management"@, body@.context_management);
    assert(model::named_views(members@) =~= sofar);
    if let Some(value) = &body.client_metadata {
        members.push(("client_metadata".to_owned(), value.clone()));
    }
    let ghost sofar = sofar + optional_member("client_metadata"@, body@.client_metadata);
    assert(model::named_views(members@) =~= sofar);
    let ghost other = body@.other;
    let mut i: usize = 0;
    assert(other.take(0) =~= Seq::<(Seq<char>, json::Json)>::empty());
    while i < body.other.len()
        invariant
            i <= body.other@.len(),
            other == model::named_views(body.other@),
            model::named_views(members@) == sofar + table::without(
                other.take(i as int),
                "input"@,
            ),
        decreases body.other@.len() - i,
    {
        let ghost before = model::named_views(members@);
        proof {
            let taken = other.take(i + 1);
            assert(taken.drop_last() =~= other.take(i as int));
            assert(taken.last() == other[i as int]);
        }
        if !text::same_text(body.other[i].0.as_str(), "input") {
            let value: JsonValue = body.other[i].1.clone();
            members.push((body.other[i].0.clone(), value));
            assert(model::named_views(members@) =~= before.push(other[i as int]));
            assert(before.push(other[i as int]) =~= sofar + table::without(
                other.take(i as int),
                "input"@,
            ).push(other[i as int]));
        }
        i = i + 1;
    }
    assert(other.take(other.len() as int) =~= other);
    members
}

/// Texts as one JSON array.
fn texts_value(texts: &[String]) -> (value: JsonValue)
    ensures
        value@ == texts_json(model::views(texts@)),
{
    let mut values: Vec<JsonValue> = Vec::new();
    let mut i: usize = 0;
    while i < texts.len()
        invariant
            i <= texts@.len(),
            values@.len() == i,
            forall|j: int| 0 <= j < i ==> (#[trigger] values@[j])@ == json::Json::Text(texts@[j]@),
        decreases texts@.len() - i,
    {
        values.push(JsonValue::Text(texts[i].clone()));
        i = i + 1;
    }
    let value: JsonValue = JsonValue::Array(values);
    proof {
        json::lemma_tree_of(value);
        assert(model::views(values@) =~= texts_json(model::views(texts@))->Array_0);
    }
    value
}

/// A text that is the same for two requests whose members but for the input are
/// the same.
pub fn prompt_signature(body: &ResponsesRequest) -> (written: String)
    ensures
        written@ == signature(body@),
{
    let members: Vec<(String, JsonValue)> = prompt_values(body);
    let mut parts: Vec<(String, String)> = Vec::new();
    let mut i: usize = 0;
    while i < members.len()
        invariant
            i <= members@.len(),
            parts@.len() == i,
            forall|j: int|
                0 <= j < i ==> (#[trigger] parts@[j]).0@ == members@[j].0@ && parts@[j].1@
                    == json::stable_text(members@[j].1@),
        decreases members@.len() - i,
    {
        parts.push((members[i].0.clone(), json::stable_json(&members[i].1)));
        i = i + 1;
    }
    proof {
        json::lemma_named_texts(model::named_views(members@));
        assert(model::named_views(parts@) =~= json::named_texts(model::named_views(members@)));
    }
    let sorted: Vec<(String, String)> = json::sorted_by_name(parts);
    let ghost texts = model::named_views(sorted@).map_values(
        |member: (Seq<char>, Seq<char>)| signature_member(member),
    );
    let mut written: String = "{".to_owned();
    let mut k: usize = 0;
    assert(written@ =~= "{"@ + json::comma_joined(texts.take(0)));
    while k < sorted.len()
        invariant
            k <= sorted@.len(),
            texts == model::named_views(sorted@).map_values(
                |member: (Seq<char>, Seq<char>)| signature_member(member),
            ),
            written@ == "{"@ + json::comma_joined(texts.take(k as int)),
        decreases sorted@.len() - k,
    {
        proof {
            json::lemma_comma_joined_step(texts, k as int);
            assert(texts[k as int] == signature_member(model::named_views(sorted@)[k as int]));
        }
        if k > 0 {
            written.append(",");
        }
        written.append("\"");
        written.append(sorted[k].0.as_str());
        written.append("\":");
        written.append(sorted[k].1.as_str());
        k = k + 1;
        assert(written@ =~= "{"@ + json::comma_joined(texts.take(k as int)));
    }
    assert(texts.take(texts.len() as int) =~= texts);
    written.append("}");
    written
}

// ---------------------------------------------------------------------------
// What holds of them
// ---------------------------------------------------------------------------

/// Being equivalent is an equivalence relation.
pub proof fn equivalence_is_an_equivalence_relation(
    a: request::Item,
    b: request::Item,
    c: request::Item,
)
    ensures
        equivalent(a, a),
        equivalent(a, b) ==> equivalent(b, a),
        equivalent(a, b) && equivalent(b, c) ==> equivalent(a, c),
{
}

/// Calls of the same function whose arguments are read as the same JSON value
/// are equivalent, however the arguments are written.
pub proof fn arguments_compare_as_json(
    call_id: Seq<char>,
    name: Seq<char>,
    x: Seq<char>,
    y: Seq<char>,
)
    requires
        outside::parsed_json(x) is Some,
        outside::parsed_json(y) is Some,
        json::same_json(outside::parsed_json(x)->0, outside::parsed_json(y)->0),
        !json_laws::has_negative_zero(outside::parsed_json(x)->0),
        !json_laws::has_negative_zero(outside::parsed_json(y)->0),
    ensures
        equivalent(
            request::Item::FunctionCall { call_id, name, arguments: x },
            request::Item::FunctionCall { call_id, name, arguments: y },
        ),
{
    json_laws::same_values_have_same_stable_text(
        outside::parsed_json(x)->0,
        outside::parsed_json(y)->0,
    );
}

/// Objects that are the same hold the same text under the same name.
pub proof fn lemma_same_objects_agree(
    a: Seq<(Seq<char>, json::Json)>,
    b: Seq<(Seq<char>, json::Json)>,
    i: int,
    j: int,
)
    requires
        json::same_json(json::Json::Object(a), json::Json::Object(b)),
        json::distinct_names(b),
        0 <= i < a.len(),
        0 <= j < b.len(),
        a[i].0 == b[j].0,
    ensures
        json::normal_form(a[i].1) == json::normal_form(b[j].1),
{
    let x = json::named_forms(a);
    let y = json::named_forms(b);
    json::lemma_named_forms(a);
    json::lemma_named_forms(b);
    json_laws::sorting_orders_and_keeps_entries(x);
    json_laws::sorting_orders_and_keeps_entries(y);
    x.to_multiset_ensures();
    y.to_multiset_ensures();
    assert(x.contains(x[i]));
    assert(x.to_multiset().count(x[i]) > 0);
    assert(y.contains(x[i]));
    let k = choose|k: int| 0 <= k < y.len() && y[k] == x[i];
    assert(b[k].0 == b[j].0);
    assert(k == j);
}

/// Equivalent function calls have the same identifier, the same name and, in
/// the form in which they are compared, the same arguments.
pub proof fn equivalent_calls_agree(a: request::Item, b: request::Item)
    requires
        a is FunctionCall,
        b is FunctionCall,
        equivalent(a, b),
    ensures
        a->FunctionCall_call_id == b->FunctionCall_call_id,
        a->FunctionCall_name == b->FunctionCall_name,
        with_arguments(a, parsed_arguments(a))->FunctionCall_arguments == with_arguments(
            b,
            parsed_arguments(b),
        )->FunctionCall_arguments,
{
    reveal_strlit("type");
    reveal_strlit("call_id");
    reveal_strlit("name");
    reveal_strlit("arguments");
    let x = canonical(a)->Object_0;
    let y = canonical(b)->Object_0;
    assert("call_id"@[0] == 'c');
    assert("type"@[0] == 't');
    assert("name"@[0] == 'n');
    assert("arguments"@[0] == 'a');
    assert(json::distinct_names(y));
    lemma_same_objects_agree(x, y, 1, 1);
    lemma_same_objects_agree(x, y, 2, 2);
    lemma_same_objects_agree(x, y, 3, 3);
}

/// Where the arguments cannot be read as JSON, equivalent calls have them letter
/// for letter.
pub proof fn unread_arguments_compare_as_text(
    call_id: Seq<char>,
    name: Seq<char>,
    x: Seq<char>,
    y: Seq<char>,
)
    requires
        outside::parsed_json(x) is None,
        outside::parsed_json(y) is None,
    ensures
        equivalent(
            request::Item::FunctionCall { call_id, name, arguments: x },
            request::Item::FunctionCall { call_id, name, arguments: y },
        ) == (x == y),
{
    let a = request::Item::FunctionCall { call_id, name, arguments: x };
    let b = request::Item::FunctionCall { call_id, name, arguments: y };
    if equivalent(a, b) {
        equivalent_calls_agree(a, b);
    }
}

/// Function calls whose arguments, where they are read, hold no negative zero are
/// equivalent exactly if they have the same identifier and the same name, and their
/// arguments are read as the same JSON value, or are the same text if neither is read.
/// Arguments that are read are the same as others that are not only if the others are
/// their stable text.
pub proof fn calls_compare_by_their_parts(a: request::Item, b: request::Item)
    requires
        a is FunctionCall,
        b is FunctionCall,
        parsed_arguments(a) matches Some(v) ==> json::proper(v) && !json_laws::has_negative_zero(v),
        parsed_arguments(b) matches Some(w) ==> json::proper(w) && !json_laws::has_negative_zero(w),
    ensures
        equivalent(a, b) == (a->FunctionCall_call_id == b->FunctionCall_call_id
            && a->FunctionCall_name == b->FunctionCall_name && match (
            parsed_arguments(a),
            parsed_arguments(b),
        ) {
            (Some(v), Some(w)) => json::same_json(v, w),
            (None, None) => a->FunctionCall_arguments == b->FunctionCall_arguments,
            (Some(v), None) => json::stable_text(v) == b->FunctionCall_arguments,
            (None, Some(w)) => a->FunctionCall_arguments == json::stable_text(w),
        }),
{
    if equivalent(a, b) {
        equivalent_calls_agree(a, b);
    }
    if let (Some(v), Some(w)) = (parsed_arguments(a), parsed_arguments(b)) {
        if json::stable_text(v) == json::stable_text(w) {
            json_text_laws::stable_text_tells_values_apart(v, w);
        }
        if json::same_json(v, w) {
            json_laws::same_values_have_same_stable_text(v, w);
        }
    }
}

/// Calls whose arguments are read, whatever numbers stand in them, are equivalent only
/// if they are read as the same JSON value.
pub proof fn equivalent_calls_have_the_same_arguments(a: request::Item, b: request::Item)
    requires
        a is FunctionCall,
        b is FunctionCall,
        equivalent(a, b),
        parsed_arguments(a) is Some,
        parsed_arguments(b) is Some,
        json::proper(parsed_arguments(a)->0),
        json::proper(parsed_arguments(b)->0),
    ensures
        json::same_json(parsed_arguments(a)->0, parsed_arguments(b)->0),
{
    equivalent_calls_agree(a, b);
    json_text_laws::stable_text_tells_values_apart(
        parsed_arguments(a)->0,
        parsed_arguments(b)->0,
    );
}

/// The name of the kind of an item that has one.
pub open spec fn kind_name(item: request::Item) -> Option<Seq<char>> {
    match item {
        request::Item::Message { .. } => Some("message"@),
        request::Item::FunctionCall { .. } => Some("function_call"@),
        request::Item::FunctionCallOutput { .. } => Some("function_call_output"@),
        request::Item::AdditionalTools { .. } => Some("additional_tools"@),
        request::Item::Compaction { .. } => Some("compaction"@),
        request::Item::CompactionTrigger => Some("compaction_trigger"@),
        request::Item::Other(_) => None,
    }
}

/// A function call is equivalent to no item of another named kind.
pub proof fn calls_differ_from_other_kinds(call: request::Item, other: request::Item)
    requires
        call is FunctionCall,
        !(other is FunctionCall),
        kind_name(other) is Some,
    ensures
        !equivalent(call, other),
        !equivalent(other, call),
{
    reveal_strlit("type");
    reveal_strlit("call_id");
    reveal_strlit("name");
    reveal_strlit("arguments");
    reveal_strlit("message");
    reveal_strlit("function_call");
    reveal_strlit("function_call_output");
    reveal_strlit("additional_tools");
    reveal_strlit("compaction");
    reveal_strlit("compaction_trigger");
    let x = canonical(other)->Object_0;
    let y = canonical(call)->Object_0;
    assert("call_id"@[0] == 'c');
    assert("type"@[0] == 't');
    assert("name"@[0] == 'n');
    assert("arguments"@[0] == 'a');
    assert(json::distinct_names(y));
    assert(x[0] == ("type"@, json::Json::Text(kind_name(other)->0)));
    assert(kind_name(other)->0.len() != "function_call"@.len());
    if equivalent(call, other) || equivalent(other, call) {
        lemma_same_objects_agree(x, y, 0, 0);
    }
}

/// Whether the JSON values in an item are such as can be read.
pub open spec fn proper_item(item: request::Item) -> bool {
    match item {
        request::Item::AdditionalTools { tools, .. } => forall|i: int|
            0 <= i < tools.len() ==> json::proper(#[trigger] tools[i]),
        request::Item::Other(value) => json::proper(value),
        _ => true,
    }
}

proof fn lemma_part_is_proper(part: request::Part)
    ensures
        json::proper(request::part_json(part)),
{
    reveal_strlit("type");
    reveal_strlit("text");
    reveal_strlit("image_url");
    assert("type"@[1] == 'y');
    assert("text"@[1] == 'e');
    assert("image_url"@[1] == 'm');
    let members = request::part_json(part)->Object_0;
    assert(members.len() == 2);
    assert(json::distinct_names(members));
    assert forall|i: int| 0 <= i < members.len() implies json::proper((#[trigger] members[i]).1) by {
        if i == 0 {
            assert(members[0].1 is Text);
        } else {
            assert(members[1].1 is Text);
        }
    }
}

proof fn lemma_parts_are_proper(parts: Seq<request::Part>)
    ensures
        json::proper(request::parts_json(parts)),
{
    let items = request::parts_json(parts)->Array_0;
    assert forall|i: int| 0 <= i < items.len() implies json::proper(#[trigger] items[i]) by {
        lemma_part_is_proper(parts[i]);
    }
}

/// The form in which an item is compared is a value that can be read, if the JSON
/// values in the item are.
pub proof fn canonical_items_are_proper(item: request::Item)
    requires
        proper_item(item),
    ensures
        json::proper(canonical(item)),
{
    reveal_strlit("type");
    reveal_strlit("role");
    reveal_strlit("content");
    reveal_strlit("call_id");
    reveal_strlit("name");
    reveal_strlit("arguments");
    reveal_strlit("output");
    reveal_strlit("tools");
    reveal_strlit("encrypted_content");
    assert("type"@.len() == 4 && "type"@[0] == 't');
    assert("role"@[0] == 'r');
    assert("content"@.len() == 7 && "content"@[0] == 'c');
    assert("call_id"@[0] == 'c');
    assert("name"@[0] == 'n');
    assert("arguments"@[0] == 'a');
    assert("output"@[0] == 'o');
    assert("tools"@.len() == 5);
    assert("encrypted_content"@[0] == 'e');
    match with_arguments(item, parsed_arguments(item)) {
        request::Item::Message { content, .. } => {
            lemma_parts_are_proper(content);
        },
        request::Item::FunctionCallOutput { output, .. } => {
            match output {
                request::CallOutput::Content(parts) => {
                    lemma_parts_are_proper(parts);
                },
                _ => {},
            }
        },
        _ => {},
    }
    if !(item is Other) {
        let members = canonical(item)->Object_0;
        assert(json::distinct_names(members));
        assert forall|i: int| 0 <= i < members.len() implies json::proper(
            (#[trigger] members[i]).1,
        ) by {
            if i == 0 {
                assert(members[0].1 is Text);
            }
        }
    }
}

/// Items with the same stable text in the form in which they are compared are
/// equivalent.
pub proof fn same_texts_mean_equivalent_items(a: request::Item, b: request::Item)
    requires
        proper_item(a),
        proper_item(b),
        json::stable_text(canonical(a)) == json::stable_text(canonical(b)),
    ensures
        equivalent(a, b),
{
    canonical_items_are_proper(a);
    canonical_items_are_proper(b);
    json_text_laws::stable_text_tells_values_apart(canonical(a), canonical(b));
}

/// The signature does not look at the input.
pub proof fn signature_ignores_the_input(a: request::Request, b: request::Request)
    requires
        b == (request::Request { input: b.input, ..a }),
    ensures
        signature(a) == signature(b),
{
}

/// Whether the members of a request but for its input are such as can be read and have
/// names that stand in a JSON text as they are.
pub open spec fn plain_prompt(request: request::Request) -> bool {
    let members = prompt_members(request);
    &&& json::proper(json::Json::Object(members))
    &&& forall|i: int|
        0 <= i < members.len() ==> json::escaped_all((#[trigger] members[i]).0) == members[i].0
}

/// The signature of a request is the stable text of its members but for the input.
proof fn lemma_signature(request: request::Request)
    requires
        plain_prompt(request),
    ensures
        signature(request) == json::stable_text(json::Json::Object(prompt_members(request))),
{
    reveal_strlit("\"");
    reveal_strlit("\":");
    reveal_strlit(":");
    let members = prompt_members(request);
    let text_of = |v: json::Json| json::stable_text(v);
    json_laws::lemma_named_texts_mapped(members);
    json_laws::lemma_sort_mapped(members, text_of);
    json_laws::sorting_orders_and_keeps_entries(members);
    let sorted = json::sort_by_name(json::named_texts(members));
    let short = sorted.map_values(|member: (Seq<char>, Seq<char>)| signature_member(member));
    let full = sorted.map_values(|member: (Seq<char>, Seq<char>)| json::member_text(member));
    assert forall|i: int| 0 <= i < sorted.len() implies short[i] == full[i] by {
        let k = json_text_laws::lemma_sorted_member(members, i);
        assert(sorted[i].0 == members[k].0);
        assert(signature_member(sorted[i]) =~= json::member_text(sorted[i]));
    }
    assert(short =~= full);
}

/// Requests have the same signature exactly if their members but for the input are the
/// same, whatever the order of members inside them, unless a negative zero stands in
/// one of them.
pub proof fn signatures_tell_prompts_apart(a: request::Request, b: request::Request)
    requires
        plain_prompt(a),
        plain_prompt(b),
        !json_laws::has_negative_zero(json::Json::Object(prompt_members(a))),
        !json_laws::has_negative_zero(json::Json::Object(prompt_members(b))),
    ensures
        (signature(a) == signature(b)) == json::same_json(
            json::Json::Object(prompt_members(a)),
            json::Json::Object(prompt_members(b)),
        ),
{
    let x = json::Json::Object(prompt_members(a));
    let y = json::Json::Object(prompt_members(b));
    lemma_signature(a);
    lemma_signature(b);
    if json::same_json(x, y) {
        json_laws::same_values_have_same_stable_text(x, y);
    }
    if signature(a) == signature(b) {
        json_text_laws::stable_text_tells_values_apart(x, y);
    }
}

/// Requests with the same signature have the same members but for the input.
pub proof fn same_signatures_mean_same_prompts(a: request::Request, b: request::Request)
    requires
        plain_prompt(a),
        plain_prompt(b),
        signature(a) == signature(b),
    ensures
        json::same_json(
            json::Json::Object(prompt_members(a)),
            json::Json::Object(prompt_members(b)),
        ),
{
    lemma_signature(a);
    lemma_signature(b);
    json_text_laws::stable_text_tells_values_apart(
        json::Json::Object(prompt_members(a)),
        json::Json::Object(prompt_members(b)),
    );
}

} // verus!
