//! What it takes for two items to be equivalent, said of what the items carry.

use crate::canonical;
use crate::json;
use crate::json_laws;
use crate::outside;
use crate::request;
use vstd::prelude::*;
use vstd::string::*;

verus! {

/// Parts of messages have the same JSON form only if they are the same: of the same
/// kind, with the same text or the same image.
pub proof fn parts_compare_whole(p: request::Part, q: request::Part)
    ensures
        json::same_json(request::part_json(p), request::part_json(q)) == (p == q),
{
    if json::same_json(request::part_json(p), request::part_json(q)) {
        reveal_strlit("type");
        reveal_strlit("text");
        reveal_strlit("image_url");
        reveal_strlit("input_text");
        reveal_strlit("output_text");
        reveal_strlit("input_image");
        assert("type"@[1] == 'y');
        assert("text"@[1] == 'e');
        assert("image_url"@[1] == 'm');
        assert("input_text"@.len() == 10);
        assert("output_text"@.len() == 11 && "output_text"@[0] == 'o');
        assert("input_image"@.len() == 11 && "input_image"@[0] == 'i');
        let x = request::part_json(p)->Object_0;
        let y = request::part_json(q)->Object_0;
        assert(x[0].0 == "type"@ && y[0].0 == "type"@);
        assert(json::distinct_names(y));
        canonical::lemma_same_objects_agree(x, y, 0, 0);
        json_laws::plain_values_compare_whole(
            true,
            true,
            x[0].1->Text_0,
            y[0].1->Text_0,
            "0"@,
            "0"@,
        );
        canonical::lemma_same_objects_agree(x, y, 1, 1);
    }
}

/// Contents have the same JSON form only if they have the same parts in the same order.
pub proof fn contents_compare_whole(a: Seq<request::Part>, b: Seq<request::Part>)
    ensures
        json::same_json(request::parts_json(a), request::parts_json(b)) == (a == b),
{
    let x = request::parts_json(a)->Array_0;
    let y = request::parts_json(b)->Array_0;
    json_laws::arrays_compare_by_their_elements(x, y);
    if json::same_json(request::parts_json(a), request::parts_json(b)) {
        assert forall|i: int| 0 <= i < a.len() implies a[i] == b[i] by {
            assert(json::same_json(x[i], y[i]));
            parts_compare_whole(a[i], b[i]);
        }
        assert(a =~= b);
    }
}

/// Results of calls have the same JSON form only if they are the same text, or the same
/// parts in the same order.
pub proof fn results_compare_whole(a: request::CallOutput, b: request::CallOutput)
    ensures
        json::same_json(request::output_json(a), request::output_json(b)) == (a == b),
{
    if json::same_json(request::output_json(a), request::output_json(b)) {
        json_laws::kinds_of_values_differ(request::output_json(a), request::output_json(b));
        match (a, b) {
            (request::CallOutput::Text(s), request::CallOutput::Text(t)) => {
                json_laws::plain_values_compare_whole(true, true, s, t, s, t);
            },
            (request::CallOutput::Content(p), request::CallOutput::Content(q)) => {
                contents_compare_whole(p, q);
            },
            _ => {},
        }
    }
}

/// Messages are equivalent exactly if they have the same role and the same content.
pub proof fn messages_compare_whole(
    role: Seq<char>,
    content: Seq<request::Part>,
    other_role: Seq<char>,
    other_content: Seq<request::Part>,
)
    ensures
        canonical::equivalent(
            request::Item::Message { role, content },
            request::Item::Message { role: other_role, content: other_content },
        ) == (role == other_role && content == other_content),
{
    let a = request::Item::Message { role, content };
    let b = request::Item::Message { role: other_role, content: other_content };
    if canonical::equivalent(a, b) {
        lemma_third_members(a, b);
        contents_compare_whole(content, other_content);
    }
}

/// Results of calls are equivalent exactly if they are of the same call and say the
/// same: the same text, or the same parts in the same order.
pub proof fn call_results_compare_whole(
    call_id: Seq<char>,
    output: request::CallOutput,
    other_call_id: Seq<char>,
    other_output: request::CallOutput,
)
    ensures
        canonical::equivalent(
            request::Item::FunctionCallOutput { call_id, output },
            request::Item::FunctionCallOutput { call_id: other_call_id, output: other_output },
        ) == (call_id == other_call_id && output == other_output),
{
    let a = request::Item::FunctionCallOutput { call_id, output };
    let b = request::Item::FunctionCallOutput { call_id: other_call_id, output: other_output };
    if canonical::equivalent(a, b) {
        lemma_third_members(a, b);
        results_compare_whole(output, other_output);
    }
}

/// Tools are equivalent exactly if they have the same role and the same tools, each the
/// same JSON value, in the same order.
pub proof fn tools_compare_whole(
    role: Seq<char>,
    tools: Seq<json::Json>,
    other_role: Seq<char>,
    other_tools: Seq<json::Json>,
)
    ensures
        canonical::equivalent(
            request::Item::AdditionalTools { role, tools },
            request::Item::AdditionalTools { role: other_role, tools: other_tools },
        ) == (role == other_role && tools.len() == other_tools.len() && forall|i: int|
            0 <= i < tools.len() ==> json::same_json(#[trigger] tools[i], other_tools[i])),
{
    let a = request::Item::AdditionalTools { role, tools };
    let b = request::Item::AdditionalTools { role: other_role, tools: other_tools };
    json_laws::arrays_compare_by_their_elements(tools, other_tools);
    if canonical::equivalent(a, b) {
        lemma_third_members(a, b);
    } else if role == other_role && json::same_json(
        json::Json::Array(tools),
        json::Json::Array(other_tools),
    ) {
        let x = canonical::canonical(a)->Object_0;
        let y = canonical::canonical(b)->Object_0;
        lemma_three_names(a);
        lemma_three_names(b);
        assert(json_laws::same_member(x[0], y[0]));
        assert(json_laws::same_member(x[1], y[1]));
        assert(json_laws::same_member(x[2], y[2]));
        assert forall|i: int| 0 <= i < x.len() implies exists|j: int|
            0 <= j < y.len() && json_laws::same_member(#[trigger] x[i], #[trigger] y[j]) by {
            assert(json_laws::same_member(x[i], y[i]));
        }
        json_laws::objects_with_the_same_members_are_the_same(x, y);
    }
}

/// Compaction items are equivalent exactly if they have the same content.
pub proof fn compaction_items_compare_whole(content: Seq<char>, other: Seq<char>)
    ensures
        canonical::equivalent(
            request::Item::Compaction { encrypted_content: content },
            request::Item::Compaction { encrypted_content: other },
        ) == (content == other),
        canonical::equivalent(request::Item::CompactionTrigger, request::Item::CompactionTrigger),
{
    let a = request::Item::Compaction { encrypted_content: content };
    let b = request::Item::Compaction { encrypted_content: other };
    if canonical::equivalent(a, b) {
        reveal_strlit("type");
        reveal_strlit("encrypted_content");
        assert("type"@.len() == 4);
        assert("encrypted_content"@.len() == 17);
        let x = canonical::canonical(a)->Object_0;
        let y = canonical::canonical(b)->Object_0;
        assert(json::distinct_names(y));
        canonical::lemma_same_objects_agree(x, y, 1, 1);
    }
}

/// Items of a kind without a name of its own are equivalent exactly if they are the same
/// JSON value.
pub proof fn other_items_compare_as_json(a: json::Json, b: json::Json)
    ensures
        canonical::equivalent(request::Item::Other(a), request::Item::Other(b)) == json::same_json(
            a,
            b,
        ),
{
}

/// Items of different named kinds are never equivalent.
pub proof fn kinds_of_items_differ(a: request::Item, b: request::Item)
    requires
        canonical::equivalent(a, b),
        !(a is Other),
        !(b is Other),
    ensures
        (a is Message) == (b is Message),
        (a is FunctionCall) == (b is FunctionCall),
        (a is FunctionCallOutput) == (b is FunctionCallOutput),
        (a is AdditionalTools) == (b is AdditionalTools),
        (a is Compaction) == (b is Compaction),
        (a is CompactionTrigger) == (b is CompactionTrigger),
{
    reveal_strlit("type");
    reveal_strlit("role");
    reveal_strlit("content");
    reveal_strlit("call_id");
    reveal_strlit("name");
    reveal_strlit("arguments");
    reveal_strlit("output");
    reveal_strlit("tools");
    reveal_strlit("encrypted_content");
    reveal_strlit("message");
    reveal_strlit("function_call");
    reveal_strlit("function_call_output");
    reveal_strlit("additional_tools");
    reveal_strlit("compaction");
    reveal_strlit("compaction_trigger");
    assert("type"@.len() == 4 && "type"@[0] == 't');
    assert("role"@[0] == 'r');
    assert("content"@.len() == 7 && "content"@[0] == 'c' && "content"@[1] == 'o');
    assert("call_id"@[0] == 'c' && "call_id"@[1] == 'a');
    assert("name"@[0] == 'n');
    assert("arguments"@[0] == 'a');
    assert("output"@[0] == 'o');
    assert("tools"@.len() == 5);
    assert("encrypted_content"@[0] == 'e');
    assert("message"@.len() == 7);
    assert("function_call"@.len() == 13);
    assert("function_call_output"@.len() == 20);
    assert("additional_tools"@.len() == 16);
    assert("compaction"@.len() == 10);
    assert("compaction_trigger"@.len() == 18);
    let x = canonical::canonical(a)->Object_0;
    let y = canonical::canonical(b)->Object_0;
    assert(json::distinct_names(y));
    assert(x[0].0 == "type"@ && y[0].0 == "type"@);
    canonical::lemma_same_objects_agree(x, y, 0, 0);
    assert(x[0].1 is Text && y[0].1 is Text);
    assert(x[0].1->Text_0.len() == y[0].1->Text_0.len());
}

proof fn lemma_three_names(item: request::Item)
    requires
        item is Message || item is FunctionCallOutput || item is AdditionalTools,
    ensures
        json::distinct_names(canonical::canonical(item)->Object_0),
        canonical::canonical(item)->Object_0.len() == 3,
{
    reveal_strlit("type");
    reveal_strlit("role");
    reveal_strlit("content");
    reveal_strlit("call_id");
    reveal_strlit("output");
    reveal_strlit("tools");
    assert("type"@.len() == 4 && "type"@[0] == 't');
    assert("role"@[0] == 'r');
    assert("content"@[0] == 'c');
    assert("call_id"@[0] == 'c');
    assert("output"@[0] == 'o');
    assert("tools"@.len() == 5 && "tools"@[0] == 't');
}

/// Equivalent items of one of the kinds with three members agree in the second and the
/// third.
proof fn lemma_third_members(a: request::Item, b: request::Item)
    requires
        (a is Message && b is Message) || (a is FunctionCallOutput && b is FunctionCallOutput) || (a
            is AdditionalTools && b is AdditionalTools),
        canonical::equivalent(a, b),
    ensures
        json::same_json(
            canonical::canonical(a)->Object_0[1].1,
            canonical::canonical(b)->Object_0[1].1,
        ),
        json::same_json(
            canonical::canonical(a)->Object_0[2].1,
            canonical::canonical(b)->Object_0[2].1,
        ),
{
    let x = canonical::canonical(a)->Object_0;
    let y = canonical::canonical(b)->Object_0;
    lemma_three_names(a);
    lemma_three_names(b);
    canonical::lemma_same_objects_agree(x, y, 1, 1);
    canonical::lemma_same_objects_agree(x, y, 2, 2);
}

/// Function calls whose arguments are read as JSON and hold no negative zero are
/// equivalent exactly if they have the same identifier, the same name and the same JSON
/// value for their arguments; calls whose arguments are not read, exactly if they are
/// the same call.
pub proof fn calls_compare_whole(
    call_id: Seq<char>,
    name: Seq<char>,
    arguments: Seq<char>,
    other_call_id: Seq<char>,
    other_name: Seq<char>,
    other_arguments: Seq<char>,
)
    requires
        outside::parsed_json(arguments) matches Some(v) ==> json::proper(v)
            && !json_laws::has_negative_zero(v),
        outside::parsed_json(other_arguments) matches Some(v) ==> json::proper(v)
            && !json_laws::has_negative_zero(v),
        outside::parsed_json(arguments) is Some == outside::parsed_json(other_arguments) is Some,
    ensures
        canonical::equivalent(
            request::Item::FunctionCall { call_id, name, arguments },
            request::Item::FunctionCall {
                call_id: other_call_id,
                name: other_name,
                arguments: other_arguments,
            },
        ) == (call_id == other_call_id && name == other_name && if outside::parsed_json(
            arguments,
        ) is Some {
            json::same_json(
                outside::parsed_json(arguments)->0,
                outside::parsed_json(other_arguments)->0,
            )
        } else {
            arguments == other_arguments
        }),
{
    canonical::calls_compare_by_their_parts(
        request::Item::FunctionCall { call_id, name, arguments },
        request::Item::FunctionCall {
            call_id: other_call_id,
            name: other_name,
            arguments: other_arguments,
        },
    );
}

/// Whether an item is given by plain texts alone: all that it carries are texts and
/// images.
pub open spec fn textual(item: request::Item) -> bool {
    item is Message || item is FunctionCallOutput || item is Compaction
        || item is CompactionTrigger
}

/// Messages, results of calls and compaction items are equivalent to nothing of a named
/// kind but themselves.
pub proof fn textual_items_compare_whole(a: request::Item, b: request::Item)
    requires
        textual(a),
        !(b is Other),
    ensures
        canonical::equivalent(a, b) == (a == b),
        canonical::equivalent(b, a) == (a == b),
{
    if canonical::equivalent(a, b) || canonical::equivalent(b, a) {
        canonical::equivalence_is_an_equivalence_relation(a, b, a);
        canonical::equivalence_is_an_equivalence_relation(b, a, b);
        kinds_of_items_differ(a, b);
        match (a, b) {
            (
                request::Item::Message { role, content },
                request::Item::Message { role: r, content: c },
            ) => {
                messages_compare_whole(role, content, r, c);
            },
            (
                request::Item::FunctionCallOutput { call_id, output },
                request::Item::FunctionCallOutput { call_id: i, output: o },
            ) => {
                call_results_compare_whole(call_id, output, i, o);
            },
            (
                request::Item::Compaction { encrypted_content },
                request::Item::Compaction { encrypted_content: e },
            ) => {
                compaction_items_compare_whole(encrypted_content, e);
            },
            _ => {},
        }
    }
}

/// Items of named kinds with the same JSON form are the same item.
pub proof fn named_items_have_their_own_json(a: request::Item, b: request::Item)
    requires
        !(a is Other),
        !(b is Other),
        request::item_json(a) == request::item_json(b),
    ensures
        a == b,
{
    reveal_strlit("message");
    reveal_strlit("function_call");
    reveal_strlit("function_call_output");
    reveal_strlit("additional_tools");
    reveal_strlit("compaction");
    reveal_strlit("compaction_trigger");
    assert("message"@.len() == 7);
    assert("function_call"@.len() == 13);
    assert("function_call_output"@.len() == 20);
    assert("additional_tools"@.len() == 16);
    assert("compaction"@.len() == 10);
    assert("compaction_trigger"@.len() == 18);
    let x = request::item_json(a)->Object_0;
    let y = request::item_json(b)->Object_0;
    assert(x == y);
    assert(x[0].1->Text_0.len() == y[0].1->Text_0.len());
    match (a, b) {
        (request::Item::Message { content, .. }, request::Item::Message { content: c, .. }) => {
            assert(x[1].1 == y[1].1);
            assert(x[2].1 == y[2].1);
            contents_compare_whole(content, c);
        },
        (
            request::Item::FunctionCallOutput { output, .. },
            request::Item::FunctionCallOutput { output: o, .. },
        ) => {
            assert(x[1].1 == y[1].1);
            assert(x[2].1 == y[2].1);
            results_compare_whole(output, o);
        },
        (request::Item::FunctionCall { .. }, request::Item::FunctionCall { .. }) => {
            assert(x[1].1 == y[1].1);
            assert(x[2].1 == y[2].1);
            assert(x[3].1 == y[3].1);
        },
        (request::Item::AdditionalTools { .. }, request::Item::AdditionalTools { .. }) => {
            assert(x[1].1 == y[1].1);
            assert(x[2].1 == y[2].1);
        },
        (request::Item::Compaction { .. }, request::Item::Compaction { .. }) => {
            assert(x[1].1 == y[1].1);
        },
        _ => {},
    }
}

proof fn lemma_member_names_differ()
    ensures
        "type"@ != "text"@,
        "type"@ != "image_url"@,
        "type"@ != "role"@,
        "type"@ != "content"@,
        "type"@ != "call_id"@,
        "type"@ != "name"@,
        "type"@ != "arguments"@,
        "type"@ != "output"@,
        "type"@ != "tools"@,
        "type"@ != "encrypted_content"@,
        "role"@ != "content"@,
        "role"@ != "tools"@,
        "call_id"@ != "name"@,
        "call_id"@ != "arguments"@,
        "call_id"@ != "output"@,
        "name"@ != "arguments"@,
{
    reveal_strlit("type");
    reveal_strlit("text");
    reveal_strlit("image_url");
    reveal_strlit("role");
    reveal_strlit("content");
    reveal_strlit("call_id");
    reveal_strlit("name");
    reveal_strlit("arguments");
    reveal_strlit("output");
    reveal_strlit("tools");
    reveal_strlit("encrypted_content");
    assert("type"@.len() == 4 && "type"@[0] == 't' && "type"@[1] == 'y');
    assert("text"@[1] == 'e');
    assert("image_url"@.len() == 9);
    assert("role"@.len() == 4 && "role"@[0] == 'r');
    assert("content"@.len() == 7);
    assert("call_id"@.len() == 7);
    assert("name"@.len() == 4 && "name"@[0] == 'n');
    assert("arguments"@.len() == 9);
    assert("output"@.len() == 6);
    assert("tools"@.len() == 5);
    assert("encrypted_content"@.len() == 17);
}

/// A part of a message says as JSON of which type it is, and its text or the address of
/// its image.
pub proof fn parts_say_what_they_are(part: request::Part)
    ensures
        ({
            let told = request::part_json(part);
            match part {
                request::Part::InputText(text) => json::member(told, "type"@) == Some(
                    json::Json::Text("input_text"@),
                ) && json::member(told, "text"@) == Some(json::Json::Text(text)),
                request::Part::OutputText(text) => json::member(told, "type"@) == Some(
                    json::Json::Text("output_text"@),
                ) && json::member(told, "text"@) == Some(json::Json::Text(text)),
                request::Part::InputImage(url) => json::member(told, "type"@) == Some(
                    json::Json::Text("input_image"@),
                ) && json::member(told, "image_url"@) == Some(json::Json::Text(url)),
            }
        }),
{
    lemma_member_names_differ();
    let members = request::part_json(part)->Object_0;
    assert(json::distinct_names(members));
    json_laws::every_member_is_found(members, 0);
    json_laws::every_member_is_found(members, 1);
}

/// An item says as JSON of which type it is, and everything that it holds under the name
/// for it. An item of a further kind is the JSON that it holds.
pub proof fn items_say_what_they_are(item: request::Item)
    ensures
        ({
            let told = request::item_json(item);
            match item {
                request::Item::Message { role, content } => {
                    &&& json::member(told, "type"@) == Some(json::Json::Text("message"@))
                    &&& json::member(told, "role"@) == Some(json::Json::Text(role))
                    &&& json::member(told, "content"@) == Some(
                        json::Json::Array(
                            Seq::new(content.len(), |i: int| request::part_json(content[i])),
                        ),
                    )
                },
                request::Item::FunctionCall { call_id, name, arguments } => {
                    &&& json::member(told, "type"@) == Some(json::Json::Text("function_call"@))
                    &&& json::member(told, "call_id"@) == Some(json::Json::Text(call_id))
                    &&& json::member(told, "name"@) == Some(json::Json::Text(name))
                    &&& json::member(told, "arguments"@) == Some(json::Json::Text(arguments))
                },
                request::Item::FunctionCallOutput { call_id, output } => {
                    &&& json::member(told, "type"@) == Some(
                        json::Json::Text("function_call_output"@),
                    )
                    &&& json::member(told, "call_id"@) == Some(json::Json::Text(call_id))
                    &&& json::member(told, "output"@) == Some(
                        match output {
                            request::CallOutput::Text(text) => json::Json::Text(text),
                            request::CallOutput::Content(parts) => json::Json::Array(
                                Seq::new(parts.len(), |i: int| request::part_json(parts[i])),
                            ),
                        },
                    )
                },
                request::Item::AdditionalTools { role, tools } => {
                    &&& json::member(told, "type"@) == Some(json::Json::Text("additional_tools"@))
                    &&& json::member(told, "role"@) == Some(json::Json::Text(role))
                    &&& json::member(told, "tools"@) == Some(json::Json::Array(tools))
                },
                request::Item::Compaction { encrypted_content } => {
                    &&& json::member(told, "type"@) == Some(json::Json::Text("compaction"@))
                    &&& json::member(told, "encrypted_content"@) == Some(
                        json::Json::Text(encrypted_content),
                    )
                },
                request::Item::CompactionTrigger => json::member(told, "type"@) == Some(
                    json::Json::Text("compaction_trigger"@),
                ),
                request::Item::Other(value) => told == value,
            }
        }),
{
    lemma_member_names_differ();
    if !(item is Other) {
        let members = request::item_json(item)->Object_0;
        assert(json::distinct_names(members));
        json_laws::every_member_is_found(members, 0);
        if members.len() > 1 {
            json_laws::every_member_is_found(members, 1);
        }
        if members.len() > 2 {
            json_laws::every_member_is_found(members, 2);
        }
        if members.len() > 3 {
            json_laws::every_member_is_found(members, 3);
        }
    }
}

} // verus!
