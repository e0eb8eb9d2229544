//! What the models of values show of them.

use crate::continuation;
use crate::json;
use crate::request;
use crate::table::Key;
use vstd::prelude::*;

verus! {

/// A JSON value is seen whole: its kind, what it says, and each element or member in its
/// place.
pub proof fn values_are_seen_whole(value: json::JsonValue, i: int)
    ensures
        match value {
            json::JsonValue::Null => value@ == json::Json::Null,
            json::JsonValue::Bool(b) => value@ == json::Json::Bool(b),
            json::JsonValue::Number(t) => value@ == json::Json::Number(t@),
            json::JsonValue::Text(t) => value@ == json::Json::Text(t@),
            json::JsonValue::Array(items) => value@ is Array && value@->Array_0.len() == items@.len()
                && (0 <= i < items@.len() ==> value@->Array_0[i] == items@[i]@),
            json::JsonValue::Object(members) => value@ is Object && value@->Object_0.len()
                == members@.len() && (0 <= i < members@.len() ==> value@->Object_0[i] == (
                members@[i].0@,
                members@[i].1@,
            )),
        },
{
}

/// A part of a message is seen with its kind and its text.
pub proof fn parts_are_seen_whole(part: request::ResponsesContentPart)
    ensures
        match part {
            request::ResponsesContentPart::InputText { text } => part@ == request::Part::InputText(
                text@,
            ),
            request::ResponsesContentPart::OutputText { text } => part@
                == request::Part::OutputText(text@),
            request::ResponsesContentPart::InputImage { image_url } => part@
                == request::Part::InputImage(image_url@),
        },
{
}

/// An item is seen whole: its kind, and everything that it says, each part of it in its
/// place.
pub proof fn items_are_seen_whole(item: request::ResponsesInputItem)
    ensures
        match item {
            request::ResponsesInputItem::Message { role, content } => item@
                == request::Item::Message {
                role: role@,
                content: Seq::new(content@.len(), |i: int| content@[i]@),
            },
            request::ResponsesInputItem::FunctionCall { call_id, name, arguments } => item@
                == request::Item::FunctionCall {
                call_id: call_id@,
                name: name@,
                arguments: arguments@,
            },
            request::ResponsesInputItem::FunctionCallOutput {
                call_id,
                output: request::ResponsesFunctionCallOutput::Text(text),
            } => item@ == request::Item::FunctionCallOutput {
                call_id: call_id@,
                output: request::CallOutput::Text(text@),
            },
            request::ResponsesInputItem::FunctionCallOutput {
                call_id,
                output: request::ResponsesFunctionCallOutput::Content(parts),
            } => item@ == request::Item::FunctionCallOutput {
                call_id: call_id@,
                output: request::CallOutput::Content(
                    Seq::new(parts@.len(), |i: int| parts@[i]@),
                ),
            },
            request::ResponsesInputItem::AdditionalTools { role, tools } => item@
                == request::Item::AdditionalTools {
                role: role@,
                tools: Seq::new(tools@.len(), |i: int| tools@[i]@),
            },
            request::ResponsesInputItem::Compaction { encrypted_content } => item@
                == request::Item::Compaction { encrypted_content: encrypted_content@ },
            request::ResponsesInputItem::CompactionTrigger => item@
                == request::Item::CompactionTrigger,
            request::ResponsesInputItem::Other(value) => item@ == request::Item::Other(value@),
        },
{
}

/// A request is seen whole.
pub proof fn requests_are_seen_whole(body: request::ResponsesRequest)
    ensures
        body@.model == body.model@,
        body@.instructions == match body.instructions {
            Some(t) => Some(t@),
            None => None,
        },
        body@.input == Seq::new(body.input@.len(), |i: int| body.input@[i]@),
        body@.include_fields == match body.include_fields {
            Some(names) => Some(Seq::new(names@.len(), |i: int| names@[i]@)),
            None => None,
        },
        body@.context_management == match body.context_management {
            Some(value) => Some(value@),
            None => None,
        },
        body@.client_metadata == match body.client_metadata {
            Some(value) => Some(value@),
            None => None,
        },
        body@.other == Seq::new(
            body.other@.len(),
            |i: int| (body.other@[i].0@, body.other@[i].1@),
        ),
{
}

/// The agents of a session belong to it as the session itself does, and are told apart
/// from it and from each other.
pub proof fn agents_belong_to_their_session(
    session: String,
    agent: String,
    other_session: String,
    other_agent: String,
)
    ensures
        request::ConversationIdentity::Main(session)@ == request::Identity::Main(session@),
        request::ConversationIdentity::Agent(session, agent)@ == request::Identity::Agent(
            session@,
            agent@,
        ),
        <request::ConversationIdentity as Key>::session(request::Identity::Main(session@))
            == session@,
        <request::ConversationIdentity as Key>::session(
            request::Identity::Agent(session@, agent@),
        ) == session@,
        <String as Key>::session(session@) == session@,
        continuation::session_owner(Some(session@)) == Some(request::Identity::Main(session@)),
        continuation::session_owner(None) is None,
        request::ConversationIdentity::Main(session)@ != request::ConversationIdentity::Agent(
            other_session,
            other_agent,
        )@,
        request::ConversationIdentity::Agent(session, agent)@
            == request::ConversationIdentity::Agent(other_session, other_agent)@ <==> session@
            == other_session@ && agent@ == other_agent@,
{
}

/// What a turn may continue is seen whole.
pub proof fn candidates_are_seen_whole(candidate: continuation::ContinuationCandidate)
    ensures
        candidate@.turn_id == candidate.turn_id,
        candidate@.previous_response_id == match candidate.previous_response_id {
            Some(id) => Some(id@),
            None => None,
        },
        candidate@.input_delta == match candidate.input_delta {
            Some(items) => Some(Seq::new(items@.len(), |i: int| items@[i]@)),
            None => None,
        },
        candidate@.input_delta_count == candidate.input_delta_count,
        candidate@.disabled_reason == match candidate.disabled_reason {
            Some(reason) => Some(reason@),
            None => None,
        },
{
}

} // verus!
