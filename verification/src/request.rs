//! Requests in the Responses format, who they belong to, and what they look
//! like as JSON.

use crate::json;
use crate::json::JsonValue;
use crate::model;
use crate::model::Duplicate;
use crate::table::Key;
use crate::text;
use vstd::prelude::*;
use vstd::string::*;

verus! {

// ---------------------------------------------------------------------------
// Owners
// ---------------------------------------------------------------------------

/// Who a conversation belongs to, by the texts that say so.
pub enum Identity {
    Main(Seq<char>),
    Agent(Seq<char>, Seq<char>),
}

/// Who a conversation belongs to: a session itself, or one agent of a session.
#[derive(Debug)]
pub enum ConversationIdentity {
    Main(String),
    Agent(String, String),
}

impl View for ConversationIdentity {
    type V = Identity;

    open spec fn view(&self) -> Identity {
        match *self {
            ConversationIdentity::Main(session) => Identity::Main(session@),
            ConversationIdentity::Agent(session, agent) => Identity::Agent(session@, agent@),
        }
    }
}

/// The session that an owner is part of.
pub open spec fn session_of(owner: Identity) -> Seq<char> {
    match owner {
        Identity::Main(session) => session,
        Identity::Agent(session, _) => session,
    }
}

impl Key for ConversationIdentity {
    open spec fn session(key: Identity) -> Seq<char> {
        session_of(key)
    }

    fn same(&self, other: &Self) -> (answer: bool) {
        match (self, other) {
            (ConversationIdentity::Main(a), ConversationIdentity::Main(b)) => text::same_text(
                a.as_str(),
                b.as_str(),
            ),
            (ConversationIdentity::Agent(a, x), ConversationIdentity::Agent(b, y)) => {
                text::same_text(a.as_str(), b.as_str()) && text::same_text(x.as_str(), y.as_str())
            },
            _ => false,
        }
    }

    fn session_of(&self) -> (session: &String) {
        match self {
            ConversationIdentity::Main(session) => session,
            ConversationIdentity::Agent(session, _) => session,
        }
    }
}

impl Duplicate for ConversationIdentity {
    fn duplicate(&self) -> (copy: Self) {
        match self {
            ConversationIdentity::Main(session) => ConversationIdentity::Main(session.clone()),
            ConversationIdentity::Agent(session, agent) => ConversationIdentity::Agent(
                session.clone(),
                agent.clone(),
            ),
        }
    }
}

impl Clone for ConversationIdentity {
    fn clone(&self) -> (copy: Self)
        ensures
            copy@ == self@,
    {
        self.duplicate()
    }
}

impl Key for String {
    open spec fn session(key: Seq<char>) -> Seq<char> {
        key
    }

    fn same(&self, other: &Self) -> (answer: bool) {
        text::same_text(self.as_str(), other.as_str())
    }

    fn session_of(&self) -> (session: &String) {
        self
    }
}

// ---------------------------------------------------------------------------
// Items
// ---------------------------------------------------------------------------

/// A part of a message.
pub enum Part {
    InputText(Seq<char>),
    OutputText(Seq<char>),
    InputImage(Seq<char>),
}

/// What a function call gave back.
pub enum CallOutput {
    Text(Seq<char>),
    Content(Seq<Part>),
}

/// An item of a conversation.
pub enum Item {
    Message { role: Seq<char>, content: Seq<Part> },
    FunctionCall { call_id: Seq<char>, name: Seq<char>, arguments: Seq<char> },
    FunctionCallOutput { call_id: Seq<char>, output: CallOutput },
    AdditionalTools { role: Seq<char>, tools: Seq<json::Json> },
    Compaction { encrypted_content: Seq<char> },
    CompactionTrigger,
    Other(json::Json),
}

/// A part of a message.
#[derive(Debug)]
pub enum ResponsesContentPart {
    InputText { text: String },
    OutputText { text: String },
    InputImage { image_url: String },
}

/// What a function call gave back.
#[derive(Debug)]
pub enum ResponsesFunctionCallOutput {
    Text(String),
    Content(Vec<ResponsesContentPart>),
}

/// An item of a conversation. `Other` is any further kind of item, as the JSON
/// value that it is.
#[derive(Debug)]
pub enum ResponsesInputItem {
    Message { role: String, content: Vec<ResponsesContentPart> },
    FunctionCall { call_id: String, name: String, arguments: String },
    FunctionCallOutput { call_id: String, output: ResponsesFunctionCallOutput },
    AdditionalTools { role: String, tools: Vec<JsonValue> },
    Compaction { encrypted_content: String },
    CompactionTrigger,
    Other(JsonValue),
}

impl View for ResponsesContentPart {
    type V = Part;

    open spec fn view(&self) -> Part {
        match *self {
            ResponsesContentPart::InputText { text } => Part::InputText(text@),
            ResponsesContentPart::OutputText { text } => Part::OutputText(text@),
            ResponsesContentPart::InputImage { image_url } => Part::InputImage(image_url@),
        }
    }
}

impl View for ResponsesFunctionCallOutput {
    type V = CallOutput;

    open spec fn view(&self) -> CallOutput {
        match *self {
            ResponsesFunctionCallOutput::Text(text) => CallOutput::Text(text@),
            ResponsesFunctionCallOutput::Content(parts) => CallOutput::Content(
                model::views(parts@),
            ),
        }
    }
}

impl View for ResponsesInputItem {
    type V = Item;

    open spec fn view(&self) -> Item {
        match *self {
            ResponsesInputItem::Message { role, content } => Item::Message {
                role: role@,
                content: model::views(content@),
            },
            ResponsesInputItem::FunctionCall { call_id, name, arguments } => Item::FunctionCall {
                call_id: call_id@,
                name: name@,
                arguments: arguments@,
            },
            ResponsesInputItem::FunctionCallOutput { call_id, output } => {
                Item::FunctionCallOutput { call_id: call_id@, output: output@ }
            },
            ResponsesInputItem::AdditionalTools { role, tools } => Item::AdditionalTools {
                role: role@,
                tools: model::views(tools@),
            },
            ResponsesInputItem::Compaction { encrypted_content } => Item::Compaction {
                encrypted_content: encrypted_content@,
            },
            ResponsesInputItem::CompactionTrigger => Item::CompactionTrigger,
            ResponsesInputItem::Other(value) => Item::Other(value@),
        }
    }
}

impl Duplicate for JsonValue {
    fn duplicate(&self) -> (copy: Self) {
        self.clone()
    }
}

impl Duplicate for ResponsesContentPart {
    fn duplicate(&self) -> (copy: Self) {
        match self {
            ResponsesContentPart::InputText { text } => ResponsesContentPart::InputText {
                text: text.clone(),
            },
            ResponsesContentPart::OutputText { text } => ResponsesContentPart::OutputText {
                text: text.clone(),
            },
            ResponsesContentPart::InputImage { image_url } => ResponsesContentPart::InputImage {
                image_url: image_url.clone(),
            },
        }
    }
}

impl Duplicate for ResponsesFunctionCallOutput {
    fn duplicate(&self) -> (copy: Self) {
        match self {
            ResponsesFunctionCallOutput::Text(text) => ResponsesFunctionCallOutput::Text(
                text.clone(),
            ),
            ResponsesFunctionCallOutput::Content(parts) => ResponsesFunctionCallOutput::Content(
                model::duplicates(parts.as_slice()),
            ),
        }
    }
}

impl Duplicate for ResponsesInputItem {
    fn duplicate(&self) -> (copy: Self) {
        match self {
            ResponsesInputItem::Message { role, content } => ResponsesInputItem::Message {
                role: role.clone(),
                content: model::duplicates(content.as_slice()),
            },
            ResponsesInputItem::FunctionCall { call_id, name, arguments } => {
                ResponsesInputItem::FunctionCall {
                    call_id: call_id.clone(),
                    name: name.clone(),
                    arguments: arguments.clone(),
                }
            },
            ResponsesInputItem::FunctionCallOutput { call_id, output } => {
                ResponsesInputItem::FunctionCallOutput {
                    call_id: call_id.clone(),
                    output: output.duplicate(),
                }
            },
            ResponsesInputItem::AdditionalTools { role, tools } => {
                ResponsesInputItem::AdditionalTools {
                    role: role.clone(),
                    tools: model::duplicates(tools.as_slice()),
                }
            },
            ResponsesInputItem::Compaction { encrypted_content } => {
                ResponsesInputItem::Compaction { encrypted_content: encrypted_content.clone() }
            },
            ResponsesInputItem::CompactionTrigger => ResponsesInputItem::CompactionTrigger,
            ResponsesInputItem::Other(value) => ResponsesInputItem::Other(value.clone()),
        }
    }
}

impl Clone for ResponsesContentPart {
    fn clone(&self) -> (copy: Self)
        ensures
            copy@ == self@,
    {
        self.duplicate()
    }
}

impl Clone for ResponsesFunctionCallOutput {
    fn clone(&self) -> (copy: Self)
        ensures
            copy@ == self@,
    {
        self.duplicate()
    }
}

impl Clone for ResponsesInputItem {
    fn clone(&self) -> (copy: Self)
        ensures
            copy@ == self@,
    {
        self.duplicate()
    }
}

// ---------------------------------------------------------------------------
// Items as JSON
// ---------------------------------------------------------------------------

/// A part of a message as JSON.
pub open spec fn part_json(part: Part) -> json::Json {
    match part {
        Part::InputText(text) => json::Json::Object(
            seq![
                ("type"@, json::Json::Text("input_text"@)),
                ("text"@, json::Json::Text(text)),
            ],
        ),
        Part::OutputText(text) => json::Json::Object(
            seq![
                ("type"@, json::Json::Text("output_text"@)),
                ("text"@, json::Json::Text(text)),
            ],
        ),
        Part::InputImage(image_url) => json::Json::Object(
            seq![
                ("type"@, json::Json::Text("input_image"@)),
                ("image_url"@, json::Json::Text(image_url)),
            ],
        ),
    }
}

/// The parts of a message as JSON.
pub open spec fn parts_json(parts: Seq<Part>) -> json::Json {
    json::Json::Array(Seq::new(parts.len(), |i: int| part_json(parts[i])))
}

/// What a function call gave back as JSON: a text stands for itself.
pub open spec fn output_json(output: CallOutput) -> json::Json {
    match output {
        CallOutput::Text(text) => json::Json::Text(text),
        CallOutput::Content(parts) => parts_json(parts),
    }
}

/// An item as JSON: an object that says of what type it is.
pub open spec fn item_json(item: Item) -> json::Json {
    match item {
        Item::Message { role, content } => json::Json::Object(
            seq![
                ("type"@, json::Json::Text("message"@)),
                ("role"@, json::Json::Text(role)),
                ("content"@, parts_json(content)),
            ],
        ),
        Item::FunctionCall { call_id, name, arguments } => json::Json::Object(
            seq![
                ("type"@, json::Json::Text("function_call"@)),
                ("call_id"@, json::Json::Text(call_id)),
                ("name"@, json::Json::Text(name)),
                ("arguments"@, json::Json::Text(arguments)),
            ],
        ),
        Item::FunctionCallOutput { call_id, output } => json::Json::Object(
            seq![
                ("type"@, json::Json::Text("function_call_output"@)),
                ("call_id"@, json::Json::Text(call_id)),
                ("output"@, output_json(output)),
            ],
        ),
        Item::AdditionalTools { role, tools } => json::Json::Object(
            seq![
                ("type"@, json::Json::Text("additional_tools"@)),
                ("role"@, json::Json::Text(role)),
                ("tools"@, json::Json::Array(tools)),
            ],
        ),
        Item::Compaction { encrypted_content } => json::Json::Object(
            seq![
                ("type"@, json::Json::Text("compaction"@)),
                ("encrypted_content"@, json::Json::Text(encrypted_content)),
            ],
        ),
        Item::CompactionTrigger => json::Json::Object(
            seq![("type"@, json::Json::Text("compaction_trigger"@))],
        ),
        Item::Other(value) => value,
    }
}

/// Items as one JSON array.
pub open spec fn items_json(items: Seq<Item>) -> json::Json {
    json::Json::Array(Seq::new(items.len(), |i: int| item_json(items[i])))
}

/// A named JSON string.
fn text_member(name: &str, value: &str) -> (member: (String, JsonValue))
    ensures
        member.0@ == name@,
        member.1@ == json::Json::Text(value@),
{
    (name.to_owned(), JsonValue::Text(value.to_owned()))
}

/// An object with the given members.
fn object(members: Vec<(String, JsonValue)>) -> (value: JsonValue)
    ensures
        value@ == json::Json::Object(model::named_views(members@)),
{
    let value: JsonValue = JsonValue::Object(members);
    proof {
        json::lemma_tree_of(value);
    }
    value
}

/// An array with the given elements.
fn array(items: Vec<JsonValue>) -> (value: JsonValue)
    ensures
        value@ == json::Json::Array(model::views(items@)),
{
    let value: JsonValue = JsonValue::Array(items);
    proof {
        json::lemma_tree_of(value);
    }
    value
}

/// A part of a message as JSON.
pub fn part_value(part: &ResponsesContentPart) -> (value: JsonValue)
    ensures
        value@ == part_json(part@),
{
    let mut members: Vec<(String, JsonValue)> = Vec::new();
    match part {
        ResponsesContentPart::InputText { text } => {
            members.push(text_member("type", "input_text"));
            members.push(text_member("text", text.as_str()));
        },
        ResponsesContentPart::OutputText { text } => {
            members.push(text_member("type", "output_text"));
            members.push(text_member("text", text.as_str()));
        },
        ResponsesContentPart::InputImage { image_url } => {
            members.push(text_member("type", "input_image"));
            members.push(text_member("image_url", image_url.as_str()));
        },
    }
    assert(model::named_views(members@) =~= part_json(part@)->Object_0);
    object(members)
}

/// The parts of a message as JSON.
pub fn parts_value(parts: &[ResponsesContentPart]) -> (value: JsonValue)
    ensures
        value@ == parts_json(model::views(parts@)),
{
    let mut values: Vec<JsonValue> = Vec::new();
    let mut i: usize = 0;
    while i < parts.len()
        invariant
            i <= parts@.len(),
            values@.len() == i,
            forall|j: int| 0 <= j < i ==> (#[trigger] values@[j])@ == part_json(parts@[j]@),
        decreases parts@.len() - i,
    {
        values.push(part_value(&parts[i]));
        i = i + 1;
    }
    assert(model::views(values@) =~= parts_json(model::views(parts@))->Array_0);
    array(values)
}

/// An item as JSON.
pub fn item_value(item: &ResponsesInputItem) -> (value: JsonValue)
    ensures
        value@ == item_json(item@),
{
    let mut members: Vec<(String, JsonValue)> = Vec::new();
    match item {
        ResponsesInputItem::Message { role, content } => {
            members.push(text_member("type", "message"));
            members.push(text_member("role", role.as_str()));
            members.push(("content".to_owned(), parts_value(content.as_slice())));
        },
        ResponsesInputItem::FunctionCall { call_id, name, arguments } => {
            members.push(text_member("type", "function_call"));
            members.push(text_member("call_id", call_id.as_str()));
            members.push(text_member("name", name.as_str()));
            members.push(text_member("arguments", arguments.as_str()));
        },
        ResponsesInputItem::FunctionCallOutput { call_id, output } => {
            members.push(text_member("type", "function_call_output"));
            members.push(text_member("call_id", call_id.as_str()));
            let given: JsonValue = match output {
                ResponsesFunctionCallOutput::Text(text) => JsonValue::Text(text.clone()),
                ResponsesFunctionCallOutput::Content(parts) => parts_value(parts.as_slice()),
            };
            members.push(("output".to_owned(), given));
        },
        ResponsesInputItem::AdditionalTools { role, tools } => {
            members.push(text_member("type", "additional_tools"));
            members.push(text_member("role", role.as_str()));
            members.push(("tools".to_owned(), array(model::duplicates(tools.as_slice()))));
        },
        ResponsesInputItem::Compaction { encrypted_content } => {
            members.push(text_member("type", "compaction"));
            members.push(text_member("encrypted_content", encrypted_content.as_str()));
        },
        ResponsesInputItem::CompactionTrigger => {
            members.push(text_member("type", "compaction_trigger"));
        },
        ResponsesInputItem::Other(value) => {
            return value.clone();
        },
    }
    assert(model::named_views(members@) =~= item_json(item@)->Object_0);
    object(members)
}

/// Items as one JSON array.
pub fn items_value(items: &[ResponsesInputItem]) -> (value: JsonValue)
    ensures
        value@ == items_json(model::views(items@)),
{
    let mut values: Vec<JsonValue> = Vec::new();
    let mut i: usize = 0;
    while i < items.len()
        invariant
            i <= items@.len(),
            values@.len() == i,
            forall|j: int| 0 <= j < i ==> (#[trigger] values@[j])@ == item_json(items@[j]@),
        decreases items@.len() - i,
    {
        values.push(item_value(&items[i]));
        i = i + 1;
    }
    assert(model::views(values@) =~= items_json(model::views(items@))->Array_0);
    array(values)
}

/// How many bytes the items take as one JSON text without white space.
pub open spec fn items_bytes(items: Seq<Item>) -> nat {
    text::utf8_len(json::stable_text(items_json(items)))
}

/// How many bytes the items take as one JSON text without white space.
pub fn serialized_size(items: &[ResponsesInputItem]) -> (bytes: usize)
    ensures
        bytes == items_bytes(model::views(items@)),
{
    let value: JsonValue = items_value(items);
    let written: String = json::stable_json(&value);
    text::byte_length(written.as_str())
}

// ---------------------------------------------------------------------------
// Requests
// ---------------------------------------------------------------------------

/// A request. `other` holds the further members that it has, by name.
pub struct Request {
    pub model: Seq<char>,
    pub instructions: Option<Seq<char>>,
    pub input: Seq<Item>,
    pub include_fields: Option<Seq<Seq<char>>>,
    pub context_management: Option<json::Json>,
    pub client_metadata: Option<json::Json>,
    pub other: Seq<(Seq<char>, json::Json)>,
}

/// A request. `other` holds the further members that it has, by name.
#[derive(Debug)]
pub struct ResponsesRequest {
    pub model: String,
    pub instructions: Option<String>,
    pub input: Vec<ResponsesInputItem>,
    pub include_fields: Option<Vec<String>>,
    pub context_management: Option<JsonValue>,
    pub client_metadata: Option<JsonValue>,
    pub other: Vec<(String, JsonValue)>,
}

/// The texts that may be there.
pub open spec fn seen_texts(texts: Option<Vec<String>>) -> Option<Seq<Seq<char>>> {
    match texts {
        Some(t) => Some(model::views(t@)),
        None => None,
    }
}

impl View for ResponsesRequest {
    type V = Request;

    open spec fn view(&self) -> Request {
        Request {
            model: self.model@,
            instructions: model::seen(self.instructions),
            input: model::views(self.input@),
            include_fields: seen_texts(self.include_fields),
            context_management: model::seen(self.context_management),
            client_metadata: model::seen(self.client_metadata),
            other: model::named_views(self.other@),
        }
    }
}

impl Duplicate for ResponsesRequest {
    fn duplicate(&self) -> (copy: Self) {
        let mut copy: ResponsesRequest = self.without_input();
        copy.input = model::duplicates(self.input.as_slice());
        copy
    }
}

impl Clone for ResponsesRequest {
    fn clone(&self) -> (copy: Self)
        ensures
            copy@ == self@,
    {
        self.duplicate()
    }
}

impl ResponsesRequest {
    /// The request with nothing in its input.
    pub fn without_input(&self) -> (copy: Self)
        ensures
            copy@ == (Request { input: Seq::empty(), ..self@ }),
    {
        let mut other: Vec<(String, JsonValue)> = Vec::new();
        let mut i: usize = 0;
        while i < self.other.len()
            invariant
                i <= self.other@.len(),
                other@.len() == i,
                forall|j: int|
                    0 <= j < i ==> (#[trigger] other@[j]).0@ == self.other@[j].0@ && other@[j].1@
                        == self.other@[j].1@,
            decreases self.other@.len() - i,
        {
            let value: JsonValue = self.other[i].1.clone();
            other.push((self.other[i].0.clone(), value));
            i = i + 1;
        }
        assert(model::named_views(other@) =~= model::named_views(self.other@));
        let include_fields: Option<Vec<String>> = match &self.include_fields {
            Some(texts) => Some(model::duplicates(texts.as_slice())),
            None => None,
        };
        let copy: ResponsesRequest = ResponsesRequest {
            model: self.model.clone(),
            instructions: model::duplicate_option(&self.instructions),
            input: Vec::new(),
            include_fields,
            context_management: model::duplicate_option(&self.context_management),
            client_metadata: model::duplicate_option(&self.client_metadata),
            other,
        };
        assert(model::views(copy.input@) =~= Seq::<Item>::empty());
        copy
    }
}

} // verus!
