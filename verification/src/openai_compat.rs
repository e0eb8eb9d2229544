//! What the OpenAI-compatible routes share: their limits and their errors.

use crate::json;
use crate::json::JsonValue;
use crate::model;
use crate::outside;
use vstd::prelude::*;
use vstd::string::*;
use vstd::utf8::*;

verus! {

/// How many bytes the body of a request may take. Sessions with many screenshots
/// need tens of mebibytes.
pub const MAX_OPENAI_REQUEST_BYTES: usize = 64 * 1024 * 1024;

/// How many bytes the stream of a provider may take.
pub const MAX_PROVIDER_STREAM_BYTES: usize = 32 * 1024 * 1024;

/// How many bytes one event of a stream may take.
pub const MAX_SSE_EVENT_BYTES: usize = 2 * 1024 * 1024;

/// An OpenAI-compatible route.
#[derive(Debug, Clone, Copy, PartialEq, Eq, Structural)]
pub enum OpenAiSurface {
    ChatCompletions,
    Responses,
}

impl OpenAiSurface {
    /// The name of the route.
    pub open spec fn name(self) -> Seq<char> {
        match self {
            OpenAiSurface::ChatCompletions => "chat_completions"@,
            OpenAiSurface::Responses => "responses"@,
        }
    }

    /// The name of the route.
    pub fn label(self) -> (label: &'static str)
        ensures
            label@ == self.name(),
    {
        match self {
            OpenAiSurface::ChatCompletions => "chat_completions",
            OpenAiSurface::Responses => "responses",
        }
    }
}

/// What a response says of the tools of its request.
#[derive(Debug)]
pub struct OpenAiResponseMetadata {
    pub tools: Vec<JsonValue>,
    pub tool_choice: JsonValue,
}

impl Default for OpenAiResponseMetadata {
    /// No tools, to be chosen from at will.
    fn default() -> (metadata: Self)
        ensures
            metadata.tools@.len() == 0,
            metadata.tool_choice@ == json::Json::Text("auto"@),
    {
        OpenAiResponseMetadata {
            tools: Vec::new(),
            tool_choice: JsonValue::Text("auto".to_owned()),
        }
    }
}

impl Clone for OpenAiResponseMetadata {
    fn clone(&self) -> (copy: Self)
        ensures
            model::views(copy.tools@) == model::views(self.tools@),
            copy.tool_choice@ == self.tool_choice@,
    {
        OpenAiResponseMetadata {
            tools: model::duplicates(self.tools.as_slice()),
            tool_choice: self.tool_choice.clone(),
        }
    }
}

// ---------------------------------------------------------------------------
// Errors
// ---------------------------------------------------------------------------

/// What kind of error a provider reports.
#[derive(Debug, Clone, Copy, PartialEq, Eq, Structural)]
pub enum ProviderErrorKind {
    Authentication,
    Permission,
    RateLimit,
    InvalidRequest,
    Api,
}

impl ProviderErrorKind {
    /// The name of the kind.
    pub open spec fn name(self) -> Seq<char> {
        match self {
            ProviderErrorKind::Authentication => "authentication_error"@,
            ProviderErrorKind::Permission => "permission_error"@,
            ProviderErrorKind::RateLimit => "rate_limit_error"@,
            ProviderErrorKind::InvalidRequest => "invalid_request_error"@,
            ProviderErrorKind::Api => "api_error"@,
        }
    }

    /// The name of the kind.
    pub fn as_str(self) -> (name: &'static str)
        ensures
            name@ == self.name(),
    {
        match self {
            ProviderErrorKind::Authentication => "authentication_error",
            ProviderErrorKind::Permission => "permission_error",
            ProviderErrorKind::RateLimit => "rate_limit_error",
            ProviderErrorKind::InvalidRequest => "invalid_request_error",
            ProviderErrorKind::Api => "api_error",
        }
    }
}

/// The status of an HTTP response: a number of three digits.
#[derive(Debug, Clone, Copy, PartialEq, Eq)]
pub struct Status {
    code: u16,
}

impl View for Status {
    type V = u16;

    closed spec fn view(&self) -> u16 {
        self.code
    }
}

/// Whether a number is the status of an HTTP response.
pub open spec fn status_code(code: u16) -> bool {
    100 <= code <= 999
}

impl Status {
    #[verifier::type_invariant]
    spec fn in_range(self) -> bool {
        status_code(self.code)
    }

    /// The status with a number, where it has three digits.
    pub fn new(code: u16) -> (made: Option<Self>)
        ensures
            match made {
                Some(status) => status_code(code) && status@ == code,
                None => !status_code(code),
            },
    {
        if 100 <= code && code <= 999 {
            Some(Status { code })
        } else {
            None
        }
    }

    /// The number of the status.
    pub fn code(self) -> (code: u16)
        ensures
            code == self@,
            status_code(code),
    {
        proof {
            use_type_invariant(self);
        }
        self.code
    }
}

/// An error that a provider reports.
#[derive(Debug)]
pub struct ProviderError {
    pub kind: ProviderErrorKind,
    pub status: Status,
    pub message: String,
    pub param: Option<String>,
    pub code: Option<String>,
    pub retry_after: Option<String>,
}

/// An error, by what it says.
pub struct ErrorModel {
    pub status: u16,
    pub kind: Seq<char>,
    pub message: Seq<char>,
    pub param: Option<Seq<char>>,
    pub code: Option<Seq<char>>,
    pub retry_after: Option<Seq<char>>,
}

/// An error as an OpenAI-compatible route reports it.
#[derive(Debug)]
pub struct OpenAiError {
    pub status: Status,
    pub kind: String,
    pub message: String,
    pub param: Option<String>,
    pub code: Option<String>,
    pub retry_after: Option<String>,
}

impl View for OpenAiError {
    type V = ErrorModel;

    open spec fn view(&self) -> ErrorModel {
        ErrorModel {
            status: self.status@,
            kind: self.kind@,
            message: self.message@,
            param: model::seen(self.param),
            code: model::seen(self.code),
            retry_after: model::seen(self.retry_after),
        }
    }
}

impl Clone for OpenAiError {
    fn clone(&self) -> (copy: Self)
        ensures
            copy@ == self@,
    {
        OpenAiError {
            status: self.status,
            kind: self.kind.clone(),
            message: self.message.clone(),
            param: model::duplicate_option(&self.param),
            code: model::duplicate_option(&self.code),
            retry_after: model::duplicate_option(&self.retry_after),
        }
    }
}

/// What is sent to the client: the status, the body, and how long the client is
/// to wait, where that can stand in a header.
#[derive(Debug)]
pub struct ErrorResponse {
    pub status: u16,
    pub body: JsonValue,
    pub retry_after: Option<Vec<u8>>,
}

/// A text that may be there as JSON.
pub open spec fn text_or_null(value: Option<Seq<char>>) -> json::Json {
    match value {
        Some(t) => json::Json::Text(t),
        None => json::Json::Null,
    }
}

/// The body that reports an error.
pub open spec fn error_json(error: ErrorModel) -> json::Json {
    json::Json::Object(
        seq![
            (
                "error"@,
                json::Json::Object(
                    seq![
                        ("message"@, json::Json::Text(error.message)),
                        ("type"@, json::Json::Text(error.kind)),
                        ("param"@, text_or_null(error.param)),
                        ("code"@, text_or_null(error.code)),
                    ],
                ),
            ),
        ],
    )
}

/// The value of the header that says how long to wait, where the text can stand in
/// one.
pub open spec fn wait_value(retry_after: Option<Seq<char>>) -> Option<Seq<u8>> {
    match retry_after {
        Some(t) => if outside::header_value(encode_utf8(t)) {
            Some(encode_utf8(t))
        } else {
            None
        },
        None => None,
    }
}

/// A text that may be there as JSON.
fn text_or_null_value(value: &Option<String>) -> (made: JsonValue)
    ensures
        made@ == text_or_null(model::seen(*value)),
{
    match value {
        Some(t) => JsonValue::Text(t.clone()),
        None => JsonValue::Null,
    }
}

impl OpenAiError {
    /// The error of a request that cannot be understood.
    pub fn invalid(message: String, param: Option<String>) -> (error: Self)
        ensures
            error@ == (ErrorModel {
                status: 400,
                kind: "invalid_request_error"@,
                message: message@,
                param: model::seen(param),
                code: None,
                retry_after: None,
            }),
    {
        OpenAiError {
            status: Status { code: 400 },
            kind: "invalid_request_error".to_owned(),
            message,
            param,
            code: None,
            retry_after: None,
        }
    }

    /// The error of a provider that does not keep to its protocol.
    pub fn upstream_protocol(message: String) -> (error: Self)
        ensures
            error@ == (ErrorModel {
                status: 502,
                kind: "api_error"@,
                message: message@,
                param: None,
                code: Some("upstream_protocol_error"@),
                retry_after: None,
            }),
    {
        OpenAiError {
            status: Status { code: 502 },
            kind: "api_error".to_owned(),
            message,
            param: None,
            code: Some("upstream_protocol_error".to_owned()),
            retry_after: None,
        }
    }

    /// The error of a request with a parameter that is not supported.
    pub fn unsupported(param: String) -> (error: Self)
        ensures
            error@ == (ErrorModel {
                status: 400,
                kind: "invalid_request_error"@,
                message: "Unsupported parameter: '"@ + param@ + "'"@,
                param: Some(param@),
                code: Some("unsupported_parameter"@),
                retry_after: None,
            }),
    {
        let mut message: String = "Unsupported parameter: '".to_owned();
        message.append(param.as_str());
        message.append("'");
        OpenAiError {
            status: Status { code: 400 },
            kind: "invalid_request_error".to_owned(),
            message,
            param: Some(param),
            code: Some("unsupported_parameter".to_owned()),
            retry_after: None,
        }
    }

    /// What is sent to the client.
    pub fn response(self) -> (response: ErrorResponse)
        ensures
            response.status == self@.status,
            status_code(response.status),
            response.body@ == error_json(self@),
            match response.retry_after {
                Some(value) => wait_value(self@.retry_after) == Some(value@),
                None => wait_value(self@.retry_after) is None,
            },
    {
        let mut members: Vec<(String, JsonValue)> = Vec::new();
        members.push(("message".to_owned(), JsonValue::Text(self.message.clone())));
        members.push(("type".to_owned(), JsonValue::Text(self.kind.clone())));
        members.push(("param".to_owned(), text_or_null_value(&self.param)));
        members.push(("code".to_owned(), text_or_null_value(&self.code)));
        let inner: JsonValue = JsonValue::Object(members);
        proof {
            json::lemma_tree_of(inner);
            assert(model::named_views(members@) =~= seq![
                ("message"@, json::Json::Text(self.message@)),
                ("type"@, json::Json::Text(self.kind@)),
                ("param"@, text_or_null(self@.param)),
                ("code"@, text_or_null(self@.code)),
            ]);
        }
        let ghost told = inner@;
        let mut outer: Vec<(String, JsonValue)> = Vec::new();
        outer.push(("error".to_owned(), inner));
        let body: JsonValue = JsonValue::Object(outer);
        proof {
            json::lemma_tree_of(body);
            assert(model::named_views(outer@) =~= seq![("error"@, told)]);
        }
        let retry_after: Option<Vec<u8>> = match &self.retry_after {
            Some(t) => outside::parse_value(t.as_str()),
            None => None,
        };
        ErrorResponse { status: self.status.code(), body, retry_after }
    }
}

impl vstd::std_specs::convert::FromSpecImpl<ProviderError> for OpenAiError {
    open spec fn obeys_from_spec() -> bool {
        false
    }

    open spec fn from_spec(error: ProviderError) -> Self {
        arbitrary()
    }
}

impl From<ProviderError> for OpenAiError {
    /// The error of a provider as an OpenAI-compatible route reports it.
    fn from(error: ProviderError) -> (reported: Self)
        ensures
            reported@ == (ErrorModel {
                status: error.status@,
                kind: error.kind.name(),
                message: error.message@,
                param: model::seen(error.param),
                code: model::seen(error.code),
                retry_after: model::seen(error.retry_after),
            }),
    {
        OpenAiError {
            status: error.status,
            kind: error.kind.as_str().to_owned(),
            message: error.message,
            param: error.param,
            code: error.code,
            retry_after: error.retry_after,
        }
    }
}

} // verus!
