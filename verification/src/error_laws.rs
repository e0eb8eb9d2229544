//! What a client is told of an error.

use crate::json;
use crate::json_laws;
use crate::openai_compat;
use crate::outside;
use vstd::prelude::*;
use vstd::string::*;
use vstd::utf8::*;

verus! {

proof fn lemma_member_names_differ()
    ensures
        "message"@ != "type"@,
        "message"@ != "param"@,
        "message"@ != "code"@,
        "type"@ != "param"@,
        "type"@ != "code"@,
        "param"@ != "code"@,
{
    reveal_strlit("message");
    reveal_strlit("type");
    reveal_strlit("param");
    reveal_strlit("code");
    assert("message"@.len() == 7);
    assert("type"@.len() == 4 && "type"@[0] == 't');
    assert("param"@.len() == 5);
    assert("code"@.len() == 4 && "code"@[0] == 'c');
}

/// The body that reports an error has one member, the error, and this gives the message,
/// the kind, the parameter and the code, each under its own name. What is not there is
/// null.
pub proof fn errors_are_told_whole(error: openai_compat::ErrorModel)
    ensures
        ({
            let told = json::member(openai_compat::error_json(error), "error"@)->0;
            &&& json::member(openai_compat::error_json(error), "error"@) is Some
            &&& json::member(told, "message"@) == Some(json::Json::Text(error.message))
            &&& json::member(told, "type"@) == Some(json::Json::Text(error.kind))
            &&& json::member(told, "param"@) == Some(
                match error.param {
                    Some(param) => json::Json::Text(param),
                    None => json::Json::Null,
                },
            )
            &&& json::member(told, "code"@) == Some(
                match error.code {
                    Some(code) => json::Json::Text(code),
                    None => json::Json::Null,
                },
            )
        }),
{
    lemma_member_names_differ();
    let param = match error.param {
        Some(param) => json::Json::Text(param),
        None => json::Json::Null,
    };
    let code = match error.code {
        Some(code) => json::Json::Text(code),
        None => json::Json::Null,
    };
    let members = seq![
        ("message"@, json::Json::Text(error.message)),
        ("type"@, json::Json::Text(error.kind)),
        ("param"@, param),
        ("code"@, code),
    ];
    let told = json::Json::Object(members);
    let whole = seq![("error"@, told)];
    assert(json::distinct_names(members));
    json_laws::every_member_is_found(whole, 0);
    json_laws::every_member_is_found(members, 0);
    json_laws::every_member_is_found(members, 1);
    json_laws::every_member_is_found(members, 2);
    json_laws::every_member_is_found(members, 3);
    assert(whole[0].0 == "error"@);
    assert(members[0].0 == "message"@);
    assert(members[1].0 == "type"@);
    assert(members[2].0 == "param"@);
    assert(members[3].0 == "code"@);
}

/// Errors are told alike only where message, kind, parameter and code are the same.
pub proof fn other_errors_are_told_otherwise(
    a: openai_compat::ErrorModel,
    b: openai_compat::ErrorModel,
)
    ensures
        openai_compat::error_json(a) == openai_compat::error_json(b) <==> a.message == b.message
            && a.kind == b.kind && a.param == b.param && a.code == b.code,
{
    errors_are_told_whole(a);
    errors_are_told_whole(b);
    if a.message == b.message && a.kind == b.kind && a.param == b.param && a.code == b.code {
        assert(openai_compat::error_json(a) == openai_compat::error_json(b));
    }
}

/// How long to wait is told byte by byte as it is given, where every byte of it can stand
/// in a header: a tab, or anything from a space on but a delete. Otherwise, or where
/// nothing is given, nothing is told.
pub proof fn waits_are_told_as_given(wait: Seq<char>)
    ensures
        openai_compat::wait_value(None) is None,
        (forall|i: int|
            0 <= i < encode_utf8(wait).len() ==> (#[trigger] encode_utf8(wait)[i] == 9 || (
            encode_utf8(wait)[i] >= 32 && encode_utf8(wait)[i] != 127)))
            ==> openai_compat::wait_value(Some(wait)) == Some(encode_utf8(wait)),
        (exists|i: int|
            0 <= i < encode_utf8(wait).len() && (#[trigger] encode_utf8(wait)[i] == 127 || (
            encode_utf8(wait)[i] < 32 && encode_utf8(wait)[i] != 9)))
            ==> openai_compat::wait_value(Some(wait)) is None,
{
    assert(forall|b: u8| #[trigger] outside::value_byte(b) == (b == 9 || (b >= 32 && b != 127)));
}

/// The kinds of errors, and the routes, have different names.
pub proof fn kinds_of_errors_have_their_own_names(
    a: openai_compat::ProviderErrorKind,
    b: openai_compat::ProviderErrorKind,
    x: openai_compat::OpenAiSurface,
    y: openai_compat::OpenAiSurface,
)
    ensures
        a.name() == b.name() <==> a == b,
        x.name() == y.name() <==> x == y,
{
    reveal_strlit("authentication_error");
    reveal_strlit("permission_error");
    reveal_strlit("rate_limit_error");
    reveal_strlit("invalid_request_error");
    reveal_strlit("api_error");
    reveal_strlit("chat_completions");
    reveal_strlit("responses");
    assert("authentication_error"@.len() == 20);
    assert("permission_error"@.len() == 16 && "permission_error"@[0] == 'p');
    assert("rate_limit_error"@.len() == 16 && "rate_limit_error"@[0] == 'r');
    assert("invalid_request_error"@.len() == 21);
    assert("api_error"@.len() == 9);
    assert("chat_completions"@.len() == 16);
    assert("responses"@.len() == 9);
}

} // verus!
