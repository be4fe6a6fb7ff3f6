//! Requests to an exchange and the answers to them.
use crate::json::{json_text, render_json, Json, JsonView};
use vstd::prelude::*;

verus! {

/// The verb of a request.
#[derive(Clone, Copy, Debug, PartialEq, Eq, Structural)]
pub enum Method {
    Get,
    Post,
}

impl Method {
    /// The verb in text.
    pub open spec fn verb(self) -> Seq<char> {
        match self {
            Method::Get => "GET"@,
            Method::Post => "POST"@,
        }
    }

    /// The verb in text.
    pub fn as_str(&self) -> (s: &'static str)
        ensures
            s@ == self.verb(),
    {
        match self {
            Method::Get => "GET",
            Method::Post => "POST",
        }
    }
}

/// A request was refused, for the reason that the message gives.
#[derive(Debug)]
pub struct RestError {
    pub message: String,
}

/// Two texts with a blank between them.
pub open spec fn spaced(a: Seq<char>, b: Seq<char>) -> Seq<char> {
    a.push(' ') + b
}

/// Joins two texts with a blank between them.
pub fn join_spaced(a: &str, b: &str) -> (r: String)
    ensures
        r@ == spaced(a@, b@),
{
    let mut r = a.to_owned();
    r.push(' ');
    r.append(b);
    r
}

/// Joins two texts.
pub fn join(a: &str, b: &str) -> (r: String)
    ensures
        r@ == a@ + b@,
{
    let mut r = a.to_owned();
    r.append(b);
    r
}

/// The text of a field, as it stands in the document; `null` where there is none. A number
/// is shown by the text that is held of it.
pub open spec fn field_text(answer: JsonView, key: Seq<char>) -> Seq<char> {
    match answer.field(key) {
        Some(JsonView::Number(_, t)) => t,
        Some(v) => json_text(v),
        None => json_text(JsonView::Null),
    }
}

/// The text of a field, as it stands in the document; `null` where there is none.
pub fn show_field(answer: &Json, key: &str) -> (r: String)
    ensures
        r@ == field_text(answer@, key@),
{
    match answer.get(key) {
        Some(Json::Number(_, t)) => t.clone(),
        Some(v) => render_json(v),
        None => render_json(&Json::Null),
    }
}

/// The message of an answer that carries an error.
pub open spec fn refusal(answer: JsonView) -> Seq<char> {
    spaced(field_text(answer, "code"@), field_text(answer, "msg"@))
}

/// The error that an answer carries.
pub fn refuse(answer: &Json) -> (e: RestError)
    ensures
        e.message@ == refusal(answer@),
{
    let code = show_field(answer, "code");
    let msg = show_field(answer, "msg");
    RestError { message: join_spaced(code.as_str(), msg.as_str()) }
}

/// The message of a refusal is the code, a blank and the message; a field that is missing
/// shows as `null` does, and a number by its digits.
pub proof fn law_refusal_says_code_and_message(answer: JsonView, code: Seq<char>, msg: Seq<char>)
    requires
        answer.field("code"@) matches Some(JsonView::Number(_, t)) ==> code == t,
        answer.field("code"@) matches Some(v) ==> !(v is Number) ==> code == json_text(v),
        answer.field("code"@) is None ==> code == json_text(JsonView::Null),
        answer.field("msg"@) matches Some(JsonView::Number(_, t)) ==> msg == t,
        answer.field("msg"@) matches Some(v) ==> !(v is Number) ==> msg == json_text(v),
        answer.field("msg"@) is None ==> msg == json_text(JsonView::Null),
    ensures
        refusal(answer) == code + seq![' '] + msg,
{
    let c = answer.field("code"@);
    let m = answer.field("msg"@);
    match c {
        Some(v) => {
            if v is Number {
                assert(c == Some(JsonView::Number(v->Number_0, v->Number_1)));
            }
        },
        None => {},
    }
    match m {
        Some(v) => {
            if v is Number {
                assert(m == Some(JsonView::Number(v->Number_0, v->Number_1)));
            }
        },
        None => {},
    }
    assert(refusal(answer) == code + seq![' '] + msg);
}

/// A request's verb in capitals, and two texts with one blank between them.
pub proof fn law_verbs_and_blanks(a: Seq<char>, b: Seq<char>)
    ensures
        Method::Get.verb() == seq!['G', 'E', 'T'],
        Method::Post.verb() == seq!['P', 'O', 'S', 'T'],
        spaced(a, b) == a + seq![' '] + b,
{
    reveal_strlit("GET");
    reveal_strlit("POST");
    assert(Method::Get.verb() == seq!['G', 'E', 'T']);
    assert(Method::Post.verb() == seq!['P', 'O', 'S', 'T']);
    assert(spaced(a, b) == a + seq![' '] + b);
}

}
