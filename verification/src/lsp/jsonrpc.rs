//! The JSON-RPC 2.0 envelope of the language-server base protocol: which
//! kind of message a payload is. A payload must be a JSON object; `method`
//! with `id` is a request, `method` alone a notification, and `id` (or a
//! `result` or `error` member) without `method` a response. The `jsonrpc`
//! member is not checked. JSON parsing and member lookup are the JSON
//! library's; the decision is verified over what they report.

use serde_json::Value;
use vstd::prelude::*;

verus! {

#[verifier::external_type_specification]
#[verifier::external_body]
pub struct ExValue(Value);

#[verifier::external_type_specification]
#[verifier::external_body]
pub struct ExJsonError(serde_json::Error);

/// A request or response id: a number or a string.
#[derive(Debug, Clone, PartialEq, Eq)]
pub enum Id {
    Number(i64),
    String(String),
}

/// Why an envelope did not decode.
#[derive(Debug, PartialEq, Eq)]
pub enum DecodeError {
    /// Not valid JSON at all; answered with a parse error and a null id.
    Json(String),
    /// Valid JSON but not a JSON-RPC 2.0 message; answered with an invalid
    /// request error.
    Shape(&'static str),
}

/// The `method` member of an object, as far as the envelope cares.
#[derive(Debug, Clone, PartialEq, Eq)]
pub enum MethodMember {
    Absent,
    Text(String),
    /// Present but not a string.
    Other,
}

/// The `id` member of an object, as far as the envelope cares.
#[derive(Debug, Clone, PartialEq, Eq)]
pub enum IdMember {
    Absent,
    /// `null`, which counts as no id.
    Null,
    /// A number: its value when it is an integer within `i64` range.
    Number(Option<i64>),
    Text(String),
    /// Present but neither a number, a string nor `null`.
    Other,
}

/// What an envelope is, without its parameters.
#[derive(Debug, Clone, PartialEq, Eq)]
pub enum Envelope {
    Request { id: Id, method: String },
    Notification { method: String },
    /// A response to a server-initiated request.
    Response { id: Option<Id> },
}

/// The JSON-RPC and language-server error codes the server answers with.
pub const PARSE_ERROR: i64 = -32700;
pub const INVALID_REQUEST: i64 = -32600;
pub const METHOD_NOT_FOUND: i64 = -32601;
pub const INVALID_PARAMS: i64 = -32602;
pub const INTERNAL_ERROR: i64 = -32603;
pub const SERVER_NOT_INITIALIZED: i64 = -32002;

/// The envelope an object's members make: a string `method` with an id is
/// a request, without one a notification; with no `method`, an id or a
/// `result`/`error` member makes a response; anything else is refused.
pub open spec fn envelope_of(method: MethodMember, id: IdMember, has_reply: bool) -> Result<Envelope, DecodeError> {
    match method {
        MethodMember::Other => Err(DecodeError::Shape("method is not a string")),
        _ => match id {
            IdMember::Number(None) => Err(DecodeError::Shape("id number is out of i64 range")),
            IdMember::Other => Err(DecodeError::Shape("id is not a number or string")),
            _ => {
                let idv: Option<Id> = match id {
                    IdMember::Number(Some(n)) => Some(Id::Number(n)),
                    IdMember::Text(s) => Some(Id::String(s)),
                    _ => None,
                };
                match method {
                    MethodMember::Text(m) => match idv {
                        Some(i) => Ok(Envelope::Request { id: i, method: m }),
                        None => Ok(Envelope::Notification { method: m }),
                    },
                    _ => if idv is Some || has_reply {
                        Ok(Envelope::Response { id: idv })
                    } else {
                        Err(DecodeError::Shape("neither a request, notification, nor response"))
                    },
                }
            },
        },
    }
}

/// Classify an object by its `method` and `id` members and whether it
/// has a `result` or `error` member (see [`envelope_of`]).
pub fn classify(method: MethodMember, id: IdMember, has_reply: bool) -> (r: Result<Envelope, DecodeError>)
    ensures
        r == envelope_of(method, id, has_reply),
{
    let m = match method {
        MethodMember::Other => {
            return Err(DecodeError::Shape("method is not a string"));
        },
        MethodMember::Text(m) => Some(m),
        MethodMember::Absent => None,
    };
    let idv = match id {
        IdMember::Number(Some(n)) => Some(Id::Number(n)),
        IdMember::Number(None) => {
            return Err(DecodeError::Shape("id number is out of i64 range"));
        },
        IdMember::Text(s) => Some(Id::String(s)),
        IdMember::Absent => None,
        IdMember::Null => None,
        IdMember::Other => {
            return Err(DecodeError::Shape("id is not a number or string"));
        },
    };
    match m {
        Some(method) => match idv {
            Some(i) => Ok(Envelope::Request { id: i, method }),
            None => Ok(Envelope::Notification { method }),
        },
        None => {
            if idv.is_some() || has_reply {
                Ok(Envelope::Response { id: idv })
            } else {
                Err(DecodeError::Shape("neither a request, notification, nor response"))
            }
        },
    }
}

/// Whether `payload` is valid JSON text.
pub uninterp spec fn json_parses(payload: Seq<char>) -> bool;

/// Whether the JSON value `payload` parses to is an object.
pub uninterp spec fn json_object(payload: Seq<char>) -> bool;

/// The `method` member of the JSON value `payload` parses to.
pub uninterp spec fn json_method(payload: Seq<char>) -> MethodMember;

/// The `id` member of the JSON value `payload` parses to.
pub uninterp spec fn json_id(payload: Seq<char>) -> IdMember;

/// Whether the JSON value `payload` parses to has a member named `key`.
pub uninterp spec fn json_has(payload: Seq<char>, key: Seq<char>) -> bool;

/// What the envelope reads of a parsed payload: whether it is an object,
/// its `method` and `id` members, and whether it has a `result` and an
/// `error` member.
pub struct PayloadMembers {
    pub object: bool,
    pub method: MethodMember,
    pub id: IdMember,
    pub has_result: bool,
    pub has_error: bool,
}

/// `serde_json::from_str` into a JSON value, then `Value::is_object`,
/// `Value::get` of `method`, `id`, `result` and `error`, and
/// `Number::as_i64` of a numeric id, each carried over variant by
/// variant. The parse fails exactly when the text is not JSON (the
/// parser's error is returned, unstated); each member is named as a
/// function of the payload text alone. Nothing is stated of the value.
#[verifier::external_body]
fn parse_payload(payload: &str) -> (r: Result<(Value, PayloadMembers), serde_json::Error>)
    ensures
        r is Ok <==> json_parses(payload@),
        r matches Ok((_, m)) ==> m.object == json_object(payload@) && m.method == json_method(payload@)
            && m.id == json_id(payload@) && m.has_result == json_has(payload@, "result"@)
            && m.has_error == json_has(payload@, "error"@),
{
    let v: Value = serde_json::from_str(payload)?;
    let method = match v.get("method") {
        Some(Value::String(s)) => MethodMember::Text(s.clone()),
        Some(_) => MethodMember::Other,
        None => MethodMember::Absent,
    };
    let id = match v.get("id") {
        Some(Value::Number(n)) => IdMember::Number(n.as_i64()),
        Some(Value::String(s)) => IdMember::Text(s.clone()),
        Some(Value::Null) => IdMember::Null,
        Some(_) => IdMember::Other,
        None => IdMember::Absent,
    };
    let m = PayloadMembers { object: v.is_object(), method, id, has_result: v.get("result").is_some(), has_error: v.get("error").is_some() };
    Ok((v, m))
}

/// The parser's message for a parse error (`Display` through
/// `to_string`); nothing is stated of the text.
#[verifier::external_body]
fn error_text(e: &serde_json::Error) -> (r: String) {
    e.to_string()
}

/// The envelope part of a decode result.
pub open spec fn envelope_part(r: Result<(Envelope, Value), DecodeError>) -> Result<Envelope, DecodeError> {
    match r {
        Ok((e, _)) => Ok(e),
        Err(x) => Err(x),
    }
}

/// What a payload decodes to: a shape error when its JSON is not an
/// object, else the envelope its `method` and `id` members and its
/// `result`/`error` members make.
pub open spec fn payload_envelope(payload: Seq<char>) -> Result<Envelope, DecodeError> {
    if json_object(payload) {
        envelope_of(json_method(payload), json_id(payload), json_has(payload, "result"@) || json_has(payload, "error"@))
    } else {
        Err(DecodeError::Shape("payload is not a json object"))
    }
}

/// Decode one payload's envelope: a JSON error when it does not parse, a
/// shape error when it is not an object, else the classification of its
/// members. The parameters are the caller's to take from the parsed value.
pub fn decode_envelope(payload: &str) -> (r: Result<(Envelope, Value), DecodeError>)
    ensures
        (r matches Err(DecodeError::Json(_))) <==> !json_parses(payload@),
        json_parses(payload@) ==> envelope_part(r) == payload_envelope(payload@),
{
    let (value, m) = match parse_payload(payload) {
        Err(e) => {
            return Err(DecodeError::Json(error_text(&e)));
        },
        Ok(p) => p,
    };
    if !m.object {
        return Err(DecodeError::Shape("payload is not a json object"));
    }
    let has_reply = m.has_result || m.has_error;
    match classify(m.method, m.id, has_reply) {
        Ok(e) => Ok((e, value)),
        Err(err) => Err(err),
    }
}

/// The message of a decode error.
pub open spec fn decode_error_text(e: DecodeError) -> Seq<char> {
    match e {
        DecodeError::Json(msg) => "invalid json: "@ + msg@,
        DecodeError::Shape(reason) => "not a json-rpc 2.0 message: "@ + reason@,
    }
}

impl DecodeError {
    /// The error's message, for display.
    pub fn message(&self) -> (r: String)
        ensures
            r@ == decode_error_text(*self),
    {
        match self {
            DecodeError::Json(msg) => {
                let mut s = "invalid json: ".to_owned();
                s.append(msg.as_str());
                s
            },
            DecodeError::Shape(reason) => {
                let mut s = "not a json-rpc 2.0 message: ".to_owned();
                s.append(reason);
                s
            },
        }
    }
}

} // verus!
