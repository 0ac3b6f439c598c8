use serde_json::Value;
use tapecore::lsp::jsonrpc::{classify, decode_envelope, DecodeError, Envelope, Id, IdMember, MethodMember};

fn json(s: &str) -> Value {
    serde_json::from_str(s).unwrap()
}

fn params_of(v: &Value) -> Value {
    v.get("params").cloned().unwrap_or(Value::Null)
}

#[test]
fn decodes_request_with_number_id() {
    let payload = r#"{"jsonrpc":"2.0","id":1,"method":"initialize","params":{"x":1}}"#;
    let (e, v) = decode_envelope(payload).unwrap();
    assert_eq!(e, Envelope::Request { id: Id::Number(1), method: "initialize".to_string() });
    assert_eq!(params_of(&v), json(r#"{"x": 1}"#));
}

#[test]
fn decodes_request_with_string_id() {
    let payload = r#"{"jsonrpc":"2.0","id":"req-1","method":"initialize","params":{}}"#;
    let (e, v) = decode_envelope(payload).unwrap();
    assert_eq!(e, Envelope::Request { id: Id::String("req-1".to_string()), method: "initialize".to_string() });
    assert_eq!(params_of(&v), json("{}"));
}

#[test]
fn decodes_notification() {
    let payload = r#"{"jsonrpc":"2.0","method":"initialized","params":{}}"#;
    let (e, v) = decode_envelope(payload).unwrap();
    assert_eq!(e, Envelope::Notification { method: "initialized".to_string() });
    assert_eq!(params_of(&v), json("{}"));
}

#[test]
fn missing_params_decodes_as_null() {
    let payload = r#"{"jsonrpc":"2.0","id":1,"method":"shutdown"}"#;
    let (e, v) = decode_envelope(payload).unwrap();
    assert_eq!(e, Envelope::Request { id: Id::Number(1), method: "shutdown".to_string() });
    assert_eq!(params_of(&v), Value::Null);
}

#[test]
fn decodes_result_response() {
    let payload = r#"{"jsonrpc":"2.0","id":1,"result":{"ok":true}}"#;
    assert_eq!(decode_envelope(payload).unwrap().0, Envelope::Response { id: Some(Id::Number(1)) });
}

#[test]
fn decodes_error_response() {
    let payload = r#"{"jsonrpc":"2.0","id":"req-1","error":{"code":-32600,"message":"bad"}}"#;
    assert_eq!(
        decode_envelope(payload).unwrap().0,
        Envelope::Response { id: Some(Id::String("req-1".to_string())) }
    );
}

#[test]
fn malformed_json_is_json_decode_error() {
    let err = decode_envelope("not json").unwrap_err();
    assert!(matches!(err, DecodeError::Json(_)));
}

#[test]
fn json_array_is_shape_decode_error() {
    let err = decode_envelope("[1,2,3]").unwrap_err();
    assert!(matches!(err, DecodeError::Shape(_)));
}

#[test]
fn classification_covers_every_shape_error() {
    assert_eq!(
        classify(MethodMember::Other, IdMember::Absent, false),
        Err(DecodeError::Shape("method is not a string"))
    );
    assert_eq!(
        classify(MethodMember::Absent, IdMember::Number(None), false),
        Err(DecodeError::Shape("id number is out of i64 range"))
    );
    assert_eq!(
        classify(MethodMember::Text("m".to_string()), IdMember::Other, false),
        Err(DecodeError::Shape("id is not a number or string"))
    );
    assert_eq!(
        classify(MethodMember::Absent, IdMember::Absent, false),
        Err(DecodeError::Shape("neither a request, notification, nor response"))
    );
    assert_eq!(
        classify(MethodMember::Absent, IdMember::Absent, true),
        Ok(Envelope::Response { id: None })
    );
    assert_eq!(
        decode_envelope(r#"{"id":null,"method":"x"}"#).unwrap().0,
        Envelope::Notification { method: "x".to_string() }
    );
    assert_eq!(
        decode_envelope(r#"{"id":1.5,"method":"x"}"#).unwrap_err(),
        DecodeError::Shape("id number is out of i64 range")
    );
    assert_eq!(
        decode_envelope(r#"{"id":[1],"method":"x"}"#).unwrap_err(),
        DecodeError::Shape("id is not a number or string")
    );
    assert_eq!(decode_envelope("[]").unwrap_err(), DecodeError::Shape("payload is not a json object"));
}

#[test]
fn decode_error_messages() {
    assert_eq!(DecodeError::Json("eof".to_string()).message(), "invalid json: eof");
    assert_eq!(
        DecodeError::Shape("payload is not a json object").message(),
        "not a json-rpc 2.0 message: payload is not a json object"
    );
}

#[test]
fn a_null_id_counts_as_no_id() {
    assert_eq!(
        classify(MethodMember::Text("m".to_string()), IdMember::Null, false),
        Ok(Envelope::Notification { method: "m".to_string() })
    );
    assert_eq!(classify(MethodMember::Absent, IdMember::Null, true), Ok(Envelope::Response { id: None }));
    assert_eq!(
        classify(MethodMember::Absent, IdMember::Null, false),
        Err(DecodeError::Shape("neither a request, notification, nor response"))
    );
}

#[test]
fn a_reply_member_makes_a_response() {
    assert_eq!(decode_envelope(r#"{"result":3}"#).unwrap().0, Envelope::Response { id: None });
    assert_eq!(decode_envelope(r#"{"error":{}}"#).unwrap().0, Envelope::Response { id: None });
    assert_eq!(
        decode_envelope(r#"{"results":3}"#).unwrap_err(),
        DecodeError::Shape("neither a request, notification, nor response")
    );
    assert_eq!(
        decode_envelope(r#"{"id":"a","result":null}"#).unwrap().0,
        Envelope::Response { id: Some(Id::String("a".to_string())) }
    );
}
