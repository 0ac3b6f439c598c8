use tapecore::lsp::jsonrpc::{
    decode_envelope, Envelope, Id, INVALID_REQUEST, METHOD_NOT_FOUND, PARSE_ERROR, SERVER_NOT_INITIALIZED,
};
use tapecore::lsp::server::{step, Feature, Inbound, Lifecycle, Step, Sync};

/// An answer the session writes: the id it carries (none for null) and,
/// for an error, its code.
#[derive(Debug, PartialEq)]
struct Answer {
    id: Option<Id>,
    error: Option<i64>,
}

/// Drive the lifecycle over decoded payloads, then end of input; the
/// answers written and the exit code.
fn run_session(payloads: &[&str]) -> (Vec<Answer>, i32) {
    let mut s = Lifecycle { initialized: false, shutdown: false };
    let mut answers = Vec::new();
    let mut inputs: Vec<(Inbound, Option<Id>)> = Vec::new();
    for p in payloads {
        inputs.push(match decode_envelope(p) {
            Ok((Envelope::Request { id, method }, _)) => (Inbound::Request { method }, Some(id)),
            Ok((Envelope::Notification { method }, _)) => (Inbound::Notification { method }, None),
            Ok((Envelope::Response { .. }, _)) => (Inbound::Response, None),
            Err(e) => (Inbound::Undecodable(e), None),
        });
    }
    inputs.push((Inbound::Gone, None));
    for (m, id) in inputs {
        let (next, st) = step(s, m);
        s = next;
        match st {
            Step::Exit(code) => return (answers, code),
            Step::Fail { with_id, code, .. } => answers.push(Answer { id: if with_id { id } else { None }, error: Some(code) }),
            Step::Initialize | Step::Shutdown | Step::Serve(_) => answers.push(Answer { id, error: None }),
            Step::Register | Step::Notify(_) | Step::Ignore => {},
        }
    }
    unreachable!("end of input always ends the session")
}

const INITIALIZE_1: &str = r#"{"jsonrpc":"2.0","id":1,"method":"initialize","params":{"capabilities":{}}}"#;

#[test]
fn request_before_initialize_is_rejected_but_session_continues() {
    let (outputs, exit_code) = run_session(&[
        r#"{"jsonrpc":"2.0","id":1,"method":"textDocument/completion","params":{}}"#,
        r#"{"jsonrpc":"2.0","id":2,"method":"initialize","params":{"capabilities":{}}}"#,
    ]);
    assert_eq!(outputs.len(), 2);
    assert_eq!(outputs[0], Answer { id: Some(Id::Number(1)), error: Some(SERVER_NOT_INITIALIZED) });
    assert_eq!(outputs[1], Answer { id: Some(Id::Number(2)), error: None });
    assert_eq!(exit_code, 1);
}

#[test]
fn notification_before_initialize_is_dropped() {
    let (outputs, exit_code) = run_session(&[r#"{"jsonrpc":"2.0","method":"initialized","params":{}}"#]);
    assert_eq!(outputs.len(), 0);
    assert_eq!(exit_code, 1);
}

#[test]
fn exit_before_initialize_still_exits() {
    let (outputs, exit_code) = run_session(&[r#"{"jsonrpc":"2.0","method":"exit"}"#]);
    assert_eq!(outputs.len(), 0);
    assert_eq!(exit_code, 1);
}

#[test]
fn second_initialize_is_invalid_request() {
    let (outputs, _exit_code) = run_session(&[
        INITIALIZE_1,
        r#"{"jsonrpc":"2.0","id":2,"method":"initialize","params":{"capabilities":{}}}"#,
    ]);
    assert_eq!(outputs.len(), 2);
    assert_eq!(outputs[1], Answer { id: Some(Id::Number(2)), error: Some(INVALID_REQUEST) });
}

#[test]
fn shutdown_then_exit_returns_zero() {
    let (outputs, exit_code) = run_session(&[
        INITIALIZE_1,
        r#"{"jsonrpc":"2.0","id":2,"method":"shutdown","params":null}"#,
        r#"{"jsonrpc":"2.0","method":"exit"}"#,
    ]);
    assert_eq!(outputs.len(), 2);
    assert_eq!(outputs[1], Answer { id: Some(Id::Number(2)), error: None });
    assert_eq!(exit_code, 0);
}

#[test]
fn exit_without_shutdown_returns_one() {
    let (outputs, exit_code) = run_session(&[INITIALIZE_1, r#"{"jsonrpc":"2.0","method":"exit"}"#]);
    assert_eq!(outputs.len(), 1);
    assert_eq!(exit_code, 1);
}

#[test]
fn eof_without_exit_returns_one() {
    let (_outputs, exit_code) = run_session(&[INITIALIZE_1]);
    assert_eq!(exit_code, 1);
}

#[test]
fn transport_error_is_treated_like_a_dead_client() {
    let (next, st) = step(Lifecycle { initialized: false, shutdown: false }, Inbound::Gone);
    assert_eq!(st, Step::Exit(1));
    assert_eq!(next, Lifecycle { initialized: false, shutdown: false });
    let (outputs, exit_code) = run_session(&[]);
    assert!(outputs.is_empty());
    assert_eq!(exit_code, 1);
}

#[test]
fn unknown_request_after_init_is_method_not_found() {
    let (outputs, _exit_code) = run_session(&[
        INITIALIZE_1,
        r#"{"jsonrpc":"2.0","id":2,"method":"foo/bar","params":{}}"#,
    ]);
    assert_eq!(outputs.len(), 2);
    assert_eq!(outputs[1], Answer { id: Some(Id::Number(2)), error: Some(METHOD_NOT_FOUND) });
}

#[test]
fn dollar_cancel_request_notification_produces_no_output() {
    let (outputs, exit_code) = run_session(&[
        INITIALIZE_1,
        r#"{"jsonrpc":"2.0","method":"$/cancelRequest","params":{"id":1}}"#,
    ]);
    assert_eq!(outputs.len(), 1);
    assert_eq!(exit_code, 1);
}

#[test]
fn incoming_response_message_is_dropped_silently() {
    let (outputs, exit_code) = run_session(&[INITIALIZE_1, r#"{"jsonrpc":"2.0","id":99,"result":{}}"#]);
    assert_eq!(outputs.len(), 1);
    assert_eq!(exit_code, 1);
}

#[test]
fn malformed_json_frame_gets_parse_error_and_session_continues() {
    let (outputs, exit_code) = run_session(&["not json at all", INITIALIZE_1]);
    assert_eq!(outputs.len(), 2);
    assert_eq!(outputs[0], Answer { id: None, error: Some(PARSE_ERROR) });
    assert_eq!(outputs[1], Answer { id: Some(Id::Number(1)), error: None });
    assert_eq!(exit_code, 1);
}

#[test]
fn shape_error_frame_gets_invalid_request_and_session_continues() {
    let (outputs, exit_code) = run_session(&["[1,2,3]", INITIALIZE_1]);
    assert_eq!(outputs.len(), 2);
    assert_eq!(outputs[0], Answer { id: None, error: Some(INVALID_REQUEST) });
    assert_eq!(outputs[1], Answer { id: Some(Id::Number(1)), error: None });
    assert_eq!(exit_code, 1);
}

#[test]
fn feature_requests_and_document_notifications_route_after_initialize() {
    let (next, st) = step(
        Lifecycle { initialized: true, shutdown: false },
        Inbound::Request { method: "textDocument/formatting".to_string() },
    );
    assert_eq!(st, Step::Serve(Feature::Formatting));
    assert!(!next.shutdown);
    let (_, st) = step(
        Lifecycle { initialized: true, shutdown: false },
        Inbound::Notification { method: "textDocument/didClose".to_string() },
    );
    assert_eq!(st, Step::Notify(Sync::DidClose));
    let (_, st) = step(
        Lifecycle { initialized: true, shutdown: false },
        Inbound::Notification { method: "initialized".to_string() },
    );
    assert_eq!(st, Step::Register);
    let (_, st) = step(
        Lifecycle { initialized: true, shutdown: false },
        Inbound::Request { method: "workspace/symbol".to_string() },
    );
    assert_eq!(
        st,
        Step::Fail { with_id: true, code: METHOD_NOT_FOUND, message: "method not found: workspace/symbol".to_string() }
    );
}
