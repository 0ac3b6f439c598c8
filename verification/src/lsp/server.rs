//! The language server's lifecycle: which messages it answers, drops or
//! routes at each point of a session. Initialize gates everything else;
//! `exit` ends the session with 0 after `shutdown` and 1 without, and a
//! client that goes away counts as an `exit` without `shutdown`.
//! Undecodable payloads are answered with an error and the session goes
//! on; requests before `initialize` are refused, notifications before it
//! dropped. The decision is a function from the lifecycle state and one
//! inbound message to the next state and the step to take; the loop that
//! reads, writes and calls the language services performs the steps.

use vstd::prelude::*;

use super::jsonrpc::{DecodeError, INVALID_REQUEST, METHOD_NOT_FOUND, PARSE_ERROR, SERVER_NOT_INITIALIZED};

verus! {

/// Deployment identity for the initialize handshake (`serverInfo`),
/// supplied by the caller.
#[derive(Debug, Clone, Copy)]
pub struct ServerIdentity {
    pub name: &'static str,
    pub version: &'static str,
}

/// Where a session stands.
#[derive(Debug, Clone, Copy, PartialEq, Eq, Structural)]
pub struct Lifecycle {
    pub initialized: bool,
    pub shutdown: bool,
}

/// One thing the loop reads.
#[derive(Debug, PartialEq, Eq)]
pub enum Inbound {
    /// End of input or a transport failure: the client is gone.
    Gone,
    /// A payload that did not decode.
    Undecodable(DecodeError),
    Request { method: String },
    Notification { method: String },
    /// A response to a server-initiated request.
    Response,
}

/// A feature request a language service answers.
#[derive(Debug, Clone, Copy, PartialEq, Eq, Structural)]
pub enum Feature {
    Completion,
    Definition,
    Hover,
    CodeAction,
    DocumentSymbol,
    SemanticTokens,
    Formatting,
}

/// A document or workspace notification a language service hears.
#[derive(Debug, Clone, Copy, PartialEq, Eq, Structural)]
pub enum Sync {
    DidOpen,
    DidChange,
    DidClose,
    ConfigurationChanged,
    WatchedFilesChanged,
}

/// What the loop does with one inbound message.
#[derive(Debug, PartialEq, Eq)]
pub enum Step {
    /// End the session with this exit code.
    Exit(i32),
    /// Answer with an error; `with_id` is false when the answer carries a
    /// null id.
    Fail { with_id: bool, code: i64, message: String },
    /// Answer `initialize` with the merged capabilities.
    Initialize,
    /// Answer `shutdown` with null.
    Shutdown,
    /// Route a feature request to the document's service.
    Serve(Feature),
    /// Register the watched-files capability after `initialized`.
    Register,
    /// Pass a notification to the services and republish.
    Notify(Sync),
    /// Nothing to do.
    Ignore,
}

/// The feature a request method names.
pub open spec fn feature_of(method: Seq<char>) -> Option<Feature> {
    if method == "textDocument/completion"@ {
        Some(Feature::Completion)
    } else if method == "textDocument/definition"@ {
        Some(Feature::Definition)
    } else if method == "textDocument/hover"@ {
        Some(Feature::Hover)
    } else if method == "textDocument/codeAction"@ {
        Some(Feature::CodeAction)
    } else if method == "textDocument/documentSymbol"@ {
        Some(Feature::DocumentSymbol)
    } else if method == "textDocument/semanticTokens/full"@ {
        Some(Feature::SemanticTokens)
    } else if method == "textDocument/formatting"@ {
        Some(Feature::Formatting)
    } else {
        None
    }
}

/// The notification a method names.
pub open spec fn sync_of(method: Seq<char>) -> Option<Sync> {
    if method == "textDocument/didOpen"@ {
        Some(Sync::DidOpen)
    } else if method == "textDocument/didChange"@ {
        Some(Sync::DidChange)
    } else if method == "textDocument/didClose"@ {
        Some(Sync::DidClose)
    } else if method == "workspace/didChangeConfiguration"@ {
        Some(Sync::ConfigurationChanged)
    } else if method == "workspace/didChangeWatchedFiles"@ {
        Some(Sync::WatchedFilesChanged)
    } else {
        None
    }
}

/// What the loop does, as plain values.
pub enum StepView {
    Exit(i32),
    Fail { with_id: bool, code: i64, message: Seq<char> },
    Initialize,
    Shutdown,
    Serve(Feature),
    Register,
    Notify(Sync),
    Ignore,
}

impl View for Step {
    type V = StepView;

    open spec fn view(&self) -> StepView {
        match self {
            Step::Exit(c) => StepView::Exit(*c),
            Step::Fail { with_id, code, message } => StepView::Fail { with_id: *with_id, code: *code, message: message@ },
            Step::Initialize => StepView::Initialize,
            Step::Shutdown => StepView::Shutdown,
            Step::Serve(f) => StepView::Serve(*f),
            Step::Register => StepView::Register,
            Step::Notify(n) => StepView::Notify(*n),
            Step::Ignore => StepView::Ignore,
        }
    }
}

/// The exit code of a session that ends now.
pub open spec fn exit_code(s: Lifecycle) -> i32 {
    if s.shutdown { 0 } else { 1 }
}

/// The step a request takes, and the state after it.
pub open spec fn request_step(s: Lifecycle, method: Seq<char>) -> (Lifecycle, StepView) {
    if method == "initialize"@ {
        if s.initialized {
            (s, StepView::Fail { with_id: true, code: INVALID_REQUEST, message: "server already initialized"@ })
        } else {
            (Lifecycle { initialized: true, shutdown: s.shutdown }, StepView::Initialize)
        }
    } else if !s.initialized {
        (s, StepView::Fail { with_id: true, code: SERVER_NOT_INITIALIZED, message: "server not initialized"@ })
    } else if method == "shutdown"@ {
        (Lifecycle { initialized: s.initialized, shutdown: true }, StepView::Shutdown)
    } else {
        match feature_of(method) {
            Some(f) => (s, StepView::Serve(f)),
            None => (s, StepView::Fail { with_id: true, code: METHOD_NOT_FOUND, message: "method not found: "@ + method }),
        }
    }
}

/// The step a notification takes; notifications never change the state.
pub open spec fn notification_step(s: Lifecycle, method: Seq<char>) -> StepView {
    if method == "exit"@ {
        StepView::Exit(exit_code(s))
    } else if !s.initialized {
        StepView::Ignore
    } else if method == "initialized"@ {
        StepView::Register
    } else {
        match sync_of(method) {
            Some(n) => StepView::Notify(n),
            None => StepView::Ignore,
        }
    }
}

/// The step one inbound message takes, and the state after it.
pub open spec fn lifecycle(s: Lifecycle, m: Inbound) -> (Lifecycle, StepView) {
    match m {
        Inbound::Gone => (s, StepView::Exit(1)),
        Inbound::Undecodable(DecodeError::Json(msg)) => (s, StepView::Fail { with_id: false, code: PARSE_ERROR, message: msg@ }),
        Inbound::Undecodable(DecodeError::Shape(reason)) => (s, StepView::Fail { with_id: false, code: INVALID_REQUEST, message: reason@ }),
        Inbound::Request { method } => request_step(s, method@),
        Inbound::Notification { method } => (s, notification_step(s, method@)),
        Inbound::Response => (s, StepView::Ignore),
    }
}

/// Whether `a` and `b` hold the same text.
pub(crate) fn same_text(a: &str, b: &str) -> (r: bool)
    ensures
        r == (a@ == b@),
{
    let n = a.unicode_len();
    if n != b.unicode_len() {
        return false;
    }
    let mut i: usize = 0;
    while i < n
        invariant
            i <= n == a@.len() == b@.len(),
            forall|j: int| 0 <= j < i ==> a@[j] == b@[j],
        decreases n - i,
    {
        if a.get_char(i) != b.get_char(i) {
            return false;
        }
        i = i + 1;
    }
    proof {
        assert(a@ =~= b@);
    }
    true
}

/// The feature a request method names.
fn feature_named(method: &str) -> (r: Option<Feature>)
    ensures
        r == feature_of(method@),
{
    if same_text(method, "textDocument/completion") {
        Some(Feature::Completion)
    } else if same_text(method, "textDocument/definition") {
        Some(Feature::Definition)
    } else if same_text(method, "textDocument/hover") {
        Some(Feature::Hover)
    } else if same_text(method, "textDocument/codeAction") {
        Some(Feature::CodeAction)
    } else if same_text(method, "textDocument/documentSymbol") {
        Some(Feature::DocumentSymbol)
    } else if same_text(method, "textDocument/semanticTokens/full") {
        Some(Feature::SemanticTokens)
    } else if same_text(method, "textDocument/formatting") {
        Some(Feature::Formatting)
    } else {
        None
    }
}

/// The notification a method names.
fn sync_named(method: &str) -> (r: Option<Sync>)
    ensures
        r == sync_of(method@),
{
    if same_text(method, "textDocument/didOpen") {
        Some(Sync::DidOpen)
    } else if same_text(method, "textDocument/didChange") {
        Some(Sync::DidChange)
    } else if same_text(method, "textDocument/didClose") {
        Some(Sync::DidClose)
    } else if same_text(method, "workspace/didChangeConfiguration") {
        Some(Sync::ConfigurationChanged)
    } else if same_text(method, "workspace/didChangeWatchedFiles") {
        Some(Sync::WatchedFilesChanged)
    } else {
        None
    }
}

/// Decide one inbound message: the next lifecycle state and the step the
/// loop takes (see [`lifecycle`]).
pub fn step(s: Lifecycle, m: Inbound) -> (r: (Lifecycle, Step))
    ensures
        (r.0, r.1@) == lifecycle(s, m),
{
    match m {
        Inbound::Gone => (s, Step::Exit(1)),
        Inbound::Undecodable(DecodeError::Json(message)) => (s, Step::Fail { with_id: false, code: PARSE_ERROR, message }),
        Inbound::Undecodable(DecodeError::Shape(reason)) => (s, Step::Fail {
            with_id: false,
            code: INVALID_REQUEST,
            message: reason.to_owned(),
        }),
        Inbound::Request { method } => {
            if same_text(method.as_str(), "initialize") {
                if s.initialized {
                    (s, Step::Fail { with_id: true, code: INVALID_REQUEST, message: "server already initialized".to_owned() })
                } else {
                    (Lifecycle { initialized: true, shutdown: s.shutdown }, Step::Initialize)
                }
            } else if !s.initialized {
                (s, Step::Fail { with_id: true, code: SERVER_NOT_INITIALIZED, message: "server not initialized".to_owned() })
            } else if same_text(method.as_str(), "shutdown") {
                (Lifecycle { initialized: s.initialized, shutdown: true }, Step::Shutdown)
            } else {
                match feature_named(method.as_str()) {
                    Some(f) => (s, Step::Serve(f)),
                    None => {
                        let mut message = "method not found: ".to_owned();
                        message.append(method.as_str());
                        (s, Step::Fail { with_id: true, code: METHOD_NOT_FOUND, message })
                    },
                }
            }
        },
        Inbound::Notification { method } => {
            let st = if same_text(method.as_str(), "exit") {
                Step::Exit(if s.shutdown { 0 } else { 1 })
            } else if !s.initialized {
                Step::Ignore
            } else if same_text(method.as_str(), "initialized") {
                Step::Register
            } else {
                match sync_named(method.as_str()) {
                    Some(n) => Step::Notify(n),
                    None => Step::Ignore,
                }
            };
            (s, st)
        },
        Inbound::Response => (s, Step::Ignore),
    }
}

/// A session ends only through `exit` or a vanished client, and ends with
/// 0 exactly when `shutdown` was accepted first; nothing but `initialize`
/// and `shutdown` changes the state, and neither undoes the other.
pub proof fn law_lifecycle_only_advances(s: Lifecycle, m: Inbound)
    ensures
        ({
            let (t, st) = lifecycle(s, m);
            &&& s.initialized ==> t.initialized
            &&& s.shutdown ==> t.shutdown
            &&& (st matches StepView::Exit(c) ==> (c == 0 <==> (s.shutdown && !(m is Gone))))
            &&& (t.shutdown && !s.shutdown ==> s.initialized)
        }),
{
}

/// The protocol's request method for each feature.
pub open spec fn protocol_method(f: Feature) -> Seq<char> {
    match f {
        Feature::Completion => "textDocument/completion"@,
        Feature::Definition => "textDocument/definition"@,
        Feature::Hover => "textDocument/hover"@,
        Feature::CodeAction => "textDocument/codeAction"@,
        Feature::DocumentSymbol => "textDocument/documentSymbol"@,
        Feature::SemanticTokens => "textDocument/semanticTokens/full"@,
        Feature::Formatting => "textDocument/formatting"@,
    }
}

/// In an initialized session, a request is served by feature `f` exactly
/// when its method is the one the protocol names for `f`; serving never
/// changes the state.
pub proof fn law_requests_are_served_by_their_feature(s: Lifecycle, method: Seq<char>, f: Feature)
    requires
        s.initialized,
    ensures
        (request_step(s, method).1 == StepView::Serve(f)) <==> method == protocol_method(f),
        request_step(s, method).1 == StepView::Serve(f) ==> request_step(s, method).0 == s,
{
    reveal_strlit("initialize");
    reveal_strlit("shutdown");
    reveal_strlit("textDocument/completion");
    reveal_strlit("textDocument/definition");
    reveal_strlit("textDocument/hover");
    reveal_strlit("textDocument/codeAction");
    reveal_strlit("textDocument/documentSymbol");
    reveal_strlit("textDocument/semanticTokens/full");
    reveal_strlit("textDocument/formatting");
    let c = "textDocument/completion"@;
    let d = "textDocument/definition"@;
    let h = "textDocument/hover"@;
    let a = "textDocument/codeAction"@;
    let y = "textDocument/documentSymbol"@;
    let t = "textDocument/semanticTokens/full"@;
    let m = "textDocument/formatting"@;
    assert(c.len() == 23 && d.len() == 23 && a.len() == 23 && m.len() == 23);
    assert(h.len() == 18 && y.len() == 27 && t.len() == 32);
    assert("initialize"@.len() == 10 && "shutdown"@.len() == 8);
    assert(c[13] != d[13] && c[13] != m[13] && d[13] != a[13] && d[13] != m[13] && a[13] != m[13]);
    assert(c[15] != a[15]);
    assert(c != d && c != a && c != m && d != a && d != m && a != m);
}

/// The protocol's notification method for each document or workspace
/// notification.
pub open spec fn protocol_notification(n: Sync) -> Seq<char> {
    match n {
        Sync::DidOpen => "textDocument/didOpen"@,
        Sync::DidChange => "textDocument/didChange"@,
        Sync::DidClose => "textDocument/didClose"@,
        Sync::ConfigurationChanged => "workspace/didChangeConfiguration"@,
        Sync::WatchedFilesChanged => "workspace/didChangeWatchedFiles"@,
    }
}

/// In an initialized session, a notification is passed on as `n` exactly
/// when its method is the one the protocol names for `n`.
pub proof fn law_notifications_are_passed_as_their_kind(s: Lifecycle, method: Seq<char>, n: Sync)
    requires
        s.initialized,
    ensures
        (notification_step(s, method) == StepView::Notify(n)) <==> method == protocol_notification(n),
{
    reveal_strlit("exit");
    reveal_strlit("initialized");
    reveal_strlit("textDocument/didOpen");
    reveal_strlit("textDocument/didChange");
    reveal_strlit("textDocument/didClose");
    reveal_strlit("workspace/didChangeConfiguration");
    reveal_strlit("workspace/didChangeWatchedFiles");
    assert("exit"@.len() == 4 && "initialized"@.len() == 11);
    assert("textDocument/didOpen"@.len() == 20 && "textDocument/didChange"@.len() == 22);
    assert("textDocument/didClose"@.len() == 21 && "workspace/didChangeConfiguration"@.len() == 32);
    assert("workspace/didChangeWatchedFiles"@.len() == 31);
}

} // verus!
