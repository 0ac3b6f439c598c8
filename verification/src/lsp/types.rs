//! Language-server protocol shapes (a bounded subset): plain data, no
//! logic. The server builds capabilities, publishes diagnostics and
//! decodes feature-request parameters with them; their wire encoding is
//! the application's concern.

use std::collections::HashMap;
use vstd::prelude::*;

verus! {

/// A zero-based line/column position; columns are UTF-16 code units per
/// the LSP spec.
#[derive(Debug, Clone, PartialEq)]
pub struct Position {
    pub line: u32,
    pub character: u32,
}

/// A half-open `[start, end)` span within a document.
#[derive(Debug, Clone, PartialEq)]
pub struct Range {
    pub start: Position,
    pub end: Position,
}

/// A range within a specific document, identified by URI.
#[derive(Debug, Clone, PartialEq)]
pub struct Location {
    pub uri: String,
    pub range: Range,
}

/// A textual edit applicable to a range. `new_text` is `newText` on the
/// wire.
#[derive(Debug, Clone, PartialEq)]
pub struct TextEdit {
    pub range: Range,
    pub new_text: String,
}

/// A set of text edits to apply, keyed by document URI.
#[derive(Debug, Clone, PartialEq)]
pub struct WorkspaceEdit {
    pub changes: HashMap<String, Vec<TextEdit>>,
}

/// A wire-shaped diagnostic; named to avoid clashing with
/// `diagnostics::Diagnostic`.
#[derive(Debug, Clone, PartialEq)]
pub struct WireDiagnostic {
    pub range: Range,
    /// 1 = Error, 2 = Warning (see `DIAGNOSTIC_ERROR`, `DIAGNOSTIC_WARNING`).
    pub severity: Option<u32>,
    pub code: Option<String>,
    pub source: Option<String>,
    pub message: String,
}

/// The legend for semantic-token indices: parallel index-to-name tables
/// for token types and modifiers.
#[derive(Debug, Clone, PartialEq)]
pub struct SemanticTokensLegend {
    pub token_types: Vec<String>,
    pub token_modifiers: Vec<String>,
}

/// `textDocumentSync` capability options: full-document sync, open/close
/// notifications on.
#[derive(Debug, Clone, PartialEq)]
pub struct TextDocumentSyncOptions {
    pub open_close: bool,
    pub change: u32,
}

/// `completionProvider` capability options.
#[derive(Debug, Clone, PartialEq)]
pub struct CompletionOptions {
    pub trigger_characters: Vec<String>,
}

/// `codeActionProvider` capability options.
#[derive(Debug, Clone, PartialEq)]
pub struct CodeActionOptions {
    pub code_action_kinds: Vec<String>,
}

/// `semanticTokensProvider` capability options.
#[derive(Debug, Clone, PartialEq)]
pub struct SemanticTokensOptions {
    pub legend: SemanticTokensLegend,
    pub full: bool,
}

/// The full advertised server capability set (`initialize` result).
#[derive(Debug, Clone, PartialEq)]
pub struct ServerCapabilities {
    /// "utf-16".
    pub position_encoding: String,
    pub text_document_sync: TextDocumentSyncOptions,
    pub completion_provider: CompletionOptions,
    pub definition_provider: bool,
    pub document_formatting_provider: bool,
    pub document_symbol_provider: bool,
    pub code_action_provider: CodeActionOptions,
    pub semantic_tokens_provider: SemanticTokensOptions,
}

/// A symbol in the `textDocument/documentSymbol` outline tree.
#[derive(Debug, PartialEq)]
pub struct DocumentSymbol {
    pub name: String,
    /// See `symbol_kind`.
    pub kind: u32,
    pub range: Range,
    pub selection_range: Range,
    pub children: Vec<DocumentSymbol>,
}

/// One `textDocument/completion` candidate.
#[derive(Debug, Clone, PartialEq)]
pub struct CompletionItem {
    pub label: String,
    /// See `completion_item_kind`.
    pub kind: Option<u32>,
    pub text_edit: Option<TextEdit>,
}

/// One `textDocument/codeAction` candidate.
#[derive(Debug, Clone, PartialEq)]
pub struct CodeAction {
    pub title: String,
    /// "quickfix".
    pub kind: String,
    pub is_preferred: Option<bool>,
    pub edit: WorkspaceEdit,
}

/// Identifies a document by URI, without a version.
#[derive(Debug, Clone, PartialEq)]
pub struct TextDocumentIdentifier {
    pub uri: String,
}

/// Identifies a document by URI at a specific version.
#[derive(Debug, Clone, PartialEq)]
pub struct VersionedTextDocumentIdentifier {
    pub uri: String,
    pub version: i32,
}

/// A full document as sent on `textDocument/didOpen`.
#[derive(Debug, Clone, PartialEq)]
pub struct TextDocumentItem {
    pub uri: String,
    pub language_id: String,
    pub version: i32,
    pub text: String,
}

/// `{ textDocument, position }` params shared by several requests.
#[derive(Debug, Clone, PartialEq)]
pub struct TextDocumentPositionParams {
    pub text_document: TextDocumentIdentifier,
    pub position: Position,
}

/// Params for `textDocument/didOpen`.
#[derive(Debug, Clone, PartialEq)]
pub struct DidOpenTextDocumentParams {
    pub text_document: TextDocumentItem,
}

/// One entry in `DidChangeTextDocumentParams::content_changes`. Full sync
/// only — no `range` field, the whole document text is replaced.
#[derive(Debug, Clone, PartialEq)]
pub struct TextDocumentContentChangeEvent {
    pub text: String,
}

/// Params for `textDocument/didChange`.
#[derive(Debug, Clone, PartialEq)]
pub struct DidChangeTextDocumentParams {
    pub text_document: VersionedTextDocumentIdentifier,
    pub content_changes: Vec<TextDocumentContentChangeEvent>,
}

/// Params for `textDocument/didClose`.
#[derive(Debug, Clone, PartialEq)]
pub struct DidCloseTextDocumentParams {
    pub text_document: TextDocumentIdentifier,
}

/// Params for the `textDocument/publishDiagnostics` notification.
#[derive(Debug, Clone, PartialEq)]
pub struct PublishDiagnosticsParams {
    pub uri: String,
    pub version: Option<i32>,
    pub diagnostics: Vec<WireDiagnostic>,
}

/// `serverInfo` on the `initialize` result.
#[derive(Debug, Clone, PartialEq)]
pub struct ServerInfoWire {
    pub name: String,
    pub version: String,
}

/// Result of the `initialize` request.
#[derive(Debug, Clone, PartialEq)]
pub struct InitializeResult {
    pub capabilities: ServerCapabilities,
    pub server_info: ServerInfoWire,
}

/// Params for `textDocument/codeAction`.
#[derive(Debug, Clone, PartialEq)]
pub struct CodeActionParams {
    pub text_document: TextDocumentIdentifier,
    pub range: Range,
}

/// Params for `textDocument/documentSymbol`.
#[derive(Debug, Clone, PartialEq)]
pub struct DocumentSymbolParams {
    pub text_document: TextDocumentIdentifier,
}

/// Params for `textDocument/semanticTokens/full`.
#[derive(Debug, Clone, PartialEq)]
pub struct SemanticTokensParams {
    pub text_document: TextDocumentIdentifier,
}

/// Result of `textDocument/semanticTokens/full`: the delta-encoded token
/// data array.
#[derive(Debug, Clone, PartialEq)]
pub struct SemanticTokens {
    pub data: Vec<u32>,
}

/// Params for `textDocument/formatting`.
#[derive(Debug, Clone, PartialEq)]
pub struct DocumentFormattingParams {
    pub text_document: TextDocumentIdentifier,
}

/// One entry in `DidChangeWatchedFilesParams::changes`.
#[derive(Debug, Clone, PartialEq)]
pub struct FileEvent {
    pub uri: String,
    /// 1 = Created, 2 = Changed, 3 = Deleted. `"type"` on the wire.
    pub typ: u32,
}

/// Params for the `workspace/didChangeWatchedFiles` notification.
#[derive(Debug, Clone, PartialEq)]
pub struct DidChangeWatchedFilesParams {
    pub changes: Vec<FileEvent>,
}

/// One filesystem glob watcher entry.
#[derive(Debug, Clone, PartialEq)]
pub struct FileSystemWatcher {
    pub glob_pattern: String,
}

/// `registerOptions` shape for a `workspace/didChangeWatchedFiles`
/// registration.
#[derive(Debug, Clone, PartialEq)]
pub struct DidChangeWatchedFilesRegistrationOptions {
    pub watchers: Vec<FileSystemWatcher>,
}

/// `Diagnostic.severity` values (LSP 3.17).

/// Diagnostic severity: error.
pub const DIAGNOSTIC_ERROR: u32 = 1;

/// Diagnostic severity: warning.
pub const DIAGNOSTIC_WARNING: u32 = 2;

/// Completion item kind: function.
pub const COMPLETION_FUNCTION: u32 = 3;

/// Completion item kind: module.
pub const COMPLETION_MODULE: u32 = 9;

/// Completion item kind: value.
pub const COMPLETION_VALUE: u32 = 12;

/// Completion item kind: keyword.
pub const COMPLETION_KEYWORD: u32 = 14;

/// Symbol kind: namespace.
pub const SYMBOL_NAMESPACE: u32 = 3;

/// Symbol kind: function.
pub const SYMBOL_FUNCTION: u32 = 12;

} // verus!
