//! Every method name the subsystem sends or receives, spelled once.
//!
//! A method name is the one string no type can check, and it fails quietly when
//! wrong: the server answers `-32601` and the feature reports nothing.
use vstd::prelude::*;

verus! {

// Client to server: lifecycle.
pub const INITIALIZE: &'static str = "initialize";
pub const INITIALIZED: &'static str = "initialized";
pub const SHUTDOWN: &'static str = "shutdown";
pub const EXIT: &'static str = "exit";

// Client to server: document sync.
pub const DID_OPEN: &'static str = "textDocument/didOpen";
pub const DID_CHANGE: &'static str = "textDocument/didChange";
pub const DID_CLOSE: &'static str = "textDocument/didClose";

// Client to server: the questions this feature exists to ask.
pub const REFERENCES: &'static str = "textDocument/references";
pub const DEFINITION: &'static str = "textDocument/definition";
pub const IMPLEMENTATION: &'static str = "textDocument/implementation";
pub const TYPE_DEFINITION: &'static str = "textDocument/typeDefinition";
pub const DOCUMENT_SYMBOL: &'static str = "textDocument/documentSymbol";
pub const RENAME: &'static str = "textDocument/rename";
pub const PREPARE_RENAME: &'static str = "textDocument/prepareRename";
pub const CANCEL_REQUEST: &'static str = "$/cancelRequest";

// Server to client requests: each must be answered or the server blocks.
pub const CONFIGURATION: &'static str = "workspace/configuration";
pub const REGISTER_CAPABILITY: &'static str = "client/registerCapability";
pub const UNREGISTER_CAPABILITY: &'static str = "client/unregisterCapability";
pub const SHOW_MESSAGE_REQUEST: &'static str = "window/showMessageRequest";
pub const WORK_DONE_PROGRESS_CREATE: &'static str = "window/workDoneProgress/create";
/// Answered `{"applied": false}`: this app never lets a server edit files
/// behind the user's back.
pub const APPLY_EDIT: &'static str = "workspace/applyEdit";

// Server to client notifications: must not be answered.
pub const LOG_MESSAGE: &'static str = "window/logMessage";
pub const PROGRESS: &'static str = "$/progress";
pub const PUBLISH_DIAGNOSTICS: &'static str = "textDocument/publishDiagnostics";

} // verus!
