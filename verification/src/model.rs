//! The types that cross to the frontend.
//!
//! They abstain structurally: [`Availability`] keeps "not configured",
//! "starting", "loading", "died" and "does not support this" apart from each
//! other and from a zero, and `total` is an `Option` so `Some(0)` and `None`
//! stay different answers. Lines are 1-based and columns 0-based UTF-16 code
//! units, on every field that carries one. Paths are workspace-relative, with
//! forward slashes.
use vstd::prelude::*;

use crate::protocol::SymbolKind;

verus! {

/// Why there is, or is not, an answer. Only `Ready` licenses a count.
#[derive(Debug, Clone, Copy, PartialEq, Eq, Hash, Structural)]
pub enum Availability {
    /// No server is configured for this language, or it was not found.
    NotConfigured,
    /// The process is coming up and has not finished the handshake.
    Starting,
    /// Handshaken, but not yet primed: an answer now would be wrong.
    Loading,
    /// The only outcome that licenses a count.
    Ready,
    /// The server died, errored, or answered something unreadable.
    Failed,
    /// The server is healthy and does not offer this capability.
    Unsupported,
}

/// Every use site of one symbol, or the reason there is no list.
#[derive(Debug, Clone, PartialEq, Eq)]
pub struct UsageResult {
    pub outcome: Availability,
    /// The true number of distinct use sites; `None` unless `Ready`, and never
    /// capped when the rows are.
    pub total: Option<u32>,
    /// At most the cap's worth of rows. Empty whenever `total` is `None`.
    pub usages: Vec<Usage>,
    /// Whether `usages` is shorter than `total`.
    pub truncated: bool,
    /// Why, when the outcome is not `Ready`, and the qualification when it is.
    pub message: Option<String>,
    /// Which server answered, for a status line.
    pub server: Option<String>,
}

impl UsageResult {
    /// The shape for every outcome that is not an answer: no count, no rows.
    pub fn unavailable(outcome: Availability, message: &str) -> (r: Self)
        ensures
            r.outcome == outcome,
            r.total is None,
            r.usages@.len() == 0,
            !r.truncated,
            r.message matches Some(m) && m@ == message@,
            r.server is None,
    {
        UsageResult {
            outcome,
            total: None,
            usages: Vec::new(),
            truncated: false,
            message: Some(message.to_owned()),
            server: None,
        }
    }

    /// Name the server that produced, or failed to produce, this answer.
    pub fn with_server(self, server: &str) -> (r: Self)
        ensures
            r.outcome == self.outcome,
            r.total == self.total,
            r.usages == self.usages,
            r.truncated == self.truncated,
            r.message == self.message,
            r.server matches Some(s) && s@ == server@,
    {
        UsageResult { server: Some(server.to_owned()), ..self }
    }
}

/// One row of the usages list.
#[derive(Debug, Clone, PartialEq, Eq)]
pub struct Usage {
    /// Workspace-relative; `None` outside the workspace or for a non-`file:`
    /// document. The row is still counted.
    pub path: Option<String>,
    /// The relative path, or the raw URI when there is no path.
    pub label: String,
    /// 1-based.
    pub line: u32,
    /// One trimmed line of context.
    pub snippet: String,
    /// Where to underline inside `snippet`; `None` when the match did not
    /// survive trimming.
    pub highlight: Option<Highlight>,
}

/// A span to underline, in UTF-16 code units offset into a snippet.
#[derive(Debug, Clone, Copy, PartialEq, Eq, Structural)]
pub struct Highlight {
    pub start: u32,
    pub end: u32,
}

/// Where a symbol is declared, implemented, and typed: one outcome for three
/// lists, with a refused group named in `message`.
#[derive(Debug, Clone, PartialEq, Eq)]
pub struct DefinitionResult {
    pub outcome: Availability,
    pub declarations: Vec<Target>,
    pub implementations: Vec<Target>,
    pub type_definitions: Vec<Target>,
    pub message: Option<String>,
}

impl DefinitionResult {
    /// The shape for every outcome that is not an answer.
    pub fn unavailable(outcome: Availability, message: &str) -> (r: Self)
        ensures
            r.outcome == outcome,
            r.declarations@.len() == 0,
            r.implementations@.len() == 0,
            r.type_definitions@.len() == 0,
            r.message matches Some(m) && m@ == message@,
    {
        DefinitionResult {
            outcome,
            declarations: Vec::new(),
            implementations: Vec::new(),
            type_definitions: Vec::new(),
            message: Some(message.to_owned()),
        }
    }
}

/// Somewhere to jump to.
#[derive(Debug, Clone, PartialEq, Eq)]
pub struct Target {
    /// Workspace-relative; `None` for the same reasons as [`Usage::path`].
    pub path: Option<String>,
    pub label: String,
    /// 1-based.
    pub line: u32,
    /// 0-based UTF-16 code units.
    pub character: u32,
    pub snippet: String,
    /// The enclosing declaration, when the answer carried one.
    pub container: Option<String>,
}

/// The inline usage rows one file should show, or the reason there are none.
#[derive(Debug, Clone, PartialEq, Eq)]
pub struct AnchorResult {
    pub outcome: Availability,
    pub anchors: Vec<DeclarationAnchor>,
    pub message: Option<String>,
}

impl AnchorResult {
    /// The shape for every outcome that is not an answer.
    pub fn unavailable(outcome: Availability, message: &str) -> (r: Self)
        ensures
            r.outcome == outcome,
            r.anchors@.len() == 0,
            r.message matches Some(m) && m@ == message@,
    {
        AnchorResult { outcome, anchors: Vec::new(), message: Some(message.to_owned()) }
    }
}

/// One declaration in a file that deserves an inline "N usages" row.
#[derive(Debug, Clone, PartialEq, Eq)]
pub struct DeclarationAnchor {
    /// Stable within one file across calls, and distinct for two same-named
    /// overloads.
    pub id: String,
    /// The bare identifier.
    pub name: String,
    pub kind: SymbolKind,
    /// The declaration's first line, 1-based.
    pub line: u32,
    /// The identifier's column: 0-based UTF-16 code units.
    pub character: u32,
    /// The identifier's own line, 1-based.
    pub selection_line: u32,
}

/// A rename that happened, or the reason none did. Closed files are written
/// here; the edits for open buffers are handed back for the editor to apply.
#[derive(Debug, Clone, PartialEq, Eq)]
pub struct RenameResult {
    pub outcome: Availability,
    /// How many edits the rename made, across every file; `None` unless `Ready`.
    pub total: Option<u32>,
    pub written: Vec<RenamedFile>,
    pub buffers: Vec<BufferEdits>,
    pub failures: Vec<RenameFailure>,
    pub message: Option<String>,
    pub server: Option<String>,
}

impl RenameResult {
    /// The shape for every outcome that is not an answer: nothing written,
    /// nothing handed back.
    pub fn unavailable(outcome: Availability, message: &str) -> (r: Self)
        ensures
            r.outcome == outcome,
            r.total is None,
            r.written@.len() == 0,
            r.buffers@.len() == 0,
            r.failures@.len() == 0,
            r.message matches Some(m) && m@ == message@,
            r.server is None,
    {
        RenameResult {
            outcome,
            total: None,
            written: Vec::new(),
            buffers: Vec::new(),
            failures: Vec::new(),
            message: Some(message.to_owned()),
            server: None,
        }
    }

    /// Name the server that produced, or failed to produce, this answer.
    pub fn with_server(self, server: &str) -> (r: Self)
        ensures
            r.outcome == self.outcome,
            r.total == self.total,
            r.written == self.written,
            r.buffers == self.buffers,
            r.failures == self.failures,
            r.message == self.message,
            r.server matches Some(s) && s@ == server@,
    {
        RenameResult { server: Some(server.to_owned()), ..self }
    }
}

/// One planned edit in the editor's convention: 1-based lines, 0-based UTF-16
/// columns.
#[derive(Debug, Clone, PartialEq, Eq)]
pub struct RangeEdit {
    pub start_line: u32,
    pub start_character: u32,
    pub end_line: u32,
    pub end_character: u32,
    pub new_text: String,
}

/// A closed file the rename wrote.
#[derive(Debug, Clone, PartialEq, Eq)]
pub struct RenamedFile {
    /// Workspace-relative.
    pub path: String,
    pub edits: u32,
}

/// The edits for one open buffer, in document order and non-overlapping.
#[derive(Debug, Clone, PartialEq, Eq)]
pub struct BufferEdits {
    /// Workspace-relative.
    pub path: String,
    pub edits: Vec<RangeEdit>,
}

/// A file the rename could not complete, and whether it was left part-way.
#[derive(Debug, Clone, PartialEq, Eq)]
pub struct RenameFailure {
    /// Workspace-relative.
    pub path: String,
    pub detail: String,
    /// The file holds part of a rename and this app has no copy of what it
    /// held before.
    pub unrecoverable: bool,
}

/// Whether the caret is on something renameable, and what to prefill.
#[derive(Debug, Clone, PartialEq, Eq)]
pub struct PrepareRenameResult {
    pub outcome: Availability,
    pub renameable: bool,
    pub start_line: Option<u32>,
    pub start_character: Option<u32>,
    pub end_line: Option<u32>,
    pub end_character: Option<u32>,
    pub placeholder: Option<String>,
    pub message: Option<String>,
    pub server: Option<String>,
}

impl PrepareRenameResult {
    /// The shape for every outcome that is not an answer.
    pub fn unavailable(outcome: Availability, message: &str) -> (r: Self)
        ensures
            r.outcome == outcome,
            !r.renameable,
            r.start_line is None && r.start_character is None,
            r.end_line is None && r.end_character is None,
            r.placeholder is None,
            r.message matches Some(m) && m@ == message@,
            r.server is None,
    {
        PrepareRenameResult {
            outcome,
            renameable: false,
            start_line: None,
            start_character: None,
            end_line: None,
            end_character: None,
            placeholder: None,
            message: Some(message.to_owned()),
            server: None,
        }
    }

    /// A real answer: the server looked, and the caret is on nothing it can
    /// rename.
    pub fn not_renameable(server: &str) -> (r: Self)
        ensures
            r.outcome == Availability::Ready,
            !r.renameable,
            r.start_line is None && r.start_character is None,
            r.end_line is None && r.end_character is None,
            r.placeholder is None,
            r.message is None,
            r.server matches Some(s) && s@ == server@,
    {
        PrepareRenameResult {
            outcome: Availability::Ready,
            renameable: false,
            start_line: None,
            start_character: None,
            end_line: None,
            end_character: None,
            placeholder: None,
            message: None,
            server: Some(server.to_owned()),
        }
    }

    /// Name the server that produced, or failed to produce, this answer.
    pub fn with_server(self, server: &str) -> (r: Self)
        ensures
            r.outcome == self.outcome,
            r.renameable == self.renameable,
            r.start_line == self.start_line,
            r.start_character == self.start_character,
            r.end_line == self.end_line,
            r.end_character == self.end_character,
            r.placeholder == self.placeholder,
            r.message == self.message,
            r.server matches Some(s) && s@ == server@,
    {
        PrepareRenameResult { server: Some(server.to_owned()), ..self }
    }
}

/// Every server's state, for a status panel.
#[derive(Debug, Clone, PartialEq, Eq)]
pub struct LspStatus {
    pub servers: Vec<ServerStatus>,
}

/// One server's state, in the user's terms.
#[derive(Debug, Clone, PartialEq, Eq)]
pub struct ServerStatus {
    pub id: String,
    pub language: String,
    pub state: Availability,
    /// The program path, when one was found.
    pub detail: Option<String>,
    /// Why a `Ready` server's answers may be incomplete.
    pub caveat: Option<String>,
    /// Every candidate tried, when none was found.
    pub looked_for: Vec<String>,
    pub hint: Option<String>,
}

} // verus!
