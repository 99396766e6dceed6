//! Deciding what to tell a language server, and what its answers mean.
pub mod text;
pub mod positions;
pub mod framing;
pub mod json;
pub mod protocol;
pub mod edits;
pub mod order;
pub mod documents;
pub mod model;
pub mod jsonrpc;
pub mod uri;
pub mod paths;
pub mod settings;
pub mod registry;
pub mod results;
pub mod rename;
pub mod client;
pub mod logs;
pub mod session;
