//! What a workspace's configuration says about its language servers.
//!
//! Reading the file is the caller's business; this is the shape it is read
//! into and the one lookup the registry makes of it.
use vstd::prelude::*;

use crate::text::same_text;
use crate::uri::UriStyle;

verus! {

/// What the configuration says about one server. Every field is optional,
/// and an absence means the built-in default.
#[derive(Debug, Clone, PartialEq, Eq)]
pub struct ServerOverride {
    /// `Some(false)` turns the server off; anything else leaves it on.
    pub enabled: Option<bool>,
    /// A path, or a bare name looked up on PATH.
    pub program: Option<String>,
    /// Replaces the arguments entirely; an empty list is honoured.
    pub args: Option<Vec<String>>,
    /// Layered over the built-in environment; a key named here wins.
    pub env: Vec<(String, String)>,
    pub uri_style: Option<UriStyle>,
}

impl ServerOverride {
    /// Whether the configuration turned this server off.
    pub fn is_disabled(&self) -> (r: bool)
        ensures
            r == (self.enabled == Some(false)),
    {
        match self.enabled {
            Some(on) => !on,
            None => false,
        }
    }
}

/// The `lsp` block: an override per server id.
#[derive(Debug, Clone, PartialEq, Eq)]
pub struct LspConfig {
    pub servers: Vec<(String, ServerOverride)>,
}

/// The override filed under `id`: the first one, should the id repeat.
pub open spec fn first_filed(servers: Seq<(String, ServerOverride)>, id: Seq<char>) -> Option<ServerOverride>
    decreases servers.len(),
{
    if servers.len() == 0 {
        None
    } else if servers[0].0@ == id {
        Some(servers[0].1)
    } else {
        first_filed(servers.drop_first(), id)
    }
}

impl LspConfig {
    /// The override for the server with this id, if the configuration has one.
    pub fn server(&self, id: &str) -> (r: Option<&ServerOverride>)
        ensures
            match r {
                Some(o) => first_filed(self.servers@, id@) == Some(*o),
                None => first_filed(self.servers@, id@) is None,
            },
    {
        let mut i: usize = 0;
        assert(self.servers@.skip(0) =~= self.servers@);
        while i < self.servers.len()
            invariant
                i <= self.servers.len(),
                first_filed(self.servers@, id@) == first_filed(self.servers@.skip(i as int), id@),
            decreases self.servers.len() - i,
        {
            assert(self.servers@.skip(i as int).drop_first() =~= self.servers@.skip(i + 1));
            if same_text(self.servers[i].0.as_str(), id) {
                return Some(&self.servers[i].1);
            }
            i = i + 1;
        }
        None
    }
}

} // verus!
