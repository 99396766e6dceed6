//! What the client decides about one server: when its answers can be
//! believed, how long to wait for one, and what to call a failure.
//!
//! The process, the pipes and the waiting are the caller's; everything here
//! is a decision on plain values.
use vstd::prelude::*;
use vstd::string::StringSliceAdditionalSpecFns;

use crate::protocol::method;
use crate::protocol::{
    decode_message, document_end, document_end_spec, DecodeError, DidChangeTextDocumentParams,
    DidCloseTextDocumentParams, DidOpenTextDocumentParams, Position, Range, ServerCapabilities, SyncKind,
};
use crate::uri::{file_uri, to_file_uri, UriStyle};
use crate::registry::{Readiness, Timeouts, Wait};
use crate::text::{chars_of, decimal_chars, decimal_string, same_text};

verus! {

/// Roslyn's own "the projects are loaded" notification. One server's
/// extension, not part of the protocol.
pub const PROJECT_INITIALIZATION_COMPLETE: &'static str = "workspace/projectInitializationComplete";

/// How long a server may say it is still loading, in seconds. Past this it is
/// treated as ready, with a caveat.
pub const READINESS_CEILING_SECS: u64 = 90;

// ---------------------------------------------------------------------------
// Readiness
// ---------------------------------------------------------------------------

/// Whether this server's answers can be trusted yet.
#[derive(Debug, Clone, PartialEq, Eq)]
pub enum ReadyState {
    /// Still priming: requests are refused rather than answered from an
    /// incomplete index.
    Loading,
    Ready,
    /// Ready because patience ran out, not because the server said so; the
    /// reason qualifies every answer taken in this state.
    ReadyWithCaveat { detail: String },
}

impl ReadyState {
    /// Whether a request may be sent: true for both ready states, since the
    /// caveat qualifies an answer rather than withholding it.
    pub fn is_ready(&self) -> (r: bool)
        ensures
            r == !(self is Loading),
    {
        match self {
            ReadyState::Loading => false,
            _ => true,
        }
    }
}

/// One notification, as the readiness rules read it.
#[derive(Debug, Clone, PartialEq, Eq)]
pub struct Signal {
    pub method: String,
    /// The progress token, when it is a JSON string.
    pub token_text: Option<String>,
    /// The progress token's JSON spelling, so `7` and `"7"` stay apart.
    pub token_key: Option<String>,
    /// `value.kind`, when it is a string.
    pub kind: Option<String>,
    /// `value.title`, when it is a string.
    pub title: Option<String>,
}

pub open spec fn text_is(s: Option<String>, t: Seq<char>) -> bool {
    s matches Some(x) && x@ == t
}

pub open spec fn starts(s: Seq<char>, prefix: Seq<char>) -> bool {
    prefix.len() <= s.len() && s.take(prefix.len() as int) == prefix
}

/// Whether this notification is the one being waited for. Abstains on
/// anything it cannot read: a token that is not a string is no match, and
/// only an `end` ends anything.
pub open spec fn signals_ready_spec(readiness: Wait, s: Signal) -> bool {
    match readiness {
        Wait::Immediate => true,
        Wait::RoslynProjectInit => s.method@ == PROJECT_INITIALIZATION_COMPLETE@,
        Wait::FirstDiagnostics => s.method@ == method::PUBLISH_DIAGNOSTICS@,
        Wait::Progress(prefix) => s.method@ == method::PROGRESS@ && text_is(s.kind, "end"@) && (s.token_text matches Some(
            t,
        ) && starts(t@, prefix)),
        Wait::ProgressTitle(_) => false,
    }
}

pub fn starts_with(s: &str, prefix: &str) -> (r: bool)
    ensures
        r == starts(s@, prefix@),
{
    let v = chars_of(s);
    let p = chars_of(prefix);
    if p.len() > v.len() {
        return false;
    }
    let mut i: usize = 0;
    while i < p.len()
        invariant
            i <= p@.len() <= v@.len(),
            v@ == s@,
            p@ == prefix@,
            forall|k: int| 0 <= k < i ==> v@[k] == p@[k],
        decreases p@.len() - i,
    {
        if v[i] != p[i] {
            assert(v@.take(p@.len() as int)[i as int] != p@[i as int]);
            return false;
        }
        i = i + 1;
    }
    assert(v@.take(p@.len() as int) =~= p@);
    true
}

fn is_text(s: &Option<String>, t: &str) -> (r: bool)
    ensures
        r == text_is(*s, t@),
{
    match s {
        Some(x) => same_text(x.as_str(), t),
        None => false,
    }
}

pub fn signals_ready(readiness: Readiness, signal: &Signal) -> (r: bool)
    ensures
        r == signals_ready_spec(readiness@, *signal),
{
    match readiness {
        Readiness::Immediate => true,
        Readiness::RoslynProjectInit => same_text(signal.method.as_str(), PROJECT_INITIALIZATION_COMPLETE),
        Readiness::FirstDiagnostics => same_text(signal.method.as_str(), method::PUBLISH_DIAGNOSTICS),
        Readiness::Progress { token_prefix } => {
            if !same_text(signal.method.as_str(), method::PROGRESS) {
                return false;
            }
            if !is_text(&signal.kind, "end") {
                return false;
            }
            match &signal.token_text {
                Some(t) => starts_with(t.as_str(), token_prefix),
                None => false,
            }
        },
        Readiness::ProgressTitle { .. } => false,
    }
}

/// How many titled units of work are remembered at once. Past this, new
/// tokens are dropped: the earliest match is the one readiness waits for.
pub const MAX_TRACKED: usize = 64;

/// Whether a notification begins titled work: a `$/progress` `begin` with a
/// token, whose title starts with the prefix.
pub open spec fn begins(s: Signal, prefix: Seq<char>) -> bool {
    s.method@ == method::PROGRESS@ && s.token_key is Some && text_is(s.kind, "begin"@) && (s.title matches Some(t)
        && starts(t@, prefix))
}

/// The remembered tokens after a notification: a beginning of titled work is
/// remembered when there is room and it is not already.
pub open spec fn watch_step(w: Seq<Seq<char>>, prefix: Seq<char>, s: Signal) -> Seq<Seq<char>> {
    let key = s.token_key->Some_0@;
    if begins(s, prefix) && w.len() < MAX_TRACKED && !w.contains(key) {
        w.push(key)
    } else {
        w
    }
}

/// Whether a notification ends remembered work: a `$/progress` `end` whose
/// token was remembered.
pub open spec fn ends_watched(w: Seq<Seq<char>>, s: Signal) -> bool {
    s.method@ == method::PROGRESS@ && s.token_key is Some && text_is(s.kind, "end"@) && w.contains(
        s.token_key->Some_0@,
    )
}

/// Pairs a `$/progress` `end` with the `begin` that named the work: an `end`
/// carries no title, so what ended is known only by remembering the token.
#[derive(Debug, Clone, PartialEq, Eq)]
pub struct TitledProgress {
    title_prefix: &'static str,
    watching: Vec<String>,
}

impl TitledProgress {
    /// What a matching `begin`'s title starts with.
    pub closed spec fn prefix(&self) -> Seq<char> {
        self.title_prefix@
    }

    /// The tokens whose `begin` matched, awaiting their `end`.
    pub closed spec fn watching(&self) -> Seq<Seq<char>> {
        self.watching@.map_values(|t: String| t@)
    }

    /// Each token once, and never more than [`MAX_TRACKED`].
    pub closed spec fn wf(&self) -> bool {
        &&& self.watching@.len() <= MAX_TRACKED
        &&& self.watching().no_duplicates()
    }

    pub fn new(title_prefix: &'static str) -> (r: Self)
        ensures
            r.wf(),
            r.prefix() == title_prefix@,
            r.watching() == Seq::<Seq<char>>::empty(),
    {
        let r = TitledProgress { title_prefix, watching: Vec::new() };
        assert(r.watching() =~= Seq::<Seq<char>>::empty());
        r
    }

    fn holds(&self, key: &str) -> (r: bool)
        ensures
            r == self.watching().contains(key@),
    {
        let mut i: usize = 0;
        while i < self.watching.len()
            invariant
                i <= self.watching@.len(),
                forall|k: int| 0 <= k < i ==> self.watching@[k]@ != key@,
            decreases self.watching@.len() - i,
        {
            if same_text(self.watching[i].as_str(), key) {
                assert(self.watching()[i as int] == key@);
                return true;
            }
            i = i + 1;
        }
        proof {
            if self.watching().contains(key@) {
                let k = choose|k: int| 0 <= k < self.watching().len() && self.watching()[k] == key@;
                assert(self.watching@[k]@ == key@);
            }
        }
        false
    }

    /// Whether this notification ends the titled work. A `begin` whose title
    /// matches is remembered, room permitting, and is never itself a match;
    /// an `end` matches exactly when its token was remembered.
    pub fn matches(&mut self, signal: &Signal) -> (r: bool)
        requires
            old(self).wf(),
        ensures
            final(self).wf(),
            final(self).prefix() == old(self).prefix(),
            r == ends_watched(old(self).watching(), *signal),
            final(self).watching() == watch_step(old(self).watching(), old(self).prefix(), *signal),
    {
        proof {
            reveal_strlit("begin");
            reveal_strlit("end");
        }
        if !same_text(signal.method.as_str(), method::PROGRESS) {
            return false;
        }
        let key = match &signal.token_key {
            Some(k) => k,
            None => {
                return false;
            },
        };
        if is_text(&signal.kind, "begin") {
            let titled = match &signal.title {
                Some(t) => starts_with(t.as_str(), self.title_prefix),
                None => false,
            };
            if titled && self.watching.len() < MAX_TRACKED && !self.holds(key.as_str()) {
                let ghost before = self.watching();
                self.watching.push(key.clone());
                proof {
                    assert(self.watching() =~= before.push(key@));
                    assert forall|a: int, b: int| 0 <= a < b < self.watching().len() implies self.watching()[a]
                        != self.watching()[b] by {
                        if b == before.len() {
                            assert(self.watching()[a] == before[a]);
                        }
                    }
                }
            }
            assert("begin"@.len() == 5);
            assert("end"@.len() == 3);
            assert(!text_is(signal.kind, "end"@));
            return false;
        }
        if is_text(&signal.kind, "end") {
            return self.holds(key.as_str());
        }
        false
    }
}

/// What the ceiling gave up waiting for, in the caveat's own words.
pub open spec fn awaited_spec(readiness: Wait) -> Seq<char> {
    match readiness {
        Wait::Immediate => "anything (it was ready already)"@,
        Wait::RoslynProjectInit => "`"@ + PROJECT_INITIALIZATION_COMPLETE@ + "`"@,
        Wait::FirstDiagnostics => "any `"@ + method::PUBLISH_DIAGNOSTICS@ + "`"@,
        Wait::Progress(prefix) => "a `"@ + method::PROGRESS@ + "` end for a token beginning `"@ + prefix + "`"@,
        Wait::ProgressTitle(prefix) => "a `"@ + method::PROGRESS@ + "` end for the work titled `"@ + prefix + "`"@,
    }
}

pub fn awaited_signal(readiness: Readiness) -> (r: String)
    ensures
        r@ == awaited_spec(readiness@),
{
    match readiness {
        Readiness::Immediate => "anything (it was ready already)".to_owned(),
        Readiness::RoslynProjectInit => {
            let mut m = "`".to_owned();
            m.append(PROJECT_INITIALIZATION_COMPLETE);
            m.append("`");
            m
        },
        Readiness::FirstDiagnostics => {
            let mut m = "any `".to_owned();
            m.append(method::PUBLISH_DIAGNOSTICS);
            m.append("`");
            m
        },
        Readiness::Progress { token_prefix } => {
            let mut m = "a `".to_owned();
            m.append(method::PROGRESS);
            m.append("` end for a token beginning `");
            m.append(token_prefix);
            m.append("`");
            m
        },
        Readiness::ProgressTitle { title_prefix } => {
            let mut m = "a `".to_owned();
            m.append(method::PROGRESS);
            m.append("` end for the work titled `");
            m.append(title_prefix);
            m.append("`");
            m
        },
    }
}

// ---------------------------------------------------------------------------
// Failures
// ---------------------------------------------------------------------------

/// Why a request to a running server got no answer.
#[derive(Debug, Clone, PartialEq, Eq)]
pub enum RequestFailure {
    /// No answer within the budget, in milliseconds.
    TimedOut { after_ms: u64 },
    /// The server died before answering.
    Died,
    /// The request was cancelled before an answer arrived.
    Cancelled,
    /// The server answered with an error.
    Server { code: i64, message: String },
    /// The answer arrived and could not be read.
    Malformed { method: String, detail: String },
}

pub open spec fn failure_message(f: RequestFailure) -> Seq<char> {
    match f {
        RequestFailure::TimedOut { after_ms } => "no answer within "@ + decimal_chars(after_ms as nat) + " ms"@,
        RequestFailure::Died => "the server died before answering"@,
        RequestFailure::Cancelled => "the request was cancelled"@,
        RequestFailure::Server { code, message } => "the server answered with an error: "@ + message@,
        RequestFailure::Malformed { method, detail } => "the answer to "@ + method@ + " could not be read: "@ + detail@,
    }
}

impl RequestFailure {
    /// The failure as a sentence.
    pub fn to_string(&self) -> (r: String)
        ensures
            r@ == failure_message(*self),
    {
        match self {
            RequestFailure::TimedOut { after_ms } => {
                let mut m = "no answer within ".to_owned();
                m.append(decimal_string(*after_ms).as_str());
                m.append(" ms");
                m
            },
            RequestFailure::Died => "the server died before answering".to_owned(),
            RequestFailure::Cancelled => "the request was cancelled".to_owned(),
            RequestFailure::Server { message, .. } => {
                let mut m = "the server answered with an error: ".to_owned();
                m.append(message.as_str());
                m
            },
            RequestFailure::Malformed { method, detail } => {
                let mut m = "the answer to ".to_owned();
                m.append(method.as_str());
                m.append(" could not be read: ");
                m.append(detail.as_str());
                m
            },
        }
    }
}

/// Why a question was not answered. None of these may ever become an empty
/// successful result.
#[derive(Debug, Clone, PartialEq, Eq)]
pub enum RequestError {
    /// The server never advertised this capability.
    Unsupported { method: &'static str, capability: &'static str },
    /// The server is up but still priming; `waited_ms` is how long was spent
    /// waiting.
    StillLoading { method: &'static str, waited_ms: u64 },
    /// Timed out, died, was cancelled, errored, or answered unreadably.
    Failed { method: &'static str, failure: RequestFailure },
    /// The path cannot be spelled as a `file:` URI.
    UnusableUri { path: String },
    /// The document was never opened on this server.
    NotOpen { path: String },
}

pub open spec fn request_message(e: RequestError) -> Seq<char> {
    match e {
        RequestError::Unsupported { method, capability } => "this server does not support "@ + method@
            + ": it did not advertise `"@ + capability@ + "`"@,
        RequestError::StillLoading { method, waited_ms } => "the server is still loading, so "@ + method@
            + " was not asked (waited "@ + decimal_chars(waited_ms as nat) + " ms)"@,
        RequestError::Failed { method, failure } => method@ + " could not be answered: "@ + failure_message(failure),
        RequestError::UnusableUri { path } => path@
            + " cannot be expressed as a file: URI, so no server can be asked about it"@,
        RequestError::NotOpen { path } => path@
            + " has not been opened on this server, so it cannot be changed or closed"@,
    }
}

impl RequestError {
    /// The refusal as a sentence a user can be shown.
    pub fn to_string(&self) -> (r: String)
        ensures
            r@ == request_message(*self),
    {
        match self {
            RequestError::Unsupported { method, capability } => {
                let mut m = "this server does not support ".to_owned();
                m.append(method);
                m.append(": it did not advertise `");
                m.append(capability);
                m.append("`");
                m
            },
            RequestError::StillLoading { method, waited_ms } => {
                let mut m = "the server is still loading, so ".to_owned();
                m.append(method);
                m.append(" was not asked (waited ");
                m.append(decimal_string(*waited_ms).as_str());
                m.append(" ms)");
                m
            },
            RequestError::Failed { method, failure } => {
                let mut m = String::new();
                m.append(method);
                m.append(" could not be answered: ");
                m.append(failure.to_string().as_str());
                m
            },
            RequestError::UnusableUri { path } => {
                let mut m = path.clone();
                m.append(" cannot be expressed as a file: URI, so no server can be asked about it");
                m
            },
            RequestError::NotOpen { path } => {
                let mut m = path.clone();
                m.append(" has not been opened on this server, so it cannot be changed or closed");
                m
            },
        }
    }
}

/// A decode failure renamed after the request that was actually made: one
/// decoder serves four requests and cannot name which one it decoded, so its
/// own `what` is dropped and its detail kept.
pub fn malformed(method: &'static str, error: DecodeError) -> (r: RequestError)
    ensures
        match error {
            DecodeError::Shape { detail, .. } => r == (RequestError::Failed {
                method,
                failure: RequestFailure::Malformed { method: r->failure->Malformed_method, detail },
            }) && r->failure->Malformed_method@ == method@,
        },
{
    match error {
        DecodeError::Shape { detail, .. } => RequestError::Failed {
            method,
            failure: RequestFailure::Malformed { method: method.to_string(), detail },
        },
    }
}

/// The deadline for one request, in seconds: the first answer waits for
/// project load as well, the rest do not, and a larger budget is never
/// shortened.
pub fn deadline_for(timeouts: &Timeouts, base: u64, first: bool) -> (r: u64)
    ensures
        r == if first && timeouts.first_request > base {
            timeouts.first_request
        } else {
            base
        },
{
    if first && timeouts.first_request > base {
        timeouts.first_request
    } else {
        base
    }
}

// ---------------------------------------------------------------------------
// Watching for readiness
// ---------------------------------------------------------------------------

/// The state a server starts in: one that waits for nothing is ready at
/// once, and needs no watcher.
pub fn initial_readiness(readiness: Readiness) -> (r: ReadyState)
    ensures
        readiness is Immediate ==> r == ReadyState::Ready,
        !(readiness is Immediate) ==> r == ReadyState::Loading,
{
    match readiness {
        Readiness::Immediate => ReadyState::Ready,
        _ => ReadyState::Loading,
    }
}

/// What the watcher learns while it waits.
#[derive(Debug, Clone, Copy, PartialEq, Eq, Structural)]
pub enum WatchEvent {
    /// The notifications settled the question: `true` when the signal was
    /// seen, `false` when the stream closed without it.
    Signalled(bool),
    /// The ceiling passed.
    CeilingReached,
    /// The server died.
    Died,
}

/// What the watcher tells the world, short of the caveat's wording.
#[derive(Debug, Clone, Copy, PartialEq, Eq, Structural)]
pub enum Publication {
    Ready,
    Caveat,
}

/// The readiness watcher. The ceiling is not the end of the wait: a server
/// that takes longer still finishes loading, and the caveat is then
/// withdrawn. Death ends the wait and publishes nothing, because a corpse is
/// not ready, with or without a caveat.
#[derive(Debug, Clone, Copy, PartialEq, Eq, Structural)]
pub struct ReadinessWatch {
    /// The caveat has been published.
    pub caveated: bool,
    /// The watch is over.
    pub finished: bool,
}

pub open spec fn watch_next(w: ReadinessWatch, e: WatchEvent) -> ReadinessWatch {
    if w.finished {
        w
    } else {
        match e {
            WatchEvent::Signalled(_) => ReadinessWatch { caveated: w.caveated, finished: true },
            WatchEvent::CeilingReached => ReadinessWatch { caveated: true, finished: false },
            WatchEvent::Died => ReadinessWatch { caveated: w.caveated, finished: true },
        }
    }
}

pub open spec fn watch_publication(w: ReadinessWatch, e: WatchEvent) -> Option<Publication> {
    if w.finished {
        None
    } else {
        match e {
            WatchEvent::Signalled(seen) => if seen {
                Some(Publication::Ready)
            } else {
                None
            },
            WatchEvent::CeilingReached => if w.caveated {
                None
            } else {
                Some(Publication::Caveat)
            },
            WatchEvent::Died => None,
        }
    }
}

/// Everything a watcher publishes over a run of events, in order.
pub open spec fn watch_run(w: ReadinessWatch, events: Seq<WatchEvent>) -> Seq<Publication>
    decreases events.len(),
{
    if events.len() == 0 {
        Seq::empty()
    } else {
        let first = match watch_publication(w, events[0]) {
            Some(p) => seq![p],
            None => Seq::empty(),
        };
        first + watch_run(watch_next(w, events[0]), events.drop_first())
    }
}

/// The caveat's words: what was awaited, and for how long.
pub open spec fn caveat_detail(readiness: Wait, ceiling_secs: u64) -> Seq<char> {
    "the server did not send "@ + awaited_spec(readiness) + " within "@ + decimal_chars(ceiling_secs as nat)
        + "s. It is being treated as ready, so its answers may be incomplete."@
}

impl ReadinessWatch {
    pub fn new() -> (r: Self)
        ensures
            !r.caveated && !r.finished,
    {
        ReadinessWatch { caveated: false, finished: false }
    }

    /// Take one event, and say what, if anything, to publish.
    pub fn step(&mut self, event: WatchEvent, readiness: Readiness, ceiling_secs: u64) -> (r: Option<ReadyState>)
        ensures
            *final(self) == watch_next(*old(self), event),
            match watch_publication(*old(self), event) {
                None => r is None,
                Some(Publication::Ready) => r == Some(ReadyState::Ready),
                Some(Publication::Caveat) => r matches Some(ReadyState::ReadyWithCaveat { detail })
                    && detail@ == caveat_detail(readiness@, ceiling_secs),
            },
    {
        if self.finished {
            return None;
        }
        match event {
            WatchEvent::Signalled(seen) => {
                self.finished = true;
                if seen {
                    Some(ReadyState::Ready)
                } else {
                    None
                }
            },
            WatchEvent::CeilingReached => {
                if self.caveated {
                    return None;
                }
                self.caveated = true;
                let mut detail = "the server did not send ".to_owned();
                detail.append(awaited_signal(readiness).as_str());
                detail.append(" within ");
                detail.append(decimal_string(ceiling_secs).as_str());
                detail.append("s. It is being treated as ready, so its answers may be incomplete.");
                Some(ReadyState::ReadyWithCaveat { detail })
            },
            WatchEvent::Died => {
                self.finished = true;
                None
            },
        }
    }
}

// ---------------------------------------------------------------------------
// Bringing a server up
// ---------------------------------------------------------------------------

/// Why a server could not be brought up. Each variant is a different thing to
/// tell somebody, and three of them are the server's fault rather than ours.
#[derive(Debug, PartialEq, Eq)]
pub enum StartFailure {
    Spawn(String),
    RootNotUsable { root: String },
    Handshake(RequestFailure),
    Capabilities(DecodeError),
    UnsupportedEncoding { encoding: String },
    NoDocumentSync,
}

pub open spec fn start_message(f: StartFailure) -> Seq<char> {
    match f {
        StartFailure::Spawn(m) => "the language server could not be started: "@ + m@,
        StartFailure::RootNotUsable { root } => root@
            + " cannot be expressed as a file: URI, so the server cannot be told which folder to open"@,
        StartFailure::Handshake(failure) => "the server did not complete `initialize`: "@ + failure_message(failure),
        StartFailure::Capabilities(e) => "the server's `initialize` result could not be read: "@ + decode_message(e),
        StartFailure::UnsupportedEncoding { encoding } => "the server insists on `"@ + encoding@
            + "` positions; this client speaks utf-16 only, and every column on every non-ASCII line would be wrong"@,
        StartFailure::NoDocumentSync =>
            "the server does not accept document synchronisation, so nothing it says about an open buffer can be trusted"@,
    }
}

impl StartFailure {
    /// The refusal as a sentence a user can be shown.
    pub fn to_string(&self) -> (r: String)
        ensures
            r@ == start_message(*self),
    {
        match self {
            StartFailure::Spawn(m) => {
                let mut t = "the language server could not be started: ".to_owned();
                t.append(m.as_str());
                t
            },
            StartFailure::RootNotUsable { root } => {
                let mut t = root.clone();
                t.append(" cannot be expressed as a file: URI, so the server cannot be told which folder to open");
                t
            },
            StartFailure::Handshake(failure) => {
                let mut t = "the server did not complete `initialize`: ".to_owned();
                t.append(failure.to_string().as_str());
                t
            },
            StartFailure::Capabilities(e) => {
                let mut t = "the server's `initialize` result could not be read: ".to_owned();
                t.append(e.to_string().as_str());
                t
            },
            StartFailure::UnsupportedEncoding { encoding } => {
                let mut t = "the server insists on `".to_owned();
                t.append(encoding.as_str());
                t.append(
                    "` positions; this client speaks utf-16 only, and every column on every non-ASCII line would be wrong",
                );
                t
            },
            StartFailure::NoDocumentSync => {
                "the server does not accept document synchronisation, so nothing it says about an open buffer can be trusted".to_owned()
            },
        }
    }
}

/// The workspace root as the URI the server is told to open.
pub fn root_uri_for(root: &str, style: UriStyle) -> (r: Result<String, StartFailure>)
    ensures
        match file_uri(root.spec_bytes(), style) {
            Some(u) => r matches Ok(s) && s@ == u,
            None => r matches Err(StartFailure::RootNotUsable { root: p }) && p@ == root@,
        },
{
    match to_file_uri(root, style) {
        Some(u) => Ok(u),
        None => Err(StartFailure::RootNotUsable { root: root.to_owned() }),
    }
}

/// Whether the positions a server counts in are the UTF-16 units this client
/// counts in: silence is the protocol default, and so a yes.
pub open spec fn speaks_utf16(encoding: Option<String>) -> bool {
    match encoding {
        None => true,
        Some(e) => e@ == "utf-16"@,
    }
}

/// The two handshake answers that condemn a whole server rather than one
/// feature: positions counted in anything but UTF-16 would put every column
/// on every non-ASCII line in the wrong place, and a server that takes no
/// document sync cannot be kept in step with a buffer.
pub fn accept_capabilities(caps: &ServerCapabilities) -> (r: Result<(), StartFailure>)
    ensures
        !speaks_utf16(caps.position_encoding) ==> (r matches Err(StartFailure::UnsupportedEncoding { encoding })
            && encoding@ == caps.position_encoding->Some_0@),
        speaks_utf16(caps.position_encoding) && caps.sync == SyncKind::NotSynced ==> r == Err::<
            (),
            StartFailure,
        >(StartFailure::NoDocumentSync),
        speaks_utf16(caps.position_encoding) && caps.sync != SyncKind::NotSynced ==> r is Ok,
{
    if !caps.encoding_is_utf16() {
        let encoding = match &caps.position_encoding {
            Some(e) => e.clone(),
            None => "an unnamed encoding".to_owned(),
        };
        return Err(StartFailure::UnsupportedEncoding { encoding });
    }
    match caps.sync {
        SyncKind::NotSynced => Err(StartFailure::NoDocumentSync),
        _ => Ok(()),
    }
}

// ---------------------------------------------------------------------------
// The questions
// ---------------------------------------------------------------------------

/// The five things a server is asked.
#[derive(Debug, Clone, Copy, PartialEq, Eq, Structural)]
pub enum Question {
    References,
    Definition,
    Implementation,
    TypeDefinition,
    DocumentSymbol,
}

pub open spec fn question_method(q: Question) -> Seq<char> {
    match q {
        Question::References => method::REFERENCES@,
        Question::Definition => method::DEFINITION@,
        Question::Implementation => method::IMPLEMENTATION@,
        Question::TypeDefinition => method::TYPE_DEFINITION@,
        Question::DocumentSymbol => method::DOCUMENT_SYMBOL@,
    }
}

pub open spec fn question_capability(q: Question) -> Seq<char> {
    match q {
        Question::References => "referencesProvider"@,
        Question::Definition => "definitionProvider"@,
        Question::Implementation => "implementationProvider"@,
        Question::TypeDefinition => "typeDefinitionProvider"@,
        Question::DocumentSymbol => "documentSymbolProvider"@,
    }
}

/// Whether the handshake advertised the provider a question needs.
pub open spec fn provided_spec(caps: ServerCapabilities, q: Question) -> bool {
    match q {
        Question::References => caps.references,
        Question::Definition => caps.definition,
        Question::Implementation => caps.implementation,
        Question::TypeDefinition => caps.type_definition,
        Question::DocumentSymbol => caps.document_symbol,
    }
}

impl Question {
    /// The request's method name.
    pub fn method(self) -> (r: &'static str)
        ensures
            r@ == question_method(self),
    {
        match self {
            Question::References => method::REFERENCES,
            Question::Definition => method::DEFINITION,
            Question::Implementation => method::IMPLEMENTATION,
            Question::TypeDefinition => method::TYPE_DEFINITION,
            Question::DocumentSymbol => method::DOCUMENT_SYMBOL,
        }
    }

    /// The capability that has to have been advertised.
    pub fn capability(self) -> (r: &'static str)
        ensures
            r@ == question_capability(self),
    {
        match self {
            Question::References => "referencesProvider",
            Question::Definition => "definitionProvider",
            Question::Implementation => "implementationProvider",
            Question::TypeDefinition => "typeDefinitionProvider",
            Question::DocumentSymbol => "documentSymbolProvider",
        }
    }

    /// The budget the question gets once the first answer has been paid for,
    /// in seconds: a document's symbols have a budget of their own.
    pub fn budget(self, timeouts: &Timeouts) -> (r: u64)
        ensures
            r == if self is DocumentSymbol {
                timeouts.document_symbol
            } else {
                timeouts.request
            },
    {
        match self {
            Question::DocumentSymbol => timeouts.document_symbol,
            _ => timeouts.request,
        }
    }
}

/// A request whose provider is absent is refused before anything is sent:
/// "this server does not provide it" and "there are none" are different claims.
pub fn require(provided: bool, method: &'static str, capability: &'static str) -> (r: Result<(), RequestError>)
    ensures
        provided ==> r is Ok,
        !provided ==> r == Err::<(), RequestError>(RequestError::Unsupported { method, capability }),
{
    if provided {
        return Ok(());
    }
    Err(RequestError::Unsupported { method, capability })
}

/// The capability gate for one of the five questions.
pub fn gate(caps: &ServerCapabilities, question: Question) -> (r: Result<(), RequestError>)
    ensures
        provided_spec(*caps, question) ==> r is Ok,
        !provided_spec(*caps, question) ==> (r matches Err(RequestError::Unsupported { method, capability })
            && method@ == question_method(question) && capability@ == question_capability(question)),
{
    let provided = match question {
        Question::References => caps.references,
        Question::Definition => caps.definition,
        Question::Implementation => caps.implementation,
        Question::TypeDefinition => caps.type_definition,
        Question::DocumentSymbol => caps.document_symbol,
    };
    require(provided, question.method(), question.capability())
}

/// The `file:` URI a document is asked about under.
pub fn uri_for(path: &str, style: UriStyle) -> (r: Result<String, RequestError>)
    ensures
        match file_uri(path.spec_bytes(), style) {
            Some(u) => r matches Ok(s) && s@ == u,
            None => r matches Err(RequestError::UnusableUri { path: p }) && p@ == path@,
        },
{
    match to_file_uri(path, style) {
        Some(u) => Ok(u),
        None => Err(RequestError::UnusableUri { path: path.to_owned() }),
    }
}

// ---------------------------------------------------------------------------
// The document mirror
// ---------------------------------------------------------------------------

/// What was last sent about one document: the version the next edit must
/// advance past, and the end of the text the server now holds, which is what
/// the next edit replaces.
#[derive(Debug, Clone, Copy, PartialEq, Eq, Structural)]
pub struct Sent {
    pub version: i32,
    pub end: Position,
}

/// The table after `text` went out for `path` under `version`.
pub open spec fn recorded(m: Map<Seq<char>, Sent>, path: Seq<char>, text: Seq<char>, version: i32) -> Map<
    Seq<char>,
    Sent,
> {
    m.insert(path, Sent { version, end: document_end_spec(text) })
}

/// A whole-document change of `text` under `version`, replacing the buffer the
/// server holds, which ends at `previous_end`.
pub open spec fn is_change(
    c: DidChangeTextDocumentParams,
    uri: Seq<char>,
    version: i32,
    previous_end: Position,
    text: Seq<char>,
) -> bool {
    &&& c.text_document.uri@ == uri
    &&& c.text_document.version == version
    &&& c.content_changes@.len() == 1
    &&& c.content_changes@[0].range == (Range { start: Position { line: 0, character: 0 }, end: previous_end })
    &&& c.content_changes@[0].text@ == text
}

pub open spec fn is_open(
    o: DidOpenTextDocumentParams,
    uri: Seq<char>,
    language_id: Seq<char>,
    version: i32,
    text: Seq<char>,
) -> bool {
    &&& o.text_document.uri@ == uri
    &&& o.text_document.language_id@ == language_id
    &&& o.text_document.version == version
    &&& o.text_document.text@ == text
}

/// What opening a document comes to: an open, or, for a document that is
/// already open, a change, since opening twice breaks the protocol.
#[derive(Debug, Clone)]
pub enum OpenNotice {
    Open(DidOpenTextDocumentParams),
    Change(DidChangeTextDocumentParams),
}

/// What this client last told the server about each open document, keyed by
/// the caller's spelling of the path. The versions are the caller's: this
/// records what was sent, and hands back the extent each edit replaces.
pub struct SentDocuments {
    entries: Vec<(String, Sent)>,
    table: Ghost<Map<Seq<char>, Sent>>,
}

impl View for SentDocuments {
    type V = Map<Seq<char>, Sent>;

    closed spec fn view(&self) -> Map<Seq<char>, Sent> {
        self.table@
    }
}

impl SentDocuments {
    /// Each path once, and the table is exactly the entries.
    pub closed spec fn wf(&self) -> bool {
        &&& forall|i: int, j: int|
            0 <= i < j < self.entries@.len() ==> #[trigger] self.entries@[i].0@ != #[trigger] self.entries@[j].0@
        &&& forall|i: int|
            0 <= i < self.entries@.len() ==> self.table@.contains_key(#[trigger] self.entries@[i].0@)
                && self.table@[self.entries@[i].0@] == self.entries@[i].1
        &&& forall|k: Seq<char>|
            #[trigger] self.table@.contains_key(k) ==> exists|i: int|
                0 <= i < self.entries@.len() && #[trigger] self.entries@[i].0@ == k
    }

    pub fn new() -> (r: Self)
        ensures
            r.wf(),
            r@ == Map::<Seq<char>, Sent>::empty(),
    {
        SentDocuments { entries: Vec::new(), table: Ghost(Map::empty()) }
    }

    fn find(&self, path: &str) -> (r: Option<usize>)
        requires
            self.wf(),
        ensures
            match r {
                Some(i) => i < self.entries@.len() && self.entries@[i as int].0@ == path@,
                None => !self@.contains_key(path@),
            },
    {
        let mut i: usize = 0;
        while i < self.entries.len()
            invariant
                i <= self.entries@.len(),
                forall|k: int| 0 <= k < i ==> self.entries@[k].0@ != path@,
            decreases self.entries@.len() - i,
        {
            if same_text(self.entries[i].0.as_str(), path) {
                return Some(i);
            }
            i = i + 1;
        }
        proof {
            if self@.contains_key(path@) {
                let k = choose|k: int| 0 <= k < self.entries@.len() && #[trigger] self.entries@[k].0@ == path@;
                assert(self.entries@[k].0@ == path@);
            }
        }
        None
    }

    /// Which version the server was last told about, if the document is open.
    pub fn version(&self, path: &str) -> (r: Option<i32>)
        requires
            self.wf(),
        ensures
            r == if self@.contains_key(path@) {
                Some(self@[path@].version)
            } else {
                None
            },
    {
        match self.find(path) {
            Some(i) => {
                assert(self.table@.contains_key(self.entries@[i as int].0@));
                Some(self.entries[i].1.version)
            },
            None => None,
        }
    }

    fn put(&mut self, at: Option<usize>, path: &str, sent: Sent)
        requires
            old(self).wf(),
            match at {
                Some(i) => i < old(self).entries@.len() && old(self).entries@[i as int].0@ == path@,
                None => !old(self)@.contains_key(path@),
            },
        ensures
            final(self).wf(),
            final(self)@ == old(self)@.insert(path@, sent),
    {
        let ghost before = self.entries@;
        let ghost t = self.table@.insert(path@, sent);
        match at {
            Some(i) => {
                self.entries.set(i, (path.to_owned(), sent));
                self.table = Ghost(t);
                assert forall|j: int| 0 <= j < self.entries@.len() implies self.table@.contains_key(
                    #[trigger] self.entries@[j].0@,
                ) && self.table@[self.entries@[j].0@] == self.entries@[j].1 by {
                    if j != i {
                        assert(before[j].0@ != path@);
                    }
                }
                assert forall|k: Seq<char>| #[trigger] self.table@.contains_key(k) implies exists|j: int|
                    0 <= j < self.entries@.len() && #[trigger] self.entries@[j].0@ == k by {
                    if k == path@ {
                        assert(self.entries@[i as int].0@ == k);
                    } else {
                        let j = choose|j: int| 0 <= j < before.len() && #[trigger] before[j].0@ == k;
                        assert(self.entries@[j].0@ == k);
                    }
                }
            },
            None => {
                self.entries.push((path.to_owned(), sent));
                self.table = Ghost(t);
                let ghost n = before.len() as int;
                assert forall|a: int, b: int| 0 <= a < b < self.entries@.len() implies #[trigger] self.entries@[a].0@
                    != #[trigger] self.entries@[b].0@ by {
                    if b == n {
                        assert(before[a].0@ != path@) by {
                            if before[a].0@ == path@ {
                                assert(old(self).table@.contains_key(before[a].0@));
                            }
                        }
                    } else {
                        assert(self.entries@[a] == before[a] && self.entries@[b] == before[b]);
                    }
                }
                assert forall|j: int| 0 <= j < self.entries@.len() implies self.table@.contains_key(
                    #[trigger] self.entries@[j].0@,
                ) && self.table@[self.entries@[j].0@] == self.entries@[j].1 by {
                    if j < n {
                        assert(self.entries@[j] == before[j]);
                        assert(old(self).table@.contains_key(before[j].0@));
                        assert(before[j].0@ != path@);
                    }
                }
                assert forall|k: Seq<char>| #[trigger] self.table@.contains_key(k) implies exists|j: int|
                    0 <= j < self.entries@.len() && #[trigger] self.entries@[j].0@ == k by {
                    if k == path@ {
                        assert(self.entries@[n].0@ == k);
                    } else {
                        let j = choose|j: int| 0 <= j < before.len() && #[trigger] before[j].0@ == k;
                        assert(self.entries@[j] == before[j]);
                    }
                }
            },
        }
    }

    fn forget(&mut self, i: usize)
        requires
            old(self).wf(),
            i < old(self).entries@.len(),
        ensures
            final(self).wf(),
            final(self)@ == old(self)@.remove(old(self).entries@[i as int].0@),
    {
        let ghost before = self.entries@;
        let ghost key = before[i as int].0@;
        let ghost t = self.table@.remove(key);
        self.entries.remove(i);
        self.table = Ghost(t);
        assert(self.entries@ == before.remove(i as int));
        assert forall|a: int, b: int| 0 <= a < b < self.entries@.len() implies #[trigger] self.entries@[a].0@
            != #[trigger] self.entries@[b].0@ by {
            let a0 = if a < i { a } else { a + 1 };
            let b0 = if b < i { b } else { b + 1 };
            assert(self.entries@[a] == before[a0] && self.entries@[b] == before[b0]);
            assert(before[a0].0@ != before[b0].0@);
        }
        assert forall|j: int| 0 <= j < self.entries@.len() implies self.table@.contains_key(
            #[trigger] self.entries@[j].0@,
        ) && self.table@[self.entries@[j].0@] == self.entries@[j].1 by {
            let j0 = if j < i { j } else { j + 1 };
            assert(self.entries@[j] == before[j0]);
            assert(old(self).table@.contains_key(before[j0].0@));
            assert(before[j0].0@ != key);
        }
        assert forall|k: Seq<char>| #[trigger] self.table@.contains_key(k) implies exists|j: int|
            0 <= j < self.entries@.len() && #[trigger] self.entries@[j].0@ == k by {
            let j0 = choose|j: int| 0 <= j < before.len() && #[trigger] before[j].0@ == k;
            assert(j0 != i);
            let j = if j0 < i { j0 } else { j0 - 1 };
            assert(self.entries@[j] == before[j0]);
        }
    }

    /// Replace what the server has for an open document with `text`, under
    /// `version`. The range replaced is the extent of the text last sent,
    /// which is what the server holds; a document never opened is refused,
    /// and the table is left as it was.
    pub fn did_change(&mut self, path: &str, style: UriStyle, text: &str, version: i32) -> (r: Result<
        DidChangeTextDocumentParams,
        RequestError,
    >)
        requires
            old(self).wf(),
        ensures
            final(self).wf(),
            match file_uri(path.spec_bytes(), style) {
                None => r matches Err(RequestError::UnusableUri { path: p }) && p@ == path@ && final(self)@ == old(
                    self,
                )@,
                Some(u) => if old(self)@.contains_key(path@) {
                    r matches Ok(c) && is_change(c, u, version, old(self)@[path@].end, text@) && final(self)@
                        == recorded(old(self)@, path@, text@, version)
                } else {
                    r matches Err(RequestError::NotOpen { path: p }) && p@ == path@ && final(self)@ == old(self)@
                },
            },
    {
        let uri = uri_for(path, style)?;
        let at = self.find(path);
        match at {
            None => Err(RequestError::NotOpen { path: path.to_owned() }),
            Some(i) => {
                let previous_end = self.entries[i].1.end;
                proof {
                    assert(self.table@.contains_key(self.entries@[i as int].0@));
                }
                self.put(at, path, Sent { version, end: document_end(text) });
                Ok(DidChangeTextDocumentParams::whole_document(uri.as_str(), version, previous_end, text))
            },
        }
    }

    /// Tell the server about a document and its text, under `version`.
    pub fn did_open(&mut self, path: &str, style: UriStyle, language_id: &str, text: &str, version: i32) -> (r:
        Result<OpenNotice, RequestError>)
        requires
            old(self).wf(),
        ensures
            final(self).wf(),
            match file_uri(path.spec_bytes(), style) {
                None => r matches Err(RequestError::UnusableUri { path: p }) && p@ == path@ && final(self)@ == old(
                    self,
                )@,
                Some(u) => final(self)@ == recorded(old(self)@, path@, text@, version) && if old(self)@.contains_key(
                    path@,
                ) {
                    r matches Ok(OpenNotice::Change(c)) && is_change(c, u, version, old(self)@[path@].end, text@)
                } else {
                    r matches Ok(OpenNotice::Open(o)) && is_open(o, u, language_id@, version, text@)
                },
            },
    {
        let uri = uri_for(path, style)?;
        let at = self.find(path);
        match at {
            Some(_) => {
                let c = self.did_change(path, style, text, version)?;
                Ok(OpenNotice::Change(c))
            },
            None => {
                let o = DidOpenTextDocumentParams::new(uri.as_str(), language_id, version, text);
                self.put(at, path, Sent { version, end: document_end(text) });
                Ok(OpenNotice::Open(o))
            },
        }
    }

    /// Tell the server to forget a document: it goes back to the file on disk.
    pub fn did_close(&mut self, path: &str, style: UriStyle) -> (r: Result<DidCloseTextDocumentParams, RequestError>)
        requires
            old(self).wf(),
        ensures
            final(self).wf(),
            match file_uri(path.spec_bytes(), style) {
                None => r matches Err(RequestError::UnusableUri { path: p }) && p@ == path@ && final(self)@ == old(
                    self,
                )@,
                Some(u) => if old(self)@.contains_key(path@) {
                    r matches Ok(c) && c.text_document.uri@ == u && final(self)@ == old(self)@.remove(path@)
                } else {
                    r matches Err(RequestError::NotOpen { path: p }) && p@ == path@ && final(self)@ == old(self)@
                },
            },
    {
        let uri = uri_for(path, style)?;
        match self.find(path) {
            None => Err(RequestError::NotOpen { path: path.to_owned() }),
            Some(i) => {
                self.forget(i);
                Ok(DidCloseTextDocumentParams::new(uri.as_str()))
            },
        }
    }
}

// ---------------------------------------------------------------------------
// Laws
// ---------------------------------------------------------------------------

/// What a run of the watcher publishes when it has stopped, when it has
/// published the caveat and goes on, and when it has published nothing yet.
pub open spec fn run_bounds(w: ReadinessWatch, out: Seq<Publication>) -> bool {
    if w.finished {
        out.len() == 0
    } else if w.caveated {
        out.len() == 0 || out == seq![Publication::Ready]
    } else {
        out.len() == 0 || out == seq![Publication::Ready] || out == seq![Publication::Caveat] || out
            == seq![Publication::Caveat, Publication::Ready]
    }
}

proof fn lemma_run_bounds(w: ReadinessWatch, events: Seq<WatchEvent>)
    ensures
        run_bounds(w, watch_run(w, events)),
    decreases events.len(),
{
    if events.len() > 0 {
        let next = watch_next(w, events[0]);
        lemma_run_bounds(next, events.drop_first());
        let rest = watch_run(next, events.drop_first());
        let first = match watch_publication(w, events[0]) {
            Some(p) => seq![p],
            None => Seq::<Publication>::empty(),
        };
        assert(watch_run(w, events) == first + rest);
        if !w.finished {
            match events[0] {
                WatchEvent::Signalled(seen) => {
                    assert(rest.len() == 0);
                    if seen {
                        assert(first + rest =~= seq![Publication::Ready]);
                    } else {
                        assert(first + rest =~= Seq::<Publication>::empty());
                    }
                },
                WatchEvent::CeilingReached => {
                    if w.caveated {
                        assert(first + rest =~= rest);
                    } else {
                        if rest.len() == 0 {
                            assert(first + rest =~= seq![Publication::Caveat]);
                        } else {
                            assert(first + rest =~= seq![Publication::Caveat, Publication::Ready]);
                        }
                    }
                },
                WatchEvent::Died => {
                    assert(first + rest =~= Seq::<Publication>::empty());
                },
            }
        } else {
            assert(first + rest =~= rest);
        }
    }
}

/// Whatever happens, a watcher publishes at most twice: the caveat when the
/// ceiling passes, then plain readiness if the signal turns up after all.
/// It never publishes readiness twice, never the caveat twice, never the
/// caveat after readiness, and nothing after the server died.
pub proof fn law_the_watcher_publishes_at_most_twice(events: Seq<WatchEvent>)
    ensures
        ({
            let out = watch_run(ReadinessWatch { caveated: false, finished: false }, events);
            out.len() == 0 || out == seq![Publication::Ready] || out == seq![Publication::Caveat] || out
                == seq![Publication::Caveat, Publication::Ready]
        }),
{
    lemma_run_bounds(ReadinessWatch { caveated: false, finished: false }, events);
}

/// Once the server has died, nothing the watcher hears is published.
pub proof fn law_nothing_is_published_after_death(w: ReadinessWatch, events: Seq<WatchEvent>)
    ensures
        watch_run(watch_next(w, WatchEvent::Died), events).len() == 0,
{
    lemma_run_bounds(watch_next(w, WatchEvent::Died), events);
}

/// A change replaces exactly the text last sent: once a document has gone out
/// with one text, the next change spans that text's extent and then records
/// its own, and once the document is closed it is not known at all, so a
/// change to it is refused.
pub proof fn law_a_change_replaces_the_text_last_sent(
    m: Map<Seq<char>, Sent>,
    path: Seq<char>,
    first: Seq<char>,
    v1: i32,
    second: Seq<char>,
    v2: i32,
)
    ensures
        recorded(m, path, first, v1).contains_key(path),
        recorded(m, path, first, v1)[path].end == document_end_spec(first),
        recorded(recorded(m, path, first, v1), path, second, v2)[path] == (Sent {
            version: v2,
            end: document_end_spec(second),
        }),
        !recorded(m, path, first, v1).remove(path).contains_key(path),
{
}

/// A beginning is never the signal, however well it matches: it means the
/// work is running.
pub proof fn law_a_beginning_is_never_the_signal(readiness: Wait, w: Seq<Seq<char>>, s: Signal)
    requires
        text_is(s.kind, "begin"@),
        !(readiness is Immediate) && !(readiness is RoslynProjectInit) && !(readiness is FirstDiagnostics),
    ensures
        !ends_watched(w, s),
        !signals_ready_spec(readiness, s),
{
    reveal_strlit("begin");
    reveal_strlit("end");
    assert("begin"@.len() == 5);
    assert("end"@.len() == 3);
    assert(!text_is(s.kind, "end"@));
}

/// Once titled work has begun, and there was room to remember it, its end
/// is the signal.
pub proof fn law_a_remembered_beginning_is_ended_by_its_end(
    w: Seq<Seq<char>>,
    prefix: Seq<char>,
    begin: Signal,
    end: Signal,
)
    requires
        begins(begin, prefix),
        w.len() < MAX_TRACKED,
        end.method@ == method::PROGRESS@,
        text_is(end.kind, "end"@),
        end.token_key matches Some(k) && k@ == begin.token_key->Some_0@,
    ensures
        ends_watched(watch_step(w, prefix, begin), end),
{
    let key = begin.token_key->Some_0@;
    if !w.contains(key) {
        assert(w.push(key)[w.len() as int] == key);
    }
}

/// The remembered set never holds more than the cap, nor a token twice.
pub proof fn law_the_remembered_set_stays_bounded(w: Seq<Seq<char>>, prefix: Seq<char>, s: Signal)
    requires
        w.len() <= MAX_TRACKED,
        w.no_duplicates(),
    ensures
        watch_step(w, prefix, s).len() <= MAX_TRACKED,
        watch_step(w, prefix, s).no_duplicates(),
{
    let key = s.token_key->Some_0@;
    if begins(s, prefix) && w.len() < MAX_TRACKED && !w.contains(key) {
        let t = w.push(key);
        assert forall|a: int, b: int| 0 <= a < t.len() && 0 <= b < t.len() && a != b implies t[a] != t[b] by {
            if a == w.len() {
                assert(t[b] == w[b]);
            } else if b == w.len() {
                assert(t[a] == w[a]);
            } else {
                assert(t[a] == w[a] && t[b] == w[b]);
            }
        }
    }
}

} // verus!
