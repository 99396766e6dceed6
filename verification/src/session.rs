//! The session's decisions: which server a file goes to, what a failure is
//! called, and what an answer that could not be had looks like.
//!
//! The actor, its channels and the processes are the caller's; these are the
//! parts that turn a state into a sentence, where being plausibly wrong is
//! invisible.
use vstd::prelude::*;

use crate::client::{request_message, ReadyState, RequestError};
use crate::documents::{after_open, ids, notices, open_notices, servers_of, Documents, ServerId, SyncAction};
use crate::model::{AnchorResult, Availability, DefinitionResult, ServerStatus, UsageResult};
use crate::protocol::Symbol;
use crate::results::{
    self, admitted, anchor_id, anchor_of, base_id, concat_calls, context_spec, count_of, group_asks, group_of,
    ordered_rows, row_answer, row_asks, usage_of, LineCall, TextProvider,
};
use crate::positions::{lsp_line, to_lsp_line};
use crate::protocol::{Location, Position};
use crate::registry::{
    self, concat, extension, extension_language, extension_of, language_for_extension, language_id, resolution_asks,
    resolves_to, Language, Probe, ProbeCall, Resolution, ServerSpec,
};
use crate::registry::copy_texts;
use crate::settings::LspConfig;
use crate::text::{chars_of, decimal_chars, decimal_string, same_text};

verus! {

/// How many usage rows an answer carries at most; the count is never capped.
pub const USAGE_CAP: usize = 500;

/// Every language, in the order status rows are drawn.
pub const LANGUAGES: [Language; 4] = [Language::CSharp, Language::TypeScript, Language::Rust, Language::Python];

// ---------------------------------------------------------------------------
// A dead server
// ---------------------------------------------------------------------------

/// How a server's process ended.
#[derive(Debug, Clone, Copy, PartialEq, Eq, Structural)]
pub enum DeathReason {
    /// The process exited.
    Exited,
    /// The process was killed.
    Killed,
    /// The process closed its output and was given up on.
    StreamClosed,
}

/// A server that has died, with its exit code and its last output.
#[derive(Debug, Clone, PartialEq, Eq)]
pub struct Death {
    pub code: Option<i32>,
    pub reason: DeathReason,
    pub stderr_tail: Vec<String>,
}

pub open spec fn reason_words(r: DeathReason) -> Seq<char> {
    match r {
        DeathReason::Exited => "the language server exited"@,
        DeathReason::Killed => "the language server was killed"@,
        DeathReason::StreamClosed => "the language server stopped talking"@,
    }
}

/// The magnitude of a code and whether it was negative.
pub open spec fn code_words(code: i32) -> Seq<char> {
    if code < 0 {
        "-"@ + decimal_chars((-code) as nat)
    } else {
        decimal_chars(code as nat)
    }
}

/// How a death reads: what happened, the exit code when there was one, and
/// the server's last line when it said anything.
pub open spec fn death_message(d: Death) -> Seq<char> {
    reason_words(d.reason) + match d.code {
        Some(c) => " with code "@ + code_words(c),
        None => Seq::empty(),
    } + if d.stderr_tail@.len() > 0 {
        ": "@ + d.stderr_tail@.last()@
    } else {
        Seq::empty()
    }
}

impl Death {
    pub fn to_string(&self) -> (r: String)
        ensures
            r@ == death_message(*self),
    {
        let mut m = match self.reason {
            DeathReason::Exited => "the language server exited".to_owned(),
            DeathReason::Killed => "the language server was killed".to_owned(),
            DeathReason::StreamClosed => "the language server stopped talking".to_owned(),
        };
        match self.code {
            Some(c) => {
                m.append(" with code ");
                if c < 0 {
                    m.append("-");
                    m.append(decimal_string((-(c as i64)) as u64).as_str());
                } else {
                    m.append(decimal_string(c as u64).as_str());
                }
            },
            None => {},
        }
        let n = self.stderr_tail.len();
        if n > 0 {
            m.append(": ");
            m.append(self.stderr_tail[n - 1].as_str());
        }
        m
    }
}

/// At most the last five lines of a tail, in order.
pub open spec fn last_lines(tail: Seq<Seq<char>>) -> Seq<Seq<char>> {
    if tail.len() > 5 {
        tail.skip(tail.len() - 5)
    } else {
        tail
    }
}

pub open spec fn lines_after(lines: Seq<Seq<char>>) -> Seq<char>
    decreases lines.len(),
{
    if lines.len() == 0 {
        Seq::empty()
    } else {
        lines_after(lines.drop_last()) + "\n"@ + lines.last()
    }
}

/// What to tell the user about a dead server: the death, then its last few
/// lines of output under a heading — unless there is only one, which the
/// death already ends with.
pub open spec fn failure_detail_spec(d: Death, tail: Seq<Seq<char>>) -> Seq<char> {
    let kept = last_lines(tail);
    if kept.len() > 1 {
        death_message(d) + "\nLast output:"@ + lines_after(kept)
    } else {
        death_message(d)
    }
}

pub fn failure_detail(death: &Death, stderr_tail: &[String]) -> (r: String)
    ensures
        r@ == failure_detail_spec(*death, stderr_tail@.map_values(|s: String| s@)),
{
    let ghost tail = stderr_tail@.map_values(|s: String| s@);
    let mut detail = death.to_string();
    let n = stderr_tail.len();
    let from = if n > 5 { n - 5 } else { 0 };
    let ghost kept = last_lines(tail);
    assert(kept =~= tail.skip(from as int));
    if n - from > 1 {
        detail.append("\nLast output:");
        let ghost head = detail@;
        let mut i = from;
        assert(kept.take(0) =~= Seq::<Seq<char>>::empty());
        while i < n
            invariant
                from <= i <= n,
                n == stderr_tail@.len(),
                tail == stderr_tail@.map_values(|s: String| s@),
                kept == tail.skip(from as int),
                detail@ == head + lines_after(kept.take(i - from)),
            decreases n - i,
        {
            detail.append("\n");
            detail.append(stderr_tail[i].as_str());
            assert(kept.take(i + 1 - from).drop_last() =~= kept.take(i - from));
            assert(kept[i - from] == stderr_tail@[i as int]@);
            i = i + 1;
        }
        assert(kept.take(n - from) =~= kept);
    }
    detail
}

// ---------------------------------------------------------------------------
// Outcomes
// ---------------------------------------------------------------------------

/// Which outcome a request failure is. None of them is `Ready`.
pub open spec fn availability_spec(e: RequestError) -> Availability {
    match e {
        RequestError::Unsupported { .. } => Availability::Unsupported,
        RequestError::StillLoading { .. } => Availability::Loading,
        _ => Availability::Failed,
    }
}

pub fn availability_for(error: &RequestError) -> (r: Availability)
    ensures
        r == availability_spec(*error),
{
    match error {
        RequestError::Unsupported { .. } => Availability::Unsupported,
        RequestError::StillLoading { .. } => Availability::Loading,
        RequestError::Failed { .. } | RequestError::UnusableUri { .. } | RequestError::NotOpen { .. } => {
            Availability::Failed
        },
    }
}

/// How severe a refusal is; `Ready` ranks lowest so it never wins.
pub open spec fn severity(a: Availability) -> int {
    match a {
        Availability::Ready => 0,
        Availability::Unsupported => 1,
        Availability::NotConfigured => 2,
        Availability::Starting => 3,
        Availability::Loading => 4,
        Availability::Failed => 5,
    }
}

fn rank(a: Availability) -> (r: u8)
    ensures
        r as int == severity(a),
{
    match a {
        Availability::Ready => 0,
        Availability::Unsupported => 1,
        Availability::NotConfigured => 2,
        Availability::Starting => 3,
        Availability::Loading => 4,
        Availability::Failed => 5,
    }
}

/// The reason a wholly refused answer reports: the most severe one, the
/// last of equals; `Failed` when there is none.
pub open spec fn worst_spec(refusals: Seq<Availability>) -> Availability
    decreases refusals.len(),
{
    if refusals.len() == 0 {
        Availability::Failed
    } else if refusals.len() == 1 {
        refusals[0]
    } else {
        let rest = worst_spec(refusals.drop_last());
        if severity(refusals.last()) >= severity(rest) {
            refusals.last()
        } else {
            rest
        }
    }
}

pub fn worst(refusals: &[Availability]) -> (r: Availability)
    ensures
        r == worst_spec(refusals@),
{
    if refusals.len() == 0 {
        return Availability::Failed;
    }
    let mut best = refusals[0];
    let mut i: usize = 1;
    assert(refusals@.take(1) =~= seq![refusals@[0]]);
    while i < refusals.len()
        invariant
            1 <= i <= refusals@.len(),
            best == worst_spec(refusals@.take(i as int)),
        decreases refusals@.len() - i,
    {
        assert(refusals@.take(i + 1).drop_last() =~= refusals@.take(i as int));
        if rank(refusals[i]) >= rank(best) {
            best = refusals[i];
        }
        i = i + 1;
    }
    assert(refusals@.take(refusals@.len() as int) =~= refusals@);
    best
}

/// Where to aim a request: the editor's 1-based line as LSP's 0-based one,
/// the column as given.
pub fn request_position(line: u32, character: u32) -> (r: Position)
    ensures
        r == (Position { line: lsp_line(line), character }),
{
    Position { line: to_lsp_line(line), character }
}

// ---------------------------------------------------------------------------
// Readiness, as a row and as a note
// ---------------------------------------------------------------------------

/// One running server's status row, minus the parts not about readiness.
#[derive(Debug, Clone, PartialEq, Eq)]
pub struct RunningRow {
    pub state: Availability,
    /// What the program is, or what it is doing. Never the caveat.
    pub detail: Option<String>,
    /// Set only for a server promoted at the readiness ceiling.
    pub caveat: Option<String>,
}

pub open spec fn text_of(s: Option<String>) -> Option<Seq<char>> {
    match s {
        Some(t) => Some(t@),
        None => None,
    }
}

/// A running server's row: a promoted server is `Ready` with its caveat in
/// a field of its own, so `detail` goes on meaning the program.
pub fn running_row(readiness: &ReadyState, program: &str) -> (r: RunningRow)
    ensures
        match readiness {
            ReadyState::Loading => r.state == Availability::Loading && text_of(r.detail) == Some(
                program@ + " is loading this workspace"@,
            ) && r.caveat is None,
            ReadyState::ReadyWithCaveat { detail } => r.state == Availability::Ready && text_of(r.detail) == Some(
                program@,
            ) && text_of(r.caveat) == Some(detail@),
            ReadyState::Ready => r.state == Availability::Ready && text_of(r.detail) == Some(program@)
                && r.caveat is None,
        },
{
    match readiness {
        ReadyState::Loading => {
            let mut d = program.to_owned();
            d.append(" is loading this workspace");
            RunningRow { state: Availability::Loading, detail: Some(d), caveat: None }
        },
        ReadyState::ReadyWithCaveat { detail } => RunningRow {
            state: Availability::Ready,
            detail: Some(program.to_owned()),
            caveat: Some(detail.clone()),
        },
        ReadyState::Ready => RunningRow { state: Availability::Ready, detail: Some(program.to_owned()), caveat: None },
    }
}

pub open spec fn caveat_text(detail: Seq<char>) -> Seq<char> {
    "this answer was taken from a server that never finished priming ("@ + detail + "), so a count may be low."@
}

/// The qualification a count from a server promoted at the ceiling has
/// earned; nothing for any other state.
pub fn caveat_note(readiness: &ReadyState) -> (r: Option<String>)
    ensures
        match readiness {
            ReadyState::ReadyWithCaveat { detail } => text_of(r) == Some(caveat_text(detail@)),
            _ => r is None,
        },
{
    match readiness {
        ReadyState::ReadyWithCaveat { detail } => {
            let mut m = "this answer was taken from a server that never finished priming (".to_owned();
            m.append(detail.as_str());
            m.append("), so a count may be low.");
            Some(m)
        },
        _ => None,
    }
}

/// The caveat added to whatever the answer already had to say; neither
/// replaces the other.
pub open spec fn with_caveat_spec(message: Option<Seq<char>>, caveat: Option<Seq<char>>) -> Option<Seq<char>> {
    match (message, caveat) {
        (Some(m), Some(c)) => Some(m + " "@ + c),
        (Some(m), None) => Some(m),
        (None, Some(c)) => Some(c),
        (None, None) => None,
    }
}

pub fn with_caveat(message: Option<String>, caveat: Option<&str>) -> (r: Option<String>)
    ensures
        text_of(r) == with_caveat_spec(
            text_of(message),
            match caveat {
                Some(c) => Some(c@),
                None => None,
            },
        ),
{
    match (message, caveat) {
        (Some(m), Some(c)) => {
            let mut out = m;
            out.append(" ");
            out.append(c);
            Some(out)
        },
        (Some(m), None) => Some(m),
        (None, Some(c)) => Some(c.to_owned()),
        (None, None) => None,
    }
}

// ---------------------------------------------------------------------------
// Answers that could not be had
// ---------------------------------------------------------------------------

/// Why a request could not be asked, in the three shapes the frontend reads.
#[derive(Debug, Clone, PartialEq, Eq)]
pub struct Unready {
    pub outcome: Availability,
    pub message: String,
    /// `None` when no server was involved: an absent one names nothing.
    pub server: Option<String>,
}

impl Unready {
    pub fn not_configured(message: String) -> (r: Self)
        ensures
            r.outcome == Availability::NotConfigured,
            r.message@ == message@,
            r.server is None,
    {
        Unready { outcome: Availability::NotConfigured, message, server: None }
    }

    /// No count, no rows, the reason, and the server if there was one.
    pub fn usages(self) -> (r: UsageResult)
        ensures
            r.outcome == self.outcome,
            r.total is None,
            r.usages@.len() == 0,
            !r.truncated,
            text_of(r.message) == Some(self.message@),
            text_of(r.server) == text_of(self.server),
    {
        let result = UsageResult::unavailable(self.outcome, self.message.as_str());
        match self.server {
            Some(server) => result.with_server(server.as_str()),
            None => result,
        }
    }

    pub fn definition(self) -> (r: DefinitionResult)
        ensures
            r.outcome == self.outcome,
            r.declarations@.len() == 0,
            r.implementations@.len() == 0,
            r.type_definitions@.len() == 0,
            text_of(r.message) == Some(self.message@),
    {
        DefinitionResult::unavailable(self.outcome, self.message.as_str())
    }

    pub fn anchors(self) -> (r: AnchorResult)
        ensures
            r.outcome == self.outcome,
            r.anchors@.len() == 0,
            text_of(r.message) == Some(self.message@),
    {
        AnchorResult::unavailable(self.outcome, self.message.as_str())
    }
}

/// One goto group's locations, or nothing plus a note saying why nothing:
/// an empty list that says nothing reads as a claim about the user's code.
pub fn group(
    answer: Result<Vec<Location>, RequestError>,
    what: &str,
    notes: &mut Vec<String>,
    refusals: &mut Vec<Availability>,
) -> (r: Vec<Location>)
    ensures
        match answer {
            Ok(locations) => r@ == locations@ && final(notes)@ == old(notes)@ && final(refusals)@ == old(refusals)@,
            Err(e) => r@.len() == 0 && final(notes)@.len() == old(notes)@.len() + 1 && final(notes)@.take(
                old(notes)@.len() as int,
            ) == old(notes)@ && final(notes)@.last()@ == "No "@ + what@ + ": "@ + request_message(e)
                && final(refusals)@ == old(refusals)@.push(availability_spec(e)),
        },
{
    match answer {
        Ok(locations) => locations,
        Err(error) => {
            let mut note = "No ".to_owned();
            note.append(what);
            note.append(": ");
            note.append(error.to_string().as_str());
            let ghost before = notes@;
            notes.push(note);
            assert(notes@.take(before.len() as int) =~= before);
            refusals.push(availability_for(&error));
            Vec::new()
        },
    }
}

// ---------------------------------------------------------------------------
// Routing and naming
// ---------------------------------------------------------------------------

/// The human name of a language, for a status row and a sentence.
pub open spec fn name_spec(language: Language) -> Seq<char> {
    match language {
        Language::CSharp => "C#"@,
        Language::TypeScript => "TypeScript"@,
        Language::Rust => "Rust"@,
        Language::Python => "Python"@,
    }
}

pub fn name(language: Language) -> (r: &'static str)
    ensures
        r@ == name_spec(language),
{
    match language {
        Language::CSharp => "C#",
        Language::TypeScript => "TypeScript",
        Language::Rust => "Rust",
        Language::Python => "Python",
    }
}

/// Which language, if any, serves a path: by its extension, and nothing for
/// an extension no server claims.
pub fn language_of(path: &str) -> (r: Option<Language>)
    ensures
        r == match extension(path@) {
            Some(e) => extension_language(e),
            None => None,
        },
{
    match extension_of(path) {
        Some(e) => language_for_extension(e.as_str()),
        None => None,
    }
}

// ---------------------------------------------------------------------------
// Restarts
// ---------------------------------------------------------------------------

/// How long after one automatic restart another may follow, in milliseconds.
pub const RESTART_WINDOW_MS: u64 = 60000;

/// What to do about a server that died.
#[derive(Debug, Clone, PartialEq, Eq)]
pub enum RestartDecision {
    Restart,
    /// Give up for good; the server's last words go with the failure.
    Failed { stderr_tail: Vec<String> },
}

/// At most one automatic restart per minute, then permanent failure. Owned
/// by the session rather than by a process, because the decision outlives
/// the process it is about.
#[derive(Debug, Clone, Copy, PartialEq, Eq, Structural)]
pub struct RestartPolicy {
    /// When the last automatic restart was granted, on the caller's clock.
    pub last_restart_ms: Option<u64>,
}

/// Whether a death at `now_ms` earns a restart: none granted yet, or the
/// last one a full window ago.
pub open spec fn earns_restart(p: RestartPolicy, now_ms: u64) -> bool {
    match p.last_restart_ms {
        None => true,
        Some(t) => t <= now_ms && now_ms - t >= RESTART_WINDOW_MS,
    }
}

impl RestartPolicy {
    pub fn new() -> (r: Self)
        ensures
            r.last_restart_ms is None,
    {
        RestartPolicy { last_restart_ms: None }
    }

    pub fn on_death(&mut self, now_ms: u64, death: &Death) -> (r: RestartDecision)
        ensures
            earns_restart(*old(self), now_ms) ==> r == RestartDecision::Restart && final(self).last_restart_ms == Some(
                now_ms,
            ),
            !earns_restart(*old(self), now_ms) ==> (r matches RestartDecision::Failed { stderr_tail }
                && stderr_tail@ == death.stderr_tail@) && *final(self) == *old(self),
    {
        let restart = match self.last_restart_ms {
            None => true,
            Some(t) => t <= now_ms && now_ms - t >= RESTART_WINDOW_MS,
        };
        if restart {
            self.last_restart_ms = Some(now_ms);
            RestartDecision::Restart
        } else {
            RestartDecision::Failed { stderr_tail: copy_texts(&death.stderr_tail) }
        }
    }
}

// ---------------------------------------------------------------------------
// One server's state
// ---------------------------------------------------------------------------

/// What is happening with one language's server.
#[derive(Debug, Clone, PartialEq, Eq)]
pub enum ServerState {
    /// Resolved and startable, and nothing has asked for it yet.
    Idle,
    /// A process is coming up.
    Starting,
    /// Running; the caller holds the client.
    Up,
    /// Not to be tried again until the workspace is re-opened, with what there
    /// is to tell the user.
    Failed(String),
    /// Never startable: absent, switched off, or configured wrongly.
    Unavailable { outcome: Availability, message: String },
}

/// One language, its server, and the history that decides whether to try
/// again.
#[derive(Debug)]
pub struct Server {
    pub spec: Option<Box<ServerSpec>>,
    pub state: ServerState,
    pub policy: RestartPolicy,
    /// Bumped on every start attempt, so news about a process that has since
    /// been replaced is discarded instead of overwriting its successor.
    pub epoch: u64,
    pub looked_for: Vec<String>,
    pub hint: Option<String>,
}

pub open spec fn not_found_message(language: Language, hint: Seq<char>) -> Seq<char> {
    "no "@ + name_spec(language) + " language server was found on this machine. "@ + hint
}

pub open spec fn switched_off_message(language: Language) -> Seq<char> {
    "the "@ + name_spec(language) + " language server is switched off: `lsp.servers."@ + language_id(language)
        + ".enabled` is false in .code-basics/config.json."@
}

/// A server as a resolution leaves it: nothing started, no restart spent,
/// and what to tell the user when there is nothing to start.
pub open spec fn server_of(s: Server, language: Language, r: Resolution) -> bool {
    &&& s.epoch == 0
    &&& s.policy.last_restart_ms is None
    &&& match r {
        Resolution::Found(spec) => s.spec == Some(spec) && s.state == ServerState::Idle && s.looked_for@.len() == 0
            && s.hint is None,
        Resolution::NotFound { looked_for, hint, .. } => s.spec is None && (s.state matches ServerState::Unavailable {
            outcome,
            message,
        } && outcome == Availability::NotConfigured && message@ == not_found_message(language, hint@))
            && s.looked_for@ == looked_for@ && text_of(s.hint) == Some(hint@),
        Resolution::Disabled { .. } => s.spec is None && (s.state matches ServerState::Unavailable {
            outcome,
            message,
        } && outcome == Availability::NotConfigured && message@ == switched_off_message(language))
            && s.looked_for@.len() == 0 && s.hint is None,
        Resolution::Misconfigured { detail, .. } => s.spec is None && (s.state matches ServerState::Unavailable {
            outcome,
            message,
        } && outcome == Availability::Failed && message@ == detail@) && s.looked_for@.len() == 0
            && s.hint is None,
    }
}

/// The server a resolution gives: a found one waits to be asked for; the
/// others are unavailable, a configured program that is not there as
/// `Failed`, because it is configured and broken.
pub fn server_for(language: Language, resolution: Resolution) -> (r: Server)
    ensures
        server_of(r, language, resolution),
{
    match resolution {
        Resolution::Found(spec) => Server {
            spec: Some(spec),
            state: ServerState::Idle,
            policy: RestartPolicy::new(),
            epoch: 0,
            looked_for: Vec::new(),
            hint: None,
        },
        Resolution::NotFound { looked_for, hint, .. } => {
            let mut message = "no ".to_owned();
            message.append(name(language));
            message.append(" language server was found on this machine. ");
            message.append(hint.as_str());
            Server {
                spec: None,
                state: ServerState::Unavailable { outcome: Availability::NotConfigured, message },
                policy: RestartPolicy::new(),
                epoch: 0,
                looked_for,
                hint: Some(hint),
            }
        },
        Resolution::Disabled { .. } => {
            let mut message = "the ".to_owned();
            message.append(name(language));
            message.append(" language server is switched off: `lsp.servers.");
            message.append(language.id());
            message.append(".enabled` is false in .code-basics/config.json.");
            Server {
                spec: None,
                state: ServerState::Unavailable { outcome: Availability::NotConfigured, message },
                policy: RestartPolicy::new(),
                epoch: 0,
                looked_for: Vec::new(),
                hint: None,
            }
        },
        Resolution::Misconfigured { detail, .. } => Server {
            spec: None,
            state: ServerState::Unavailable { outcome: Availability::Failed, message: detail },
            policy: RestartPolicy::new(),
            epoch: 0,
            looked_for: Vec::new(),
            hint: None,
        },
    }
}

/// Decide, once, which server serves each language, or why none does, in
/// the order of [`LANGUAGES`]. Nothing is started.
pub fn resolve_all<P: Probe + ?Sized>(config: Option<&LspConfig>, probe: &P) -> (r: Vec<(Language, Server)>)
    ensures
        r@.len() == 4,
        forall|i: int|
            0 <= i < 4 ==> (#[trigger] r@[i]).0 == LANGUAGES[i] && exists|res: Resolution|
                resolves_to(LANGUAGES[i], config, res) && server_of(r@[i].1, LANGUAGES[i], res),
{
    let mut log: Ghost<Seq<ProbeCall>> = Ghost(Seq::empty());
    resolve_all_traced(config, probe, &mut log)
}

/// The entry at `k` serves `LANGUAGES[k]` with the server made from how it
/// resolves, and `calls` are the questions that resolution put to the probe.
pub open spec fn resolved_entry(
    k: int,
    config: Option<&LspConfig>,
    entry: (Language, Server),
    calls: Seq<ProbeCall>,
) -> bool {
    entry.0 == LANGUAGES[k] && exists|res: Resolution|
        #[trigger] resolves_to(LANGUAGES[k], config, res) && server_of(entry.1, LANGUAGES[k], res)
            && resolution_asks(LANGUAGES[k], config, calls, res)
}

proof fn lemma_resolved_prefix_grows(
    config: Option<&LspConfig>,
    out: Seq<(Language, Server)>,
    segs: Seq<Seq<ProbeCall>>,
    entry: (Language, Server),
    calls: Seq<ProbeCall>,
)
    requires
        out.len() == segs.len(),
        forall|k: int| 0 <= k < out.len() ==> resolved_entry(k, config, #[trigger] out[k], segs[k]),
        resolved_entry(out.len() as int, config, entry, calls),
    ensures
        forall|k: int|
            0 <= k < out.len() + 1 ==> resolved_entry(k, config, #[trigger] out.push(entry)[k], segs.push(calls)[k]),
{
    assert forall|k: int| 0 <= k < out.len() + 1 implies resolved_entry(
        k,
        config,
        #[trigger] out.push(entry)[k],
        segs.push(calls)[k],
    ) by {
        if k < out.len() {
            assert(out.push(entry)[k] == out[k]);
            assert(segs.push(calls)[k] == segs[k]);
        }
    }
}

/// [`resolve_all`], with every question put to the probe and its answer:
/// each language's questions in turn, as [`resolution_asks`] says, and each
/// server made from what its questions found.
#[verifier::spinoff_prover]
pub fn resolve_all_traced<P: Probe + ?Sized>(
    config: Option<&LspConfig>,
    probe: &P,
    log: &mut Ghost<Seq<ProbeCall>>,
) -> (r: Vec<(Language, Server)>)
    ensures
        r@.len() == 4,
        exists|segs: Seq<Seq<ProbeCall>>|
            segs.len() == 4 && final(log)@ == old(log)@ + concat(segs) && forall|i: int|
                0 <= i < 4 ==> resolved_entry(i, config, #[trigger] r@[i], segs[i]),
{
    let ghost start = log@;
    let ghost mut segs: Seq<Seq<ProbeCall>> = Seq::empty();
    let mut out: Vec<(Language, Server)> = Vec::new();
    assert(log@ =~= start + concat(segs));
    let mut i: usize = 0;
    while i < 4
        invariant
            i <= 4,
            out@.len() == i,
            segs.len() == i,
            start == old(log)@,
            log@ == start + concat(segs),
            forall|k: int| 0 <= k < i ==> resolved_entry(k, config, #[trigger] out@[k], segs[k]),
        decreases 4 - i,
    {
        let language = LANGUAGES[i];
        let ghost before = log@;
        let resolution = registry::resolve_traced(language, config, probe, log);
        let ghost res = resolution;
        let ghost calls = choose|calls: Seq<ProbeCall>|
            log@ == before + calls && #[trigger] resolution_asks(language, config, calls, res);
        let server = server_for(language, resolution);
        let ghost out_before = out@;
        proof {
            assert(resolves_to(LANGUAGES[i as int], config, res) && server_of(server, LANGUAGES[i as int], res)
                && resolution_asks(LANGUAGES[i as int], config, calls, res));
            assert(resolved_entry(i as int, config, (language, server), calls));
            lemma_resolved_prefix_grows(config, out_before, segs, (language, server), calls);
        }
        out.push((language, server));
        proof {
            let next = segs.push(calls);
            assert(next.drop_last() =~= segs);
            assert(log@ =~= start + concat(next));
            assert(out@ =~= out_before.push((language, server)));
            segs = next;
        }
        i = i + 1;
    }
    out
}

/// What a start, a death or a readiness change was about: the server as it
/// is now, or one it has since replaced.
pub open spec fn current(s: Server, epoch: u64) -> bool {
    s.epoch == epoch
}

/// How a death was taken.
#[derive(Debug, Clone, Copy, PartialEq, Eq, Structural)]
pub enum DeathVerdict {
    /// About a process already replaced; nothing changed.
    Stale,
    /// The server goes back to idle, to be started again at once.
    Restart,
    /// The server has failed for good.
    Failed,
}

impl Server {
    /// Begin starting the server, unless it is already up, coming up, or not
    /// startable: the epoch of the new attempt, or nothing.
    pub fn begin_start(&mut self) -> (r: Option<u64>)
        requires
            old(self).epoch < u64::MAX,
        ensures
            (old(self).state == ServerState::Idle && old(self).spec is Some) ==> r == Some(final(self).epoch)
                && final(self).epoch == old(self).epoch + 1 && final(self).state == ServerState::Starting,
            !(old(self).state == ServerState::Idle && old(self).spec is Some) ==> r is None && final(self).epoch
                == old(self).epoch && final(self).state == old(self).state,
            final(self).spec == old(self).spec,
            final(self).policy == old(self).policy,
            final(self).looked_for == old(self).looked_for,
            final(self).hint == old(self).hint,
    {
        let idle = match self.state {
            ServerState::Idle => true,
            _ => false,
        };
        if !idle || self.spec.is_none() {
            return None;
        }
        self.epoch = self.epoch + 1;
        self.state = ServerState::Starting;
        Some(self.epoch)
    }

    /// A start attempt finished: the server is up, or has failed with the
    /// reason. Whether it was about the current attempt; a superseded one
    /// changes nothing, and its process is the caller's to drop.
    pub fn on_started(&mut self, epoch: u64, outcome: Result<(), String>) -> (r: bool)
        ensures
            r == current(*old(self), epoch),
            !r ==> final(self).state == old(self).state,
            r ==> match outcome {
                Ok(()) => final(self).state == ServerState::Up,
                Err(reason) => final(self).state == ServerState::Failed(reason),
            },
            final(self).epoch == old(self).epoch,
            final(self).spec == old(self).spec,
            final(self).policy == old(self).policy,
            final(self).looked_for == old(self).looked_for,
            final(self).hint == old(self).hint,
    {
        if self.epoch != epoch {
            return false;
        }
        match outcome {
            Ok(()) => {
                self.state = ServerState::Up;
            },
            Err(reason) => {
                self.state = ServerState::Failed(reason);
            },
        }
        true
    }

    /// The current server died at `now_ms`: restarted at most once a
    /// minute, and otherwise failed for good with its last words.
    pub fn on_died(&mut self, epoch: u64, now_ms: u64, death: &Death) -> (r: DeathVerdict)
        ensures
            !current(*old(self), epoch) ==> r == DeathVerdict::Stale && final(self).state == old(self).state
                && final(self).policy == old(self).policy,
            current(*old(self), epoch) && earns_restart(old(self).policy, now_ms) ==> r == DeathVerdict::Restart
                && final(self).state == ServerState::Idle && final(self).policy.last_restart_ms == Some(now_ms),
            current(*old(self), epoch) && !earns_restart(old(self).policy, now_ms) ==> r == DeathVerdict::Failed
                && (final(self).state matches ServerState::Failed(detail) && detail@ == failure_detail_spec(
                *death,
                death.stderr_tail@.map_values(|s: String| s@),
            )) && final(self).policy == old(self).policy,
            final(self).epoch == old(self).epoch,
            final(self).spec == old(self).spec,
            final(self).looked_for == old(self).looked_for,
            final(self).hint == old(self).hint,
    {
        if self.epoch != epoch {
            return DeathVerdict::Stale;
        }
        match self.policy.on_death(now_ms, death) {
            RestartDecision::Restart => {
                self.state = ServerState::Idle;
                DeathVerdict::Restart
            },
            RestartDecision::Failed { stderr_tail } => {
                self.state = ServerState::Failed(failure_detail(death, stderr_tail.as_slice()));
                DeathVerdict::Failed
            },
        }
    }

    /// Whether a readiness change is about the current server, and so worth
    /// a fresh status row.
    pub fn on_readiness(&self, epoch: u64) -> (r: bool)
        ensures
            r == current(*self, epoch),
    {
        self.epoch == epoch
    }

    /// Whether notifications can be sent: the server is up and not dead.
    pub fn is_live(&self, dead: bool) -> (r: bool)
        ensures
            r == (self.state == ServerState::Up && !dead),
    {
        match self.state {
            ServerState::Up => !dead,
            _ => false,
        }
    }

    /// Stop answering anything: a running server goes back to idle, and
    /// whether there was one to shut down.
    pub fn tear_down(&mut self) -> (r: bool)
        ensures
            r == (old(self).state == ServerState::Up),
            r ==> final(self).state == ServerState::Idle,
            !r ==> final(self).state == old(self).state,
            final(self).epoch == old(self).epoch,
    {
        match self.state {
            ServerState::Up => {
                self.state = ServerState::Idle;
                true
            },
            _ => false,
        }
    }
}

// ---------------------------------------------------------------------------
// Asking
// ---------------------------------------------------------------------------

/// The largest file read from disk to open on a server's behalf, in bytes.
pub const AUTO_OPEN_MAX_BYTES: u64 = 1048576;

/// What every answer says once the session is gone.
pub const TORN_DOWN: &'static str =
    "this workspace's language servers were shut down, because the workspace was closed or replaced. Re-open the workspace to ask again.";

/// What a question needs of the document it is about.
#[derive(Debug, Clone, Copy, PartialEq, Eq, Structural)]
pub enum Needs {
    /// A position in a file the server knows from its project anyway.
    Position,
    /// A buffer the server has been told about: asked about one it never
    /// heard of, a server answers `null`, which reads as "nothing here".
    OpenDocument,
}

pub open spec fn no_extension_message(path: Seq<char>) -> Seq<char> {
    path + " has no file extension, so no language server claims it."@
}

pub open spec fn unclaimed_message(extension: Seq<char>) -> Seq<char> {
    "no language server is configured for `."@ + extension
        + "` files. This app can answer for C#, TypeScript/JavaScript, Rust and Python."@
}

pub open spec fn starting_message(language: Language) -> Seq<char> {
    "the "@ + name_spec(language)
        + " language server is still starting. Ask again in a moment \u{2014} the answer is not empty, it is not ready."@
}

pub open spec fn loading_message(language: Language) -> Seq<char> {
    "the "@ + name_spec(language)
        + " language server is still loading this workspace. A count taken now would be low, which reads exactly like a correct one."@
}

pub open spec fn unreadable_message(path: Seq<char>) -> Seq<char> {
    path
        + " could not be read \u{2014} it is missing, unreadable, or larger than 1048576 bytes \u{2014} so no server could be told about it."@
}

/// A path that is relative on every platform: not empty, not starting with
/// a separator, and holding no `:` (so no drive and no other prefix).
pub open spec fn plainly_relative(path: Seq<char>) -> bool {
    &&& path.len() > 0
    &&& path[0] != '/'
    &&& path[0] != '\\'
    &&& !path.contains(':')
}

/// A path that starts at a root: its first character is `/`.
pub open spec fn rooted(path: Seq<char>) -> bool {
    path.len() > 0 && path[0] == '/'
}

/// A rooted base with no prefix on any platform: one `/` first, not two
/// separators, which would begin a share.
pub open spec fn rooted_without_prefix(root: Seq<char>) -> bool {
    &&& rooted(root)
    &&& root.len() > 1 ==> root[1] != '/' && root[1] != '\\'
}

/// A base that nothing but the join itself can change: not empty, and not
/// starting with `\`, so neither a share nor a verbatim prefix.
pub open spec fn plain_base(root: Seq<char>) -> bool {
    root.len() > 0 && root[0] != '\\'
}

/// `std::path::Path::is_absolute`. Which paths are absolute is the
/// platform's rule (on Unix a leading `/`; on Windows a prefix, such as a
/// drive or a share, and a root). Claimed, as it holds on every platform:
/// an empty path is not absolute, and neither is one with no leading
/// separator and no `:`, since it has neither a root nor a prefix.
#[verifier::external_body]
fn path_is_absolute(path: &str) -> (r: bool)
    ensures
        r ==> path@.len() > 0,
        plainly_relative(path@) ==> !r,
{
    std::path::Path::new(path).is_absolute()
}

/// `std::path::Path::join`, as text: `PathBuf::push` onto a copy of the
/// base. Claimed, as it holds on every platform: onto an empty base the
/// result is the path itself; a path with neither root nor prefix extends
/// the base, directly after a trailing `/`, and after one separator, `/` or
/// `\` as the platform writes it, when the base ends in neither a separator
/// nor `:`; a path with a leading `/` replaces a base that starts with one
/// `/` (no prefix on any platform), since an absolute path replaces the base
/// and a rooted one keeps only the base's prefix. Which separator, and what
/// a rooted path does to a base with a drive or a share, are the platform's
/// and not claimed.
#[verifier::external_body]
fn path_join(root: &str, path: &str) -> (r: String)
    ensures
        root@.len() == 0 ==> r@ == path@,
        plainly_relative(path@) && plain_base(root@) && root@.last() == '/' ==> r@ == root@ + path@,
        plainly_relative(path@) && plain_base(root@) && root@.last() != '/' && root@.last() != '\\' && root@.last()
            != ':' ==> (r@ == root@ + seq!['/'] + path@ || r@ == root@ + seq!['\\'] + path@),
        rooted(path@) && rooted_without_prefix(root@) ==> r@ == path@,
{
    std::path::Path::new(root).join(path).to_string_lossy().into_owned()
}

/// A path as the session names it: an absolute one, by this platform's rule,
/// is itself; a relative one is taken from the root, joined as this
/// platform joins paths, since that is how the frontend spells a file.
pub fn absolute(root: &str, path: &str) -> (r: String)
    ensures
        root@.len() == 0 ==> r@ == path@,
        plainly_relative(path@) && plain_base(root@) && root@.last() == '/' ==> r@ == root@ + path@,
        plainly_relative(path@) && plain_base(root@) && root@.last() != '/' && root@.last() != '\\' && root@.last()
            != ':' ==> (r@ == root@ + seq!['/'] + path@ || r@ == root@ + seq!['\\'] + path@),
        rooted(path@) && rooted_without_prefix(root@) ==> r@ == path@,
{
    if path_is_absolute(path) {
        path.to_owned()
    } else {
        path_join(root, path)
    }
}

/// Which language a question about `path` goes to, or why none does.
pub fn route(path: &str) -> (r: Result<Language, Unready>)
    ensures
        match extension(path@) {
            None => r matches Err(u) && u.outcome == Availability::NotConfigured && u.message@ == no_extension_message(
                path@,
            ) && u.server is None,
            Some(e) => match extension_language(e) {
                Some(l) => r == Ok::<Language, Unready>(l),
                None => r matches Err(u) && u.outcome == Availability::NotConfigured && u.message@
                    == unclaimed_message(e) && u.server is None,
            },
        },
{
    match extension_of(path) {
        None => {
            let mut m = path.to_owned();
            m.append(" has no file extension, so no language server claims it.");
            Err(Unready::not_configured(m))
        },
        Some(e) => match language_for_extension(e.as_str()) {
            Some(l) => Ok(l),
            None => {
                let mut m = "no language server is configured for `.".to_owned();
                m.append(e.as_str());
                m.append("` files. This app can answer for C#, TypeScript/JavaScript, Rust and Python.");
                Err(Unready::not_configured(m))
            },
        },
    }
}

/// The caveat an admitted answer carries.
pub open spec fn caveat_of(readiness: ReadyState) -> Option<Seq<char>> {
    match readiness {
        ReadyState::ReadyWithCaveat { detail } => Some(caveat_text(detail@)),
        _ => None,
    }
}

impl Server {
    /// Whether a question may be put to this server now, and the caveat the
    /// answer will carry; otherwise the reason, which is never an empty
    /// answer. A dead server is failed, and one still loading is loading:
    /// waiting is right for a batch caller and wrong for a widget.
    pub fn answerable(&self, language: Language, death: Option<&Death>, readiness: &ReadyState) -> (r: Result<
        Option<String>,
        Unready,
    >)
        ensures
            match self.state {
                ServerState::Idle | ServerState::Starting => r matches Err(u) && u.outcome == Availability::Starting
                    && u.message@ == starting_message(language) && u.server is None,
                ServerState::Failed(detail) => r matches Err(u) && u.outcome == Availability::Failed && u.message@
                    == detail@ && text_of(u.server) == Some(language_id(language)),
                ServerState::Unavailable { outcome, message } => r matches Err(u) && u.outcome == outcome
                    && u.message@ == message@ && u.server is None,
                ServerState::Up => match death {
                    Some(d) => r matches Err(u) && u.outcome == Availability::Failed && u.message@
                        == failure_detail_spec(*d, d.stderr_tail@.map_values(|s: String| s@)) && text_of(u.server)
                        == Some(language_id(language)),
                    None => if *readiness is Loading {
                        r matches Err(u) && u.outcome == Availability::Loading && u.message@ == loading_message(
                            language,
                        ) && text_of(u.server) == Some(language_id(language))
                    } else {
                        r matches Ok(c) && text_of(c) == caveat_of(*readiness)
                    },
                },
            },
    {
        match &self.state {
            ServerState::Idle | ServerState::Starting => {
                let mut m = "the ".to_owned();
                m.append(name(language));
                m.append(
                    " language server is still starting. Ask again in a moment \u{2014} the answer is not empty, it is not ready.",
                );
                Err(Unready { outcome: Availability::Starting, message: m, server: None })
            },
            ServerState::Failed(detail) => Err(
                Unready {
                    outcome: Availability::Failed,
                    message: detail.clone(),
                    server: Some(language.id().to_owned()),
                },
            ),
            ServerState::Unavailable { outcome, message } => Err(
                Unready { outcome: *outcome, message: message.clone(), server: None },
            ),
            ServerState::Up => {
                if let Some(d) = death {
                    return Err(
                        Unready {
                            outcome: Availability::Failed,
                            message: failure_detail(d, d.stderr_tail.as_slice()),
                            server: Some(language.id().to_owned()),
                        },
                    );
                }
                if !readiness.is_ready() {
                    let mut m = "the ".to_owned();
                    m.append(name(language));
                    m.append(
                        " language server is still loading this workspace. A count taken now would be low, which reads exactly like a correct one.",
                    );
                    return Err(
                        Unready {
                            outcome: Availability::Loading,
                            message: m,
                            server: Some(language.id().to_owned()),
                        },
                    );
                }
                Ok(caveat_note(readiness))
            },
        }
    }
}

/// Whether a failure to tell the server about the document ends the
/// question: for a question about a buffer it is the whole answer; for a
/// position the server knows from its project it is not, and asking anyway
/// keeps a maybe from becoming a no.
pub fn open_verdict(language: Language, needs: Needs, opened: Result<(), String>) -> (r: Result<(), Unready>)
    ensures
        match opened {
            Ok(()) => r is Ok,
            Err(reason) => if needs == Needs::OpenDocument {
                r matches Err(u) && u.outcome == Availability::Failed && u.message@ == reason@ && text_of(u.server)
                    == Some(language_id(language))
            } else {
                r is Ok
            },
        },
{
    match opened {
        Ok(()) => Ok(()),
        Err(reason) => match needs {
            Needs::OpenDocument => Err(
                Unready { outcome: Availability::Failed, message: reason, server: Some(language.id().to_owned()) },
            ),
            Needs::Position => Ok(()),
        },
    }
}

/// Whether telling `server` about `path` needs the file read from disk: it
/// has not been told, and no buffer is mirrored for it.
pub fn needs_disk(documents: &Documents, server: ServerId, path: &str) -> (r: bool)
    requires
        documents.wf(),
    ensures
        r == (!servers_of(documents@, path@).contains(server@) && !documents@.open.contains_key(path@)),
{
    if told(documents, server, path) {
        return false;
    }
    documents.text(path).is_none()
}

fn told(documents: &Documents, server: ServerId, path: &str) -> (r: bool)
    requires
        documents.wf(),
    ensures
        r == servers_of(documents@, path@).contains(server@),
{
    let servers = documents.servers_for(path);
    let ghost want = servers_of(documents@, path@);
    let mut i: usize = 0;
    while i < servers.len()
        invariant
            i <= servers@.len(),
            ids(servers@).to_set() == want,
            want == servers_of(documents@, path@),
            forall|k: int| 0 <= k < i ==> servers@[k]@ != server@,
        decreases servers@.len() - i,
    {
        if same_text(servers[i], server) {
            assert(ids(servers@)[i as int] == server@);
            assert(ids(servers@).contains(server@));
            return true;
        }
        i = i + 1;
    }
    proof {
        if want.contains(server@) {
            assert(ids(servers@).to_set().contains(server@));
            let k = choose|k: int| 0 <= k < ids(servers@).len() && ids(servers@)[k] == server@;
            assert(servers@[k]@ == server@);
        }
    }
    false
}

/// Make sure `server` has been told about the document a question names:
/// nothing to do when it has; otherwise it is opened there with the
/// mirrored buffer, which is newer than the file, or else with the text
/// read from disk. With neither, the reason it could not be told.
pub fn ensure_open(documents: &mut Documents, server: ServerId, path: &str, disk: Option<String>) -> (r: Result<
    Vec<SyncAction>,
    String,
>)
    requires
        old(documents).wf(),
    ensures
        final(documents).wf(),
        servers_of(old(documents)@, path@).contains(server@) ==> (r matches Ok(a) && a@.len() == 0
            && final(documents)@ == old(documents)@),
        !servers_of(old(documents)@, path@).contains(server@) ==> ({
            let text = if old(documents)@.open.contains_key(path@) {
                Some(old(documents)@.open[path@].text)
            } else {
                match disk {
                    Some(t) => Some(t@),
                    None => None,
                }
            };
            match text {
                Some(t) => r matches Ok(a) && final(documents)@ == after_open(old(documents)@, path@, t, set![server@])
                    && notices(a@) == open_notices(old(documents)@, path@, t, set![server@]),
                None => r matches Err(m) && m@ == unreadable_message(path@) && final(documents)@ == old(documents)@,
            }
        }),
{
    if told(documents, server, path) {
        return Ok(Vec::new());
    }
    let text = match documents.text(path) {
        Some(t) => t.to_owned(),
        None => match disk {
            Some(t) => t,
            None => {
                let mut m = path.to_owned();
                m.append(
                    " could not be read \u{2014} it is missing, unreadable, or larger than 1048576 bytes \u{2014} so no server could be told about it.",
                );
                return Err(m);
            },
        },
    };
    let servers = [server];
    assert(ids(servers@) =~= seq![server@]);
    assert forall|y: Seq<char>| seq![server@].to_set().contains(y) <==> set![server@].contains(y) by {
        if y == server@ {
            assert(seq![server@][0] == y);
        }
    }
    assert(seq![server@].to_set() =~= set![server@]);
    Ok(documents.open(path, text.as_str(), &servers))
}

/// The answer to "where is this used", or the reason there is none; the
/// server is named either way and a caveat is added, never withheld.
pub fn usage_answer<T: TextProvider + ?Sized>(
    root: &str,
    answer: Result<Vec<Location>, RequestError>,
    text: &mut T,
    caveat: Option<&str>,
    server: &str,
) -> (r: UsageResult)
    ensures
        text_of(r.server) == Some(server@),
        match answer {
            Ok(locations) => {
                let rows = ordered_rows(root@, locations@);
                &&& r.outcome == Availability::Ready
                &&& r.total == Some(count_of(rows.len()))
                &&& r.truncated == (rows.len() > USAGE_CAP)
                &&& r.usages@.len() == if rows.len() > USAGE_CAP { USAGE_CAP as nat } else { rows.len() }
                &&& forall|i: int| 0 <= i < r.usages@.len() ==> usage_of(#[trigger] r.usages@[i], rows[i])
                &&& text_of(r.message) == match caveat {
                    Some(c) => Some(c@),
                    None => None,
                }
            },
            Err(e) => r.outcome == availability_spec(e) && r.total is None && r.usages@.len() == 0 && text_of(
                r.message,
            ) == Some(request_message(e)),
        },
{
    let mut log: Ghost<Seq<LineCall>> = Ghost(Seq::empty());
    usage_answer_traced(root, answer, text, caveat, server, &mut log)
}

/// [`usage_answer`], with every line asked of `text` and its answer put on
/// `log`: a refused question asks nothing; otherwise each shown row asks
/// for its own line, and its snippet is made from that answer.
pub fn usage_answer_traced<T: TextProvider + ?Sized>(
    root: &str,
    answer: Result<Vec<Location>, RequestError>,
    text: &mut T,
    caveat: Option<&str>,
    server: &str,
    log: &mut Ghost<Seq<LineCall>>,
) -> (r: UsageResult)
    ensures
        text_of(r.server) == Some(server@),
        match answer {
            Ok(locations) => {
                let rows = ordered_rows(root@, locations@);
                &&& r.outcome == Availability::Ready
                &&& r.total == Some(count_of(rows.len()))
                &&& r.truncated == (rows.len() > USAGE_CAP)
                &&& r.usages@.len() == if rows.len() > USAGE_CAP { USAGE_CAP as nat } else { rows.len() }
                &&& forall|i: int| 0 <= i < r.usages@.len() ==> usage_of(#[trigger] r.usages@[i], rows[i])
                &&& text_of(r.message) == match caveat {
                    Some(c) => Some(c@),
                    None => None,
                }
            },
            Err(e) => r.outcome == availability_spec(e) && r.total is None && r.usages@.len() == 0 && text_of(
                r.message,
            ) == Some(request_message(e)),
        },
        match answer {
            Ok(locations) => exists|segs: Seq<Seq<LineCall>>|
                segs.len() == r.usages@.len() && final(log)@ == old(log)@ + concat_calls(segs) && forall|i: int|
                    0 <= i < segs.len() ==> row_asks(root@, ordered_rows(root@, locations@)[i], #[trigger] segs[i]) && (
                    r.usages@[i].snippet@,
                    r.usages@[i].highlight,
                ) == context_spec(ordered_rows(root@, locations@)[i], row_answer(segs[i])),
            Err(_) => final(log)@ == old(log)@,
        },
{
    match answer {
        Ok(locations) => {
            let result = results::usages_traced(root, locations.as_slice(), text, USAGE_CAP, log);
            let message = with_caveat(None, caveat);
            UsageResult { message, ..result }.with_server(server)
        },
        Err(error) => UsageResult::unavailable(availability_for(&error), error.to_string().as_str()).with_server(
            server,
        ),
    }
}

/// The note a refused goto group leaves, if it was refused.
pub open spec fn group_note(answer: Result<Vec<Location>, RequestError>, what: Seq<char>) -> Seq<Seq<char>> {
    match answer {
        Ok(_) => Seq::empty(),
        Err(e) => seq!["No "@ + what + ": "@ + request_message(e)],
    }
}

pub open spec fn located(answer: Result<Vec<Location>, RequestError>) -> Seq<Location> {
    match answer {
        Ok(l) => l@,
        Err(_) => Seq::empty(),
    }
}

/// Notes joined by single spaces.
pub open spec fn spaced(notes: Seq<Seq<char>>) -> Seq<char>
    decreases notes.len(),
{
    if notes.len() == 0 {
        Seq::empty()
    } else if notes.len() == 1 {
        notes[0]
    } else {
        spaced(notes.drop_last()) + " "@ + notes.last()
    }
}

fn join_spaced(notes: &Vec<String>) -> (r: String)
    ensures
        r@ == spaced(notes@.map_values(|s: String| s@)),
{
    let ghost ns = notes@.map_values(|s: String| s@);
    let mut out = String::new();
    let mut i: usize = 0;
    while i < notes.len()
        invariant
            i <= notes@.len(),
            ns == notes@.map_values(|s: String| s@),
            out@ == spaced(ns.take(i as int)),
        decreases notes@.len() - i,
    {
        assert(ns.take(i + 1).drop_last() =~= ns.take(i as int));
        if i > 0 {
            out.append(" ");
        }
        out.append(notes[i].as_str());
        proof {
            if i == 0 {
                assert(ns.take(1) =~= seq![ns[0]]);
                assert(out@ =~= ns[0]);
            }
        }
        i = i + 1;
    }
    assert(ns.take(notes@.len() as int) =~= ns);
    out
}

/// The answer to "where is this declared, implemented and typed", from the
/// three goto answers. A refused group is empty and says so in a note; when
/// all three were refused the answer takes the most severe of their
/// reasons, never the first.
pub fn definition_answer<T: TextProvider + ?Sized>(
    root: &str,
    definitions: Result<Vec<Location>, RequestError>,
    implementations: Result<Vec<Location>, RequestError>,
    type_definitions: Result<Vec<Location>, RequestError>,
    text: &mut T,
    caveat: Option<&str>,
) -> (r: DefinitionResult)
    ensures
        group_of(r.declarations@, ordered_rows(root@, located(definitions))),
        group_of(r.implementations@, ordered_rows(root@, located(implementations))),
        group_of(r.type_definitions@, ordered_rows(root@, located(type_definitions))),
        r.outcome == match (definitions, implementations, type_definitions) {
            (Err(a), Err(b), Err(c)) => worst_spec(
                seq![availability_spec(a), availability_spec(b), availability_spec(c)],
            ),
            _ => Availability::Ready,
        },
        ({
            let notes = group_note(definitions, "declarations"@) + group_note(implementations, "implementations"@)
                + group_note(type_definitions, "type definitions"@);
            text_of(r.message) == with_caveat_spec(
                if notes.len() == 0 {
                    None
                } else {
                    Some(spaced(notes))
                },
                match caveat {
                    Some(c) => Some(c@),
                    None => None,
                },
            )
        }),
{
    let mut log: Ghost<Seq<LineCall>> = Ghost(Seq::empty());
    definition_answer_traced(root, definitions, implementations, type_definitions, text, caveat, &mut log)
}

/// [`definition_answer`], with every line asked of `text` and its answer
/// put on `log`: each group's rows ask for their own lines in turn, each
/// snippet made from its row's answer.
#[verifier::spinoff_prover]
pub fn definition_answer_traced<T: TextProvider + ?Sized>(
    root: &str,
    definitions: Result<Vec<Location>, RequestError>,
    implementations: Result<Vec<Location>, RequestError>,
    type_definitions: Result<Vec<Location>, RequestError>,
    text: &mut T,
    caveat: Option<&str>,
    log: &mut Ghost<Seq<LineCall>>,
) -> (r: DefinitionResult)
    ensures
        group_of(r.declarations@, ordered_rows(root@, located(definitions))),
        group_of(r.implementations@, ordered_rows(root@, located(implementations))),
        group_of(r.type_definitions@, ordered_rows(root@, located(type_definitions))),
        r.outcome == match (definitions, implementations, type_definitions) {
            (Err(a), Err(b), Err(c)) => worst_spec(
                seq![availability_spec(a), availability_spec(b), availability_spec(c)],
            ),
            _ => Availability::Ready,
        },
        ({
            let notes = group_note(definitions, "declarations"@) + group_note(implementations, "implementations"@)
                + group_note(type_definitions, "type definitions"@);
            text_of(r.message) == with_caveat_spec(
                if notes.len() == 0 {
                    None
                } else {
                    Some(spaced(notes))
                },
                match caveat {
                    Some(c) => Some(c@),
                    None => None,
                },
            )
        }),
        exists|a: Seq<Seq<LineCall>>, b: Seq<Seq<LineCall>>, c: Seq<Seq<LineCall>>|
            final(log)@ == old(log)@ + concat_calls(a) + concat_calls(b) + concat_calls(c) && #[trigger] group_asks(
                root@,
                r.declarations@,
                ordered_rows(root@, located(definitions)),
                a,
            ) && #[trigger] group_asks(root@, r.implementations@, ordered_rows(root@, located(implementations)), b)
                && #[trigger] group_asks(root@, r.type_definitions@, ordered_rows(root@, located(type_definitions)), c),
{
    let ghost d0 = definitions;
    let ghost i0 = implementations;
    let ghost t0 = type_definitions;
    let mut notes: Vec<String> = Vec::new();
    let mut refusals: Vec<Availability> = Vec::new();
    let declared = group(definitions, "declarations", &mut notes, &mut refusals);
    let implemented = group(implementations, "implementations", &mut notes, &mut refusals);
    let typed = group(type_definitions, "type definitions", &mut notes, &mut refusals);
    assert(declared@ =~= located(d0));
    assert(implemented@ =~= located(i0));
    assert(typed@ =~= located(t0));
    let ghost ns = notes@.map_values(|s: String| s@);
    assert(ns =~= group_note(d0, "declarations"@) + group_note(i0, "implementations"@) + group_note(
        t0,
        "type definitions"@,
    ));
    let result = results::targets_traced(root, declared.as_slice(), implemented.as_slice(), typed.as_slice(), text, log);
    let outcome = if refusals.len() == 3 {
        proof {
            assert(refusals@ =~= seq![
                availability_spec(d0->Err_0),
                availability_spec(i0->Err_0),
                availability_spec(t0->Err_0),
            ]);
        }
        worst(refusals.as_slice())
    } else {
        Availability::Ready
    };
    let joined = if notes.len() == 0 {
        None
    } else {
        Some(join_spaced(&notes))
    };
    let message = with_caveat(joined, caveat);
    DefinitionResult { outcome, message, ..result }
}

/// The answer to "which declarations here deserve a usages row".
pub fn anchor_answer(answer: Result<Vec<Symbol>, RequestError>, caveat: Option<&str>) -> (r: AnchorResult)
    ensures
        match answer {
            Ok(symbols) => {
                let kept = admitted(symbols@);
                let bases = kept.map_values(|x: Symbol| base_id(x));
                &&& r.outcome == Availability::Ready
                &&& r.anchors@.len() == kept.len()
                &&& forall|i: int|
                    0 <= i < r.anchors@.len() ==> anchor_of(#[trigger] r.anchors@[i], kept[i], anchor_id(bases, i))
                &&& text_of(r.message) == match caveat {
                    Some(c) => Some(c@),
                    None => None,
                }
            },
            Err(e) => r.outcome == availability_spec(e) && r.anchors@.len() == 0 && text_of(r.message) == Some(
                request_message(e),
            ),
        },
{
    match answer {
        Ok(symbols) => AnchorResult {
            outcome: Availability::Ready,
            anchors: results::anchors(symbols.as_slice()),
            message: with_caveat(None, caveat),
        },
        Err(error) => AnchorResult::unavailable(availability_for(&error), error.to_string().as_str()),
    }
}

// ---------------------------------------------------------------------------
// Status
// ---------------------------------------------------------------------------

impl Server {
    /// This language's status row. A server found and never asked for is
    /// not listed: there is no honest word for "found, idle".
    pub fn status(&self, language: Language, readiness: &ReadyState, program: &str) -> (r: Option<ServerStatus>)
        ensures
            self.state == ServerState::Idle ==> r is None,
            self.state != ServerState::Idle ==> (r matches Some(row) && row.id@ == language_id(language)
                && row.language@ == name_spec(language) && row.looked_for@ == self.looked_for@ && text_of(row.hint)
                == text_of(self.hint) && match self.state {
                ServerState::Starting => row.state == Availability::Starting && row.detail is None
                    && row.caveat is None,
                ServerState::Failed(detail) => row.state == Availability::Failed && text_of(row.detail) == Some(
                    detail@,
                ) && row.caveat is None,
                ServerState::Unavailable { outcome, message } => row.state == outcome && text_of(row.detail)
                    == Some(message@) && row.caveat is None,
                _ => match readiness {
                    ReadyState::Loading => row.state == Availability::Loading && text_of(row.detail) == Some(
                        program@ + " is loading this workspace"@,
                    ) && row.caveat is None,
                    ReadyState::ReadyWithCaveat { detail } => row.state == Availability::Ready && text_of(row.detail)
                        == Some(program@) && text_of(row.caveat) == Some(detail@),
                    ReadyState::Ready => row.state == Availability::Ready && text_of(row.detail) == Some(program@)
                        && row.caveat is None,
                },
            }),
    {
        let (state, detail, caveat) = match &self.state {
            ServerState::Idle => {
                return None;
            },
            ServerState::Starting => (Availability::Starting, None, None),
            ServerState::Failed(detail) => (Availability::Failed, Some(detail.clone()), None),
            ServerState::Unavailable { outcome, message } => (*outcome, Some(message.clone()), None),
            ServerState::Up => {
                let row = running_row(readiness, program);
                (row.state, row.detail, row.caveat)
            },
        };
        Some(
            ServerStatus {
                id: language.id().to_owned(),
                language: name(language).to_owned(),
                state,
                detail,
                caveat,
                looked_for: copy_texts(&self.looked_for),
                hint: self.hint.clone(),
            },
        )
    }
}

// ---------------------------------------------------------------------------
// Laws
// ---------------------------------------------------------------------------

/// At most one automatic restart a minute: a death less than a full window
/// after the one that earned a restart earns none, and since a refused
/// restart leaves the policy as it was, the window is never pushed back.
pub proof fn law_at_most_one_restart_a_minute(p: RestartPolicy, first_ms: u64, second_ms: u64)
    requires
        earns_restart(p, first_ms),
        first_ms <= second_ms,
        second_ms - first_ms < RESTART_WINDOW_MS,
    ensures
        !earns_restart(RestartPolicy { last_restart_ms: Some(first_ms) }, second_ms),
{
}

/// A restart is earned again once a full window has passed since the last.
pub proof fn law_a_full_window_earns_a_restart_again(first_ms: u64, second_ms: u64)
    requires
        first_ms <= second_ms,
        second_ms - first_ms >= RESTART_WINDOW_MS,
    ensures
        earns_restart(RestartPolicy { last_restart_ms: Some(first_ms) }, second_ms),
{
}

/// No request failure is ever an answer.
pub proof fn law_no_request_failure_is_ready(e: RequestError)
    ensures
        availability_spec(e) != Availability::Ready,
{
}

/// A wholly refused answer reports one of its own reasons, the most severe.
pub proof fn law_the_worst_reason_is_reported(refusals: Seq<Availability>)
    requires
        refusals.len() > 0,
    ensures
        refusals.contains(worst_spec(refusals)),
        forall|i: int| 0 <= i < refusals.len() ==> severity(#[trigger] refusals[i]) <= severity(worst_spec(refusals)),
    decreases refusals.len(),
{
    if refusals.len() == 1 {
        assert(refusals[0] == worst_spec(refusals));
    } else {
        let init = refusals.drop_last();
        law_the_worst_reason_is_reported(init);
        let w = worst_spec(init);
        let k = choose|k: int| 0 <= k < init.len() && init[k] == w;
        assert(refusals[k] == w);
        assert(refusals[refusals.len() - 1] == refusals.last());
        assert forall|i: int| 0 <= i < refusals.len() implies severity(#[trigger] refusals[i]) <= severity(
            worst_spec(refusals),
        ) by {
            if i < refusals.len() - 1 {
                assert(refusals[i] == init[i]);
            }
        }
    }
}

/// Nothing promotes a set of refusals into an answer.
pub proof fn law_no_refusal_becomes_an_answer(refusals: Seq<Availability>)
    requires
        forall|i: int| 0 <= i < refusals.len() ==> #[trigger] refusals[i] != Availability::Ready,
    ensures
        worst_spec(refusals) != Availability::Ready,
{
    if refusals.len() > 0 {
        law_the_worst_reason_is_reported(refusals);
    }
}

} // verus!
