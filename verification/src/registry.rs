//! Which server serves which file, where it is, and what to say when it is absent.
//!
//! "Not found" is the common path, not the edge case, so the four outcomes of
//! [`resolve`] are separate variants: disabled, misconfigured, absent and
//! present are four different things to tell somebody, and an absent server
//! comes back with everything that was looked for and how to get one.
//!
//! Discovery is all environment — PATH, a home directory, an environment
//! variable, directory listings — so the environment is an injected [`Probe`],
//! and every rule that reads its answers is decided here.
//!
//! Where this abstains:
//!
//! * An unknown extension gets no language, never a default server.
//! * A configured program that does not resolve is `Misconfigured` and never
//!   falls through to discovery.
//! * An extension directory whose version does not parse ranks last rather
//!   than newest, and is still used when it is all there is.
//! * Every candidate tried is named in `looked_for`, including the home
//!   directory being unknown, which is a different problem from "nothing
//!   installed".
//!
//! Paths are strings here, joined with `/`.
use vstd::prelude::*;

use crate::order::{
    increasing_by, lemma_lex_irreflexive, lemma_lex_total, lemma_lex_transitive, lex_less, lex_sorted, sort_lex,
    texts,
};
use crate::text::{
    chars_of, decimal_chars, decimal_string, eq_ignoring_ascii_case, parse_decimal, parse_unsigned,
    same_ignoring_ascii_case, same_text, trim_text, trimmed,
};
use crate::settings::{first_filed, LspConfig, ServerOverride};
use crate::uri::UriStyle;

verus! {

// ---------------------------------------------------------------------------
// The injected environment
// ---------------------------------------------------------------------------

/// Everything discovery needs to know about the machine. Its answers are
/// whatever the machine says; nothing here assumes more of them.
pub trait Probe {
    /// A program on PATH, and where it resolved to.
    fn on_path(&self, name: &str) -> Option<String>;

    fn is_file(&self, path: &str) -> bool;

    fn is_dir(&self, path: &str) -> bool;

    /// The immediate children of a directory, as full paths; empty when it
    /// cannot be read.
    fn read_dir(&self, path: &str) -> Vec<String>;

    /// The user's home directory, if it can be determined.
    fn home(&self) -> Option<String>;

    /// An environment variable.
    fn env(&self, key: &str) -> Option<String>;
}

/// One question put to a [`Probe`], with the answer it got.
pub ghost enum ProbeCall {
    OnPath { name: Seq<char>, answer: Option<Seq<char>> },
    IsFile { path: Seq<char>, answer: bool },
    IsDir { path: Seq<char>, answer: bool },
    ReadDir { path: Seq<char>, answer: Seq<Seq<char>> },
    Home { answer: Option<Seq<char>> },
    Env { key: Seq<char>, answer: Option<Seq<char>> },
}

pub open spec fn opt_chars(o: Option<String>) -> Option<Seq<char>> {
    match o {
        Some(s) => Some(s@),
        None => None,
    }
}

fn ask_on_path<P: Probe + ?Sized>(probe: &P, name: &str, log: &mut Ghost<Seq<ProbeCall>>) -> (r: Option<String>)
    ensures
        final(log)@ == old(log)@.push(ProbeCall::OnPath { name: name@, answer: opt_chars(r) }),
{
    let r = probe.on_path(name);
    *log = Ghost(log@.push(ProbeCall::OnPath { name: name@, answer: opt_chars(r) }));
    r
}

fn ask_is_file<P: Probe + ?Sized>(probe: &P, path: &str, log: &mut Ghost<Seq<ProbeCall>>) -> (r: bool)
    ensures
        final(log)@ == old(log)@.push(ProbeCall::IsFile { path: path@, answer: r }),
{
    let r = probe.is_file(path);
    *log = Ghost(log@.push(ProbeCall::IsFile { path: path@, answer: r }));
    r
}

fn ask_is_dir<P: Probe + ?Sized>(probe: &P, path: &str, log: &mut Ghost<Seq<ProbeCall>>) -> (r: bool)
    ensures
        final(log)@ == old(log)@.push(ProbeCall::IsDir { path: path@, answer: r }),
{
    let r = probe.is_dir(path);
    *log = Ghost(log@.push(ProbeCall::IsDir { path: path@, answer: r }));
    r
}

fn ask_read_dir<P: Probe + ?Sized>(probe: &P, path: &str, log: &mut Ghost<Seq<ProbeCall>>) -> (r: Vec<String>)
    ensures
        final(log)@ == old(log)@.push(ProbeCall::ReadDir { path: path@, answer: texts(r@) }),
{
    let r = probe.read_dir(path);
    *log = Ghost(log@.push(ProbeCall::ReadDir { path: path@, answer: texts(r@) }));
    r
}

fn ask_home<P: Probe + ?Sized>(probe: &P, log: &mut Ghost<Seq<ProbeCall>>) -> (r: Option<String>)
    ensures
        final(log)@ == old(log)@.push(ProbeCall::Home { answer: opt_chars(r) }),
{
    let r = probe.home();
    *log = Ghost(log@.push(ProbeCall::Home { answer: opt_chars(r) }));
    r
}

fn ask_env<P: Probe + ?Sized>(probe: &P, key: &str, log: &mut Ghost<Seq<ProbeCall>>) -> (r: Option<String>)
    ensures
        final(log)@ == old(log)@.push(ProbeCall::Env { key: key@, answer: opt_chars(r) }),
{
    let r = probe.env(key);
    *log = Ghost(log@.push(ProbeCall::Env { key: key@, answer: opt_chars(r) }));
    r
}

// ---------------------------------------------------------------------------
// The model
// ---------------------------------------------------------------------------

/// A language this app can ask a server about.
#[derive(Debug, Clone, Copy, PartialEq, Eq, PartialOrd, Ord, Hash, Structural)]
pub enum Language {
    CSharp,
    TypeScript,
    Rust,
    Python,
}

pub open spec fn language_id(language: Language) -> Seq<char> {
    match language {
        Language::CSharp => "csharp"@,
        Language::TypeScript => "typescript"@,
        Language::Rust => "rust"@,
        Language::Python => "python"@,
    }
}

impl Language {
    /// The server id, and the key a configuration file names the server by.
    pub fn id(self) -> (r: &'static str)
        ensures
            r@ == language_id(self),
    {
        match self {
            Language::CSharp => "csharp",
            Language::TypeScript => "typescript",
            Language::Rust => "rust",
            Language::Python => "python",
        }
    }
}

/// When a server's answers can be trusted.
#[derive(Debug, Clone, Copy, PartialEq, Eq)]
pub enum Readiness {
    /// As soon as `initialize` returns.
    Immediate,
    /// Once one of the server's progress tokens with this prefix has ended.
    /// It names one unit of work, never a namespace.
    Progress { token_prefix: &'static str },
    /// Once the progress whose `begin` carried a title with this prefix has
    /// ended, for servers that mint an opaque token per unit of work.
    ProgressTitle { title_prefix: &'static str },
    /// Once the server has published diagnostics for anything.
    FirstDiagnostics,
    /// Once Roslyn says its projects are loaded.
    RoslynProjectInit,
}

/// A readiness rule, as plain values.
pub ghost enum Wait {
    Immediate,
    Progress(Seq<char>),
    ProgressTitle(Seq<char>),
    FirstDiagnostics,
    RoslynProjectInit,
}

impl View for Readiness {
    type V = Wait;

    open spec fn view(&self) -> Wait {
        match self {
            Readiness::Immediate => Wait::Immediate,
            Readiness::Progress { token_prefix } => Wait::Progress(token_prefix@),
            Readiness::ProgressTitle { title_prefix } => Wait::ProgressTitle(title_prefix@),
            Readiness::FirstDiagnostics => Wait::FirstDiagnostics,
            Readiness::RoslynProjectInit => Wait::RoslynProjectInit,
        }
    }
}

/// How long to wait, per kind of wait, in seconds. The first request pays for
/// project load or cache priming and the rest do not.
#[derive(Debug, Clone, Copy, PartialEq, Eq, Structural)]
pub struct Timeouts {
    pub first_request: u64,
    pub request: u64,
    pub document_symbol: u64,
}

/// Everything needed to start one server and interpret it.
#[derive(Debug, Clone, PartialEq, Eq)]
pub struct ServerSpec {
    pub id: &'static str,
    pub language: Language,
    /// The LSP `languageId` for `textDocument/didOpen`.
    pub language_id: &'static str,
    pub program: String,
    pub args: Vec<String>,
    /// Layered over the inherited environment, in key order, each key once.
    pub env: Vec<(String, String)>,
    pub uri_style: UriStyle,
    pub readiness: Readiness,
    pub timeouts: Timeouts,
}

/// What resolving a language produced: four different things to tell the user.
#[derive(Debug, Clone, PartialEq, Eq)]
pub enum Resolution {
    Found(Box<ServerSpec>),
    /// Nothing was found: every candidate tried, and how to get one.
    NotFound { language: Language, looked_for: Vec<String>, hint: String },
    /// The workspace configuration turned this language off.
    Disabled { language: Language },
    /// The configuration named a program explicitly and it is not there.
    Misconfigured { language: Language, program: String, detail: String },
}

/// A program discovery looks for on PATH, with what it is launched with.
#[derive(Debug, Clone, Copy, PartialEq, Eq)]
pub struct Candidate {
    pub name: &'static str,
    pub args: &'static [&'static str],
    pub readiness: Readiness,
}

pub open spec fn strs(s: Seq<&'static str>) -> Seq<Seq<char>> {
    s.map_values(|x: &'static str| x@)
}

/// A candidate, as plain values.
pub ghost struct CandidateView {
    pub name: Seq<char>,
    pub args: Seq<Seq<char>>,
    pub readiness: Wait,
}

pub open spec fn candidate_view(c: Candidate) -> CandidateView {
    CandidateView { name: c.name@, args: strs(c.args@), readiness: c.readiness@ }
}

/// The servers discovery tries on PATH for a language, in order of
/// preference. C# is discovered elsewhere.
pub open spec fn candidates_spec(language: Language) -> Seq<CandidateView> {
    match language {
        Language::CSharp => Seq::empty(),
        Language::Rust => seq![
            CandidateView {
                name: "rust-analyzer"@,
                args: Seq::empty(),
                readiness: Wait::Progress("rustAnalyzer/cachePriming"@),
            },
        ],
        Language::TypeScript => seq![
            CandidateView {
                name: "typescript-language-server"@,
                args: seq!["--stdio"@],
                readiness: Wait::ProgressTitle("Initializing JS/TS language features"@),
            },
        ],
        Language::Python => seq![
            CandidateView {
                name: "basedpyright-langserver"@,
                args: seq!["--stdio"@],
                readiness: Wait::FirstDiagnostics,
            },
            CandidateView {
                name: "pyright-langserver"@,
                args: seq!["--stdio"@],
                readiness: Wait::FirstDiagnostics,
            },
        ],
    }
}

pub fn candidates(language: Language) -> (r: Vec<Candidate>)
    ensures
        r@.map_values(|c: Candidate| candidate_view(c)) == candidates_spec(language),
{
    let mut r: Vec<Candidate> = Vec::new();
    match language {
        Language::CSharp => {},
        Language::Rust => {
            let none: &'static [&'static str] = &[];
            assert(none@ =~= Seq::<&'static str>::empty());
            r.push(
                Candidate {
                    name: "rust-analyzer",
                    args: none,
                    readiness: Readiness::Progress { token_prefix: "rustAnalyzer/cachePriming" },
                },
            );
        },
        Language::TypeScript => {
            let stdio: &'static [&'static str] = &["--stdio"];
            assert(stdio@ =~= seq!["--stdio"]);
            r.push(
                Candidate {
                    name: "typescript-language-server",
                    args: stdio,
                    readiness: Readiness::ProgressTitle {
                        title_prefix: "Initializing JS/TS language features",
                    },
                },
            );
        },
        Language::Python => {
            let stdio: &'static [&'static str] = &["--stdio"];
            assert(stdio@ =~= seq!["--stdio"]);
            r.push(
                Candidate {
                    name: "basedpyright-langserver",
                    args: stdio,
                    readiness: Readiness::FirstDiagnostics,
                },
            );
            r.push(
                Candidate {
                    name: "pyright-langserver",
                    args: stdio,
                    readiness: Readiness::FirstDiagnostics,
                },
            );
        },
    }
    assert(r@.len() == candidates_spec(language).len());
    assert forall|i: int| 0 <= i < r@.len() implies #[trigger] candidate_view(r@[i]) == candidates_spec(language)[i] by {
        assert(strs(r@[i].args@) =~= candidates_spec(language)[i].args);
    }
    assert(r@.map_values(|c: Candidate| candidate_view(c)) =~= candidates_spec(language));
    r
}

// ---------------------------------------------------------------------------
// Extensions
// ---------------------------------------------------------------------------

/// Whether `e` is one of `names`, ignoring ASCII case.
pub open spec fn named_any(e: Seq<char>, names: Seq<Seq<char>>) -> bool {
    exists|i: int| 0 <= i < names.len() && same_ignoring_ascii_case(e, #[trigger] names[i])
}

/// The language of a file extension given without its dot, ignoring ASCII
/// case; nothing for any other extension.
pub open spec fn extension_language(e: Seq<char>) -> Option<Language> {
    if named_any(e, seq!["cs"@]) {
        Some(Language::CSharp)
    } else if named_any(e, seq!["ts"@, "tsx"@, "js"@, "jsx"@, "mjs"@, "cjs"@, "mts"@, "cts"@]) {
        Some(Language::TypeScript)
    } else if named_any(e, seq!["rs"@]) {
        Some(Language::Rust)
    } else if named_any(e, seq!["py"@, "pyi"@]) {
        Some(Language::Python)
    } else {
        None
    }
}

fn matches_any(e: &str, names: &[&str]) -> (r: bool)
    ensures
        r == named_any(e@, strs(names@)),
{
    let mut i: usize = 0;
    while i < names.len()
        invariant
            i <= names.len(),
            forall|k: int| 0 <= k < i ==> !same_ignoring_ascii_case(e@, #[trigger] strs(names@)[k]),
        decreases names.len() - i,
    {
        if eq_ignoring_ascii_case(e, names[i]) {
            assert(same_ignoring_ascii_case(e@, strs(names@)[i as int]));
            return true;
        }
        i = i + 1;
    }
    false
}

/// The language of a file extension (no leading dot), or nothing. `None` is a
/// real answer and is never turned into a default server.
pub fn language_for_extension(extension: &str) -> (r: Option<Language>)
    ensures
        r == extension_language(extension@),
{
    let cs: &[&str] = &["cs"];
    assert(strs(cs@) =~= seq!["cs"@]);
    if matches_any(extension, cs) {
        return Some(Language::CSharp);
    }
    let ts: &[&str] = &["ts", "tsx", "js", "jsx", "mjs", "cjs", "mts", "cts"];
    assert(strs(ts@) =~= seq!["ts"@, "tsx"@, "js"@, "jsx"@, "mjs"@, "cjs"@, "mts"@, "cts"@]);
    if matches_any(extension, ts) {
        return Some(Language::TypeScript);
    }
    let rs: &[&str] = &["rs"];
    assert(strs(rs@) =~= seq!["rs"@]);
    if matches_any(extension, rs) {
        return Some(Language::Rust);
    }
    let py: &[&str] = &["py", "pyi"];
    assert(strs(py@) =~= seq!["py"@, "pyi"@]);
    if matches_any(extension, py) {
        return Some(Language::Python);
    }
    None
}

// ---------------------------------------------------------------------------
// Paths
// ---------------------------------------------------------------------------

pub open spec fn is_separator(c: char) -> bool {
    c == '/' || c == '\\'
}

/// `b` under the directory `a`.
pub open spec fn joined(a: Seq<char>, b: Seq<char>) -> Seq<char> {
    if a.len() == 0 {
        b
    } else if is_separator(a.last()) {
        a + b
    } else {
        a + "/"@ + b
    }
}

/// The index just past the last separator, or 0.
pub open spec fn name_start(s: Seq<char>) -> int
    decreases s.len(),
{
    if s.len() == 0 {
        0
    } else if is_separator(s.last()) {
        s.len() as int
    } else {
        name_start(s.drop_last())
    }
}

/// The last component of a path, when it has one.
pub open spec fn file_name(s: Seq<char>) -> Option<Seq<char>> {
    if name_start(s) < s.len() { Some(s.skip(name_start(s))) } else { None }
}

/// Where the last `.` is, or -1.
pub open spec fn last_dot(s: Seq<char>) -> int
    decreases s.len(),
{
    if s.len() == 0 {
        -1
    } else if s.last() == '.' {
        s.len() - 1
    } else {
        last_dot(s.drop_last())
    }
}

/// A file name without its extension; a name whose only dot leads it is all
/// stem.
pub open spec fn stem_of(name: Seq<char>) -> Seq<char> {
    if last_dot(name) <= 0 { name } else { name.take(last_dot(name)) }
}

proof fn lemma_name_start_bounds(s: Seq<char>)
    ensures
        0 <= name_start(s) <= s.len(),
    decreases s.len(),
{
    if s.len() > 0 && !is_separator(s.last()) {
        lemma_name_start_bounds(s.drop_last());
    }
}

proof fn lemma_last_dot_bounds(s: Seq<char>)
    ensures
        -1 <= last_dot(s) < s.len(),
    decreases s.len(),
{
    if s.len() > 0 && s.last() != '.' {
        lemma_last_dot_bounds(s.drop_last());
    }
}

fn join_path(a: &str, b: &str) -> (r: String)
    ensures
        r@ == joined(a@, b@),
{
    let v = chars_of(a);
    let mut out = a.to_owned();
    if v.len() > 0 && !(v[v.len() - 1] == '/' || v[v.len() - 1] == '\\') {
        out.append("/");
    }
    out.append(b);
    proof {
        if v.len() > 0 {
            assert(v@.last() == v@[v.len() - 1]);
        }
    }
    out
}

/// The last component of `path`.
fn file_name_of(path: &str) -> (r: Option<String>)
    ensures
        match r {
            Some(n) => file_name(path@) == Some(n@),
            None => file_name(path@) is None,
        },
{
    let v = chars_of(path);
    let mut start = v.len();
    proof { assert(v@.take(v.len() as int) =~= v@); }
    while start > 0 && !(v[start - 1] == '/' || v[start - 1] == '\\')
        invariant
            start <= v.len(),
            v@ == path@,
            name_start(v@) == name_start(v@.take(start as int)),
        decreases start,
    {
        assert(v@.take(start as int).drop_last() =~= v@.take(start - 1));
        start = start - 1;
    }
    assert(name_start(v@) == start as int);
    if start < v.len() {
        Some(path.substring_char(start, v.len()).to_owned())
    } else {
        None
    }
}

/// The stem of a file name.
fn stem(name: &str) -> (r: String)
    ensures
        r@ == stem_of(name@),
{
    let v = chars_of(name);
    let mut k = v.len();
    proof { assert(v@.take(v.len() as int) =~= v@); }
    while k > 0 && v[k - 1] != '.'
        invariant
            k <= v.len(),
            v@ == name@,
            last_dot(v@) == last_dot(v@.take(k as int)),
        decreases k,
    {
        assert(v@.take(k as int).drop_last() =~= v@.take(k - 1));
        k = k - 1;
    }
    if k <= 1 {
        proof {
            if k == 1 {
                assert(v@.take(1).last() == '.');
            }
        }
        name.to_owned()
    } else {
        assert(v@.take(k as int).last() == '.');
        assert(last_dot(v@) == k - 1);
        name.substring_char(0, k - 1).to_owned()
    }
}

/// A path's extension, as `Path::extension` reads it: what follows the last
/// dot of the file name, unless that dot leads the name or there is none.
pub open spec fn extension(path: Seq<char>) -> Option<Seq<char>> {
    match file_name(path) {
        Some(n) => if last_dot(n) <= 0 {
            None
        } else {
            Some(n.skip(last_dot(n) + 1))
        },
        None => None,
    }
}

/// The extension of a path's file name, without its dot.
pub fn extension_of(path: &str) -> (r: Option<String>)
    ensures
        match extension(path@) {
            Some(e) => r matches Some(x) && x@ == e,
            None => r is None,
        },
{
    let name = match file_name_of(path) {
        Some(n) => n,
        None => {
            return None;
        },
    };
    let v = chars_of(name.as_str());
    let mut k = v.len();
    proof { assert(v@.take(v.len() as int) =~= v@); }
    while k > 0 && v[k - 1] != '.'
        invariant
            k <= v.len(),
            v@ == name@,
            last_dot(v@) == last_dot(v@.take(k as int)),
        decreases k,
    {
        assert(v@.take(k as int).drop_last() =~= v@.take(k - 1));
        k = k - 1;
    }
    if k <= 1 {
        proof {
            if k == 1 {
                assert(v@.take(1).last() == '.');
            }
        }
        None
    } else {
        assert(v@.take(k as int).last() == '.');
        assert(last_dot(v@) == k - 1);
        Some(name.as_str().substring_char(k, v.len()).to_owned())
    }
}

// ---------------------------------------------------------------------------
// Per-language defaults
// ---------------------------------------------------------------------------

/// The first candidate called `stem`, ignoring ASCII case.
pub open spec fn first_named(cs: Seq<CandidateView>, stem: Seq<char>) -> Option<CandidateView>
    decreases cs.len(),
{
    if cs.len() == 0 {
        None
    } else if same_ignoring_ascii_case(cs[0].name, stem) {
        Some(cs[0])
    } else {
        first_named(cs.drop_first(), stem)
    }
}

/// The candidate a program is, judged by its file stem.
pub open spec fn candidate_for_spec(language: Language, program: Seq<char>) -> Option<CandidateView> {
    match file_name(program) {
        Some(name) => first_named(candidates_spec(language), stem_of(name)),
        None => None,
    }
}

fn candidate_for(language: Language, program: &str) -> (r: Option<Candidate>)
    ensures
        match r {
            Some(c) => candidate_for_spec(language, program@) == Some(candidate_view(c)),
            None => candidate_for_spec(language, program@) is None,
        },
{
    let name = match file_name_of(program) {
        Some(n) => n,
        None => {
            return None;
        },
    };
    let s = stem(name.as_str());
    let all = candidates(language);
    let ghost views = all@.map_values(|c: Candidate| candidate_view(c));
    let mut i: usize = 0;
    assert(views.skip(0) =~= views);
    while i < all.len()
        invariant
            i <= all.len(),
            views == all@.map_values(|c: Candidate| candidate_view(c)),
            views == candidates_spec(language),
            s@ == stem_of(name@),
            file_name(program@) == Some(name@),
            first_named(views, s@) == first_named(views.skip(i as int), s@),
        decreases all.len() - i,
    {
        assert(views.skip(i as int).drop_first() =~= views.skip(i + 1));
        assert(views.skip(i as int)[0] == candidate_view(all@[i as int]));
        if eq_ignoring_ascii_case(all[i].name, s.as_str()) {
            return Some(all[i]);
        }
        i = i + 1;
    }
    assert(views.skip(all.len() as int) =~= Seq::<CandidateView>::empty());
    None
}

/// What Roslyn is launched with: stdio, quiet logs, and projects loaded.
pub open spec fn roslyn_args() -> Seq<Seq<char>> {
    seq!["--stdio"@, "--logLevel"@, "Warning"@, "--autoLoadProjects"@]
}

/// What a program is launched with when nothing configured says otherwise.
pub open spec fn default_args_spec(language: Language, program: Seq<char>) -> Seq<Seq<char>> {
    match candidate_for_spec(language, program) {
        Some(c) => c.args,
        None => match language {
            Language::CSharp => roslyn_args(),
            Language::Rust => Seq::empty(),
            _ => seq!["--stdio"@],
        },
    }
}

fn owned_all(items: &[&str]) -> (r: Vec<String>)
    ensures
        texts(r@) == strs(items@),
{
    let mut r: Vec<String> = Vec::new();
    let mut i: usize = 0;
    while i < items.len()
        invariant
            i <= items.len(),
            texts(r@) == strs(items@).take(i as int),
        decreases items.len() - i,
    {
        let ghost before = texts(r@);
        let item = items[i].to_owned();
        r.push(item);
        assert(texts(r@) =~= before.push(items@[i as int]@));
        i = i + 1;
        assert(texts(r@) =~= strs(items@).take(i as int));
    }
    assert(strs(items@).take(items.len() as int) =~= strs(items@));
    r
}

fn roslyn_arg_list() -> (r: Vec<String>)
    ensures
        texts(r@) == roslyn_args(),
{
    let args: &[&str] = &["--stdio", "--logLevel", "Warning", "--autoLoadProjects"];
    assert(strs(args@) =~= roslyn_args());
    owned_all(args)
}

fn default_args(language: Language, program: &str) -> (r: Vec<String>)
    ensures
        texts(r@) == default_args_spec(language, program@),
{
    if let Some(candidate) = candidate_for(language, program) {
        return owned_all(candidate.args);
    }
    match language {
        Language::CSharp => roslyn_arg_list(),
        Language::Rust => {
            let r: Vec<String> = Vec::new();
            assert(texts(r@) =~= Seq::<Seq<char>>::empty());
            r
        },
        _ => {
            let stdio: &[&str] = &["--stdio"];
            assert(strs(stdio@) =~= seq!["--stdio"@]);
            owned_all(stdio)
        },
    }
}

pub open spec fn pairs(s: Seq<(String, String)>) -> Seq<(Seq<char>, Seq<char>)> {
    s.map_values(|p: (String, String)| (p.0@, p.1@))
}

/// The built-in environment: Roslyn gets workstation GC.
pub open spec fn default_env_spec(language: Language) -> Seq<(Seq<char>, Seq<char>)> {
    if language == Language::CSharp {
        seq![("DOTNET_gcServer"@, "0"@)]
    } else {
        Seq::empty()
    }
}

fn default_env(language: Language) -> (r: Vec<(String, String)>)
    ensures
        pairs(r@) == default_env_spec(language),
{
    let mut env: Vec<(String, String)> = Vec::new();
    if language == Language::CSharp {
        env.push(("DOTNET_gcServer".to_owned(), "0".to_owned()));
    }
    assert(pairs(env@) =~= default_env_spec(language));
    env
}

/// Roslyn spells a drive colon plainly; the others percent-encode it.
pub open spec fn default_uri_style_spec(language: Language) -> UriStyle {
    if language == Language::CSharp { UriStyle::Plain } else { UriStyle::Encoded }
}

fn default_uri_style(language: Language) -> (r: UriStyle)
    ensures
        r == default_uri_style_spec(language),
{
    match language {
        Language::CSharp => UriStyle::Plain,
        _ => UriStyle::Encoded,
    }
}

/// When a program's answers can be trusted: its candidate's rule when it is
/// one, else the language's.
pub open spec fn default_readiness_spec(language: Language, program: Seq<char>) -> Wait {
    match candidate_for_spec(language, program) {
        Some(c) => c.readiness,
        None => match language {
            Language::CSharp => Wait::RoslynProjectInit,
            Language::Rust => Wait::Progress("rustAnalyzer/cachePriming"@),
            Language::TypeScript => Wait::ProgressTitle("Initializing JS/TS language features"@),
            Language::Python => Wait::FirstDiagnostics,
        },
    }
}

fn default_readiness(language: Language, program: &str) -> (r: Readiness)
    ensures
        r@ == default_readiness_spec(language, program@),
{
    if let Some(candidate) = candidate_for(language, program) {
        return candidate.readiness;
    }
    match language {
        Language::CSharp => Readiness::RoslynProjectInit,
        Language::Rust => Readiness::Progress { token_prefix: "rustAnalyzer/cachePriming" },
        Language::TypeScript => Readiness::ProgressTitle {
            title_prefix: "Initializing JS/TS language features",
        },
        Language::Python => Readiness::FirstDiagnostics,
    }
}

/// The waits, in seconds: Roslyn's first answer waits for project load, and
/// rust-analyzer's for indexing.
pub open spec fn default_timeouts_spec(language: Language) -> Timeouts {
    match language {
        Language::CSharp => Timeouts { first_request: 180, request: 20, document_symbol: 15 },
        Language::Rust => Timeouts { first_request: 120, request: 20, document_symbol: 15 },
        _ => Timeouts { first_request: 60, request: 15, document_symbol: 10 },
    }
}

fn default_timeouts(language: Language) -> (r: Timeouts)
    ensures
        r == default_timeouts_spec(language),
{
    match language {
        Language::CSharp => Timeouts { first_request: 180, request: 20, document_symbol: 15 },
        Language::Rust => Timeouts { first_request: 120, request: 20, document_symbol: 15 },
        _ => Timeouts { first_request: 60, request: 15, document_symbol: 10 },
    }
}

pub open spec fn hint_spec(language: Language) -> Seq<char> {
    match language {
        Language::CSharp => "Install the C# extension for VS Code (`ms-dotnettools.csharp`), which bundles Microsoft.CodeAnalysis.LanguageServer — or set CB_ROSLYN_PATH to a directory containing it."@,
        Language::Rust => "Install it with `rustup component add rust-analyzer`, or set `lsp.servers.rust.program` in .code-basics/config.json."@,
        Language::TypeScript => "Install it with `npm i -g typescript-language-server typescript`, or set `lsp.servers.typescript.program` in .code-basics/config.json."@,
        Language::Python => "Install `basedpyright` or `pyright` (for example `pip install basedpyright`), or set `lsp.servers.python.program` in .code-basics/config.json. Note that `ruff` is a linter and cannot answer usage or definition queries."@,
    }
}

/// How to get a server for `language`.
fn hint(language: Language) -> (r: &'static str)
    ensures
        r@ == hint_spec(language),
{
    match language {
        Language::CSharp => "Install the C# extension for VS Code (`ms-dotnettools.csharp`), which bundles Microsoft.CodeAnalysis.LanguageServer — or set CB_ROSLYN_PATH to a directory containing it.",
        Language::Rust => "Install it with `rustup component add rust-analyzer`, or set `lsp.servers.rust.program` in .code-basics/config.json.",
        Language::TypeScript => "Install it with `npm i -g typescript-language-server typescript`, or set `lsp.servers.typescript.program` in .code-basics/config.json.",
        Language::Python => "Install `basedpyright` or `pyright` (for example `pip install basedpyright`), or set `lsp.servers.python.program` in .code-basics/config.json. Note that `ruff` is a linter and cannot answer usage or definition queries.",
    }
}

// ---------------------------------------------------------------------------
// Extension versions
// ---------------------------------------------------------------------------

/// The directory-name prefix of the C# extension.
pub open spec fn csharp_prefix() -> Seq<char> {
    "ms-dotnettools.csharp-"@
}

/// Where `c` first occurs in `s`, or the length.
pub open spec fn first_index(s: Seq<char>, c: char) -> int
    decreases s.len(),
{
    if s.len() == 0 {
        0
    } else if s[0] == c {
        0
    } else {
        1 + first_index(s.drop_first(), c)
    }
}

proof fn lemma_first_index(s: Seq<char>, c: char, m: int)
    requires
        0 <= m <= s.len(),
        forall|j: int| 0 <= j < m ==> s[j] != c,
        m == s.len() || s[m] == c,
    ensures
        first_index(s, c) == m,
    decreases m,
{
    if m > 0 {
        lemma_first_index(s.drop_first(), c, m - 1);
    }
}

pub proof fn lemma_first_index_bounds(s: Seq<char>, c: char)
    ensures
        0 <= first_index(s, c) <= s.len(),
    decreases s.len(),
{
    if s.len() > 0 && s[0] != c {
        lemma_first_index_bounds(s.drop_first(), c);
    }
}

/// The numbers of a dotted version, each as `u64` parses it.
pub open spec fn components(s: Seq<char>) -> Option<Seq<nat>>
    decreases s.len(),
{
    let k = first_index(s, '.');
    match parse_unsigned(s.take(k), u64::MAX as nat) {
        None => None,
        Some(x) => if k >= s.len() {
            Some(seq![x])
        } else {
            proof {
                lemma_first_index_bounds(s, '.');
            }
            match components(s.skip(k + 1)) {
                Some(rest) => Some(seq![x] + rest),
                None => None,
            }
        },
    }
}

/// The version a C# extension directory is named with: the dotted numbers
/// after the prefix, up to the first `-` (which starts the platform triple).
pub open spec fn version_of(name: Seq<char>) -> Option<Seq<nat>> {
    let p = csharp_prefix();
    if name.len() < p.len() || name.take(p.len() as int) != p {
        None
    } else {
        let rest = name.skip(p.len() as int);
        components(rest.take(first_index(rest, '-')))
    }
}

pub open spec fn nats(v: Seq<u64>) -> Seq<nat> {
    v.map_values(|x: u64| x as nat)
}

fn has_prefix(v: &Vec<char>, p: &Vec<char>) -> (r: bool)
    ensures
        r == (p@.len() <= v@.len() && v@.take(p@.len() as int) == p@),
{
    if p.len() > v.len() {
        return false;
    }
    let mut i: usize = 0;
    while i < p.len()
        invariant
            i <= p.len() <= v.len(),
            v@.take(i as int) =~= p@.take(i as int),
        decreases p.len() - i,
    {
        if v[i] != p[i] {
            assert(v@.take(p@.len() as int)[i as int] != p@[i as int]);
            return false;
        }
        i = i + 1;
        assert(v@.take(i as int) =~= p@.take(i as int));
    }
    assert(p@.take(p@.len() as int) =~= p@);
    true
}

/// The version a C# extension directory is named with, or nothing when the
/// name is not one or its version does not parse.
pub fn parse_extension_version(dir_name: &str) -> (r: Option<Vec<u64>>)
    ensures
        match r {
            Some(v) => version_of(dir_name@) == Some(nats(v@)),
            None => version_of(dir_name@) is None,
        },
{
    let v = chars_of(dir_name);
    let p = chars_of("ms-dotnettools.csharp-");
    if !has_prefix(&v, &p) {
        return None;
    }
    let ghost rest = v@.skip(p@.len() as int);
    let mut end = p.len();
    while end < v.len() && v[end] != '-'
        invariant
            p@.len() <= end <= v.len(),
            rest == v@.skip(p@.len() as int),
            forall|j: int| 0 <= j < end - p@.len() ==> rest[j] != '-',
        decreases v.len() - end,
    {
        end = end + 1;
    }
    proof {
        lemma_first_index(rest, '-', end - p@.len());
        assert(rest.take(end - p@.len()) =~= v@.subrange(p@.len() as int, end as int));
    }
    let ghost whole = v@.subrange(p@.len() as int, end as int);
    assert(version_of(dir_name@) == components(whole));
    let mut parts: Vec<u64> = Vec::new();
    let mut start = p.len();
    loop
        invariant
            p@.len() <= start <= end <= v.len(),
            whole == v@.subrange(p@.len() as int, end as int),
            version_of(dir_name@) == components(whole),
            components(whole) == match components(v@.subrange(start as int, end as int)) {
                Some(more) => Some(nats(parts@) + more),
                None => None,
            },
        decreases end - start,
    {
        let ghost here = v@.subrange(start as int, end as int);
        let mut k = start;
        while k < end && v[k] != '.'
            invariant
                start <= k <= end <= v.len(),
                here == v@.subrange(start as int, end as int),
                forall|j: int| 0 <= j < k - start ==> here[j] != '.',
            decreases end - k,
        {
            k = k + 1;
        }
        proof {
            lemma_first_index(here, '.', k - start);
            assert(here.take(k - start) =~= v@.subrange(start as int, k as int));
        }
        let number = match parse_decimal(&v, start, k, u64::MAX) {
            Some(n) => n,
            None => {
                assert(components(here) is None);
                return None;
            },
        };
        let ghost before = nats(parts@);
        parts.push(number);
        assert(nats(parts@) =~= before.push(number as nat));
        if k >= end {
            assert(components(here) == Some(seq![number as nat]));
            assert(nats(parts@) =~= before + seq![number as nat]);
            return Some(parts);
        }
        assert(here.skip(k - start + 1) =~= v@.subrange(k + 1, end as int));
        proof {
            if let Some(more) = components(v@.subrange(k + 1, end as int)) {
                assert(before + (seq![number as nat] + more) =~= nats(parts@) + more);
            }
        }
        start = k + 1;
    }
}

/// The order of `Vec<u64>`: number by number, a proper prefix first.
pub open spec fn numbers_lt(a: Seq<nat>, b: Seq<nat>) -> bool
    decreases a.len(),
{
    if a.len() == 0 {
        b.len() > 0
    } else if b.len() == 0 {
        false
    } else if a[0] != b[0] {
        a[0] < b[0]
    } else {
        numbers_lt(a.drop_first(), b.drop_first())
    }
}

/// The order of versions: an unreadable one below every readable one.
pub open spec fn version_lt(a: Option<Seq<nat>>, b: Option<Seq<nat>>) -> bool {
    match (a, b) {
        (None, Some(_)) => true,
        (Some(x), Some(y)) => numbers_lt(x, y),
        _ => false,
    }
}

fn version_less(a: &Option<Vec<u64>>, b: &Option<Vec<u64>>) -> (r: bool)
    ensures
        r == version_lt(
            match a {
                Some(x) => Some(nats(x@)),
                None => None,
            },
            match b {
                Some(y) => Some(nats(y@)),
                None => None,
            },
        ),
{
    match (a, b) {
        (None, Some(_)) => true,
        (Some(x), Some(y)) => {
            let mut i: usize = 0;
            assert(nats(x@).skip(0) =~= nats(x@));
            assert(nats(y@).skip(0) =~= nats(y@));
            while i < x.len() && i < y.len() && x[i] == y[i]
                invariant
                    i <= x.len(),
                    i <= y.len(),
                    numbers_lt(nats(x@), nats(y@)) == numbers_lt(
                        nats(x@).skip(i as int),
                        nats(y@).skip(i as int),
                    ),
                decreases x.len() - i,
            {
                assert(nats(x@).skip(i as int).drop_first() =~= nats(x@).skip(i + 1));
                assert(nats(y@).skip(i as int).drop_first() =~= nats(y@).skip(i + 1));
                i = i + 1;
            }
            if i == x.len() {
                i < y.len()
            } else if i == y.len() {
                false
            } else {
                x[i] < y[i]
            }
        },
        _ => false,
    }
}

/// The newest of a run of installs, each as (its version, its executable):
/// a later one replaces the best so far only when strictly newer, so the
/// first of equals stands.
pub open spec fn newest(found: Seq<(Option<Seq<nat>>, Seq<char>)>) -> Option<(Option<Seq<nat>>, Seq<char>)>
    decreases found.len(),
{
    if found.len() == 0 {
        None
    } else {
        match newest(found.drop_last()) {
            None => Some(found.last()),
            Some(best) => if version_lt(best.0, found.last().0) {
                Some(found.last())
            } else {
                Some(best)
            },
        }
    }
}

/// Installs as (directory name, executable), read as (version, executable).
pub open spec fn installs(found: Seq<(String, String)>) -> Seq<(Option<Seq<nat>>, Seq<char>)> {
    found.map_values(|f: (String, String)| (version_of(f.0@), f.1@))
}

/// The executable of the newest install among `found`, each given as its
/// extension directory's name and its executable.
pub fn pick_newest(found: &Vec<(String, String)>) -> (r: Option<String>)
    ensures
        match r {
            Some(exe) => newest(installs(found@)) matches Some(best) && best.1 == exe@,
            None => newest(installs(found@)) is None,
        },
{
    let ghost all = installs(found@);
    let mut best: Option<(Option<Vec<u64>>, usize)> = None;
    let mut i: usize = 0;
    while i < found.len()
        invariant
            i <= found.len(),
            all == installs(found@),
            match best {
                Some((v, k)) => k < i && newest(all.take(i as int)) == Some(
                    (
                        match v {
                            Some(x) => Some(nats(x@)),
                            None => None,
                        },
                        found@[k as int].1@,
                    ),
                ),
                None => i == 0 && newest(all.take(i as int)) is None,
            },
        decreases found.len() - i,
    {
        let version = parse_extension_version(found[i].0.as_str());
        assert(all.take(i + 1).drop_last() =~= all.take(i as int));
        assert(all.take(i + 1).last() == all[i as int]);
        let replace = match &best {
            None => true,
            Some((seen, _)) => version_less(seen, &version),
        };
        if replace {
            best = Some((version, i));
        }
        i = i + 1;
    }
    assert(all.take(found.len() as int) =~= all);
    match best {
        Some((_, k)) => Some(found[k].1.clone()),
        None => None,
    }
}

// ---------------------------------------------------------------------------
// Environments
// ---------------------------------------------------------------------------

/// The variables a list of assignments sets: a later one for a key wins.
pub open spec fn env_map(s: Seq<(Seq<char>, Seq<char>)>) -> Map<Seq<char>, Seq<char>>
    decreases s.len(),
{
    if s.len() == 0 {
        Map::empty()
    } else {
        env_map(s.drop_last()).insert(s.last().0, s.last().1)
    }
}

pub open spec fn keys_of(s: Seq<(Seq<char>, Seq<char>)>) -> Seq<Seq<char>> {
    s.map_values(|p: (Seq<char>, Seq<char>)| p.0)
}

/// In key order, each key once.
pub open spec fn keys_increasing(s: Seq<(Seq<char>, Seq<char>)>) -> bool {
    increasing_by(keys_of(s), crate::order::by_text())
}

proof fn lemma_env_map_distinct(s: Seq<(Seq<char>, Seq<char>)>)
    requires
        keys_increasing(s),
    ensures
        forall|k: Seq<char>| #[trigger] env_map(s).contains_key(k) <==> exists|i: int| 0 <= i < s.len() && s[i].0 == k,
        forall|i: int| 0 <= i < s.len() ==> #[trigger] env_map(s)[s[i].0] == s[i].1,
    decreases s.len(),
{
    if s.len() > 0 {
        let t = s.drop_last();
        assert(keys_increasing(t)) by {
            assert forall|a: int, b: int| 0 <= a < b < keys_of(t).len() implies (crate::order::by_text())(#[trigger] keys_of(t)[a], #[trigger] keys_of(t)[b]) by {
                assert(keys_of(t)[a] == keys_of(s)[a] && keys_of(t)[b] == keys_of(s)[b]);
            }
        }
        lemma_env_map_distinct(t);
        assert forall|k: Seq<char>| #[trigger] env_map(s).contains_key(k) <==> exists|i: int| 0 <= i < s.len() && s[i].0 == k by {
            if env_map(t).contains_key(k) {
                let i = choose|i: int| 0 <= i < t.len() && t[i].0 == k;
                assert(s[i].0 == k);
            }
            if exists|i: int| 0 <= i < s.len() && s[i].0 == k {
                let i = choose|i: int| 0 <= i < s.len() && s[i].0 == k;
                if i < s.len() - 1 {
                    assert(t[i].0 == k);
                }
            }
        }
        assert forall|i: int| 0 <= i < s.len() implies #[trigger] env_map(s)[s[i].0] == s[i].1 by {
            if i < s.len() - 1 {
                assert(keys_of(s)[i] == s[i].0);
                assert(keys_of(s)[s.len() - 1] == s.last().0);
                assert((crate::order::by_text())(keys_of(s)[i], keys_of(s)[s.len() - 1]));
                assert(crate::order::text_lt(s[i].0, s.last().0));
                crate::order::lemma_lex_irreflexive(s[i].0, false);
                assert(s[i].0 != s.last().0);
                assert(t[i] == s[i]);
                assert(env_map(t)[t[i].0] == t[i].1);
                assert(env_map(s) == env_map(t).insert(s.last().0, s.last().1));
            } else {
                assert(s[i] == s.last());
                assert(env_map(s) == env_map(t).insert(s.last().0, s.last().1));
            }
        }
    }
}

/// Set `key` to `value`, keeping the list in key order.
fn set_var(env: &mut Vec<(String, String)>, key: String, value: String)
    requires
        keys_increasing(pairs(old(env)@)),
    ensures
        keys_increasing(pairs(final(env)@)),
        env_map(pairs(final(env)@)) == env_map(pairs(old(env)@)).insert(key@, value@),
{
    let ghost before = pairs(env@);
    let ghost k = key@;
    let ghost val = value@;
    proof { lemma_env_map_distinct(before); }
    let mut p: usize = 0;
    while p < env.len() && lex_less(env[p].0.as_str(), key.as_str(), false)
        invariant
            p <= env.len(),
            pairs(env@) == before,
            k == key@,
            forall|j: int| 0 <= j < p ==> crate::order::text_lt(#[trigger] keys_of(before)[j], k),
        decreases env.len() - p,
    {
        assert(keys_of(before)[p as int] == env@[p as int].0@);
        assert(crate::order::text_lt(keys_of(before)[p as int], k));
        p = p + 1;
    }
    let same = p < env.len() && same_text(env[p].0.as_str(), key.as_str());
    if same {
        assert(before[p as int].0 == k);
        let mut slot = (key, value);
        std::mem::swap(&mut env[p], &mut slot);
        let ghost after = pairs(env@);
        assert(after =~= before.update(p as int, (k, val)));
        assert(keys_of(after) =~= keys_of(before));
        proof {
            lemma_env_map_distinct(after);
            assert forall|x: Seq<char>| env_map(after).contains_key(x) <==> env_map(before).insert(k, val).contains_key(x) by {
                if exists|i: int| 0 <= i < after.len() && after[i].0 == x {
                    let i = choose|i: int| 0 <= i < after.len() && after[i].0 == x;
                    assert(before[i].0 == x);
                }
                if exists|i: int| 0 <= i < before.len() && before[i].0 == x {
                    let i = choose|i: int| 0 <= i < before.len() && before[i].0 == x;
                    assert(after[i].0 == x);
                }
            }
            assert forall|x: Seq<char>| #[trigger] env_map(after).contains_key(x) implies env_map(after)[x] == env_map(before).insert(k, val)[x] by {
                let i = choose|i: int| 0 <= i < after.len() && after[i].0 == x;
                assert(env_map(after)[after[i].0] == after[i].1);
                if i != p {
                    assert(after[i] == before[i]);
                    assert(env_map(before)[before[i].0] == before[i].1);
                    assert(keys_of(before)[i] == before[i].0);
                    assert(keys_of(before)[p as int] == before[p as int].0);
                    if i < p {
                        assert((crate::order::by_text())(keys_of(before)[i], keys_of(before)[p as int]));
                    } else {
                        assert((crate::order::by_text())(keys_of(before)[p as int], keys_of(before)[i]));
                    }
                    crate::order::lemma_lex_irreflexive(k, false);
                    assert(x != k);
                } else {
                    assert(x == k);
                }
            }
            assert(env_map(after) =~= env_map(before).insert(k, val));
        }
    } else {
        proof {
            if p < env.len() {
                assert(keys_of(before)[p as int] == env@[p as int].0@);
                assert(!crate::order::text_lt(keys_of(before)[p as int], k));
                assert(keys_of(before)[p as int] != k);
                lemma_lex_total(keys_of(before)[p as int], k, false);
            }
        }
        env.insert(p, (key, value));
        let ghost after = pairs(env@);
        assert(after =~= before.insert(p as int, (k, val)));
        assert(keys_of(after) =~= keys_of(before).insert(p as int, k));
        proof {
            assert forall|a: int, b: int| 0 <= a < b < keys_of(after).len() implies (crate::order::by_text())(#[trigger] keys_of(after)[a], #[trigger] keys_of(after)[b]) by {
                let ks = keys_of(before);
                if b < p {
                } else if b == p {
                } else if a < p {
                    assert(crate::order::text_lt(ks[a], ks[b - 1]));
                } else if a == p {
                    if b - 1 > p {
                        assert(crate::order::text_lt(ks[p as int], ks[b - 1]));
                        lemma_lex_transitive(k, ks[p as int], ks[b - 1], false);
                    }
                } else {
                }
            }
            lemma_env_map_distinct(after);
            assert forall|x: Seq<char>| env_map(after).contains_key(x) <==> env_map(before).insert(k, val).contains_key(x) by {
                if exists|i: int| 0 <= i < after.len() && after[i].0 == x {
                    let i = choose|i: int| 0 <= i < after.len() && after[i].0 == x;
                    if i < p {
                        assert(before[i].0 == x);
                    } else if i > p {
                        assert(before[i - 1].0 == x);
                    }
                }
                if exists|i: int| 0 <= i < before.len() && before[i].0 == x {
                    let i = choose|i: int| 0 <= i < before.len() && before[i].0 == x;
                    if i < p {
                        assert(after[i].0 == x);
                    } else {
                        assert(after[i + 1].0 == x);
                    }
                }
                if x == k {
                    assert(after[p as int].0 == x);
                }
            }
            assert forall|x: Seq<char>| #[trigger] env_map(after).contains_key(x) implies env_map(after)[x] == env_map(before).insert(k, val)[x] by {
                let i = choose|i: int| 0 <= i < after.len() && after[i].0 == x;
                assert(env_map(after)[after[i].0] == after[i].1);
                if i < p {
                    assert(after[i] == before[i]);
                    assert(env_map(before)[before[i].0] == before[i].1);
                    assert(keys_of(before)[i] == before[i].0);
                    assert(crate::order::text_lt(keys_of(before)[i], k));
                    crate::order::lemma_lex_irreflexive(k, false);
                    assert(x != k);
                } else if i > p {
                    assert(after[i] == before[i - 1]);
                    assert(env_map(before)[before[i - 1].0] == before[i - 1].1);
                    assert(crate::order::text_lt(keys_of(after)[p as int], keys_of(after)[i]));
                    crate::order::lemma_lex_irreflexive(k, false);
                }
            }
            assert(env_map(after) =~= env_map(before).insert(k, val));
        }
    }
}

pub(crate) fn copy_texts(v: &Vec<String>) -> (r: Vec<String>)
    ensures
        r@ == v@,
{
    let mut r: Vec<String> = Vec::new();
    let mut i: usize = 0;
    while i < v.len()
        invariant
            i <= v.len(),
            r@ == v@.take(i as int),
        decreases v.len() - i,
    {
        r.push(v[i].clone());
        i = i + 1;
        assert(r@ =~= v@.take(i as int));
    }
    assert(v@.take(v.len() as int) =~= v@);
    r
}

// ---------------------------------------------------------------------------
// Building a server
// ---------------------------------------------------------------------------

/// A server spec built for `language`'s program from the built-in defaults,
/// with the override layered on: its arguments replace the discovered ones,
/// its environment is layered over the built-in one, its URI style replaces
/// the default.
pub open spec fn built_from(
    s: ServerSpec,
    language: Language,
    over: Option<ServerOverride>,
    discovered: Seq<Seq<char>>,
) -> bool {
    &&& s.id@ == language_id(language)
    &&& s.language == language
    &&& s.language_id@ == language_id(language)
    &&& texts(s.args@) == match over {
        Some(o) => match o.args {
            Some(a) => texts(a@),
            None => discovered,
        },
        None => discovered,
    }
    &&& keys_increasing(pairs(s.env@))
    &&& env_map(pairs(s.env@)) == env_map(
        default_env_spec(language) + match over {
            Some(o) => pairs(o.env@),
            None => Seq::empty(),
        },
    )
    &&& s.uri_style == match over {
        Some(o) => match o.uri_style {
            Some(u) => u,
            None => default_uri_style_spec(language),
        },
        None => default_uri_style_spec(language),
    }
    &&& s.readiness@ == default_readiness_spec(language, s.program@)
    &&& s.timeouts == default_timeouts_spec(language)
}

fn found(language: Language, program: String, args: Vec<String>, over: Option<&ServerOverride>) -> (r: Resolution)
    ensures
        r matches Resolution::Found(s) && s.program@ == program@ && built_from(*s, language, owned(over), texts(args@)),
{
    let readiness = default_readiness(language, program.as_str());
    let mut env = default_env(language);
    let mut spec_args = args;
    let mut uri_style = default_uri_style(language);
    assert(keys_increasing(pairs(env@))) by {
        assert(keys_of(pairs(env@)).len() <= 1);
    }
    if let Some(o) = over {
        if let Some(a) = &o.args {
            spec_args = copy_texts(a);
        }
        let mut j: usize = 0;
        assert(default_env_spec(language) + pairs(o.env@).take(0) =~= default_env_spec(language));
        while j < o.env.len()
            invariant
                j <= o.env.len(),
                keys_increasing(pairs(env@)),
                env_map(pairs(env@)) == env_map(default_env_spec(language) + pairs(o.env@).take(j as int)),
            decreases o.env.len() - j,
        {
            let key = o.env[j].0.clone();
            let value = o.env[j].1.clone();
            set_var(&mut env, key, value);
            assert((default_env_spec(language) + pairs(o.env@).take(j + 1)).drop_last() =~= default_env_spec(language)
                + pairs(o.env@).take(j as int));
            j = j + 1;
        }
        assert(pairs(o.env@).take(o.env.len() as int) =~= pairs(o.env@));
        if let Some(style) = o.uri_style {
            uri_style = style;
        }
    } else {
        assert(default_env_spec(language) + Seq::<(Seq<char>, Seq<char>)>::empty() =~= default_env_spec(language));
    }
    let id = language.id();
    Resolution::Found(
        Box::new(
            ServerSpec {
                id,
                language,
                language_id: id,
                program,
                args: spec_args,
                env,
                uri_style,
                readiness,
                timeouts: default_timeouts(language),
            },
        ),
    )
}

/// Whether Roslyn is launched with exactly the arguments this app chose, so
/// that the arguments the caller owns can be appended.
pub open spec fn takes_caller_args_spec(s: ServerSpec) -> bool {
    s.language == Language::CSharp && texts(s.args@) == roslyn_args()
}

/// Whether the caller owns some of this server's arguments: only Roslyn, and
/// only with the arguments this app chose — a user who replaced them gets
/// exactly what they wrote.
pub fn takes_caller_args(spec: &ServerSpec) -> (r: bool)
    ensures
        r == takes_caller_args_spec(*spec),
{
    if spec.language != Language::CSharp {
        return false;
    }
    let ours = roslyn_arg_list();
    if spec.args.len() != ours.len() {
        assert(texts(spec.args@).len() != roslyn_args().len());
        return false;
    }
    let mut i: usize = 0;
    while i < ours.len()
        invariant
            i <= ours.len(),
            ours.len() == spec.args.len(),
            texts(ours@) == roslyn_args(),
            texts(spec.args@).take(i as int) == roslyn_args().take(i as int),
        decreases ours.len() - i,
    {
        if !same_text(spec.args[i].as_str(), ours[i].as_str()) {
            assert(texts(spec.args@)[i as int] != roslyn_args()[i as int]);
            return false;
        }
        i = i + 1;
        assert(texts(spec.args@).take(i as int) =~= roslyn_args().take(i as int));
    }
    assert(texts(spec.args@) =~= texts(spec.args@).take(i as int));
    assert(roslyn_args() =~= roslyn_args().take(i as int));
    true
}

/// The arguments only the caller knows: our process id, so the server exits
/// with us, and where to write logs when there is somewhere.
pub open spec fn caller_args_spec(s: ServerSpec, pid: u32, log_dir: Option<Seq<char>>) -> Seq<Seq<char>> {
    if takes_caller_args_spec(s) {
        seq!["--clientProcessId"@, decimal_chars(pid as nat)] + match log_dir {
            Some(d) => seq!["--extensionLogDirectory"@, d],
            None => Seq::empty(),
        }
    } else {
        Seq::empty()
    }
}

pub fn caller_args(spec: &ServerSpec, pid: u32, log_dir: Option<&str>) -> (r: Vec<String>)
    ensures
        texts(r@) == caller_args_spec(
            *spec,
            pid,
            match log_dir {
                Some(d) => Some(d@),
                None => None,
            },
        ),
{
    let mut args: Vec<String> = Vec::new();
    if !takes_caller_args(spec) {
        assert(texts(args@) =~= Seq::<Seq<char>>::empty());
        return args;
    }
    args.push("--clientProcessId".to_owned());
    args.push(decimal_string(pid as u64));
    if let Some(dir) = log_dir {
        args.push("--extensionLogDirectory".to_owned());
        args.push(dir.to_owned());
    }
    assert(texts(args@) =~= caller_args_spec(
        *spec,
        pid,
        match log_dir {
            Some(d) => Some(d@),
            None => None,
        },
    ));
    args
}

// ---------------------------------------------------------------------------
// Asking the machine
// ---------------------------------------------------------------------------

pub open spec fn has_separator(s: Seq<char>) -> bool {
    exists|i: int| 0 <= i < s.len() && is_separator(#[trigger] s[i])
}

fn contains_separator(s: &str) -> (r: bool)
    ensures
        r == has_separator(s@),
{
    let v = chars_of(s);
    let mut i: usize = 0;
    while i < v.len()
        invariant
            i <= v.len(),
            v@ == s@,
            forall|j: int| 0 <= j < i ==> !is_separator(#[trigger] v@[j]),
        decreases v.len() - i,
    {
        if v[i] == '/' || v[i] == '\\' {
            assert(is_separator(v@[i as int]));
            return true;
        }
        i = i + 1;
    }
    false
}

/// The one question a configured program puts: nothing when it is blank;
/// whether it is a file when it is written with a separator; where PATH
/// takes it when it is a bare name.
pub open spec fn explicit_asks(program: Seq<char>, calls: Seq<ProbeCall>) -> bool {
    let p = trimmed(program);
    if p.len() == 0 {
        calls.len() == 0
    } else if has_separator(p) {
        calls.len() == 1 && (calls[0] matches ProbeCall::IsFile { path, .. } && path == p)
    } else {
        calls.len() == 1 && (calls[0] matches ProbeCall::OnPath { name, .. } && name == p)
    }
}

/// Where a configured program is, given what its question was answered: a
/// path that is a file is itself; a bare name is where PATH took it.
pub open spec fn explicit_found(program: Seq<char>, calls: Seq<ProbeCall>) -> Option<Seq<char>> {
    let p = trimmed(program);
    if p.len() == 0 {
        None
    } else {
        match calls[0] {
            ProbeCall::IsFile { answer, .. } => if answer {
                Some(p)
            } else {
                None
            },
            ProbeCall::OnPath { answer, .. } => answer,
            _ => None,
        }
    }
}

/// Where a configured program is: a blank one is nowhere; one written with a
/// separator is that file, if it is a file (a directory is a mistake); a bare
/// name is looked up on PATH.
fn locate_explicit<P: Probe + ?Sized>(program: &str, probe: &P, log: &mut Ghost<Seq<ProbeCall>>) -> (r: Option<String>)
    ensures
        trimmed(program@).len() == 0 ==> r is None,
        has_separator(trimmed(program@)) ==> (r matches Some(p) ==> p@ == trimmed(program@)),
        exists|calls: Seq<ProbeCall>|
            final(log)@ == old(log)@ + calls && #[trigger] explicit_asks(program@, calls) && opt_chars(r)
                == explicit_found(program@, calls),
{
    let ghost start = log@;
    let trimmed_program = trim_text(program);
    if trimmed_program.unicode_len() == 0 {
        assert(log@ =~= start + Seq::<ProbeCall>::empty());
        assert(explicit_asks(program@, Seq::<ProbeCall>::empty()));
        return None;
    }
    if contains_separator(trimmed_program.as_str()) {
        let file = ask_is_file(probe, trimmed_program.as_str(), log);
        let ghost calls = seq![ProbeCall::IsFile { path: trimmed_program@, answer: file }];
        assert(log@ =~= start + calls);
        assert(explicit_asks(program@, calls));
        return if file {
            Some(trimmed_program)
        } else {
            None
        };
    }
    let r = ask_on_path(probe, trimmed_program.as_str(), log);
    let ghost calls = seq![ProbeCall::OnPath { name: trimmed_program@, answer: opt_chars(r) }];
    assert(log@ =~= start + calls);
    assert(explicit_asks(program@, calls));
    r
}

/// What a PATH lookup of each candidate is reported as.
pub open spec fn on_path_notes(cs: Seq<CandidateView>) -> Seq<Seq<char>> {
    cs.map_values(|c: CandidateView| c.name + " (on PATH)"@)
}

pub open spec fn candidate_views(v: Seq<Candidate>) -> Seq<CandidateView> {
    v.map_values(|c: Candidate| candidate_view(c))
}

/// The PATH lookups of a candidate list: each candidate by name, in order,
/// up to and including the first that PATH finds.
pub open spec fn path_asks(cs: Seq<CandidateView>, calls: Seq<ProbeCall>) -> bool {
    &&& calls.len() <= cs.len()
    &&& forall|k: int| 0 <= k < calls.len() ==> (#[trigger] calls[k] matches ProbeCall::OnPath { name, answer } && name
        == cs[k].name && (k < calls.len() - 1 ==> answer is None))
    &&& calls.len() < cs.len() ==> calls.len() > 0 && (calls.last() matches ProbeCall::OnPath { answer, .. } && answer is Some)
}

/// What a run of PATH lookups found: the last one asked, if PATH found it.
pub open spec fn path_found(calls: Seq<ProbeCall>) -> Option<Seq<char>> {
    if calls.len() == 0 {
        None
    } else {
        match calls.last() {
            ProbeCall::OnPath { answer, .. } => answer,
            _ => None,
        }
    }
}

/// Look each candidate up on PATH, in order; the first found wins, and every
/// one is reported as looked for.
fn on_path_candidates<P: Probe + ?Sized>(
    probe: &P,
    looked_for: &mut Vec<String>,
    candidates: &Vec<Candidate>,
    log: &mut Ghost<Seq<ProbeCall>>,
) -> (r: Option<(String, Vec<String>)>)
    ensures
        texts(final(looked_for)@) == texts(old(looked_for)@) + on_path_notes(
            candidates@.map_values(|c: Candidate| candidate_view(c)),
        ),
        exists|calls: Seq<ProbeCall>|
            final(log)@ == old(log)@ + calls && #[trigger] path_asks(candidate_views(candidates@), calls) && match r {
                Some((path, args)) => path_found(calls) == Some(path@) && texts(args@) == candidate_view(
                    candidates@[calls.len() - 1],
                ).args,
                None => path_found(calls) is None,
            },
{
    let ghost views = candidates@.map_values(|c: Candidate| candidate_view(c));
    let ghost start = texts(looked_for@);
    let ghost log0 = log@;
    let mut hit: Option<(String, Vec<String>)> = None;
    let mut i: usize = 0;
    let ghost mut calls: Seq<ProbeCall> = Seq::empty();
    while i < candidates.len()
        invariant
            i <= candidates.len(),
            views == candidates@.map_values(|c: Candidate| candidate_view(c)),
            texts(looked_for@) == start + on_path_notes(views.take(i as int)),
            log@ == log0 + calls,
            calls.len() <= i,
            forall|k: int| 0 <= k < calls.len() ==> (#[trigger] calls[k] matches ProbeCall::OnPath { name, answer } && name
                == views[k].name && (k < calls.len() - 1 ==> answer is None)),
            hit is None ==> calls.len() == i && path_found(calls) is None,
            hit matches Some((path, args)) ==> calls.len() > 0 && path_found(calls) == Some(path@) && texts(args@)
                == views[calls.len() - 1].args,
        decreases candidates.len() - i,
    {
        let candidate = candidates[i];
        let mut note = candidate.name.to_owned();
        note.append(" (on PATH)");
        let ghost before = texts(looked_for@);
        looked_for.push(note);
        assert(texts(looked_for@) =~= before.push(views[i as int].name + " (on PATH)"@));
        assert(views.take(i + 1) =~= views.take(i as int).push(views[i as int]));
        assert(on_path_notes(views.take(i + 1)) =~= on_path_notes(views.take(i as int)).push(
            views[i as int].name + " (on PATH)"@,
        ));
        if hit.is_none() {
            let found = ask_on_path(probe, candidate.name, log);
            let ghost c = ProbeCall::OnPath { name: candidate.name@, answer: opt_chars(found) };
            proof {
                assert(views[i as int] == candidate_view(candidates@[i as int]));
                calls = calls.push(c);
            }
            if let Some(path) = found {
                let args = owned_all(candidate.args);
                assert(texts(args@) == candidate_view(candidates@[i as int]).args);
                hit = Some((path, args));
            }
        }
        i = i + 1;
    }
    assert(views.take(candidates.len() as int) =~= views);
    proof {
        assert(views == candidate_views(candidates@));
        assert(path_asks(candidate_views(candidates@), calls));
        if let Some((path, args)) = &hit {
            assert(views[calls.len() - 1] == candidate_view(candidates@[calls.len() - 1]));
        }
    }
    hit
}

/// The same paths, in path order, so a listing reads the same on every run.
pub fn sort_paths(paths: Vec<String>) -> (r: Vec<String>)
    ensures
        texts(r@).to_multiset() == texts(paths@).to_multiset(),
        lex_sorted(texts(r@), true),
{
    sort_lex(paths, true)
}

/// Where a C# extension directory keeps its server under one of its two
/// names.
pub open spec fn exe_at(child: Seq<char>, second: bool) -> Seq<char> {
    joined(
        joined(child, ".roslyn"@),
        if second {
            "Microsoft.CodeAnalysis.LanguageServer"@
        } else {
            "Microsoft.CodeAnalysis.LanguageServer.exe"@
        },
    )
}

/// The checks of one directory of a listing: none when it is not a C#
/// extension; otherwise whether its first executable name is a file, and
/// only when it is not, whether the second is.
pub open spec fn child_asks(child: Seq<char>, calls: Seq<ProbeCall>) -> bool {
    if !csharp_extension(child) {
        calls.len() == 0
    } else {
        &&& calls.len() >= 1
        &&& calls[0] matches ProbeCall::IsFile { path, answer } && path == exe_at(child, false) && (answer ==> calls.len()
            == 1) && (!answer ==> calls.len() == 2 && (calls[1] matches ProbeCall::IsFile { path: p2, .. } && p2
            == exe_at(child, true)))
    }
}

/// The server a directory's checks found, by the first name that was a file.
pub open spec fn child_found(child: Seq<char>, calls: Seq<ProbeCall>) -> Option<Seq<char>> {
    if !csharp_extension(child) || calls.len() == 0 {
        None
    } else if calls[0] matches ProbeCall::IsFile { answer, .. } && answer {
        Some(exe_at(child, false))
    } else if calls.len() == 2 && (calls[1] matches ProbeCall::IsFile { answer, .. } && answer) {
        Some(exe_at(child, true))
    } else {
        None
    }
}

/// The questions of several runs, one after another.
pub open spec fn concat(segs: Seq<Seq<ProbeCall>>) -> Seq<ProbeCall>
    decreases segs.len(),
{
    if segs.len() == 0 {
        Seq::empty()
    } else {
        concat(segs.drop_last()) + segs.last()
    }
}

/// The installs the checks found, in listing order, each read as (version,
/// executable).
pub open spec fn installs_in(children: Seq<Seq<char>>, segs: Seq<Seq<ProbeCall>>) -> Seq<(Option<Seq<nat>>, Seq<char>)>
    decreases children.len(),
{
    if children.len() == 0 || segs.len() == 0 {
        Seq::empty()
    } else {
        installs_in(children.drop_last(), segs.drop_last()) + match child_found(children.last(), segs.last()) {
            Some(e) => seq![(version_of(file_name(children.last())->Some_0), e)],
            None => Seq::empty(),
        }
    }
}

/// The search of one extensions directory: its listing read, the listing
/// put in path order, and each directory in it checked in that order.
pub open spec fn extension_search(
    extensions: Seq<char>,
    listing: Seq<Seq<char>>,
    children: Seq<Seq<char>>,
    segs: Seq<Seq<ProbeCall>>,
    calls: Seq<ProbeCall>,
) -> bool {
    &&& calls == seq![ProbeCall::ReadDir { path: extensions, answer: listing }] + concat(segs)
    &&& children.to_multiset() == listing.to_multiset()
    &&& lex_sorted(children, true)
    &&& segs.len() == children.len()
    &&& forall|i: int| 0 <= i < children.len() ==> child_asks(children[i], #[trigger] segs[i])
}

pub open spec fn newest_exe(s: Seq<(Option<Seq<nat>>, Seq<char>)>) -> Option<Seq<char>> {
    match newest(s) {
        Some(b) => Some(b.1),
        None => None,
    }
}

/// A search of `extensions` that put `calls` and found `found`: the newest
/// install its checks turned up.
pub open spec fn dir_search(extensions: Seq<char>, calls: Seq<ProbeCall>, found: Option<Seq<char>>) -> bool {
    exists|listing: Seq<Seq<char>>, children: Seq<Seq<char>>, segs: Seq<Seq<ProbeCall>>|
        #[trigger] extension_search(extensions, listing, children, segs, calls) && found == newest_exe(
            installs_in(children, segs),
        )
}

/// A directory of the C# extension: its name starts `ms-dotnettools.csharp-`.
pub open spec fn csharp_extension(child: Seq<char>) -> bool {
    file_name(child) matches Some(n) && "ms-dotnettools.csharp-"@.len() <= n.len() && n.take(
        "ms-dotnettools.csharp-"@.len() as int,
    ) == "ms-dotnettools.csharp-"@
}

/// A server executable found inside some C# extension directory.
pub open spec fn roslyn_server(exe: Seq<char>) -> bool {
    exists|child: Seq<char>| #[trigger] csharp_extension(child) && (exe == exe_at(child, false) || exe == exe_at(child, true))
}

/// The report of an extension directory whose `.roslyn` holds no server.
pub open spec fn half_installed_note(note: Seq<char>) -> bool {
    exists|child: Seq<char>| #[trigger] csharp_extension(child) && note == joined(child, ".roslyn"@)
        + " exists but contains no server executable"@
}

proof fn lemma_installs_in_servers(children: Seq<Seq<char>>, segs: Seq<Seq<ProbeCall>>)
    ensures
        forall|k: int| 0 <= k < installs_in(children, segs).len() ==> roslyn_server(#[trigger] installs_in(children, segs)[k].1),
    decreases children.len(),
{
    if children.len() > 0 && segs.len() > 0 {
        lemma_installs_in_servers(children.drop_last(), segs.drop_last());
        let before = installs_in(children.drop_last(), segs.drop_last());
        let all = installs_in(children, segs);
        assert forall|k: int| 0 <= k < all.len() implies roslyn_server(#[trigger] all[k].1) by {
            if k < before.len() {
                assert(all[k] == before[k]);
            } else {
                let c = children.last();
                assert(csharp_extension(c));
            }
        }
    }
}

/// The executable of the newest C# extension under an extensions directory.
/// A half-installed one is reported rather than skipped silently.
fn best_roslyn_in<P: Probe + ?Sized>(
    extensions: &str,
    probe: &P,
    looked_for: &mut Vec<String>,
    log: &mut Ghost<Seq<ProbeCall>>,
) -> (r: Option<String>)
    ensures
        old(looked_for)@.len() <= final(looked_for)@.len(),
        final(looked_for)@.take(old(looked_for)@.len() as int) == old(looked_for)@,
        forall|j: int|
            old(looked_for)@.len() <= j < final(looked_for)@.len() ==> half_installed_note(
                #[trigger] final(looked_for)@[j]@,
            ),
        exists|calls: Seq<ProbeCall>|
            final(log)@ == old(log)@ + calls && #[trigger] dir_search(extensions@, calls, opt_chars(r)),
        r matches Some(exe) ==> roslyn_server(exe@),
{
    let ghost log0 = log@;
    let listing = ask_read_dir(probe, extensions, log);
    let ghost listing_v = texts(listing@);
    let children = sort_paths(listing);
    let ghost cv = texts(children@);
    let prefix = chars_of("ms-dotnettools.csharp-");
    let mut found: Vec<(String, String)> = Vec::new();
    let ghost mut segs: Seq<Seq<ProbeCall>> = Seq::empty();
    let ghost head = seq![ProbeCall::ReadDir { path: extensions@, answer: listing_v }];
    assert(log@ =~= log0 + head + concat(segs));
    assert(installs(found@) =~= installs_in(cv.take(0), segs));
    let mut i: usize = 0;
    while i < children.len()
        invariant
            i <= children.len(),
            cv == texts(children@),
            prefix@ == "ms-dotnettools.csharp-"@,
            segs.len() == i,
            log@ == log0 + head + concat(segs),
            forall|k: int| 0 <= k < i ==> child_asks(cv[k], #[trigger] segs[k]),
            installs(found@) == installs_in(cv.take(i as int), segs),
            old(looked_for)@.len() <= looked_for@.len(),
            looked_for@.take(old(looked_for)@.len() as int) == old(looked_for)@,
            forall|j: int|
                old(looked_for)@.len() <= j < looked_for@.len() ==> half_installed_note(#[trigger] looked_for@[j]@),
        decreases children.len() - i,
    {
        let ghost child = cv[i as int];
        assert(child == children@[i as int]@);
        let ghost log_before = log@;
        let ghost installs_before = installs(found@);
        let mut exe: Option<String> = None;
        let mut checked = false;
        if let Some(name) = file_name_of(children[i].as_str()) {
            if has_prefix(&chars_of(name.as_str()), &prefix) {
                assert(csharp_extension(child));
                checked = true;
                let roslyn = join_path(children[i].as_str(), ".roslyn");
                let first = join_path(roslyn.as_str(), "Microsoft.CodeAnalysis.LanguageServer.exe");
                if ask_is_file(probe, first.as_str(), log) {
                    exe = Some(first);
                } else {
                    let second = join_path(roslyn.as_str(), "Microsoft.CodeAnalysis.LanguageServer");
                    if ask_is_file(probe, second.as_str(), log) {
                        exe = Some(second);
                    }
                }
                let ghost seg = log@.skip(log_before.len() as int);
                assert(log@ =~= log_before + seg);
                assert(child_asks(child, seg));
                assert(child_found(child, seg) == opt_chars(exe));
                match exe {
                    Some(e) => {
                        let ghost entry = (name, e);
                        let ghost before = found@;
                        found.push((name, e));
                        assert(found@ == before.push(entry));
                        assert(installs(found@) =~= installs_before.push((version_of(name@), e@)));
                    },
                    None => {
                        let mut note = roslyn;
                        note.append(" exists but contains no server executable");
                        assert(half_installed_note(note@));
                        let ghost before = looked_for@;
                        looked_for.push(note);
                        assert(looked_for@.take(old(looked_for)@.len() as int) =~= before.take(
                            old(looked_for)@.len() as int,
                        ));
                        assert forall|j: int|
                            old(looked_for)@.len() <= j < looked_for@.len() implies half_installed_note(
                                #[trigger] looked_for@[j]@,
                            ) by {
                            if j < before.len() {
                                assert(looked_for@[j] == before[j]);
                            }
                        }
                    },
                }
                proof {
                    let next = segs.push(seg);
                    assert(next.drop_last() =~= segs);
                    assert(cv.take(i + 1).drop_last() =~= cv.take(i as int));
                    assert(cv.take(i + 1).last() == child);
                    assert(file_name(child) == Some(name@));
                    assert(installs(found@) =~= installs_in(cv.take(i + 1), next));
                    assert(log@ =~= log0 + head + concat(next));
                    assert forall|k: int| 0 <= k < i + 1 implies child_asks(cv[k], #[trigger] next[k]) by {
                        if k < i {
                            assert(next[k] == segs[k]);
                        }
                    }
                    segs = next;
                }
            }
        }
        if !checked {
            proof {
                assert(!csharp_extension(child));
                let next = segs.push(Seq::<ProbeCall>::empty());
                assert(next.drop_last() =~= segs);
                assert(cv.take(i + 1).drop_last() =~= cv.take(i as int));
                assert(cv.take(i + 1).last() == child);
                assert(installs_in(cv.take(i + 1), next) =~= installs_in(cv.take(i as int), segs));
                assert(concat(next) =~= concat(segs));
                assert forall|k: int| 0 <= k < i + 1 implies child_asks(cv[k], #[trigger] next[k]) by {
                    if k < i {
                        assert(next[k] == segs[k]);
                    }
                }
                segs = next;
            }
        }
        i = i + 1;
    }
    let r = pick_newest(&found);
    proof {
        assert(cv.take(cv.len() as int) =~= cv);
        let calls = head + concat(segs);
        assert(log@ =~= log0 + calls);
        assert(extension_search(extensions@, listing_v, cv, segs, calls));
        assert(opt_chars(r) == newest_exe(installs_in(cv, segs)));
        assert(dir_search(extensions@, calls, opt_chars(r)));
        if r is Some {
            let exe = r->Some_0;
            law_the_newest_install_wins(installs(found@));
            lemma_installs_in_servers(cv, segs);
            let best = newest(installs(found@))->Some_0;
            let k = choose|k: int| 0 <= k < installs(found@).len() && installs(found@)[k] == best;
            assert(roslyn_server(installs_in(cv, segs)[k].1));
        }
    }
    r
}

fn push_note(looked_for: &mut Vec<String>, note: String)
    ensures
        final(looked_for)@ == old(looked_for)@.push(note),
{
    looked_for.push(note);
}

/// The override CB_ROSLYN_PATH sets: its value trimmed, unless blank.
pub open spec fn set_override(raw: Option<Seq<char>>) -> Option<Seq<char>> {
    match raw {
        Some(v) => if trimmed(v).len() > 0 {
            Some(trimmed(v))
        } else {
            None
        },
        None => None,
    }
}

/// The override's questions: none when it is not set; otherwise whether it
/// is a directory, and then whether that directory holds the server under
/// its first name and, only if not, under its second; or, when it is not a
/// directory, whether it is a file.
pub open spec fn override_asks(raw: Option<Seq<char>>, calls: Seq<ProbeCall>) -> bool {
    match set_override(raw) {
        None => calls.len() == 0,
        Some(p) => {
            &&& calls.len() >= 2
            &&& calls[0] matches ProbeCall::IsDir { path, answer: d } && path == p && if d {
                &&& calls[1] matches ProbeCall::IsFile { path: q, answer: f } && q == joined(
                    p,
                    "Microsoft.CodeAnalysis.LanguageServer.exe"@,
                ) && (f ==> calls.len() == 2) && (!f ==> calls.len() == 3)
                &&& calls.len() == 3 ==> (calls[2] matches ProbeCall::IsFile { path: q2, .. } && q2 == joined(
                    p,
                    "Microsoft.CodeAnalysis.LanguageServer"@,
                ))
            } else {
                &&& calls.len() == 2
                &&& calls[1] matches ProbeCall::IsFile { path: q, .. } && q == p
            }
        },
    }
}

/// The server the override gave, given its questions' answers.
pub open spec fn override_found(raw: Option<Seq<char>>, calls: Seq<ProbeCall>) -> Option<Seq<char>> {
    match set_override(raw) {
        None => None,
        Some(p) => if calls[0] matches ProbeCall::IsDir { answer: d, .. } && d {
            if calls[1] matches ProbeCall::IsFile { answer: f, .. } && f {
                Some(joined(p, "Microsoft.CodeAnalysis.LanguageServer.exe"@))
            } else if calls.len() == 3 && (calls[2] matches ProbeCall::IsFile { answer: f, .. } && f) {
                Some(joined(p, "Microsoft.CodeAnalysis.LanguageServer"@))
            } else {
                None
            }
        } else if calls[1] matches ProbeCall::IsFile { answer: f, .. } && f {
            Some(p)
        } else {
            None
        },
    }
}

/// The editors whose extensions are searched, in order.
pub open spec fn editor_names() -> Seq<Seq<char>> {
    seq![".vscode"@, ".vscode-insiders"@, ".vscode-server"@, ".cursor"@, ".windsurf"@]
}

fn editor_name(e: usize) -> (r: &'static str)
    requires
        e < 5,
    ensures
        r@ == editor_names()[e as int],
{
    match e {
        0 => ".vscode",
        1 => ".vscode-insiders",
        2 => ".vscode-server",
        3 => ".cursor",
        _ => ".windsurf",
    }
}

/// The `k`th editor's extensions directory under a home directory.
pub open spec fn editor_dir(home: Seq<char>, k: int) -> Seq<char> {
    joined(joined(home, editor_names()[k]), "extensions"@)
}

/// The editors searched in order, each search finding nothing until the
/// last, which is the fifth or the first to find a server.
pub open spec fn editors_search(home: Seq<char>, runs: Seq<Seq<ProbeCall>>, founds: Seq<Option<Seq<char>>>) -> bool {
    &&& runs.len() == founds.len()
    &&& runs.len() <= 5
    &&& forall|k: int| 0 <= k < runs.len() ==> dir_search(editor_dir(home, k), #[trigger] runs[k], founds[k])
    &&& forall|k: int| 0 <= k < runs.len() - 1 ==> (#[trigger] founds[k]) is None
    &&& runs.len() < 5 ==> runs.len() > 0 && founds.last() is Some
}

/// The answer of a home-directory question.
pub open spec fn home_answer(c: ProbeCall) -> Option<Option<Seq<char>>> {
    match c {
        ProbeCall::Home { answer } => Some(answer),
        _ => None,
    }
}

/// A whole Roslyn search after the environment was read: the override's
/// questions; if it gave no server, the home directory; if there is one,
/// the editors' searches in order. `found` is what the search gave.
pub open spec fn roslyn_run(
    raw: Option<Seq<char>>,
    oc: Seq<ProbeCall>,
    rest: Seq<ProbeCall>,
    runs: Seq<Seq<ProbeCall>>,
    founds: Seq<Option<Seq<char>>>,
    found: Option<Seq<char>>,
) -> bool {
    &&& override_asks(raw, oc)
    &&& match override_found(raw, oc) {
        Some(e) => rest.len() == 0 && found == Some(e),
        None => rest.len() >= 1 && match home_answer(rest[0]) {
            Some(None) => rest.len() == 1 && found is None,
            Some(Some(home)) => editors_search(home, runs, founds) && rest.skip(1) == concat(runs) && found == if founds.len()
                > 0 {
                    founds.last()
                } else {
                    None
                },
            None => false,
        },
    }
}

proof fn lemma_roslyn_run_editors(
    raw: Option<Seq<char>>,
    oc: Seq<ProbeCall>,
    rest: Seq<ProbeCall>,
    home: Seq<char>,
    runs: Seq<Seq<ProbeCall>>,
    founds: Seq<Option<Seq<char>>>,
    found: Option<Seq<char>>,
)
    requires
        override_asks(raw, oc),
        override_found(raw, oc) is None,
        rest == seq![ProbeCall::Home { answer: Some(home) }] + concat(runs),
        editors_search(home, runs, founds),
        found == if founds.len() > 0 {
            founds.last()
        } else {
            None
        },
    ensures
        roslyn_run(raw, oc, rest, runs, founds, found),
{
    assert(rest.skip(1) =~= concat(runs));
    assert(rest[0] == ProbeCall::Home { answer: Some(home) });
}

pub open spec fn found_exe(r: Option<(String, Vec<String>)>) -> Option<Seq<char>> {
    match r {
        Some((e, _)) => Some(e@),
        None => None,
    }
}

/// The path an override report names, when the report is one.
pub open spec fn override_path(note: Seq<char>) -> Option<Seq<char>> {
    if "CB_ROSLYN_PATH="@.len() <= note.len() && note.take("CB_ROSLYN_PATH="@.len() as int) == "CB_ROSLYN_PATH="@ {
        Some(note.skip("CB_ROSLYN_PATH="@.len() as int))
    } else {
        None
    }
}

/// The first report of a Roslyn search: the override it found, which is
/// never blank, or that none was set.
pub open spec fn override_note(note: Seq<char>) -> bool {
    note == "CB_ROSLYN_PATH (not set)"@ || (override_path(note) matches Some(p) && p.len() > 0)
}

/// A server the override gave: the path it names, or a server inside that
/// directory by either of its names.
pub open spec fn override_server(note: Seq<char>, exe: Seq<char>) -> bool {
    override_path(note) matches Some(p) && (exe == p || exe == joined(p, "Microsoft.CodeAnalysis.LanguageServer.exe"@)
        || exe == joined(p, "Microsoft.CodeAnalysis.LanguageServer"@))
}

/// Roslyn: the `CB_ROSLYN_PATH` override first (a directory holding the
/// server, or the server itself under any name), then the C# extension's
/// bundled copy under each editor's extensions directory, in order. The
/// first question is the environment variable and the first thing reported
/// the override, set or not; a server found is the one the override names,
/// or the newest in the first editor whose extensions hold one.
fn discover_roslyn<P: Probe + ?Sized>(
    probe: &P,
    looked_for: &mut Vec<String>,
    log: &mut Ghost<Seq<ProbeCall>>,
) -> (r: Option<(String, Vec<String>)>)
    ensures
        old(looked_for)@.len() < final(looked_for)@.len(),
        final(looked_for)@.take(old(looked_for)@.len() as int) == old(looked_for)@,
        override_note(final(looked_for)@[old(looked_for)@.len() as int]@),
        r matches Some((exe, args)) ==> texts(args@) == roslyn_args() && (override_server(
            final(looked_for)@[old(looked_for)@.len() as int]@,
            exe@,
        ) || roslyn_server(exe@)),
        exists|
            raw: Option<Seq<char>>,
            oc: Seq<ProbeCall>,
            rest: Seq<ProbeCall>,
            runs: Seq<Seq<ProbeCall>>,
            founds: Seq<Option<Seq<char>>>,
        |
            final(log)@ == old(log)@ + seq![ProbeCall::Env { key: "CB_ROSLYN_PATH"@, answer: raw }] + oc + rest
                && #[trigger] roslyn_run(raw, oc, rest, runs, founds, found_exe(r)),
{
    let ghost start = looked_for@;
    let ghost log0 = log@;
    let raw = ask_env(probe, "CB_ROSLYN_PATH", log);
    let ghost raw_v = opt_chars(raw);
    let ghost log1 = log@;
    let set = match &raw {
        Some(value) => trim_text(value.as_str()).unicode_len() > 0,
        None => false,
    };
    assert(set == set_override(raw_v) is Some);
    let ghost first_note: Seq<char>;
    if set {
        let path = match &raw {
            Some(value) => trim_text(value.as_str()),
            None => String::new(),
        };
        assert(set_override(raw_v) == Some(path@));
        let mut note = "CB_ROSLYN_PATH=".to_owned();
        note.append(path.as_str());
        proof {
            first_note = note@;
            assert(note@.take("CB_ROSLYN_PATH="@.len() as int) =~= "CB_ROSLYN_PATH="@);
            assert(note@.skip("CB_ROSLYN_PATH="@.len() as int) =~= path@);
            assert(override_path(first_note) == Some(path@));
        }
        push_note(looked_for, note);
        assert(looked_for@.take(start.len() as int) =~= start);
        let ghost oc: Seq<ProbeCall>;
        if ask_is_dir(probe, path.as_str(), log) {
            let first = join_path(path.as_str(), "Microsoft.CodeAnalysis.LanguageServer.exe");
            if ask_is_file(probe, first.as_str(), log) {
                proof {
                    oc = log@.skip(log1.len() as int);
                    assert(log@ =~= log1 + oc);
                    assert(override_asks(raw_v, oc));
                    assert(override_found(raw_v, oc) == Some(first@));
                    assert(log@ =~= log0 + seq![ProbeCall::Env { key: "CB_ROSLYN_PATH"@, answer: raw_v }] + oc + Seq::<ProbeCall>::empty());
                    assert(roslyn_run(raw_v, oc, Seq::<ProbeCall>::empty(), Seq::empty(), Seq::empty(), Some(first@)));
                }
                return Some((first, roslyn_arg_list()));
            }
            let second = join_path(path.as_str(), "Microsoft.CodeAnalysis.LanguageServer");
            let hit = ask_is_file(probe, second.as_str(), log);
            proof {
                oc = log@.skip(log1.len() as int);
                assert(log@ =~= log1 + oc);
                assert(override_asks(raw_v, oc));
            }
            if hit {
                proof {
                    assert(override_found(raw_v, oc) == Some(second@));
                    assert(log@ =~= log0 + seq![ProbeCall::Env { key: "CB_ROSLYN_PATH"@, answer: raw_v }] + oc + Seq::<ProbeCall>::empty());
                    assert(roslyn_run(raw_v, oc, Seq::<ProbeCall>::empty(), Seq::empty(), Seq::empty(), Some(second@)));
                }
                return Some((second, roslyn_arg_list()));
            }
            assert(override_found(raw_v, oc) is None);
        } else {
            let hit = ask_is_file(probe, path.as_str(), log);
            proof {
                oc = log@.skip(log1.len() as int);
                assert(log@ =~= log1 + oc);
                assert(override_asks(raw_v, oc));
            }
            if hit {
                proof {
                    assert(override_found(raw_v, oc) == Some(path@));
                    assert(log@ =~= log0 + seq![ProbeCall::Env { key: "CB_ROSLYN_PATH"@, answer: raw_v }] + oc + Seq::<ProbeCall>::empty());
                    assert(roslyn_run(raw_v, oc, Seq::<ProbeCall>::empty(), Seq::empty(), Seq::empty(), Some(path@)));
                }
                return Some((path, roslyn_arg_list()));
            }
            assert(override_found(raw_v, oc) is None);
        }
        assert(override_asks(raw_v, oc) && override_found(raw_v, oc) is None && log@ == log1 + oc);
    } else {
        let note = "CB_ROSLYN_PATH (not set)".to_owned();
        proof {
            first_note = note@;
        }
        push_note(looked_for, note);
        assert(looked_for@.take(start.len() as int) =~= start);
        assert(log@ =~= log1 + Seq::<ProbeCall>::empty());
        assert(override_asks(raw_v, Seq::<ProbeCall>::empty()));
    }
    let ghost log2 = log@;
    let ghost oc = log2.skip(log1.len() as int);
    assert(log2 =~= log1 + oc);
    assert(override_asks(raw_v, oc) && override_found(raw_v, oc) is None);
    assert(override_note(first_note));
    assert(looked_for@[start.len() as int]@ == first_note);
    let home_answer = ask_home(probe, log);
    let ghost log3 = log@;
    let home = match home_answer {
        Some(h) => h,
        None => {
            let ghost before = looked_for@;
            push_note(
                looked_for,
                "the user's home directory could not be determined, so no editor extension directory could be searched — set CB_ROSLYN_PATH".to_owned(),
            );
            assert(looked_for@.take(start.len() as int) =~= before.take(start.len() as int));
            assert(looked_for@[start.len() as int] == before[start.len() as int]);
            proof {
                let rest = seq![ProbeCall::Home { answer: None }];
                assert(log@ =~= log0 + seq![ProbeCall::Env { key: "CB_ROSLYN_PATH"@, answer: raw_v }] + oc + rest);
                assert(roslyn_run(raw_v, oc, rest, Seq::empty(), Seq::empty(), None));
            }
            return None;
        },
    };
    let ghost mut runs: Seq<Seq<ProbeCall>> = Seq::empty();
    let ghost mut founds: Seq<Option<Seq<char>>> = Seq::empty();
    let ghost env_call = ProbeCall::Env { key: "CB_ROSLYN_PATH"@, answer: raw_v };
    assert(log3 =~= log0 + seq![env_call] + oc + seq![ProbeCall::Home { answer: Some(home@) }]);
    assert(log@ =~= log3 + concat(runs));
    let mut e: usize = 0;
    while e < 5
        invariant
            e <= 5,
            start == old(looked_for)@,
            start.len() < looked_for@.len(),
            looked_for@.take(start.len() as int) == start,
            looked_for@[start.len() as int]@ == first_note,
            override_note(first_note),
            runs.len() == e,
            founds.len() == e,
            env_call == (ProbeCall::Env { key: "CB_ROSLYN_PATH"@, answer: raw_v }),
            log3 == log0 + seq![env_call] + oc + seq![ProbeCall::Home { answer: Some(home@) }],
            log0 == old(log)@,
            override_asks(raw_v, oc),
            override_found(raw_v, oc) is None,
            log@ == log3 + concat(runs),
            forall|k: int| 0 <= k < e ==> dir_search(editor_dir(home@, k), #[trigger] runs[k], founds[k]),
            forall|k: int| 0 <= k < e ==> (#[trigger] founds[k]) is None,
        decreases 5 - e,
    {
        let extensions = join_path(join_path(home.as_str(), editor_name(e)).as_str(), "extensions");
        assert(extensions@ == editor_dir(home@, e as int));
        let pattern = join_path(
            join_path(extensions.as_str(), "ms-dotnettools.csharp-*").as_str(),
            ".roslyn",
        );
        let ghost before = looked_for@;
        push_note(looked_for, join_path(pattern.as_str(), "Microsoft.CodeAnalysis.LanguageServer.exe"));
        assert(looked_for@.take(start.len() as int) =~= before.take(start.len() as int));
        assert(looked_for@[start.len() as int] == before[start.len() as int]);
        let ghost mid = looked_for@;
        let ghost log_mid = log@;
        let best = best_roslyn_in(extensions.as_str(), probe, looked_for, log);
        assert(looked_for@.take(start.len() as int) =~= looked_for@.take(mid.len() as int).take(
            start.len() as int,
        ));
        assert(looked_for@[start.len() as int] == looked_for@.take(mid.len() as int)[start.len() as int]);
        let ghost calls = choose|calls: Seq<ProbeCall>| log@ == log_mid + calls && #[trigger] dir_search(extensions@, calls, opt_chars(best));
        proof {
            let nr = runs.push(calls);
            let nf = founds.push(opt_chars(best));
            assert(nr.drop_last() =~= runs);
            assert(log@ =~= log3 + concat(nr));
            assert forall|k: int| 0 <= k < e + 1 implies dir_search(editor_dir(home@, k), #[trigger] nr[k], nf[k]) by {
                if k < e {
                    assert(nr[k] == runs[k] && nf[k] == founds[k]);
                }
            }
            runs = nr;
            founds = nf;
        }
        if let Some(exe) = best {
            proof {
                let rest = seq![ProbeCall::Home { answer: Some(home@) }] + concat(runs);
                assert(rest.skip(1) =~= concat(runs));
                assert(editors_search(home@, runs, founds));
                assert(log@ =~= log0 + seq![ProbeCall::Env { key: "CB_ROSLYN_PATH"@, answer: raw_v }] + oc + rest);
                assert(rest[0] == ProbeCall::Home { answer: Some(home@) });
                assert(founds.last() == Some(exe@));
                lemma_roslyn_run_editors(raw_v, oc, rest, home@, runs, founds, Some(exe@));
            }
            return Some((exe, roslyn_arg_list()));
        }
        e = e + 1;
    }
    proof {
        let rest = seq![ProbeCall::Home { answer: Some(home@) }] + concat(runs);
        assert(rest.skip(1) =~= concat(runs));
        assert(editors_search(home@, runs, founds));
        assert(log@ =~= log0 + seq![ProbeCall::Env { key: "CB_ROSLYN_PATH"@, answer: raw_v }] + oc + rest);
        assert(rest[0] == ProbeCall::Home { answer: Some(home@) });
        assert(founds.last() == founds[4]);
        assert(founds.last() is None);
        assert(override_asks(raw_v, oc));
        assert(override_found(raw_v, oc) is None);
        assert(rest.len() >= 1);
        assert(editors_search(home@, runs, founds) && rest.skip(1) == concat(runs) && None::<Seq<char>> == if founds.len() > 0 {
            founds.last()
        } else {
            None
        });
        lemma_roslyn_run_editors(raw_v, oc, rest, home@, runs, founds, None);
    }
    None
}

/// The questions discovery puts for a language, and what it found: for C#
/// the Roslyn search; for the others, each candidate on PATH in order.
pub open spec fn discovery_asks(language: Language, calls: Seq<ProbeCall>, found: Option<Seq<char>>) -> bool {
    if language == Language::CSharp {
        exists|
            raw: Option<Seq<char>>,
            oc: Seq<ProbeCall>,
            rest: Seq<ProbeCall>,
            runs: Seq<Seq<ProbeCall>>,
            founds: Seq<Option<Seq<char>>>,
        |
            calls == seq![ProbeCall::Env { key: "CB_ROSLYN_PATH"@, answer: raw }] + oc + rest
                && #[trigger] roslyn_run(raw, oc, rest, runs, founds, found)
    } else {
        path_asks(candidates_spec(language), calls) && found == path_found(calls)
    }
}

/// Discovery for one language: Roslyn by its own rules, the others on PATH.
fn discover<P: Probe + ?Sized>(
    language: Language,
    probe: &P,
    looked_for: &mut Vec<String>,
    log: &mut Ghost<Seq<ProbeCall>>,
) -> (r: Option<(String, Vec<String>)>)
    ensures
        r matches Some((_, args)) ==> discovered_args(language, texts(args@)),
        language != Language::CSharp ==> texts(final(looked_for)@) == texts(old(looked_for)@)
            + on_path_notes(candidates_spec(language)),
        exists|calls: Seq<ProbeCall>|
            final(log)@ == old(log)@ + calls && #[trigger] discovery_asks(language, calls, found_exe(r)),
{
    let ghost log0 = log@;
    match language {
        Language::CSharp => {
            let r = discover_roslyn(probe, looked_for, log);
            proof {
                let (raw, oc, rest, runs, founds) = choose|
                    raw: Option<Seq<char>>,
                    oc: Seq<ProbeCall>,
                    rest: Seq<ProbeCall>,
                    runs: Seq<Seq<ProbeCall>>,
                    founds: Seq<Option<Seq<char>>>,
                |
                    log@ == log0 + seq![ProbeCall::Env { key: "CB_ROSLYN_PATH"@, answer: raw }] + oc + rest
                        && #[trigger] roslyn_run(raw, oc, rest, runs, founds, found_exe(r));
                let calls = seq![ProbeCall::Env { key: "CB_ROSLYN_PATH"@, answer: raw }] + oc + rest;
                assert(log@ =~= log0 + calls);
                assert(discovery_asks(language, calls, found_exe(r)));
            }
            r
        },
        _ => {
            let cs = candidates(language);
            let r = on_path_candidates(probe, looked_for, &cs, log);
            proof {
                let calls = choose|calls: Seq<ProbeCall>|
                    log@ == log0 + calls && #[trigger] path_asks(candidate_views(cs@), calls)
                        && match r {
                        Some((path, args)) => path_found(calls) == Some(path@) && texts(args@) == candidate_view(
                            cs@[calls.len() - 1],
                        ).args,
                        None => path_found(calls) is None,
                    };
                assert(discovery_asks(language, calls, found_exe(r)));
                if let Some((_, args)) = &r {
                    let i = calls.len() - 1;
                    assert(candidates_spec(language)[i] == candidate_view(cs@[i]));
                }
            }
            r
        },
    }
}

/// The arguments discovery can launch a language's server with.
pub open spec fn discovered_args(language: Language, args: Seq<Seq<char>>) -> bool {
    if language == Language::CSharp {
        args == roslyn_args()
    } else {
        exists|i: int| 0 <= i < candidates_spec(language).len() && args == #[trigger] candidates_spec(language)[i].args
    }
}

pub open spec fn is_disabled(over: Option<ServerOverride>) -> bool {
    match over {
        Some(o) => o.enabled == Some(false),
        None => false,
    }
}

/// The override as plain values.
pub open spec fn owned(over: Option<&ServerOverride>) -> Option<ServerOverride> {
    match over {
        Some(o) => Some(*o),
        None => None,
    }
}

/// The override a configuration files under a language's server id.
pub open spec fn override_for(config: Option<&LspConfig>, language: Language) -> Option<ServerOverride> {
    match config {
        Some(c) => first_filed(c.servers@, language_id(language)),
        None => None,
    }
}

pub open spec fn configured_program(over: Option<ServerOverride>) -> Option<Seq<char>> {
    match over {
        Some(o) => match o.program {
            Some(p) => Some(p@),
            None => None,
        },
        None => None,
    }
}

/// Why a configured program is refused.
pub open spec fn misconfigured_detail(language: Language, program: Seq<char>) -> Seq<char> {
    "`lsp.servers."@ + language_id(language) + ".program` in .code-basics/config.json names `"@
        + trimmed(program)
        + "`, which is not an executable file and was not found on PATH. Discovery is deliberately not attempted: this app will not start a different server than the one you configured."@
}

/// What resolving a configured program can give: the server built for the
/// program found, or the refusal naming it.
pub open spec fn configured_outcome(language: Language, over: Option<ServerOverride>, r: Resolution) -> bool {
    let program = configured_program(over)->Some_0;
    match r {
        Resolution::Found(s) => built_from(*s, language, over, default_args_spec(language, s.program@))
            && (has_separator(trimmed(program)) ==> s.program@ == trimmed(program)),
        Resolution::Misconfigured { language: l, program: p, detail } => l == language && p@ == program
            && detail@ == misconfigured_detail(language, program),
        _ => false,
    }
}

/// What discovery can give: a server launched with arguments discovery
/// chooses, or everything looked for and how to get one.
pub open spec fn discovered_outcome(language: Language, over: Option<ServerOverride>, r: Resolution) -> bool {
    match r {
        Resolution::Found(s) => exists|args: Seq<Seq<char>>|
            discovered_args(language, args) && #[trigger] built_from(*s, language, over, args),
        Resolution::NotFound { language: l, looked_for, hint } => l == language && hint@ == hint_spec(language)
            && (language != Language::CSharp ==> texts(looked_for@) == on_path_notes(candidates_spec(language))),
        _ => false,
    }
}

/// What resolving a language under a configuration can give: a refusal in
/// the configuration beats a configured program, a configured program beats
/// discovery, and discovery beats nothing.
pub open spec fn resolves_to(language: Language, config: Option<&LspConfig>, r: Resolution) -> bool {
    let over = override_for(config, language);
    &&& is_disabled(over) ==> r == (Resolution::Disabled { language })
    &&& !is_disabled(over) && configured_program(over) is Some ==> configured_outcome(language, over, r)
    &&& !is_disabled(over) && configured_program(over) is None ==> discovered_outcome(language, over, r)
}

/// What a resolution names as the program it found.
pub open spec fn found_program(r: Resolution) -> Option<Seq<char>> {
    match r {
        Resolution::Found(s) => Some(s.program@),
        _ => None,
    }
}

/// Find the server for `language`. A configured program that is not there
/// never falls through to discovery.
pub fn resolve<P: Probe + ?Sized>(language: Language, config: Option<&LspConfig>, probe: &P) -> (r: Resolution)
    ensures
        resolves_to(language, config, r),
{
    let mut log: Ghost<Seq<ProbeCall>> = Ghost(Seq::empty());
    resolve_traced(language, config, probe, &mut log)
}

/// The questions resolving a language puts and what they lead to: none for a
/// switched-off server; a configured program's one question, found exactly
/// when its answer finds it; otherwise discovery's questions, whose find is
/// the program.
pub open spec fn resolution_asks(language: Language, config: Option<&LspConfig>, calls: Seq<ProbeCall>, r: Resolution) -> bool {
    let over = override_for(config, language);
    if is_disabled(over) {
        calls.len() == 0
    } else if configured_program(over) is Some {
        explicit_asks(configured_program(over)->Some_0, calls) && found_program(r) == explicit_found(
            configured_program(over)->Some_0,
            calls,
        )
    } else {
        discovery_asks(language, calls, found_program(r))
    }
}

/// [`resolve`], with every question put to the probe and its answer: a
/// switched-off server puts none; a configured program puts its one
/// question and is found exactly when that question's answer finds it;
/// otherwise discovery's questions are put, and what they found is the
/// program.
pub fn resolve_traced<P: Probe + ?Sized>(
    language: Language,
    config: Option<&LspConfig>,
    probe: &P,
    log: &mut Ghost<Seq<ProbeCall>>,
) -> (r: Resolution)
    ensures
        resolves_to(language, config, r),
        exists|calls: Seq<ProbeCall>|
            final(log)@ == old(log)@ + calls && #[trigger] resolution_asks(language, config, calls, r),
        is_disabled(override_for(config, language)) ==> final(log)@ == old(log)@,
        !is_disabled(override_for(config, language)) && configured_program(override_for(config, language)) is Some
            ==> exists|calls: Seq<ProbeCall>|
            final(log)@ == old(log)@ + calls && #[trigger] explicit_asks(
                configured_program(override_for(config, language))->Some_0,
                calls,
            ) && found_program(r) == explicit_found(configured_program(override_for(config, language))->Some_0, calls),
        !is_disabled(override_for(config, language)) && configured_program(override_for(config, language)) is None
            ==> exists|calls: Seq<ProbeCall>|
            final(log)@ == old(log)@ + calls && #[trigger] discovery_asks(language, calls, found_program(r)),
{
    let ghost start = log@;
    let over = match config {
        Some(c) => c.server(language.id()),
        None => None,
    };
    assert(owned(over) == override_for(config, language));
    if let Some(o) = over {
        if o.is_disabled() {
            assert(log@ =~= start + Seq::<ProbeCall>::empty());
            assert(resolution_asks(language, config, Seq::<ProbeCall>::empty(), Resolution::Disabled { language }));
            return Resolution::Disabled { language };
        }
        if let Some(program) = &o.program {
            let ghost log0 = log@;
            let located = locate_explicit(program.as_str(), probe, log);
            let ghost calls = choose|calls: Seq<ProbeCall>|
                log@ == log0 + calls && #[trigger] explicit_asks(program@, calls) && opt_chars(located)
                    == explicit_found(program@, calls);
            let r = match located {
                Some(path) => {
                    let args = default_args(language, path.as_str());
                    found(language, path, args, over)
                },
                None => {
                    let mut detail = "`lsp.servers.".to_owned();
                    detail.append(language.id());
                    detail.append(".program` in .code-basics/config.json names `");
                    detail.append(trim_text(program.as_str()).as_str());
                    detail.append(
                        "`, which is not an executable file and was not found on PATH. Discovery is deliberately not attempted: this app will not start a different server than the one you configured.",
                    );
                    Resolution::Misconfigured { language, program: program.clone(), detail }
                },
            };
            assert(found_program(r) == explicit_found(program@, calls));
            assert(program@ == configured_program(override_for(config, language))->Some_0);
            assert(resolution_asks(language, config, calls, r));
            return r;
        }
    }
    let mut looked_for: Vec<String> = Vec::new();
    assert(texts(looked_for@) =~= Seq::<Seq<char>>::empty());
    let ghost log0 = log@;
    let d = discover(language, probe, &mut looked_for, log);
    let ghost calls = choose|calls: Seq<ProbeCall>|
        log@ == log0 + calls && #[trigger] discovery_asks(language, calls, found_exe(d));
    let r = match d {
        Some((program, args)) => {
            let ghost discovered = texts(args@);
            let r = found(language, program, args, over);
            proof {
                if let Resolution::Found(s) = &r {
                    assert(built_from(**s, language, owned(over), discovered));
                }
            }
            r
        },
        None => {
            proof {
                if language != Language::CSharp {
                    assert(Seq::<Seq<char>>::empty() + on_path_notes(candidates_spec(language)) =~= on_path_notes(
                        candidates_spec(language),
                    ));
                }
            }
            Resolution::NotFound { language, looked_for, hint: hint(language).to_owned() }
        },
    };
    assert(found_program(r) == found_exe(d));
    assert(log0 == start);
    assert(resolution_asks(language, config, calls, r));
    r
}

// ---------------------------------------------------------------------------
// Laws
// ---------------------------------------------------------------------------

proof fn lemma_numbers_lt_irreflexive(a: Seq<nat>)
    ensures
        !numbers_lt(a, a),
    decreases a.len(),
{
    if a.len() > 0 {
        lemma_numbers_lt_irreflexive(a.drop_first());
    }
}

proof fn lemma_numbers_lt_transitive(a: Seq<nat>, b: Seq<nat>, c: Seq<nat>)
    requires
        numbers_lt(a, b),
        numbers_lt(b, c),
    ensures
        numbers_lt(a, c),
    decreases a.len(),
{
    if a.len() > 0 && b.len() > 0 && c.len() > 0 && a[0] == b[0] && b[0] == c[0] {
        lemma_numbers_lt_transitive(a.drop_first(), b.drop_first(), c.drop_first());
    }
}

/// Versions compare as numbers, component by component, a missing
/// component lowest; an unreadable version is below every readable one and
/// never above anything.
pub proof fn law_versions_are_ordered_numerically(a: Option<Seq<nat>>, b: Option<Seq<nat>>, c: Option<Seq<nat>>)
    ensures
        !version_lt(a, a),
        version_lt(a, b) && version_lt(b, c) ==> version_lt(a, c),
        b is Some ==> version_lt(None, b),
        !version_lt(a, None),
{
    if let Some(x) = a {
        lemma_numbers_lt_irreflexive(x);
    }
    if version_lt(a, b) && version_lt(b, c) {
        if let (Some(x), Some(y), Some(z)) = (a, b, c) {
            lemma_numbers_lt_transitive(x, y, z);
        }
    }
}

/// The install chosen is one of those found, and none found is newer; of
/// equally new ones, the first found wins.
pub proof fn law_the_newest_install_wins(found: Seq<(Option<Seq<nat>>, Seq<char>)>)
    requires
        found.len() > 0,
    ensures
        newest(found) matches Some(best) && found.contains(best) && forall|i: int|
            0 <= i < found.len() ==> !version_lt(best.0, #[trigger] found[i].0),
    decreases found.len(),
{
    let init = found.drop_last();
    let last = found.last();
    if init.len() == 0 {
        assert(found[0] == last);
        law_versions_are_ordered_numerically(last.0, last.0, last.0);
    } else {
        law_the_newest_install_wins(init);
        let b = newest(init)->Some_0;
        let k = choose|k: int| 0 <= k < init.len() && init[k] == b;
        assert(found[k] == b);
        if version_lt(b.0, last.0) {
            assert(found[found.len() - 1] == last);
            assert forall|i: int| 0 <= i < found.len() implies !version_lt(last.0, #[trigger] found[i].0) by {
                if i < found.len() - 1 {
                    assert(found[i] == init[i]);
                    law_versions_are_ordered_numerically(b.0, last.0, found[i].0);
                } else {
                    law_versions_are_ordered_numerically(last.0, last.0, last.0);
                }
            }
        } else {
            assert forall|i: int| 0 <= i < found.len() implies !version_lt(b.0, #[trigger] found[i].0) by {
                if i < found.len() - 1 {
                    assert(found[i] == init[i]);
                }
            }
        }
    }
}

/// A configured program is never replaced by a discovered one: resolving it
/// gives that program or the refusal naming it, never "not found".
pub proof fn law_a_configured_program_never_falls_through(
    language: Language,
    over: Option<ServerOverride>,
    r: Resolution,
)
    requires
        configured_outcome(language, over, r),
    ensures
        !(r is NotFound),
        !(r is Disabled),
        r matches Resolution::Found(s) ==> s.language == language,
{
}

} // verus!
