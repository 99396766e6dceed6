use lsp_core::client::{ReadyState, RequestError, RequestFailure};
use lsp_core::model::Availability;
use lsp_core::protocol::Position;
use lsp_core::registry::Language;
use lsp_core::session::{
    availability_for, caveat_note, failure_detail, group, language_of, name, request_position, running_row,
    with_caveat, worst, Death, DeathReason, Unready, LANGUAGES,
};

fn death(reason: DeathReason, tail: &[&str]) -> Death {
    Death { code: Some(3), reason, stderr_tail: tail.iter().map(|line| (*line).to_string()).collect() }
}

// ---------------------------------------------------------------------------
// Which outcome a failure is
// ---------------------------------------------------------------------------

#[test]
fn every_request_failure_maps_to_a_distinct_reason_and_none_of_them_to_ready() {
    let cases = [
        (
            RequestError::Unsupported { method: "textDocument/implementation", capability: "implementationProvider" },
            Availability::Unsupported,
        ),
        (RequestError::StillLoading { method: "textDocument/references", waited_ms: 1000 }, Availability::Loading),
        (
            RequestError::Failed {
                method: "textDocument/references",
                failure: RequestFailure::TimedOut { after_ms: 1000 },
            },
            Availability::Failed,
        ),
        (RequestError::UnusableUri { path: "relative.cs".to_string() }, Availability::Failed),
        (RequestError::NotOpen { path: "C:/x/y.cs".to_string() }, Availability::Failed),
    ];

    for (error, expected) in cases {
        let outcome = availability_for(&error);
        assert_eq!(outcome, expected, "for {error:?}");
        assert_ne!(outcome, Availability::Ready, "a failure that reads as `Ready` becomes a count: {error:?}");
    }
}

// ---------------------------------------------------------------------------
// What a dead server's row says
// ---------------------------------------------------------------------------

#[test]
fn a_failure_detail_carries_the_servers_last_words() {
    let detail = failure_detail(
        &death(DeathReason::Exited, &["loading", "boom: no SDK found"]),
        &["loading".to_string(), "boom: no SDK found".to_string()],
    );

    assert!(detail.contains("exited"), "{detail}");
    assert!(detail.contains("boom: no SDK found"), "the reason has to survive into the row: {detail}");
}

#[test]
fn a_failure_detail_keeps_only_the_last_few_lines_of_a_flood() {
    let flood: Vec<String> = (0..50).map(|n| format!("line {n}")).collect();
    let detail = failure_detail(&death(DeathReason::Exited, &[]), &flood);

    assert!(detail.contains("line 49"), "{detail}");
    assert!(!detail.contains("line 44"), "only the last five lines belong in a row: {detail}");
}

#[test]
fn a_single_stderr_line_is_not_repeated_under_a_heading() {
    let detail = failure_detail(&death(DeathReason::Exited, &["only line"]), &["only line".to_string()]);
    assert_eq!(detail.matches("only line").count(), 1, "{detail}");
}

// ---------------------------------------------------------------------------
// Groups, and the note that keeps an empty one honest
// ---------------------------------------------------------------------------

#[test]
fn a_refused_goto_group_is_empty_and_says_which_group_it_was() {
    let mut notes = Vec::new();
    let mut refusals = Vec::new();

    let locations = group(
        Err(RequestError::Unsupported { method: "textDocument/implementation", capability: "implementationProvider" }),
        "implementations",
        &mut notes,
        &mut refusals,
    );

    assert!(locations.is_empty());
    assert_eq!(refusals, vec![Availability::Unsupported]);
    assert_eq!(notes.len(), 1);
    assert!(notes[0].contains("implementations") && notes[0].contains("implementationProvider"), "{:?}", notes[0]);
}

#[test]
fn a_group_that_answered_nothing_adds_no_note_at_all() {
    let mut notes = Vec::new();
    let mut refusals = Vec::new();

    let locations = group(Ok(Vec::new()), "declarations", &mut notes, &mut refusals);

    assert!(locations.is_empty());
    assert!(notes.is_empty(), "{notes:?}");
    assert!(refusals.is_empty());
}

#[test]
fn a_wholly_refused_goto_answer_takes_the_most_severe_reason_and_never_unsupported() {
    assert_eq!(
        worst(&[Availability::Unsupported, Availability::Failed, Availability::Failed]),
        Availability::Failed
    );
    assert_eq!(
        worst(&[Availability::Unsupported, Availability::Loading]),
        Availability::Loading,
        "still loading outranks a capability that will never appear"
    );
    assert_eq!(worst(&[Availability::Unsupported; 3]), Availability::Unsupported);
    assert_ne!(worst(&[Availability::Unsupported, Availability::Failed]), Availability::Ready);
}

// ---------------------------------------------------------------------------
// Where a request is aimed
// ---------------------------------------------------------------------------

#[test]
fn a_request_is_aimed_at_the_lsp_line_and_the_column_it_was_given() {
    assert_eq!(request_position(1, 4), Position { line: 0, character: 4 });
    assert_eq!(request_position(42, 0), Position { line: 41, character: 0 });
    assert_eq!(request_position(0, 7), Position { line: 0, character: 7 });
}

// ---------------------------------------------------------------------------
// A count taken from a server that was only promoted at the ceiling
// ---------------------------------------------------------------------------

#[test]
fn a_count_from_a_server_promoted_at_the_ceiling_is_qualified_rather_than_left_bare() {
    let note = caveat_note(&ReadyState::ReadyWithCaveat { detail: "the project load never finished".to_string() })
        .expect("a promoted server must qualify its count");
    assert!(note.contains("the project load never finished"), "{note}");
    assert!(note.contains("low"), "{note}");

    assert_eq!(caveat_note(&ReadyState::Ready), None);
    assert_eq!(caveat_note(&ReadyState::Loading), None);
}

#[test]
fn a_promoted_server_carries_its_caveat_in_its_own_field_and_not_as_its_detail() {
    let promoted = running_row(
        &ReadyState::ReadyWithCaveat { detail: "the project load never finished".to_string() },
        "roslyn.exe",
    );
    assert_eq!(promoted.state, Availability::Ready, "usable, with a caveat");
    assert_eq!(promoted.caveat.as_deref(), Some("the project load never finished"));
    assert_eq!(promoted.detail.as_deref(), Some("roslyn.exe"));

    let primed = running_row(&ReadyState::Ready, "roslyn.exe");
    assert_eq!(primed.state, Availability::Ready);
    assert_eq!(primed.caveat, None, "a good answer is not qualified");
    assert_eq!(primed.detail.as_deref(), Some("roslyn.exe"));

    let loading = running_row(&ReadyState::Loading, "roslyn.exe");
    assert_eq!(loading.state, Availability::Loading);
    assert_eq!(loading.caveat, None, "nothing has been promoted yet");
    assert!(loading.detail.as_deref().is_some_and(|detail| detail.contains("roslyn.exe")));
}

#[test]
fn a_caveat_is_added_to_whatever_the_answer_already_had_to_say() {
    let merged = with_caveat(Some("No implementations: ...".to_string()), Some("qualified")).expect("both must survive");
    assert!(merged.contains("No implementations"), "{merged}");
    assert!(merged.contains("qualified"), "{merged}");

    assert_eq!(with_caveat(None, Some("qualified")).as_deref(), Some("qualified"));
    assert_eq!(with_caveat(Some("only".to_string()), None).as_deref(), Some("only"));
    assert_eq!(with_caveat(None, None), None);
}

// ---------------------------------------------------------------------------
// The shapes an unavailable answer takes
// ---------------------------------------------------------------------------

#[test]
fn no_unready_answer_ever_carries_a_count() {
    let unready =
        Unready { outcome: Availability::Starting, message: "starting".to_string(), server: Some("csharp".to_string()) };
    let usages = unready.usages();

    assert_eq!(usages.outcome, Availability::Starting);
    assert_eq!(usages.total, None);
    assert!(usages.usages.is_empty());
    assert!(!usages.truncated);
    assert_eq!(usages.server.as_deref(), Some("csharp"));
    assert_eq!(usages.message.as_deref(), Some("starting"));
}

#[test]
fn an_unready_answer_with_no_server_names_none() {
    let usages = Unready::not_configured("nothing installed".to_string()).usages();
    assert_eq!(usages.outcome, Availability::NotConfigured);
    assert_eq!(usages.server, None);
}

#[test]
fn the_other_two_shapes_are_empty_with_a_reason() {
    let definitions =
        Unready { outcome: Availability::Loading, message: "loading".to_string(), server: None }.definition();
    assert_eq!(definitions.outcome, Availability::Loading);
    assert!(definitions.declarations.is_empty());
    assert!(definitions.implementations.is_empty());
    assert!(definitions.type_definitions.is_empty());
    assert_eq!(definitions.message.as_deref(), Some("loading"));

    let anchors = Unready { outcome: Availability::Failed, message: "dead".to_string(), server: None }.anchors();
    assert_eq!(anchors.outcome, Availability::Failed);
    assert!(anchors.anchors.is_empty());
    assert_eq!(anchors.message.as_deref(), Some("dead"));
}

// ---------------------------------------------------------------------------
// Routing
// ---------------------------------------------------------------------------

#[test]
fn a_path_is_routed_by_its_extension_and_an_unclaimed_one_gets_nothing() {
    assert_eq!(language_of("C:/x/Program.cs"), Some(Language::CSharp));
    assert_eq!(language_of("C:/x/app.tsx"), Some(Language::TypeScript));
    assert_eq!(language_of("C:/x/main.rs"), Some(Language::Rust));
    assert_eq!(language_of("C:/x/run.py"), Some(Language::Python));
    assert_eq!(language_of("C:/x/README.md"), None);
    assert_eq!(language_of("C:/x/Makefile"), None);
}

#[test]
fn every_language_has_a_name_a_human_would_recognise() {
    assert_eq!(name(Language::CSharp), "C#");
    for language in LANGUAGES {
        assert!(!name(language).is_empty());
    }
}

// ---------------------------------------------------------------------------
// Further cases
// ---------------------------------------------------------------------------

#[test]
fn session_a_death_names_its_code_and_last_line() {
    let d = death(DeathReason::Exited, &["first", "last words"]);
    assert_eq!(d.to_string(), "the language server exited with code 3: last words");
    let quiet = Death { code: None, reason: DeathReason::Killed, stderr_tail: vec![] };
    assert_eq!(quiet.to_string(), "the language server was killed");
}

#[test]
fn session_a_two_line_tail_is_listed_under_a_heading() {
    let detail = failure_detail(&death(DeathReason::Exited, &["a", "b"]), &["a".to_string(), "b".to_string()]);
    assert_eq!(detail, "the language server exited with code 3: b\nLast output:\na\nb");
}

#[test]
fn session_a_dotfile_has_no_extension() {
    assert_eq!(language_of("/x/.rs"), None);
    assert_eq!(language_of("/x/a.b.PY"), Some(Language::Python));
}

// ---------------------------------------------------------------------------
// One server's life
// ---------------------------------------------------------------------------

use std::collections::HashMap;

use lsp_core::documents::{Documents, SyncAction};
use lsp_core::model::DeclarationAnchor;
use lsp_core::protocol::{Location, Range, Symbol, SymbolKind};
use lsp_core::registry::{Readiness, Resolution, ServerSpec, Timeouts};
use lsp_core::results::TextProvider;
use lsp_core::session::{
    absolute, anchor_answer, definition_answer, ensure_open, needs_disk, open_verdict, route, server_for,
    usage_answer, DeathVerdict, Needs, RestartDecision, RestartPolicy, ServerState, TORN_DOWN, USAGE_CAP,
};
use lsp_core::uri::UriStyle;

fn spec() -> ServerSpec {
    ServerSpec {
        id: "rust",
        language: Language::Rust,
        language_id: "rust",
        program: "/usr/bin/rust-analyzer".to_string(),
        args: Vec::new(),
        env: Vec::new(),
        uri_style: UriStyle::Encoded,
        readiness: Readiness::Immediate,
        timeouts: Timeouts { first_request: 180, request: 30, document_symbol: 30 },
    }
}

struct Files(HashMap<String, Vec<String>>);

impl TextProvider for Files {
    fn line(&mut self, path: &str, line_zero_based: u32) -> Option<String> {
        self.0.get(path).and_then(|lines| lines.get(line_zero_based as usize)).cloned()
    }
}

fn files() -> Files {
    let mut m = HashMap::new();
    m.insert("/repo/src/a.rs".to_string(), vec!["fn main() {".to_string(), "    run();".to_string()]);
    Files(m)
}

fn at(uri: &str, line: u32, character: u32) -> Location {
    Location {
        uri: uri.to_string(),
        range: Range { start: Position { line, character }, end: Position { line, character: character + 3 } },
    }
}

#[test]
fn a_found_server_waits_idle_and_an_absent_one_says_how_to_get_it() {
    let found = server_for(Language::Rust, Resolution::Found(Box::new(spec())));
    assert_eq!(found.state, ServerState::Idle);
    assert!(found.spec.is_some());
    assert_eq!(found.epoch, 0);

    let absent = server_for(
        Language::Python,
        Resolution::NotFound {
            language: Language::Python,
            looked_for: vec!["pyright-langserver on PATH".to_string()],
            hint: "Install pyright.".to_string(),
        },
    );
    assert_eq!(
        absent.state,
        ServerState::Unavailable {
            outcome: Availability::NotConfigured,
            message: "no Python language server was found on this machine. Install pyright.".to_string(),
        }
    );
    assert_eq!(absent.looked_for, vec!["pyright-langserver on PATH".to_string()]);
    assert_eq!(absent.hint, Some("Install pyright.".to_string()));
}

#[test]
fn a_switched_off_server_names_the_setting_and_a_broken_one_is_failed() {
    let off = server_for(Language::CSharp, Resolution::Disabled { language: Language::CSharp });
    assert_eq!(
        off.state,
        ServerState::Unavailable {
            outcome: Availability::NotConfigured,
            message: "the C# language server is switched off: `lsp.servers.csharp.enabled` is false in \
                      .code-basics/config.json."
                .to_string(),
        }
    );
    let broken = server_for(
        Language::Rust,
        Resolution::Misconfigured {
            language: Language::Rust,
            program: "ra".to_string(),
            detail: "it is not there".to_string(),
        },
    );
    assert_eq!(
        broken.state,
        ServerState::Unavailable { outcome: Availability::Failed, message: "it is not there".to_string() }
    );
}

#[test]
fn news_about_a_replaced_process_changes_nothing() {
    let mut server = server_for(Language::Rust, Resolution::Found(Box::new(spec())));
    assert_eq!(server.begin_start(), Some(1));
    assert_eq!(server.state, ServerState::Starting);
    // Already coming up: not started twice.
    assert_eq!(server.begin_start(), None);
    assert!(!server.on_started(7, Ok(())));
    assert_eq!(server.state, ServerState::Starting);
    assert!(server.on_started(1, Ok(())));
    assert_eq!(server.state, ServerState::Up);
    assert!(server.is_live(false));
    assert!(!server.is_live(true));
    let d = death(DeathReason::Exited, &[]);
    assert_eq!(server.on_died(0, 10, &d), DeathVerdict::Stale);
    assert_eq!(server.state, ServerState::Up);
    assert!(!server.on_readiness(0));
    assert!(server.on_readiness(1));
}

#[test]
fn a_failed_start_is_failed_with_its_reason_and_never_retried() {
    let mut server = server_for(Language::Rust, Resolution::Found(Box::new(spec())));
    let epoch = server.begin_start().unwrap();
    assert!(server.on_started(epoch, Err("the handshake timed out".to_string())));
    assert_eq!(server.state, ServerState::Failed("the handshake timed out".to_string()));
    assert_eq!(server.begin_start(), None);
}

#[test]
fn a_server_is_restarted_at_most_once_a_minute_and_then_fails_for_good() {
    let mut server = server_for(Language::Rust, Resolution::Found(Box::new(spec())));
    let first = server.begin_start().unwrap();
    server.on_started(first, Ok(()));
    let d = death(DeathReason::Exited, &["panicked", "at main.rs"]);
    assert_eq!(server.on_died(first, 1_000, &d), DeathVerdict::Restart);
    assert_eq!(server.state, ServerState::Idle);
    let second = server.begin_start().unwrap();
    assert_eq!(second, 2);
    server.on_started(second, Ok(()));
    assert_eq!(server.on_died(second, 30_000, &d), DeathVerdict::Failed);
    assert_eq!(
        server.state,
        ServerState::Failed(
            "the language server exited with code 3: at main.rs\nLast output:\npanicked\nat main.rs".to_string()
        )
    );
    assert_eq!(server.begin_start(), None);
}

#[test]
fn a_restart_a_full_minute_later_is_granted_again() {
    let mut policy = RestartPolicy::new();
    let d = death(DeathReason::Killed, &["bye"]);
    assert_eq!(policy.on_death(0, &d), RestartDecision::Restart);
    assert_eq!(policy.on_death(59_999, &d), RestartDecision::Failed { stderr_tail: vec!["bye".to_string()] });
    assert_eq!(policy.on_death(60_000, &d), RestartDecision::Restart);
    assert_eq!(policy.last_restart_ms, Some(60_000));
}

#[test]
fn a_question_to_a_server_that_is_not_up_is_refused_with_why() {
    let mut server = server_for(Language::Rust, Resolution::Found(Box::new(spec())));
    let refused = server.answerable(Language::Rust, None, &ReadyState::Ready).unwrap_err();
    assert_eq!(refused.outcome, Availability::Starting);
    assert_eq!(
        refused.message,
        "the Rust language server is still starting. Ask again in a moment \u{2014} the answer is not empty, \
         it is not ready."
    );
    assert_eq!(refused.server, None);

    let epoch = server.begin_start().unwrap();
    server.on_started(epoch, Ok(()));
    let loading = server.answerable(Language::Rust, None, &ReadyState::Loading).unwrap_err();
    assert_eq!(loading.outcome, Availability::Loading);
    assert_eq!(
        loading.message,
        "the Rust language server is still loading this workspace. A count taken now would be low, which reads \
         exactly like a correct one."
    );
    assert_eq!(loading.server, Some("rust".to_string()));

    let d = death(DeathReason::Exited, &["gone"]);
    let dead = server.answerable(Language::Rust, Some(&d), &ReadyState::Ready).unwrap_err();
    assert_eq!(dead.outcome, Availability::Failed);
    assert_eq!(dead.message, "the language server exited with code 3: gone");

    assert_eq!(server.answerable(Language::Rust, None, &ReadyState::Ready), Ok(None));
    let caveat = server
        .answerable(Language::Rust, None, &ReadyState::ReadyWithCaveat { detail: "slow".to_string() })
        .unwrap();
    assert_eq!(
        caveat,
        Some("this answer was taken from a server that never finished priming (slow), so a count may be low."
            .to_string())
    );
}

#[test]
fn a_question_is_routed_by_extension_or_refused_naming_it() {
    assert_eq!(route("/repo/src/a.rs"), Ok(Language::Rust));
    let none = route("/repo/Makefile").unwrap_err();
    assert_eq!(none.outcome, Availability::NotConfigured);
    assert_eq!(none.message, "/repo/Makefile has no file extension, so no language server claims it.");
    let other = route("/repo/a.go").unwrap_err();
    assert_eq!(
        other.message,
        "no language server is configured for `.go` files. This app can answer for C#, TypeScript/JavaScript, \
         Rust and Python."
    );
}

#[test]
fn a_relative_path_is_taken_from_the_root() {
    assert_eq!(absolute("/repo", "src/a.rs"), "/repo/src/a.rs");
    assert_eq!(absolute("/repo/", "src/a.rs"), "/repo/src/a.rs");
    assert_eq!(absolute("/repo", "/elsewhere/a.rs"), "/elsewhere/a.rs");
    assert_eq!(absolute("", "src/a.rs"), "src/a.rs");
}

#[test]
fn failing_to_open_ends_only_a_question_about_a_buffer() {
    assert_eq!(open_verdict(Language::Rust, Needs::Position, Err("unreadable".to_string())), Ok(()));
    let refused = open_verdict(Language::Rust, Needs::OpenDocument, Err("unreadable".to_string())).unwrap_err();
    assert_eq!(refused.outcome, Availability::Failed);
    assert_eq!(refused.message, "unreadable");
    assert_eq!(refused.server, Some("rust".to_string()));
    assert_eq!(open_verdict(Language::Rust, Needs::OpenDocument, Ok(())), Ok(()));
}

#[test]
fn a_document_is_opened_from_its_buffer_then_from_disk_and_otherwise_not_at_all() {
    let mut documents = Documents::new();
    documents.open("/repo/a.rs", "buffer text", &[]);
    assert!(!needs_disk(&documents, "rust", "/repo/a.rs"));
    let actions = ensure_open(&mut documents, "rust", "/repo/a.rs", None).unwrap();
    assert_eq!(
        actions,
        vec![SyncAction::DidOpen {
            server: "rust",
            path: "/repo/a.rs".to_string(),
            text: "buffer text".to_string(),
            // Every open advances the version, the one made on the server's behalf too.
            version: 2,
        }]
    );
    // Told already: nothing more to say.
    assert_eq!(ensure_open(&mut documents, "rust", "/repo/a.rs", None), Ok(Vec::new()));

    assert!(needs_disk(&documents, "rust", "/repo/b.rs"));
    let from_disk = ensure_open(&mut documents, "rust", "/repo/b.rs", Some("on disk".to_string())).unwrap();
    assert_eq!(from_disk.len(), 1);
    let missing = ensure_open(&mut documents, "rust", "/repo/c.rs", None).unwrap_err();
    assert_eq!(
        missing,
        "/repo/c.rs could not be read \u{2014} it is missing, unreadable, or larger than 1048576 bytes \u{2014} \
         so no server could be told about it."
    );
}

#[test]
fn a_usage_count_carries_its_server_and_its_caveat() {
    let mut text = files();
    let answer = Ok(vec![at("file:///repo/src/a.rs", 1, 4), at("file:///repo/src/a.rs", 1, 4)]);
    let result = usage_answer("/repo", answer, &mut text, Some("careful"), "rust");
    assert_eq!(result.outcome, Availability::Ready);
    assert_eq!(result.total, Some(1));
    assert_eq!(result.usages.len(), 1);
    assert_eq!(result.usages[0].line, 2);
    assert_eq!(result.message, Some("careful".to_string()));
    assert_eq!(result.server, Some("rust".to_string()));
    assert!(result.usages.len() <= USAGE_CAP);

    let refused = usage_answer(
        "/repo",
        Err(RequestError::StillLoading { method: "textDocument/references", waited_ms: 5 }),
        &mut text,
        Some("careful"),
        "rust",
    );
    assert_eq!(refused.outcome, Availability::Loading);
    assert_eq!(refused.total, None);
    assert_eq!(
        refused.message,
        Some("the server is still loading, so textDocument/references was not asked (waited 5 ms)".to_string())
    );
}

#[test]
fn a_partly_refused_goto_answer_is_ready_with_a_note_per_missing_group() {
    let mut text = files();
    let unsupported =
        RequestError::Unsupported { method: "textDocument/implementation", capability: "implementationProvider" };
    let result = definition_answer(
        "/repo",
        Ok(vec![at("file:///repo/src/a.rs", 0, 3)]),
        Err(unsupported),
        Ok(Vec::new()),
        &mut text,
        None,
    );
    assert_eq!(result.outcome, Availability::Ready);
    assert_eq!(result.declarations.len(), 1);
    assert_eq!(result.implementations.len(), 0);
    assert_eq!(
        result.message,
        Some(
            "No implementations: this server does not support textDocument/implementation: it did not advertise \
             `implementationProvider`"
                .to_string()
        )
    );
}

#[test]
fn a_wholly_refused_goto_answer_reports_the_worst_reason_and_every_note() {
    let mut text = files();
    let failed = RequestError::Failed { method: "textDocument/definition", failure: RequestFailure::Died };
    let unsupported =
        RequestError::Unsupported { method: "textDocument/implementation", capability: "implementationProvider" };
    let loading = RequestError::StillLoading { method: "textDocument/typeDefinition", waited_ms: 1 };
    let result = definition_answer("/repo", Err(failed), Err(unsupported), Err(loading), &mut text, Some("c"));
    assert_eq!(result.outcome, Availability::Failed);
    let message = result.message.unwrap();
    assert!(message.starts_with("No declarations: "));
    assert!(message.contains(" No implementations: "));
    assert!(message.contains(" No type definitions: "));
    assert!(message.ends_with(" c"));
}

#[test]
fn an_anchor_answer_is_the_declarations_or_the_reason() {
    let symbols = vec![Symbol {
        name: "run".to_string(),
        detail: None,
        kind: SymbolKind::Function,
        range: Range { start: Position { line: 0, character: 0 }, end: Position { line: 2, character: 1 } },
        selection_range: Range { start: Position { line: 0, character: 3 }, end: Position { line: 0, character: 6 } },
        container: Vec::new(),
        uri: None,
    }];
    let result = anchor_answer(Ok(symbols), None);
    assert_eq!(result.outcome, Availability::Ready);
    let anchors: &Vec<DeclarationAnchor> = &result.anchors;
    assert_eq!(anchors.len(), 1);
    assert_eq!(result.message, None);
    let refused = anchor_answer(Err(RequestError::NotOpen { path: "/a.rs".to_string() }), None);
    assert_eq!(refused.outcome, Availability::Failed);
    assert!(refused.anchors.is_empty());
}

#[test]
fn an_idle_server_has_no_status_row_and_the_others_say_what_they_are_doing() {
    let mut server = server_for(Language::Rust, Resolution::Found(Box::new(spec())));
    assert_eq!(server.status(Language::Rust, &ReadyState::Ready, "/usr/bin/rust-analyzer"), None);
    let epoch = server.begin_start().unwrap();
    let starting = server.status(Language::Rust, &ReadyState::Ready, "/usr/bin/rust-analyzer").unwrap();
    assert_eq!(starting.state, Availability::Starting);
    assert_eq!(starting.id, "rust");
    assert_eq!(starting.language, "Rust");
    server.on_started(epoch, Ok(()));
    let loading = server.status(Language::Rust, &ReadyState::Loading, "/usr/bin/rust-analyzer").unwrap();
    assert_eq!(loading.state, Availability::Loading);
    assert_eq!(loading.detail, Some("/usr/bin/rust-analyzer is loading this workspace".to_string()));
    assert!(server.tear_down());
    assert_eq!(server.state, ServerState::Idle);
    assert!(!server.tear_down());
}

#[test]
fn a_closed_session_says_so() {
    assert!(TORN_DOWN.contains("Re-open the workspace"));
}
