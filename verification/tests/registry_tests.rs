use lsp_core::registry::{
    caller_args, language_for_extension, resolve, sort_paths, Language, Probe, Readiness, Resolution,
    ServerSpec,
};
use lsp_core::settings::{LspConfig, ServerOverride};
use lsp_core::uri::UriStyle;
use std::collections::{BTreeMap, BTreeSet};

// ---------------------------------------------------------------------------
// A fake environment
// ---------------------------------------------------------------------------

#[derive(Default)]
struct Fake {
    on_path: BTreeMap<String, String>,
    files: BTreeSet<String>,
    dirs: BTreeSet<String>,
    home: Option<String>,
    env: BTreeMap<String, String>,
}

impl Fake {
    fn new() -> Self {
        Self::default()
    }

    /// A program the PATH walk would resolve, and where to.
    fn program(mut self, name: &str, at: &str) -> Self {
        self.on_path.insert(name.to_string(), at.to_string());
        self = self.file(at);
        self
    }

    /// A file, plus every directory above it.
    fn file(mut self, path: &str) -> Self {
        self.files.insert(path.to_string());
        let mut cursor = path;
        while let Some((parent, _)) = cursor.rsplit_once('/') {
            if parent.is_empty() {
                break;
            }
            self.dirs.insert(parent.to_string());
            cursor = parent;
        }
        self
    }

    /// A directory, plus every directory above it.
    fn dir(mut self, path: &str) -> Self {
        self.dirs.insert(path.to_string());
        let mut cursor = path;
        while let Some((parent, _)) = cursor.rsplit_once('/') {
            if parent.is_empty() {
                break;
            }
            self.dirs.insert(parent.to_string());
            cursor = parent;
        }
        self
    }

    fn home(mut self, path: &str) -> Self {
        self.home = Some(path.to_string());
        self
    }

    fn with_env(mut self, key: &str, value: &str) -> Self {
        self.env.insert(key.to_string(), value.to_string());
        self
    }
}

impl Probe for Fake {
    fn on_path(&self, name: &str) -> Option<String> {
        self.on_path.get(name).cloned()
    }

    fn is_file(&self, path: &str) -> bool {
        self.files.contains(path)
    }

    fn is_dir(&self, path: &str) -> bool {
        self.dirs.contains(path)
    }

    fn read_dir(&self, path: &str) -> Vec<String> {
        let prefix = format!("{}/", path);
        self.dirs
            .iter()
            .chain(self.files.iter())
            .filter_map(|entry| {
                let rest = entry.strip_prefix(&prefix)?;
                if rest.contains('/') {
                    None
                } else {
                    Some(entry.clone())
                }
            })
            .collect()
    }

    fn home(&self) -> Option<String> {
        self.home.clone()
    }

    fn env(&self, key: &str) -> Option<String> {
        self.env.get(key).cloned()
    }
}

/// A probe that must never be consulted.
struct NeverProbe;

impl Probe for NeverProbe {
    fn on_path(&self, name: &str) -> Option<String> {
        panic!("PATH was searched for {name} when it should not have been");
    }
    fn is_file(&self, path: &str) -> bool {
        panic!("the filesystem was consulted for {path}");
    }
    fn is_dir(&self, path: &str) -> bool {
        panic!("the filesystem was consulted for {path}");
    }
    fn read_dir(&self, path: &str) -> Vec<String> {
        panic!("the filesystem was listed at {path}");
    }
    fn home(&self) -> Option<String> {
        panic!("the home directory was consulted");
    }
    fn env(&self, key: &str) -> Option<String> {
        panic!("the environment was read for {key}");
    }
}

/// An override with nothing set.
fn blank() -> ServerOverride {
    ServerOverride { enabled: None, program: None, args: None, env: Vec::new(), uri_style: None }
}

/// A settings block with one override per named server.
fn config(servers: Vec<(&str, ServerOverride)>) -> LspConfig {
    LspConfig { servers: servers.into_iter().map(|(id, o)| (id.to_string(), o)).collect() }
}

fn with_program(program: &str) -> ServerOverride {
    ServerOverride { program: Some(program.to_string()), ..blank() }
}

fn with_args(args: &[&str]) -> ServerOverride {
    ServerOverride { args: Some(args.iter().map(|a| a.to_string()).collect()), ..blank() }
}

fn spec(resolution: Resolution) -> ServerSpec {
    match resolution {
        Resolution::Found(spec) => *spec,
        other => panic!("expected a server, got {other:?}"),
    }
}

fn not_found(resolution: Resolution) -> (Vec<String>, String) {
    match resolution {
        Resolution::NotFound { looked_for, hint, .. } => (looked_for, hint),
        other => panic!("expected NotFound, got {other:?}"),
    }
}

fn env_get<'a>(env: &'a [(String, String)], key: &str) -> Option<&'a str> {
    env.iter().find(|(k, _)| k == key).map(|(_, v)| v.as_str())
}

/// The exe under a plausible VS Code extension directory.
fn roslyn_at(home: &str, editor: &str, version: &str) -> String {
    format!(
        "{home}/{editor}/extensions/ms-dotnettools.csharp-{version}-win32-x64/.roslyn/Microsoft.CodeAnalysis.LanguageServer.exe"
    )
}

// ---------------------------------------------------------------------------
// Extension mapping
// ---------------------------------------------------------------------------

#[test]
fn every_extension_the_registry_claims_maps_to_its_language() {
    assert_eq!(language_for_extension("cs"), Some(Language::CSharp));
    for ext in ["ts", "tsx", "js", "jsx", "mjs", "cjs", "mts", "cts"] {
        assert_eq!(language_for_extension(ext), Some(Language::TypeScript), "{ext}");
    }
    assert_eq!(language_for_extension("rs"), Some(Language::Rust));
    for ext in ["py", "pyi"] {
        assert_eq!(language_for_extension(ext), Some(Language::Python), "{ext}");
    }
}

#[test]
fn an_extension_is_matched_regardless_of_case() {
    assert_eq!(language_for_extension("CS"), Some(Language::CSharp));
    assert_eq!(language_for_extension("TSX"), Some(Language::TypeScript));
    assert_eq!(language_for_extension("Rs"), Some(Language::Rust));
    assert_eq!(language_for_extension("PyI"), Some(Language::Python));
}

#[test]
fn an_unknown_extension_yields_nothing_rather_than_a_default_server() {
    for ext in ["", "txt", "csproj", "sln", "json", "md", "toml", "xml", "c"] {
        assert_eq!(language_for_extension(ext), None, "{ext:?}");
    }
}

#[test]
fn a_leading_dot_is_not_part_of_an_extension() {
    assert_eq!(language_for_extension(".cs"), None);
}

// ---------------------------------------------------------------------------
// Rust
// ---------------------------------------------------------------------------

#[test]
fn rust_analyzer_on_path_is_launched_with_no_arguments() {
    let probe = Fake::new().program("rust-analyzer", "C:/cargo/bin/rust-analyzer.exe");

    let found = spec(resolve(Language::Rust, None, &probe));

    assert_eq!(found.id, "rust");
    assert_eq!(found.language, Language::Rust);
    assert_eq!(found.program, "C:/cargo/bin/rust-analyzer.exe");
    assert!(found.args.is_empty(), "{:?}", found.args);
    assert!(found.env.is_empty(), "{:?}", found.env);
    assert_eq!(found.uri_style, UriStyle::Encoded);
}

#[test]
fn rust_analyzer_is_not_ready_until_it_says_so_because_an_early_answer_is_wrong() {
    let probe = Fake::new().program("rust-analyzer", "C:/cargo/bin/rust-analyzer.exe");

    let found = spec(resolve(Language::Rust, None, &probe));

    assert_eq!(
        found.readiness,
        Readiness::Progress { token_prefix: "rustAnalyzer/cachePriming" }
    );
}

#[test]
fn a_missing_rust_analyzer_names_what_was_tried_and_how_to_install_it() {
    let (looked_for, hint) = not_found(resolve(Language::Rust, None, &Fake::new()));

    assert_eq!(looked_for, vec!["rust-analyzer (on PATH)".to_string()]);
    assert!(
        hint.contains("rustup component add rust-analyzer"),
        "hint must be actionable, got {hint:?}"
    );
}

// ---------------------------------------------------------------------------
// TypeScript
// ---------------------------------------------------------------------------

#[test]
fn the_typescript_server_is_launched_over_stdio_and_waits_for_its_project() {
    let probe = Fake::new().program(
        "typescript-language-server",
        "C:/npm/typescript-language-server.cmd",
    );

    let found = spec(resolve(Language::TypeScript, None, &probe));

    assert_eq!(found.id, "typescript");
    assert_eq!(found.language_id, "typescript");
    assert_eq!(found.program, "C:/npm/typescript-language-server.cmd");
    assert_eq!(found.args, vec!["--stdio".to_string()]);
    assert_eq!(
        found.readiness,
        Readiness::ProgressTitle { title_prefix: "Initializing JS/TS language features" }
    );
    assert_eq!(found.uri_style, UriStyle::Encoded);
}

#[test]
fn a_missing_typescript_server_names_the_npm_packages_to_install() {
    let (looked_for, hint) = not_found(resolve(Language::TypeScript, None, &Fake::new()));

    assert_eq!(looked_for, vec!["typescript-language-server (on PATH)".to_string()]);
    assert!(hint.contains("npm i -g typescript-language-server typescript"), "got {hint:?}");
}

// ---------------------------------------------------------------------------
// Python
// ---------------------------------------------------------------------------

#[test]
fn the_python_candidates_are_tried_in_order_with_their_own_arguments() {
    let cases = [
        ("basedpyright-langserver", vec!["--stdio".to_string()]),
        ("pyright-langserver", vec!["--stdio".to_string()]),
    ];

    for (name, args) in &cases {
        let probe = Fake::new().program(name, &format!("C:/py/{name}.exe"));
        let found = spec(resolve(Language::Python, None, &probe));
        assert_eq!(found.program, format!("C:/py/{name}.exe"));
        assert_eq!(&found.args, args, "{name}");
        assert_eq!(found.readiness, Readiness::FirstDiagnostics, "{name}");
        assert_eq!(found.uri_style, UriStyle::Encoded);
    }
}

#[test]
fn a_configured_python_program_gets_the_arguments_that_program_accepts() {
    for (name, args) in [
        ("basedpyright-langserver", vec!["--stdio".to_string()]),
        ("pyright-langserver", vec!["--stdio".to_string()]),
    ] {
        let probe = Fake::new().program(name, &format!("C:/py/{name}.exe"));
        let settings = config(vec![("python", with_program(name))]);

        let found = spec(resolve(Language::Python, Some(&settings), &probe));

        assert_eq!(found.args, args, "{name}");
    }
}

#[test]
fn a_configured_program_nobody_recognises_keeps_the_language_default() {
    let probe = Fake::new().program("my-pyright-wrapper", "C:/py/my-pyright-wrapper.exe");
    let settings = config(vec![("python", with_program("my-pyright-wrapper"))]);

    let found = spec(resolve(Language::Python, Some(&settings), &probe));

    assert_eq!(found.args, vec!["--stdio".to_string()]);
}

#[test]
fn the_earlier_python_candidate_wins_when_several_are_installed() {
    let probe = Fake::new()
        .program("pyright-langserver", "C:/py/pyright-langserver.exe")
        .program("basedpyright-langserver", "C:/py/basedpyright-langserver.exe");

    let found = spec(resolve(Language::Python, None, &probe));

    assert_eq!(found.program, "C:/py/basedpyright-langserver.exe");
}

#[test]
fn ruff_is_never_treated_as_a_python_language_server() {
    let probe = Fake::new()
        .program("ruff", "C:/py/ruff.exe")
        .program("ruff-lsp", "C:/py/ruff-lsp.exe");

    let (looked_for, _) = not_found(resolve(Language::Python, None, &probe));

    assert!(
        !looked_for.iter().any(|c| c.contains("ruff")),
        "ruff must not even be a candidate: {looked_for:?}"
    );
}

#[test]
fn a_missing_python_server_lists_every_candidate_that_was_tried() {
    let (looked_for, hint) = not_found(resolve(Language::Python, None, &Fake::new()));

    assert_eq!(
        looked_for,
        vec![
            "basedpyright-langserver (on PATH)".to_string(),
            "pyright-langserver (on PATH)".to_string(),
        ]
    );
    assert!(!hint.is_empty());
}

// ---------------------------------------------------------------------------
// C#
// ---------------------------------------------------------------------------

#[test]
fn roslyn_is_launched_with_exactly_the_three_verified_arguments() {
    let home = "C:/home";
    let exe = roslyn_at(home, ".vscode", "2.140.9");
    let probe = Fake::new().home(home).file(&exe);

    let found = spec(resolve(Language::CSharp, None, &probe));

    assert_eq!(found.program, exe);
    assert_eq!(
        found.args,
        vec![
            "--stdio".to_string(),
            "--logLevel".to_string(),
            "Warning".to_string(),
            "--autoLoadProjects".to_string(),
        ]
    );
    assert_eq!(env_get(&found.env, "DOTNET_gcServer"), Some("0"));
    assert_eq!(found.uri_style, UriStyle::Plain);
    assert_eq!(found.readiness, Readiness::RoslynProjectInit);
    assert_eq!(found.language_id, "csharp");
}

#[test]
fn the_razor_devkit_and_caller_owned_arguments_are_deliberately_absent() {
    let home = "C:/home";
    let probe = Fake::new().home(home).file(&roslyn_at(home, ".vscode", "1.0.0"));

    let found = spec(resolve(Language::CSharp, None, &probe));
    let joined = found.args.join(" ");

    for banned in [
        "razor",
        "Razor",
        "DesignTime",
        "devKit",
        "clientProcessId",
        "extensionLogDirectory",
    ] {
        assert!(!joined.contains(banned), "{banned} must not be passed: {joined}");
    }
}

// ---------------------------------------------------------------------------
// The two arguments only the spawn site can supply
// ---------------------------------------------------------------------------

fn roslyn_spec() -> ServerSpec {
    let home = "C:/home";
    let probe = Fake::new().home(home).file(&roslyn_at(home, ".vscode", "2.140.9"));
    spec(resolve(Language::CSharp, None, &probe))
}

#[test]
fn roslyn_is_told_our_pid_and_where_to_write_its_logs() {
    let logs = "C:/repo/.code-basics/lsp-logs";
    let args = caller_args(&roslyn_spec(), 4321, Some(logs));

    assert_eq!(
        args,
        vec![
            "--clientProcessId".to_string(),
            "4321".to_string(),
            "--extensionLogDirectory".to_string(),
            logs.to_string(),
        ],
        "each flag is followed by its own value, in the spelling `--help` documents"
    );
}

#[test]
fn a_log_directory_that_could_not_be_created_yields_no_flag_at_all() {
    let args = caller_args(&roslyn_spec(), 7, None);

    assert_eq!(args, vec!["--clientProcessId".to_string(), "7".to_string()]);
    assert!(!args.iter().any(|a| a == "--extensionLogDirectory"));
}

#[test]
fn no_other_server_is_given_roslyns_flags() {
    let logs = "C:/repo/.code-basics/lsp-logs";
    for (language, program) in [
        (Language::Rust, "rust-analyzer"),
        (Language::TypeScript, "typescript-language-server"),
        (Language::Python, "pyright-langserver"),
    ] {
        let probe = Fake::new().program(program, &format!("C:/bin/{program}.exe"));
        let found = spec(resolve(language, None, &probe));
        assert!(
            caller_args(&found, 11, Some(logs)).is_empty(),
            "{program} must be launched with exactly what discovery chose"
        );
    }
}

#[test]
fn a_user_who_replaced_the_arguments_gets_exactly_what_they_wrote() {
    let home = "C:/home";
    let probe = Fake::new().home(home).file(&roslyn_at(home, ".vscode", "2.140.9"));
    let cfg = config(vec![("csharp", with_args(&["--stdio", "--logLevel", "Trace"]))]);
    let found = spec(resolve(Language::CSharp, Some(&cfg), &probe));

    assert!(caller_args(&found, 11, None).is_empty());
}

#[test]
fn the_highest_extension_version_wins_and_not_the_lexically_largest() {
    let home = "C:/home";
    let old = roslyn_at(home, ".vscode", "2.9.0");
    let new = roslyn_at(home, ".vscode", "2.140.9");
    let probe = Fake::new().home(home).file(&old).file(&new);

    let found = spec(resolve(Language::CSharp, None, &probe));

    assert_eq!(found.program, new);
}

#[test]
fn a_two_component_version_loses_to_the_same_version_with_a_patch() {
    let home = "C:/home";
    let short = roslyn_at(home, ".vscode", "2.140");
    let long = roslyn_at(home, ".vscode", "2.140.1");
    let probe = Fake::new().home(home).file(&short).file(&long);

    assert_eq!(spec(resolve(Language::CSharp, None, &probe)).program, long);
}

#[test]
fn an_extension_directory_whose_version_does_not_parse_never_beats_one_that_does() {
    let home = "C:/home";
    let parsed = roslyn_at(home, ".vscode", "2.140.9");
    let odd = format!(
        "{home}/.vscode/extensions/ms-dotnettools.csharp-nightly/.roslyn/Microsoft.CodeAnalysis.LanguageServer.exe"
    );
    let probe = Fake::new().home(home).file(&parsed).file(&odd);

    assert_eq!(spec(resolve(Language::CSharp, None, &probe)).program, parsed);
}

#[test]
fn an_unparseable_version_is_still_used_when_it_is_the_only_install() {
    let home = "C:/home";
    let odd = format!(
        "{home}/.vscode/extensions/ms-dotnettools.csharp-nightly/.roslyn/Microsoft.CodeAnalysis.LanguageServer.exe"
    );
    let probe = Fake::new().home(home).file(&odd);

    assert_eq!(spec(resolve(Language::CSharp, None, &probe)).program, odd);
}

#[test]
fn the_extensionless_executable_name_is_accepted_for_non_windows_installs() {
    let home = "/home/aj";
    let exe = format!(
        "{home}/.vscode/extensions/ms-dotnettools.csharp-2.140.9-linux-x64/.roslyn/Microsoft.CodeAnalysis.LanguageServer"
    );
    let probe = Fake::new().home(home).file(&exe);

    assert_eq!(spec(resolve(Language::CSharp, None, &probe)).program, exe);
}

#[test]
fn the_editor_search_order_decides_when_several_editors_carry_the_extension() {
    let home = "C:/home";
    let vscode = roslyn_at(home, ".vscode", "2.100.0");
    let cursor = roslyn_at(home, ".cursor", "2.140.9");
    let probe = Fake::new().home(home).file(&vscode).file(&cursor);

    assert_eq!(spec(resolve(Language::CSharp, None, &probe)).program, vscode);
}

#[test]
fn every_supported_editor_directory_is_searched() {
    let home = "C:/home";
    for editor in [".vscode", ".vscode-insiders", ".vscode-server", ".cursor", ".windsurf"] {
        let exe = roslyn_at(home, editor, "2.140.9");
        let probe = Fake::new().home(home).file(&exe);
        assert_eq!(spec(resolve(Language::CSharp, None, &probe)).program, exe, "{editor}");
    }
}

#[test]
fn an_extension_with_a_roslyn_directory_but_no_executable_is_reported_not_found() {
    let home = "C:/home";
    let dir = format!("{home}/.vscode/extensions/ms-dotnettools.csharp-2.140.9-win32-x64/.roslyn");
    let probe = Fake::new().home(home).dir(&dir);

    let (looked_for, _) = not_found(resolve(Language::CSharp, None, &probe));

    assert!(
        looked_for.iter().any(|c| c.contains(&dir)),
        "the directory examined must be reported: {looked_for:?}"
    );
}

#[test]
fn a_missing_roslyn_names_the_env_override_the_globs_and_the_vscode_extension() {
    let probe = Fake::new().home("C:/home");

    let (looked_for, hint) = not_found(resolve(Language::CSharp, None, &probe));

    assert!(looked_for.iter().any(|c| c.contains("CB_ROSLYN_PATH")), "{looked_for:?}");
    assert!(
        looked_for
            .iter()
            .any(|c| c.contains("C:/home/.vscode/extensions/ms-dotnettools.csharp-")),
        "{looked_for:?}"
    );
    assert!(hint.contains("C#") && hint.to_lowercase().contains("vs code"), "{hint:?}");
}

#[test]
fn an_unknown_home_directory_is_reported_as_the_reason_nothing_could_be_searched() {
    let (looked_for, _) = not_found(resolve(Language::CSharp, None, &Fake::new()));

    assert!(looked_for.iter().any(|c| c.contains("home directory")), "{looked_for:?}");
}

#[test]
fn cb_roslyn_path_may_name_the_directory_containing_the_executable() {
    let probe = Fake::new()
        .with_env("CB_ROSLYN_PATH", "D:/roslyn")
        .dir("D:/roslyn")
        .file("D:/roslyn/Microsoft.CodeAnalysis.LanguageServer.exe");

    assert_eq!(
        spec(resolve(Language::CSharp, None, &probe)).program,
        "D:/roslyn/Microsoft.CodeAnalysis.LanguageServer.exe"
    );
}

#[test]
fn cb_roslyn_path_may_name_the_executable_itself_under_any_name() {
    let probe = Fake::new()
        .with_env("CB_ROSLYN_PATH", "D:/builds/lsp-with-my-fix.exe")
        .file("D:/builds/lsp-with-my-fix.exe");

    assert_eq!(spec(resolve(Language::CSharp, None, &probe)).program, "D:/builds/lsp-with-my-fix.exe");
}

#[test]
fn cb_roslyn_path_beats_an_installed_extension() {
    let home = "C:/home";
    let probe = Fake::new()
        .home(home)
        .file(&roslyn_at(home, ".vscode", "2.140.9"))
        .with_env("CB_ROSLYN_PATH", "D:/roslyn/x.exe")
        .file("D:/roslyn/x.exe");

    assert_eq!(spec(resolve(Language::CSharp, None, &probe)).program, "D:/roslyn/x.exe");
}

#[test]
fn a_cb_roslyn_path_pointing_nowhere_falls_through_to_discovery_and_is_still_reported() {
    let home = "C:/home";
    let exe = roslyn_at(home, ".vscode", "2.140.9");
    let probe = Fake::new().home(home).file(&exe).with_env("CB_ROSLYN_PATH", "D:/gone");

    assert_eq!(spec(resolve(Language::CSharp, None, &probe)).program, exe);

    let empty = Fake::new().home(home).with_env("CB_ROSLYN_PATH", "D:/gone");
    let (looked_for, _) = not_found(resolve(Language::CSharp, None, &empty));
    assert!(
        looked_for.iter().any(|c| c.contains("D:/gone")),
        "the variable's value must be echoed back: {looked_for:?}"
    );
}

// ---------------------------------------------------------------------------
// Configuration
// ---------------------------------------------------------------------------

#[test]
fn a_disabled_server_is_reported_without_touching_the_environment() {
    let cfg = config(vec![("rust", ServerOverride { enabled: Some(false), ..blank() })]);

    assert_eq!(
        resolve(Language::Rust, Some(&cfg), &NeverProbe),
        Resolution::Disabled { language: Language::Rust }
    );
}

#[test]
fn disabling_one_server_does_not_disable_the_others() {
    let cfg = config(vec![("rust", ServerOverride { enabled: Some(false), ..blank() })]);
    let probe = Fake::new().program("pyright-langserver", "C:/py/pyright-langserver.exe");

    assert_eq!(
        spec(resolve(Language::Python, Some(&cfg), &probe)).program,
        "C:/py/pyright-langserver.exe"
    );
}

#[test]
fn a_configured_program_that_exists_is_used_and_keeps_the_builtin_arguments() {
    let cfg = config(vec![("csharp", with_program("D:/roslyn/mine.exe"))]);
    let probe = Fake::new().file("D:/roslyn/mine.exe");

    let found = spec(resolve(Language::CSharp, Some(&cfg), &probe));

    assert_eq!(found.program, "D:/roslyn/mine.exe");
    assert!(found.args.contains(&"--stdio".to_string()));
    assert_eq!(found.uri_style, UriStyle::Plain);
}

#[test]
fn a_configured_program_may_be_a_bare_name_resolved_on_path() {
    let cfg = config(vec![("rust", with_program("ra-multiplex"))]);
    let probe = Fake::new().program("ra-multiplex", "C:/bin/ra-multiplex.exe");

    assert_eq!(spec(resolve(Language::Rust, Some(&cfg), &probe)).program, "C:/bin/ra-multiplex.exe");
}

#[test]
fn a_configured_program_that_is_absent_never_falls_through_to_discovery() {
    let cfg = config(vec![("rust", with_program("D:/nope/ra.exe"))]);
    let probe = Fake::new().program("rust-analyzer", "C:/cargo/bin/rust-analyzer.exe");

    let resolution = resolve(Language::Rust, Some(&cfg), &probe);

    assert!(
        !matches!(resolution, Resolution::Found(_)),
        "a missing configured program must not resolve to a discovered one: {resolution:?}"
    );
    match resolution {
        Resolution::Misconfigured { language, program, detail } => {
            assert_eq!(language, Language::Rust);
            assert_eq!(program, "D:/nope/ra.exe");
            assert!(detail.contains("config.json"), "the detail must name the file to edit: {detail:?}");
        }
        other => panic!("expected Misconfigured, got {other:?}"),
    }
}

#[test]
fn a_configured_program_that_is_a_directory_is_misconfigured() {
    let cfg = config(vec![("csharp", with_program("D:/roslyn"))]);
    let probe = Fake::new().dir("D:/roslyn");

    assert!(matches!(
        resolve(Language::CSharp, Some(&cfg), &probe),
        Resolution::Misconfigured { .. }
    ));
}

#[test]
fn a_configured_program_that_is_blank_is_misconfigured_rather_than_ignored() {
    let cfg = config(vec![("rust", with_program("   "))]);
    let probe = Fake::new().program("rust-analyzer", "C:/cargo/bin/rust-analyzer.exe");

    assert!(matches!(
        resolve(Language::Rust, Some(&cfg), &probe),
        Resolution::Misconfigured { .. }
    ));
}

#[test]
fn an_override_with_no_fields_set_changes_nothing_about_discovery() {
    let cfg = config(vec![("rust", blank())]);
    let probe = Fake::new().program("rust-analyzer", "C:/cargo/bin/rust-analyzer.exe");

    let found = spec(resolve(Language::Rust, Some(&cfg), &probe));

    assert_eq!(found.program, "C:/cargo/bin/rust-analyzer.exe");
    assert!(found.args.is_empty());
}

#[test]
fn configured_arguments_replace_the_discovered_ones_entirely() {
    let cfg = config(vec![("csharp", with_args(&["--stdio", "--logLevel", "Trace"]))]);
    let home = "C:/home";
    let probe = Fake::new().home(home).file(&roslyn_at(home, ".vscode", "2.140.9"));

    let found = spec(resolve(Language::CSharp, Some(&cfg), &probe));

    assert_eq!(found.args, vec!["--stdio", "--logLevel", "Trace"]);
}

#[test]
fn an_explicit_empty_argument_list_is_honoured() {
    let cfg = config(vec![("csharp", with_args(&[]))]);
    let home = "C:/home";
    let probe = Fake::new().home(home).file(&roslyn_at(home, ".vscode", "2.140.9"));

    assert!(spec(resolve(Language::CSharp, Some(&cfg), &probe)).args.is_empty());
}

#[test]
fn configured_environment_layers_over_the_builtin_environment() {
    let cfg = config(vec![(
        "csharp",
        ServerOverride {
            env: vec![
                ("DOTNET_gcServer".to_string(), "1".to_string()),
                ("DOTNET_TieredPGO".to_string(), "0".to_string()),
            ],
            ..blank()
        },
    )]);
    let home = "C:/home";
    let probe = Fake::new().home(home).file(&roslyn_at(home, ".vscode", "2.140.9"));

    let found = spec(resolve(Language::CSharp, Some(&cfg), &probe));

    assert_eq!(env_get(&found.env, "DOTNET_gcServer"), Some("1"));
    assert_eq!(env_get(&found.env, "DOTNET_TieredPGO"), Some("0"));
}

#[test]
fn a_configured_uri_style_replaces_the_per_server_default() {
    let cfg = config(vec![
        ("csharp", ServerOverride { uri_style: Some(UriStyle::Encoded), ..blank() }),
        ("rust", ServerOverride { uri_style: Some(UriStyle::Plain), ..blank() }),
    ]);
    let home = "C:/home";
    let csharp = Fake::new().home(home).file(&roslyn_at(home, ".vscode", "2.140.9"));
    let rust = Fake::new().program("rust-analyzer", "C:/cargo/bin/rust-analyzer.exe");

    assert_eq!(spec(resolve(Language::CSharp, Some(&cfg), &csharp)).uri_style, UriStyle::Encoded);
    assert_eq!(spec(resolve(Language::Rust, Some(&cfg), &rust)).uri_style, UriStyle::Plain);
}

#[test]
fn overrides_layer_onto_a_configured_program_as_well_as_a_discovered_one() {
    let cfg = config(vec![(
        "rust",
        ServerOverride {
            program: Some("D:/ra.exe".to_string()),
            args: Some(vec!["--log-file".to_string(), "x".to_string()]),
            env: vec![("RA_LOG".to_string(), "info".to_string())],
            ..blank()
        },
    )]);
    let probe = Fake::new().file("D:/ra.exe");

    let found = spec(resolve(Language::Rust, Some(&cfg), &probe));

    assert_eq!(found.program, "D:/ra.exe");
    assert_eq!(found.args, vec!["--log-file", "x"]);
    assert_eq!(env_get(&found.env, "RA_LOG"), Some("info"));
}

#[test]
fn an_override_for_a_different_language_is_never_applied() {
    let cfg = config(vec![("csharp", with_args(&["--nonsense"]))]);
    let probe = Fake::new().program("rust-analyzer", "C:/cargo/bin/rust-analyzer.exe");

    assert!(spec(resolve(Language::Rust, Some(&cfg), &probe)).args.is_empty());
}

#[test]
fn the_server_ids_are_the_keys_the_settings_file_documents() {
    assert_eq!(Language::CSharp.id(), "csharp");
    assert_eq!(Language::TypeScript.id(), "typescript");
    assert_eq!(Language::Rust.id(), "rust");
    assert_eq!(Language::Python.id(), "python");
}

#[test]
fn every_language_has_timeouts_that_allow_more_time_for_the_first_request() {
    let home = "C:/home";
    let probes: Vec<(Language, Box<dyn Probe>)> = vec![
        (
            Language::CSharp,
            Box::new(Fake::new().home(home).file(&roslyn_at(home, ".vscode", "2.140.9"))),
        ),
        (
            Language::Rust,
            Box::new(Fake::new().program("rust-analyzer", "C:/cargo/bin/rust-analyzer.exe")),
        ),
        (
            Language::TypeScript,
            Box::new(Fake::new().program("typescript-language-server", "C:/npm/tsls.cmd")),
        ),
        (
            Language::Python,
            Box::new(Fake::new().program("pyright-langserver", "C:/py/pyright-langserver.exe")),
        ),
    ];

    for (language, probe) in &probes {
        let found = spec(resolve(*language, None, probe.as_ref()));
        assert!(found.timeouts.first_request > found.timeouts.request, "{language:?}");
        assert!(found.timeouts.request != 0, "{language:?}");
        assert!(found.timeouts.document_symbol != 0, "{language:?}");
    }
}

#[test]
fn roslyn_is_given_the_longest_first_request_budget_because_it_loads_projects() {
    let home = "C:/home";
    let csharp = spec(resolve(
        Language::CSharp,
        None,
        &Fake::new().home(home).file(&roslyn_at(home, ".vscode", "2.140.9")),
    ));
    let rust = spec(resolve(
        Language::Rust,
        None,
        &Fake::new().program("rust-analyzer", "C:/cargo/bin/rust-analyzer.exe"),
    ));

    assert!(csharp.timeouts.first_request > rust.timeouts.first_request);
}

// ---------------------------------------------------------------------------
// Further cases
// ---------------------------------------------------------------------------

#[test]
fn registry_listings_are_put_in_path_order() {
    let sorted = sort_paths(vec![
        "a/b-2".to_string(),
        "a/b".to_string(),
        "a/b/c".to_string(),
        "A".to_string(),
    ]);
    assert_eq!(sorted, vec!["A", "a/b", "a/b/c", "a/b-2"]);
}

#[test]
fn registry_the_first_override_filed_under_an_id_is_the_one_used() {
    let cfg = config(vec![("rust", with_args(&["--one"])), ("rust", with_args(&["--two"]))]);
    assert_eq!(cfg.server("rust").and_then(|o| o.args.clone()), Some(vec!["--one".to_string()]));
    assert!(cfg.server("python").is_none());
}
