// Shared test data lives in each test file; this file holds the data and
// matcher scenarios.
use explainshell::{
    explain_command, CliOption, DataBundle, DataError, DebugInfo, ExtractionMeta, HasArgument,
    ManpageData, MatchError, NestedCmd, ParsedManpage, Positional, BUNDLE_VERSION,
};

fn opt(text: &str, short: &[&str], long: &[&str], has_argument: bool) -> CliOption {
    CliOption {
        text: text.to_string(),
        short: short.iter().map(|s| s.to_string()).collect(),
        long: long.iter().map(|s| s.to_string()).collect(),
        has_argument: HasArgument::Bool(has_argument),
        positional: None,
        prefix: None,
        nested_cmd: NestedCmd::Bool(false),
        meta: None,
    }
}

fn positional(text: &str, name: &str, prefix: Option<&str>) -> CliOption {
    CliOption {
        text: text.to_string(),
        short: Vec::new(),
        long: Vec::new(),
        has_argument: HasArgument::Bool(false),
        positional: Some(Positional::Name(name.to_string())),
        prefix: prefix.map(|p| p.to_string()),
        nested_cmd: NestedCmd::Bool(false),
        meta: None,
    }
}

fn page(source: &str, name: &str, synopsis: &str, options: Vec<CliOption>) -> ParsedManpage {
    ParsedManpage {
        source: source.to_string(),
        name: name.to_string(),
        synopsis: Some(synopsis.to_string()),
        options,
        aliases: vec![(name.to_string(), 10)],
        dashless_opts: false,
        subcommands: Vec::new(),
        updated: false,
        nested_cmd: NestedCmd::Bool(false),
        extractor: Some("llm".to_string()),
        extraction_meta: Some(ExtractionMeta { model: Some("openai/gpt-5-mini".to_string()) }),
    }
}

fn add(bundle: &mut DataBundle, mp: ParsedManpage, keys: &[&str]) {
    let source = mp.source.clone();
    for key in keys {
        bundle.mappings.insert(key.to_string(), vec![(source.clone(), 10)]);
    }
    bundle.manpages.insert(source, mp);
}

/// The corpus of the fixture database: tar, git, git-commit and sudo.
fn fixture() -> ManpageData {
    let mut bundle = DataBundle::new(BUNDLE_VERSION);
    let tar = page(
        "ubuntu/26.04/1/tar.1.gz",
        "tar",
        "manipulate tape archives",
        vec![
            opt("extract files", &["-x"], &["--extract"], false),
            opt("verbose output", &["-v"], &["--verbose"], false),
            opt("use archive file", &["-f"], &["--file"], true),
            positional("files to archive", "file", None),
        ],
    );
    add(&mut bundle, tar, &["tar"]);
    let git = page("ubuntu/26.04/1/git.1.gz", "git", "the stupid content tracker", vec![]);
    add(&mut bundle, git, &["git"]);
    let commit = page(
        "ubuntu/26.04/1/git-commit.1.gz",
        "git-commit",
        "Record changes to the repository",
        vec![opt("use the given message", &["-m"], &["--message"], true)],
    );
    add(&mut bundle, commit, &["git-commit", "git commit"]);
    let mut sudo = page("ubuntu/26.04/8/sudo.8.gz", "sudo", "execute a command as another user", vec![]);
    sudo.nested_cmd = NestedCmd::Bool(true);
    add(&mut bundle, sudo, &["sudo"]);
    ManpageData::from_bundle(bundle).expect("version")
}

fn sample_data() -> ManpageData {
    let mut bundle = DataBundle::new(BUNDLE_VERSION);
    let tar = page(
        "ubuntu/26.04/1/tar.1.gz",
        "tar",
        "manipulate tape archives",
        vec![opt("verbose", &["-v"], &["--verbose"], false)],
    );
    add(&mut bundle, tar, &["tar"]);
    ManpageData::from_bundle(bundle).expect("decode")
}

#[test]
fn roundtrip_msgpack() {
    let data = sample_data();
    assert_eq!(data.manpage_count(), 1);
    let (top, suggestions) = data.find_man_page("tar").expect("lookup");
    assert_eq!(top.name, "tar");
    assert!(suggestions.is_empty());
}

#[test]
fn unknown_program_errors() {
    let data = sample_data();
    let err = data.find_man_page("no-such-cmd").unwrap_err();
    assert!(matches!(err, DataError::ProgramNotFound(_)));
}

#[test]
fn decodes_exported_fixture() {
    let data = fixture();
    assert_eq!(data.manpage_count(), 4);
    let (tar, _) = data.find_man_page("tar").expect("tar lookup");
    assert_eq!(tar.name, "tar");
    assert!(tar.find_option("--verbose").is_some());
    assert!(tar.find_option("-f").is_some());
    // Subcommand mapping: "git commit" resolves to git-commit.
    let (commit, _) = data.find_man_page("git commit").expect("subcommand");
    assert_eq!(commit.name, "git-commit");
    // Nested command flag survives.
    let (sudo, _) = data.find_man_page("sudo").expect("sudo lookup");
    assert_eq!(sudo.nested_cmd, NestedCmd::Bool(true));
}

#[test]
fn explain_command_returns_groups() {
    let data = fixture();
    let result = explain_command("tar -xvf archive.tar", &data).expect("explain failed");
    assert!(!result.groups.is_empty(), "expected at least one group");
}

#[test]
fn explain_command_shell_group_has_reserved_words() {
    let data = fixture();
    let result = explain_command("tar -xvf archive.tar", &data).expect("explain failed");
    let shell = &result.groups[0];
    assert_eq!(shell.name, "shell");
    let command_groups: Vec<_> = result.groups.iter().filter(|g| g.name != "shell").collect();
    assert!(!command_groups.is_empty(), "expected at least one command group");
    assert!(command_groups[0].manpage.is_some(), "expected manpage for tar");
}

#[test]
fn explain_unknown_program_returns_error_group() {
    let data = fixture();
    let result = explain_command("unknownprog123", &data);
    assert!(result.is_err(), "expected error for unknown program");
    match result.unwrap_err() {
        MatchError::UnknownProgram(name) => assert_eq!(name, "unknownprog123"),
        _ => panic!("expected UnknownProgram error"),
    }
}

#[test]
fn explain_git_subcommand_resolves_git_commit_manpage() {
    let data = fixture();
    let result = explain_command("git commit -m \"fix bug\"", &data).expect("explain failed");
    let command_groups: Vec<_> = result.groups.iter().filter(|g| g.name != "shell").collect();
    assert!(!command_groups.is_empty(), "expected command group for git commit");
    let manpage = command_groups[0].manpage.as_ref().expect("expected manpage");
    assert_eq!(manpage.name, "git-commit");
}

#[test]
fn explain_long_options_are_matched() {
    let data = fixture();
    let result =
        explain_command("tar --extract --verbose --file=foo.tar", &data).expect("explain failed");
    let command_groups: Vec<_> = result.groups.iter().filter(|g| g.name != "shell").collect();
    assert!(!command_groups.is_empty(), "expected command group");
    let results = &command_groups[0].results;
    assert!(
        results.iter().any(|m| m.text.as_deref() == Some("extract files")
            || m.match_text.as_deref() == Some("--extract")),
        "expected --extract match"
    );
}

#[test]
fn explain_option_with_absorbed_argument() {
    let data = fixture();
    let result = explain_command("tar -f archive.tar", &data).expect("explain failed");
    let command_groups: Vec<_> = result.groups.iter().filter(|g| g.name != "shell").collect();
    assert!(!command_groups.is_empty(), "expected command group");
    let results = &command_groups[0].results;
    assert!(results.iter().any(|m| m.match_text.as_deref() == Some("-f")), "expected -f match");
}

#[test]
fn explain_redirect_is_shell_result() {
    let data = fixture();
    let result = explain_command("tar -xvf foo.tar > out.txt", &data).expect("explain failed");
    let shell = result.groups.iter().find(|g| g.name == "shell");
    assert!(shell.is_some(), "expected shell group for redirect");
    assert!(
        shell.unwrap().results.iter().any(|r| r.debug_info == Some(DebugInfo::Redirect)),
        "expected redirect result"
    );
}
