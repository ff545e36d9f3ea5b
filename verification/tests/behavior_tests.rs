use explainshell::{
    explain_ast_nodes, explain_command, explain_nodes, parse, parsesingle, AstNode, CliOption,
    DataBundle, DataError, DebugInfo, HasArgument, ManpageData, MatchError, NestedCmd,
    ParseError, ParsedManpage, Positional, RedirectTarget, Span, WordNode, BUNDLE_VERSION,
};

fn opt(text: &str, short: &[&str], long: &[&str], has_argument: bool) -> CliOption {
    CliOption {
        text: text.to_string(),
        short: short.iter().map(|s| s.to_string()).collect(),
        long: long.iter().map(|s| s.to_string()).collect(),
        has_argument: HasArgument::Bool(has_argument),
        positional: None,
        prefix: None,
        nested_cmd: NestedCmd::Bool(false),
        meta: None,
    }
}

fn positional(text: &str, name: &str, prefix: Option<&str>) -> CliOption {
    CliOption {
        positional: Some(Positional::Name(name.to_string())),
        prefix: prefix.map(|p| p.to_string()),
        ..opt(text, &[], &[], false)
    }
}

fn page(source: &str, name: &str, options: Vec<CliOption>) -> ParsedManpage {
    ParsedManpage {
        source: source.to_string(),
        name: name.to_string(),
        synopsis: Some(format!("{name} synopsis")),
        options,
        aliases: Vec::new(),
        dashless_opts: false,
        subcommands: Vec::new(),
        updated: false,
        nested_cmd: NestedCmd::Bool(false),
        extractor: None,
        extraction_meta: None,
    }
}

fn tar_data() -> ManpageData {
    let mut b = DataBundle::new(BUNDLE_VERSION);
    let tar = page(
        "tar.1.gz",
        "tar",
        vec![
            opt("extract files", &["-x"], &["--extract"], false),
            opt("verbose output", &["-v"], &["--verbose"], false),
            opt("use archive file", &["-f"], &["--file"], true),
            positional("files to archive", "file", None),
        ],
    );
    b.mappings.insert("tar".to_string(), vec![("tar.1.gz".to_string(), 1)]);
    b.manpages.insert("tar.1.gz".to_string(), tar);
    ManpageData::from_bundle(b).expect("version")
}

#[test]
fn version_mismatch_is_refused() {
    let err = ManpageData::from_bundle(DataBundle::new(2)).err().expect("refused");
    match err {
        DataError::Decode(m) => assert_eq!(m, "unsupported bundle version 2, expected 1"),
        _ => panic!("expected a decode error"),
    }
}

#[test]
fn candidates_come_out_by_score_stably() {
    let mut b = DataBundle::new(BUNDLE_VERSION);
    for s in ["a.1.gz", "b.1.gz", "c.1.gz"] {
        b.manpages.insert(s.to_string(), page(s, &s[..1], vec![]));
    }
    b.mappings.insert(
        "x".to_string(),
        vec![
            ("a.1.gz".to_string(), 1),
            ("missing.1.gz".to_string(), 9),
            ("b.1.gz".to_string(), 5),
            ("c.1.gz".to_string(), 5),
        ],
    );
    let data = ManpageData::from_bundle(b).unwrap();
    let (top, sugg) = data.find_man_page("x").unwrap();
    assert_eq!(top.name, "b");
    let names: Vec<&str> = sugg.iter().map(|m| m.name.as_str()).collect();
    assert_eq!(names, vec!["c", "a"]);
}

#[test]
fn source_paths_and_dotted_names() {
    let mut b = DataBundle::new(BUNDLE_VERSION);
    b.manpages.insert("systemd.1.gz".to_string(), page("systemd.1.gz", "systemd", vec![]));
    b.mappings.insert("systemd".to_string(), vec![("systemd.1.gz".to_string(), 3)]);
    let data = ManpageData::from_bundle(b).unwrap();
    // A `.gz` name is a source path.
    assert_eq!(data.find_man_page("systemd.1.gz").unwrap().0.name, "systemd");
    assert!(matches!(data.find_man_page("other.1.gz"), Err(DataError::ProgramNotFound(_))));
    // The name cut at its last dot is tried once.
    assert_eq!(data.find_man_page("systemd.exec").unwrap().0.name, "systemd");
    assert!(data.find_man_page(".").is_err());
    assert!(data.find_man_page("nothing").is_err());
}

#[test]
fn positionals_merge_in_document_order() {
    let mp = page(
        "dig.1.gz",
        "dig",
        vec![
            positional("the name", "name", None),
            positional("server to ask", "server", Some("@")),
            positional("more on names", "name", None),
            positional("the type", "type", None),
        ],
    );
    let p = mp.positionals();
    assert_eq!(
        p,
        vec![
            ("name".to_string(), "the name\n\nmore on names".to_string()),
            ("type".to_string(), "the type".to_string())
        ]
    );
    let q = mp.prefixed_positionals();
    assert_eq!(q, vec![("server".to_string(), ("@".to_string(), "server to ask".to_string()))]);
}

#[test]
fn options_are_found_by_any_name() {
    let o = opt("verbose", &["-v"], &["--verbose", "--loud"], false);
    assert_eq!(o.opts(), vec!["-v", "--verbose", "--loud"]);
    assert!(o.matches_flag("--loud"));
    assert!(!o.matches_flag("-x"));
    let mp = page("t.1.gz", "t", vec![opt("first", &["-a"], &[], false), opt("second", &["-a"], &[], true)]);
    assert_eq!(mp.find_option("-a").unwrap().text, "first");
    assert!(mp.find_option("-b").is_none());
}

#[test]
fn short_cluster_is_split_per_letter() {
    let data = tar_data();
    let res = explain_command("tar -xvf archive.tar", &data).unwrap();
    assert_eq!(res.groups.len(), 2);
    assert_eq!(res.groups[0].name, "shell");
    let g = &res.groups[1];
    assert_eq!(g.name, "command0");
    let spans: Vec<(usize, usize)> = g.results.iter().map(|r| (r.start, r.end)).collect();
    assert_eq!(spans, vec![(0, 3), (4, 5), (5, 6), (6, 7), (9, 20)]);
    assert_eq!(g.results[0].text.as_deref(), Some("tar synopsis"));
    assert_eq!(g.results[0].debug_info, Some(DebugInfo::Synopsis));
    assert_eq!(g.results[1].text.as_deref(), Some("extract files"));
    assert_eq!(g.results[1].match_text.as_deref(), Some("x"));
    assert_eq!(g.results[3].text.as_deref(), Some("use archive file"));
    assert_eq!(g.results[4].text.as_deref(), Some("files to archive"));
    assert_eq!(
        g.results[4].debug_info,
        Some(DebugInfo::Argument { positional: "file".to_string(), prefix: None })
    );
    assert_eq!(g.positional_index, 1);
}

#[test]
fn option_argument_is_absorbed() {
    let data = tar_data();
    let res = explain_command("tar -f archive.tar", &data).unwrap();
    let g = &res.groups[1];
    assert_eq!(g.results.len(), 2);
    assert_eq!((g.results[1].start, g.results[1].end), (4, 18));
    assert_eq!(g.results[1].match_text.as_deref(), Some("-f"));
}

#[test]
fn long_option_with_value() {
    let data = tar_data();
    let res = explain_command("tar --file=x.tar", &data).unwrap();
    let g = &res.groups[1];
    assert_eq!(g.results[1].text.as_deref(), Some("use archive file"));
    assert_eq!(g.results[1].match_text.as_deref(), Some("--file=x.tar"));
}

#[test]
fn list_operators_are_shell_results() {
    let data = tar_data();
    let res = explain_command("tar; tar", &data).unwrap();
    let names: Vec<&str> = res.groups.iter().map(|g| g.name.as_str()).collect();
    assert_eq!(names, vec!["shell", "command0", "command1"]);
    let shell = &res.groups[0];
    assert_eq!(shell.results.len(), 1);
    assert_eq!(
        shell.results[0].text.as_deref(),
        Some("Commands separated by ; are executed sequentially.")
    );
    assert_eq!(shell.results[0].debug_info, Some(DebugInfo::Operator));
}

#[test]
fn expansions_are_recorded() {
    let data = tar_data();
    let res = explain_command("tar ~/x $HOME", &data).unwrap();
    let kinds: Vec<&str> = res.expansions.iter().map(|e| e.kind.as_str()).collect();
    assert_eq!(kinds, Vec::<&str>::new());
    // Expansions inside redirect targets are walked.
    let res = explain_command("tar >$HOME", &data).unwrap();
    let kinds: Vec<&str> = res.expansions.iter().map(|e| e.kind.as_str()).collect();
    assert_eq!(kinds, vec!["parameter-param"]);
    assert_eq!((res.expansions[0].start, res.expansions[0].end), (5, 10));
}

#[test]
fn digit_parameters_are_marked() {
    let data = tar_data();
    let ast = vec![AstNode::Parameter { span: Span { start: 0, end: 2 }, value: "12".to_string() }];
    let res = explain_nodes("12", &ast, &data).unwrap();
    assert_eq!(res.expansions[0].kind, "parameter-digits");
}

#[test]
fn empty_and_unknown_inputs_fail() {
    let data = tar_data();
    assert!(matches!(explain_command("", &data), Err(MatchError::EmptyInput)));
    assert!(matches!(explain_command("echo $(", &data), Err(MatchError::EmptyInput)));
    match explain_command("nope arg", &data) {
        Err(MatchError::UnknownProgram(p)) => assert_eq!(p, "nope"),
        _ => panic!("expected an unknown program"),
    }
    assert!(matches!(explain_nodes("", &Vec::new(), &data), Err(MatchError::EmptyInput)));
}

#[test]
fn pre_parsed_ast_is_explained_per_command() {
    let data = tar_data();
    let ast = parse("tar -x | tar -v", true, Some(1)).unwrap();
    let res = explain_ast_nodes(&ast, &data).unwrap();
    let names: Vec<&str> = res.groups.iter().map(|g| g.name.as_str()).collect();
    assert_eq!(names, vec!["shell", "command0", "shell", "command0"]);
}

#[test]
fn redirect_targets_are_optional_commands_are_not() {
    let data = tar_data();
    // An unknown redirect target is left out; the command still explains.
    let ast = parse("tar -x > nosuch", true, Some(1)).unwrap();
    let res = explain_ast_nodes(&ast, &data).unwrap();
    let names: Vec<&str> = res.groups.iter().map(|g| g.name.as_str()).collect();
    assert_eq!(names, vec!["shell", "command0"]);
    // A redirect node whose target names a known program is explained too;
    // one whose target is unknown gives nothing.
    let redirect = |target: &str| AstNode::Redirect {
        span: Span { start: 0, end: 2 + target.len() },
        input: None,
        op: ">".to_string(),
        output: RedirectTarget::Word(WordNode {
            span: Span { start: 2, end: 2 + target.len() },
            text: target.to_string(),
            parts: Vec::new(),
            quoted: false,
        }),
        heredoc: None,
    };
    let res = explain_ast_nodes(&vec![redirect("tar"), redirect("nosuch")], &data).unwrap();
    let names: Vec<&str> = res.groups.iter().map(|g| g.name.as_str()).collect();
    assert_eq!(names, vec!["shell", "command0"]);
    assert_eq!(res.groups[1].manpage.as_ref().map(|m| m.name.as_str()), Some("tar"));
    // A command whose first word is unknown fails the call.
    let ast = parse("tar -x; nosuch -y", true, Some(1)).unwrap();
    match explain_ast_nodes(&ast, &data) {
        Err(MatchError::UnknownProgram(name)) => assert_eq!(name, "nosuch"),
        other => panic!("unexpected {other:?}"),
    }
    // No node: nothing to explain.
    let res = explain_ast_nodes(&Vec::new(), &data).unwrap();
    assert!(res.groups.is_empty() && res.expansions.is_empty());
}

#[test]
fn parse_error_describes_the_token() {
    match parsesingle(")", true, None) {
        Err(ParseError::Unexpected { found, offset }) => {
            assert_eq!(found, "operator \")\"");
            assert_eq!(offset, 0);
        }
        other => panic!("unexpected {other:?}"),
    }
    let e = parsesingle("echo \"abc", true, None).unwrap_err();
    assert_eq!(e.offset(), Some(5));
    assert!(matches!(e, ParseError::Lex(_)));
    assert_eq!(parsesingle("", true, None).unwrap_err().offset(), None);
}

#[test]
fn spans_lie_in_the_input() {
    let input = "for f in *.txt; do cat \"$f\" | grep -n é > out.$f; done";
    let nodes = parse(input, true, None).unwrap();
    fn check(n: &AstNode, len: usize) {
        let s = n.span();
        assert!(s.start <= s.end && s.end <= len);
        for c in n.children() {
            check(c, len);
        }
    }
    for n in &nodes {
        check(n, input.len());
        assert!(n.subtree_end() <= input.len());
    }
}

#[test]
fn multibyte_substitution_text() {
    let node = parsesingle("echo $(é)", true, None).unwrap();
    match &node {
        AstNode::Command { parts, .. } => match &parts[1] {
            AstNode::Word(WordNode { parts, .. }) => {
                assert_eq!(parts[0].kind(), "commandsubstitution");
            }
            _ => panic!("expected word"),
        },
        _ => panic!("expected command"),
    }
}

#[test]
fn quote_removal_keeps_the_source_text() {
    let node = parsesingle("echo 'a b'c\\\" \"x\\$y\" a$ \"q\\z\"", true, None).unwrap();
    let texts: Vec<String> = match &node {
        AstNode::Command { parts, .. } => parts
            .iter()
            .map(|p| match p {
                AstNode::Word(w) => w.text.clone(),
                _ => panic!("expected word"),
            })
            .collect(),
        _ => panic!("expected command"),
    };
    assert_eq!(texts, vec!["echo", "a bc\"", "x$y", "a$", "q\\z"]);
}

#[test]
fn command_groups_are_numbered_in_order() {
    let data = tar_data();
    let res = explain_command("tar -x | tar -v && tar -f a; tar", &data).unwrap();
    let names: Vec<&str> = res.groups.iter().map(|g| g.name.as_str()).collect();
    assert_eq!(names, vec!["shell", "command0", "command1", "command2", "command3"]);
}

#[test]
fn one_group_per_command_with_a_word() {
    let data = tar_data();
    let res = explain_command("A=1 tar -x; B=2", &data).unwrap();
    let names: Vec<&str> = res.groups.iter().map(|g| g.name.as_str()).collect();
    assert_eq!(names, vec!["shell", "command0"]);
    let res = explain_command("if tar -x; then tar -v; fi", &data).unwrap();
    assert_eq!(res.groups.len(), 3);
}

#[test]
fn top_level_nodes_come_in_source_order() {
    let nodes = parse("echo a $(b)\nls -l > out\ncat <<E\nx\nE\necho z", true, None).unwrap();
    assert_eq!(nodes.len(), 4);
    for pair in nodes.windows(2) {
        assert!(pair[0].subtree_end() <= pair[1].span().start);
    }
    match &nodes[1] {
        AstNode::Command { parts, .. } => {
            for pair in parts.windows(2) {
                assert!(pair[0].span().start < pair[1].span().start);
            }
        }
        _ => panic!("expected command"),
    }
}

#[test]
fn only_blank_input_parses_to_nothing() {
    assert!(parse("  \n# just a comment\n\n", true, None).unwrap().is_empty());
    assert!(parse("", true, None).unwrap().is_empty());
    assert_eq!(parse("\n\n  true # done\n", true, None).unwrap().len(), 1);
    assert_eq!(parse("a; b\nc", true, None).unwrap().len(), 2);
}

#[test]
fn empty_input_means_blank_or_an_empty_substitution() {
    assert!(matches!(parsesingle(" \n # only a comment", true, None), Err(ParseError::EmptyInput)));
    assert!(matches!(parsesingle("echo $( )", true, None), Err(ParseError::EmptyInput)));
    assert!(matches!(parse("echo `\n`", true, None), Err(ParseError::EmptyInput)));
    assert!(parsesingle("echo hi", true, None).is_ok());
}

#[test]
fn quoted_blanks_stay_inside_the_word() {
    let node = parsesingle("echo 'a b'c \"d e\"f g", true, None).unwrap();
    let spans: Vec<(usize, usize, String)> = match &node {
        AstNode::Command { parts, .. } => parts
            .iter()
            .map(|p| match p {
                AstNode::Word(w) => (w.span.start, w.span.end, w.text.clone()),
                _ => panic!("expected word"),
            })
            .collect(),
        _ => panic!("expected command"),
    };
    assert_eq!(
        spans,
        vec![
            (0, 4, "echo".to_string()),
            (5, 11, "a bc".to_string()),
            (12, 18, "d ef".to_string()),
            (19, 20, "g".to_string()),
        ]
    );
}

#[test]
fn quoted_means_a_quote_or_escape_was_read() {
    let node = parsesingle("echo a\\b 'c' d\"\" e", true, None).unwrap();
    let flags: Vec<bool> = match &node {
        AstNode::Command { parts, .. } => parts
            .iter()
            .map(|p| match p {
                AstNode::Word(w) => w.quoted,
                _ => panic!("expected word"),
            })
            .collect(),
        _ => panic!("expected command"),
    };
    assert_eq!(flags, vec![false, true, true, true, false]);
}

#[test]
fn heredoc_bodies_inside_substitutions_are_skipped() {
    let mut lexer = explainshell::Lexer::new("echo $(cat <<E\n)\nE\n) z");
    assert!(matches!(lexer.next_token(), Ok(explainshell::Token::Word(_))));
    match lexer.next_token() {
        Ok(explainshell::Token::Word(w)) => assert_eq!((w.span.start, w.span.end), (5, 20)),
        _ => panic!("expected a word"),
    }
    let mut lexer = explainshell::Lexer::new("$(cat <<-E\n)\n\tE\n)");
    match lexer.next_token() {
        Ok(explainshell::Token::Word(w)) => assert_eq!(w.span.end, 17),
        _ => panic!("expected a word"),
    }
    let mut lexer = explainshell::Lexer::new("$(cat <<<x) y");
    match lexer.next_token() {
        Ok(explainshell::Token::Word(w)) => assert_eq!(w.span.end, 11),
        _ => panic!("expected a word"),
    }
}

#[test]
fn assignments_need_an_unquoted_name() {
    let node = parsesingle("FOO=1 B_2=x 'Q'=3 echo Z=4", true, None).unwrap();
    let kinds: Vec<&str> = match &node {
        AstNode::Command { parts, .. } => parts
            .iter()
            .map(|p| match p {
                AstNode::Assignment(_) => "assignment",
                AstNode::Word(_) => "word",
                _ => "other",
            })
            .collect(),
        _ => panic!("expected command"),
    };
    assert_eq!(kinds, vec!["assignment", "assignment", "word", "word", "word"]);
}

#[test]
fn trailing_redirects_stop_at_the_first_other_token() {
    let node = parsesingle("{ a; } 2>x >y", true, None).unwrap();
    match &node {
        AstNode::Compound { redirects, .. } => assert_eq!(redirects.len(), 2),
        _ => panic!("expected compound, got {}", node.kind()),
    }
}

#[test]
fn unknown_tokens_carry_no_text() {
    let mut b = DataBundle::new(BUNDLE_VERSION);
    b.mappings.insert("ls".to_string(), vec![("ls.1.gz".to_string(), 1)]);
    b.manpages.insert(
        "ls.1.gz".to_string(),
        page("ls.1.gz", "ls", vec![opt("long listing", &["-l"], &[], false)]),
    );
    let data = ManpageData::from_bundle(b).expect("version");
    let res = explain_command("ls foo", &data).unwrap();
    let r = res.groups[1]
        .results
        .iter()
        .find(|r| r.start == 3)
        .expect("a result for foo");
    assert!(r.is_unknown());
    assert_eq!(r.end, 6);
    assert!(r.text.is_none());
}

#[test]
fn was_quoted_means_a_quote_or_a_longer_span() {
    let plain = WordNode {
        span: Span { start: 0, end: 0 },
        text: "x".to_string(),
        parts: Vec::new(),
        quoted: false,
    };
    assert!(!plain.was_quoted());
    let longer = WordNode {
        span: Span { start: 0, end: 3 },
        text: "x".to_string(),
        parts: Vec::new(),
        quoted: false,
    };
    assert!(longer.was_quoted());
}

#[test]
fn nested_substitution_inside_a_parameter() {
    let mut lexer = explainshell::Lexer::new("echo ${x:-$(pwd)}");
    assert!(matches!(lexer.next_token(), Ok(explainshell::Token::Word(_))));
    match lexer.next_token() {
        Ok(explainshell::Token::Word(w)) => {
            assert_eq!((w.span.start, w.span.end), (5, 17));
            assert_eq!(w.cooked, "${x:-$(pwd)}");
        }
        _ => panic!("expected a word"),
    }
}

#[test]
fn unterminated_constructs_fail_at_their_start() {
    for s in ["echo \"abc", "echo 'abc", "echo $(foo", "echo `foo"] {
        let mut lexer = explainshell::Lexer::new(s);
        assert!(matches!(lexer.next_token(), Ok(explainshell::Token::Word(_))));
        match lexer.next_token() {
            Err(e) => assert_eq!(e.offset, 5),
            _ => panic!("expected an error for {s}"),
        }
    }
}

#[test]
fn only_command_groups_carry_a_manpage() {
    let data = tar_data();
    let res = explain_command("tar -x && tar -v", &data).unwrap();
    assert!(res.groups[0].manpage.is_none());
    assert!(res.groups[1..].iter().all(|g| g.manpage.is_some()));
    assert_eq!(res.groups.len(), 3);
}

#[test]
fn shifting_moves_children_and_the_subtree_end() {
    let node = parsesingle("echo $(ls) > out", true, None).unwrap();
    let moved = node.shifted(10);
    assert_eq!(moved.subtree_end(), node.subtree_end() + 10);
    let (a, b) = (node.children(), moved.children());
    assert_eq!(a.len(), b.len());
    for (x, y) in a.iter().zip(b.iter()) {
        assert_eq!(y.span().start, x.span().start + 10);
        assert!(x.subtree_end() <= node.subtree_end());
    }
}

#[test]
fn unterminated_single_quote_is_named() {
    let mut lexer = explainshell::Lexer::new("echo 'abc");
    assert!(matches!(lexer.next_token(), Ok(explainshell::Token::Word(_))));
    match lexer.next_token() {
        Err(e) => {
            assert_eq!(e.message, "unterminated single quote");
            assert_eq!(e.offset, 5);
        }
        _ => panic!("expected an error"),
    }
}

#[test]
fn dollar_constructs_record_their_expansions() {
    let mut lexer = explainshell::Lexer::new("echo $HOME ${x:-d} $1 $(foo bar)");
    let mut words = Vec::new();
    loop {
        match lexer.next_token().unwrap() {
            explainshell::Token::Word(w) => words.push(w),
            explainshell::Token::Eof => break,
            _ => {}
        }
    }
    assert_eq!(words.len(), 5);
    assert!(matches!(
        words[1].expansions.as_slice(),
        [explainshell::RawExpansion::Param { span: Span { start: 5, end: 10 } }]
    ));
    assert!(matches!(
        words[2].expansions.as_slice(),
        [explainshell::RawExpansion::Param { span: Span { start: 11, end: 18 } }]
    ));
    assert_eq!(words[3].cooked, "$1");
    assert!(matches!(
        words[4].expansions.as_slice(),
        [explainshell::RawExpansion::CmdSubst {
            span: Span { start: 22, end: 32 },
            inner: Span { start: 24, end: 31 }
        }]
    ));
    assert_eq!(words[4].cooked, "$(foo bar)");
}

#[test]
fn errors_read_as_sentences() {
    let e = ParseError::Unexpected { found: "operator \")\"".to_string(), offset: 0 };
    assert_eq!(e.message(), "unexpected operator \")\" at offset 0");
    assert_eq!(ParseError::EmptyInput.message(), "no command to parse");
    let lex = explainshell::LexError { message: "unterminated quote".to_string(), offset: 12 };
    assert_eq!(ParseError::Lex(lex).message(), "lex error: unterminated quote at offset 12");
    assert_eq!(MatchError::UnknownProgram("nope".to_string()).message(), "unknown program: nope");
    assert_eq!(
        MatchError::Data(DataError::ProgramNotFound("x".to_string())).message(),
        "data error: no manpage found for program: x"
    );
}

#[test]
fn zero_expansion_limit_keeps_only_parameters_and_tildes() {
    let node = parsesingle("echo $(ls) $HOME ~/x", true, Some(0)).unwrap();
    let parts = match node {
        AstNode::Command { parts, .. } => parts,
        _ => panic!("expected a command"),
    };
    let words: Vec<&WordNode> = parts
        .iter()
        .filter_map(|p| match p {
            AstNode::Word(w) => Some(w),
            _ => None,
        })
        .collect();
    assert_eq!(words.len(), 4);
    assert!(words[1].parts.is_empty());
    assert_eq!(words[2].parts.len(), 1);
    assert_eq!(words[2].parts[0].kind(), "parameter");
    assert_eq!(words[3].parts.len(), 1);
    assert_eq!(words[3].parts[0].kind(), "tilde");
}

#[test]
fn word_redirect_keeps_operator_and_target() {
    let node = parsesingle("cat >> log.txt", true, None).unwrap();
    let parts = match node {
        AstNode::Command { parts, .. } => parts,
        _ => panic!("expected a command"),
    };
    match &parts[1] {
        AstNode::Redirect { span, input, op, output, heredoc } => {
            assert_eq!(*span, Span { start: 4, end: 14 });
            assert!(input.is_none());
            assert_eq!(op, ">>");
            assert!(heredoc.is_none());
            match output {
                RedirectTarget::Word(w) => {
                    assert_eq!(w.text, "log.txt");
                    assert_eq!(w.span, Span { start: 7, end: 14 });
                }
                _ => panic!("expected a word target"),
            }
        }
        _ => panic!("expected a redirect"),
    }
}

#[test]
fn lone_word_parses_to_one_command() {
    let node = parsesingle("  ls  # list\n", true, None).unwrap();
    match node {
        AstNode::Command { span, parts } => {
            assert_eq!(span, Span { start: 2, end: 4 });
            assert_eq!(parts.len(), 1);
            assert_eq!(parts[0].kind(), "word");
        }
        _ => panic!("expected a command"),
    }
}
