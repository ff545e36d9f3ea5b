use explainshell::{
    find_first_kind, parse, parsesingle, AstNode, KeywordKind, LexError, Lexer, RawExpansion,
    RawWord, RedirectSource, RedirectTarget, Span, Token, WordNode,
};

fn word(text: &str, start: usize, end: usize) -> AstNode {
    AstNode::Word(WordNode {
        span: Span { start, end },
        text: text.to_string(),
        parts: Vec::new(),
        quoted: false,
    })
}

#[test]
fn kinds_match_bashlex() {
    assert_eq!(word("x", 0, 1).kind(), "word");
    assert_eq!(
        AstNode::Operator { span: Span { start: 0, end: 2 }, op: "&&".to_string() }.kind(),
        "operator"
    );
    assert_eq!(
        AstNode::Keyword { kind: KeywordKind::For, span: Span { start: 0, end: 3 }, parts: Vec::new() }
            .kind(),
        "for"
    );
}

#[test]
fn find_first_kind_behaves_like_bashlex() {
    let parts = vec![
        word("echo", 0, 4),
        AstNode::ReservedWord { span: Span { start: 5, end: 7 }, word: "do".to_string() },
        word("x", 8, 9),
    ];
    assert_eq!(find_first_kind(&parts, "word"), 0);
    assert_eq!(find_first_kind(&parts, "reservedword"), 1);
    assert_eq!(find_first_kind(&parts, "pipe"), -1);
}

#[test]
fn shift_moves_whole_subtree() {
    let cmd = AstNode::Command {
        span: Span { start: 0, end: 8 },
        parts: vec![word("echo", 0, 4), word("hi", 5, 7)],
    };
    let moved = cmd.shifted(10);
    assert_eq!(moved.span(), Span { start: 10, end: 18 });
    assert_eq!(moved.subtree_end(), 18);
    // Zero shift clones without touching anything.
    assert_eq!(cmd.shifted(0), cmd);
}

#[test]
fn quote_detection_matches_matcher_idiom() {
    let quoted = WordNode {
        span: Span { start: 0, end: 7 },
        text: "x".to_string(),
        parts: Vec::new(),
        quoted: true,
    };
    assert!(quoted.was_quoted());
    let plain = WordNode {
        span: Span { start: 0, end: 1 },
        text: "x".to_string(),
        parts: Vec::new(),
        quoted: false,
    };
    assert!(!plain.was_quoted());
}

#[test]
fn subtree_end_counts_heredoc_body() {
    let redir = AstNode::Redirect {
        span: Span { start: 0, end: 10 },
        input: None,
        op: "<<".to_string(),
        output: RedirectTarget::Word(WordNode {
            span: Span { start: 3, end: 6 },
            text: "EOF".to_string(),
            parts: Vec::new(),
            quoted: false,
        }),
        heredoc: Some(Box::new(AstNode::Heredoc {
            span: Span { start: 11, end: 20 },
            value: "body\n".to_string(),
        })),
    };
    assert_eq!(redir.subtree_end(), 20);
}

fn scan_all(input: &str) -> Result<Vec<Token>, LexError> {
    let mut lexer = Lexer::new(input);
    let mut tokens = Vec::new();
    loop {
        let tok = lexer.next_token()?;
        let done = matches!(tok, Token::Eof);
        tokens.push(tok);
        if done {
            break;
        }
    }
    Ok(tokens)
}

fn word_texts(tokens: &[Token]) -> Vec<&str> {
    tokens
        .iter()
        .filter_map(|t| match t {
            Token::Word(w) => Some(w.cooked.as_str()),
            _ => None,
        })
        .collect()
}

fn raw_words(tokens: &[Token]) -> Vec<&RawWord> {
    tokens
        .iter()
        .filter_map(|t| match t {
            Token::Word(w) => Some(w),
            _ => None,
        })
        .collect()
}

fn op_texts(tokens: &[Token]) -> Vec<&str> {
    tokens
        .iter()
        .filter_map(|t| match t {
            Token::Op(k, _) => Some(k.text()),
            _ => None,
        })
        .collect()
}

#[test]
fn simple_words_and_operators() {
    let tokens = scan_all("echo foo && bar").unwrap();
    assert_eq!(word_texts(&tokens), vec!["echo", "foo", "bar"]);
    assert_eq!(op_texts(&tokens), vec!["&&"]);
}

#[test]
fn quotes_are_removed_but_spans_cover_raw() {
    let tokens = scan_all("echo \"a b\" 'c d'").unwrap();
    let words = raw_words(&tokens);
    assert_eq!(words.len(), 3);
    assert_eq!(words[1].cooked, "a b");
    assert!(words[1].quoted);
    // Raw span covers the quotes: `"a b"` is 5 bytes at 5..10.
    assert_eq!(words[1].span.len(), 5);
    assert_eq!(words[2].cooked, "c d");
}

#[test]
fn escapes_and_continuations() {
    let tokens = scan_all("echo a\\ b c\\\nd").unwrap();
    assert_eq!(word_texts(&tokens), vec!["echo", "a b", "cd"]);
}

#[test]
fn command_substitution_span_and_inner() {
    let tokens = scan_all("echo $(foo bar)").unwrap();
    let words = raw_words(&tokens);
    assert_eq!(words.len(), 2);
    assert_eq!(words[1].cooked, "$(foo bar)");
    assert_eq!(words[1].expansions.len(), 1);
    match &words[1].expansions[0] {
        RawExpansion::CmdSubst { span, inner } => {
            assert_eq!(&"echo $(foo bar)".as_bytes()[span.start..span.end], b"$(foo bar)");
            assert_eq!(&"echo $(foo bar)".as_bytes()[inner.start..inner.end], b"foo bar");
        }
        other => panic!("expected cmdsubst, got {other:?}"),
    }
}

#[test]
fn nested_substitutions_balance() {
    let tokens = scan_all("echo $(foo $(bar) baz)").unwrap();
    let words = raw_words(&tokens);
    assert_eq!(words[1].cooked, "$(foo $(bar) baz)");
}

#[test]
fn paren_inside_quotes_does_not_close() {
    let tokens = scan_all("echo $(foo \")\" bar)").unwrap();
    let words = raw_words(&tokens);
    assert_eq!(words[1].cooked, "$(foo \")\" bar)");
}

#[test]
fn parameters_and_tilde() {
    let tokens = scan_all("echo $HOME ${x:-d} ~/bin ~root/a $1 $@").unwrap();
    let words = raw_words(&tokens);
    // echo, $HOME, ${x:-d}, ~/bin, ~root/a, $1, $@
    assert_eq!(words.len(), 7);
    assert!(matches!(words[1].expansions[..], [RawExpansion::Param { .. }]));
    assert!(matches!(words[3].expansions[..], [RawExpansion::Tilde { .. }]));
    assert_eq!(words[5].cooked, "$1");
}

#[test]
fn process_substitution() {
    let tokens = scan_all("cat <(foo) >(bar)").unwrap();
    let words = raw_words(&tokens);
    assert_eq!(words.len(), 3);
    assert!(matches!(words[1].expansions[..], [RawExpansion::ProcSubst { .. }]));
}

#[test]
fn longest_match_operators() {
    let tokens = scan_all("a &>>b ;; c ;;& d ;& e").unwrap();
    assert_eq!(op_texts(&tokens), vec!["&>>", ";;", ";;&", ";&"]);
}

#[test]
fn comments_and_newlines() {
    let tokens = scan_all("echo hi # comment\nfoo").unwrap();
    assert_eq!(word_texts(&tokens), vec!["echo", "hi", "foo"]);
    assert!(tokens.iter().any(|t| matches!(t, Token::Newline(_))));
}

#[test]
fn heredoc_body_does_not_unbalance() {
    // The `)` inside the heredoc body must not close the substitution.
    let tokens = scan_all("echo $(cat <<EOF\nfoo)bar\nEOF\n)").unwrap();
    let words = raw_words(&tokens);
    assert_eq!(words.len(), 2);
    assert!(words[1].cooked.starts_with("$(cat"));
}

#[test]
fn unterminated_constructs_error() {
    assert!(scan_all("echo \"abc").is_err());
    assert!(scan_all("echo 'abc").is_err());
    assert!(scan_all("echo $(foo").is_err());
    assert!(scan_all("echo `foo").is_err());
}

fn single(input: &str) -> AstNode {
    parsesingle(input, true, None).expect("parse failed")
}

fn words_of(node: &AstNode) -> Vec<&WordNode> {
    match node {
        AstNode::Command { parts, .. } => parts
            .iter()
            .filter_map(|p| match p {
                AstNode::Word(w) | AstNode::Assignment(w) => Some(w),
                _ => None,
            })
            .collect(),
        _ => panic!("expected command, got {}", node.kind()),
    }
}

#[test]
fn simple_command_spans() {
    let node = single("tar -xvf archive.tar");
    let words = words_of(&node);
    assert_eq!(words.len(), 3);
    assert_eq!(words[0].text, "tar");
    assert_eq!(words[0].span, Span { start: 0, end: 3 });
    assert_eq!(words[1].text, "-xvf");
    assert_eq!(words[2].text, "archive.tar");
    assert_eq!(node.span(), Span { start: 0, end: 20 });
}

#[test]
fn quoted_word_keeps_raw_span() {
    let node = single("echo \"a b\"");
    let words = words_of(&node);
    assert_eq!(words[1].text, "a b");
    assert_eq!(words[1].span.len(), 5);
    assert!(words[1].was_quoted());
}

#[test]
fn assignments_only_at_command_start() {
    let node = single("A=1 B=2 cmd");
    match &node {
        AstNode::Command { parts, .. } => {
            assert_eq!(parts.len(), 3);
            assert_eq!(parts[0].kind(), "assignment");
            assert_eq!(parts[1].kind(), "assignment");
            assert_eq!(parts[2].kind(), "word");
        }
        _ => panic!("expected command"),
    }
    // After the program name, `A=1` is a plain argument.
    let node = single("echo A=1");
    match &node {
        AstNode::Command { parts, .. } => {
            assert_eq!(parts[1].kind(), "word");
        }
        _ => panic!("expected command"),
    }
    // Quoted names are not assignments.
    let node = single("'A=1' cmd");
    match &node {
        AstNode::Command { parts, .. } => {
            assert_eq!(parts[0].kind(), "word");
        }
        _ => panic!("expected command"),
    }
}

#[test]
fn pipelines_and_negation() {
    let node = single("a | b | c");
    match &node {
        AstNode::Pipeline { parts, .. } => {
            assert_eq!(parts.len(), 5);
            assert_eq!(parts[1].kind(), "pipe");
        }
        _ => panic!("expected pipeline, got {}", node.kind()),
    }
    let node = single("! a");
    match &node {
        AstNode::Pipeline { parts, .. } => {
            assert_eq!(parts[0].kind(), "reservedword");
        }
        _ => panic!("expected pipeline"),
    }
    let node = single("a |& b");
    match &node {
        AstNode::Pipeline { parts, .. } => {
            assert!(matches!(parts[1], AstNode::Pipe { .. }));
        }
        _ => panic!("expected pipeline"),
    }
}

#[test]
fn lists_and_trailing_separators() {
    let node = single("a; b");
    match &node {
        AstNode::List { parts, .. } => {
            assert_eq!(parts.len(), 3);
            assert_eq!(parts[1].kind(), "operator");
        }
        _ => panic!("expected list"),
    }
    let node = single("a && b || c");
    match &node {
        AstNode::List { parts, .. } => assert_eq!(parts.len(), 5),
        _ => panic!("expected list"),
    }
    // Trailing separators stay in the list.
    let node = single("a;");
    match &node {
        AstNode::List { parts, .. } => assert_eq!(parts.len(), 2),
        _ => panic!("expected list"),
    }
    // `&&` demands a right-hand side.
    assert!(parsesingle("a &&", true, None).is_err());
}

#[test]
fn parsesingle_stops_at_newline() {
    let node = single("a\nb");
    match &node {
        AstNode::Command { parts, .. } => {
            assert_eq!(parts.len(), 1);
        }
        _ => panic!("expected single command, got {}", node.kind()),
    }
    let parts = parse("a\nb", true, None).unwrap();
    assert_eq!(parts.len(), 2);
}

#[test]
fn redirects() {
    let node = single("echo hi >out.txt");
    match &node {
        AstNode::Command { parts, .. } => {
            assert_eq!(parts.len(), 3);
            match &parts[2] {
                AstNode::Redirect { op, output, .. } => {
                    assert_eq!(op, ">");
                    assert!(matches!(output, RedirectTarget::Word(_)));
                }
                _ => panic!("expected redirect"),
            }
        }
        _ => panic!("expected command"),
    }
    // fd duplication: both sides numeric.
    let node = single("cmd 2>&1");
    match &node {
        AstNode::Command { parts, .. } => match &parts[1] {
            AstNode::Redirect { input, op, output, .. } => {
                assert_eq!(op, ">&");
                assert_eq!(*input, Some(RedirectSource::Fd(2)));
                assert_eq!(*output, RedirectTarget::Fd(1));
            }
            _ => panic!("expected redirect"),
        },
        _ => panic!("expected command"),
    }
    // Closing dash.
    let node = single("cmd >&-");
    match &node {
        AstNode::Command { parts, .. } => match &parts[1] {
            AstNode::Redirect { output, .. } => {
                assert_eq!(*output, RedirectTarget::Dash);
            }
            _ => panic!("expected redirect"),
        },
        _ => panic!("expected command"),
    }
}

#[test]
fn heredoc_gathering() {
    let node = single("cat <<EOF\nhello\nEOF\n");
    match &node {
        AstNode::Command { parts, .. } => match &parts[1] {
            AstNode::Redirect { op, heredoc, .. } => {
                assert_eq!(op, "<<");
                let h = heredoc.as_ref().expect("heredoc body");
                match h.as_ref() {
                    AstNode::Heredoc { value, .. } => assert_eq!(value, "hello\n"),
                    _ => panic!("expected heredoc"),
                }
            }
            _ => panic!("expected redirect"),
        },
        _ => panic!("expected command"),
    }
    // The body does not leak into later commands.
    let parts = parse("cat <<EOF\nhello\nEOF\necho done", true, None).unwrap();
    assert_eq!(parts.len(), 2);
    assert_eq!(parts[1].kind(), "command");
}

#[test]
fn heredoc_missing_non_strict() {
    let node = parsesingle("cat <<EOF", false, None).expect("non-strict parses");
    match &node {
        AstNode::Command { parts, .. } => match &parts[1] {
            AstNode::Redirect { heredoc, .. } => assert!(heredoc.is_none()),
            _ => panic!("expected redirect"),
        },
        _ => panic!("expected command"),
    }
    assert!(parsesingle("cat <<EOF", true, None).is_err());
}

#[test]
fn if_command_shape() {
    let node = single("if a; then b; else c; fi");
    match &node {
        AstNode::Keyword { kind, parts, .. } => {
            assert_eq!(*kind, KeywordKind::If);
            let kinds: Vec<&str> = parts.iter().map(|p| p.kind()).collect();
            assert_eq!(
                kinds,
                vec![
                    "reservedword",
                    "command",
                    "reservedword",
                    "command",
                    "reservedword",
                    "command",
                    "reservedword"
                ]
            );
        }
        _ => panic!("expected if, got {}", node.kind()),
    }
}

#[test]
fn for_command_shape() {
    let node = single("for x in a b; do echo; done");
    match &node {
        AstNode::Keyword { kind, parts, .. } => {
            assert_eq!(*kind, KeywordKind::For);
            // for-rw, x, in-rw, a, b, ;-reservedword, do-rw, body, done-rw
            assert_eq!(parts[0].kind(), "reservedword");
            assert_eq!(parts[2].kind(), "reservedword");
            assert_eq!(parts[5].kind(), "reservedword");
        }
        _ => panic!("expected for, got {}", node.kind()),
    }
}

#[test]
fn while_until_case_function() {
    let node = single("while a; do b; done");
    assert_eq!(node.kind(), "while");
    let node = single("until a; do b; done");
    assert_eq!(node.kind(), "until");
    let node = single("case x in a) b;; c) d;; esac");
    assert_eq!(node.kind(), "case");
    let node = single("f() { echo hi; }");
    match &node {
        AstNode::Function { name, body, .. } => {
            assert_eq!(name.text, "f");
            assert_eq!(body.kind(), "compound");
        }
        _ => panic!("expected function, got {}", node.kind()),
    }
    let node = single("(a; b)");
    assert_eq!(node.kind(), "compound");
    let node = single("{ a; b; }");
    assert_eq!(node.kind(), "compound");
}

#[test]
fn substitution_depth_limit() {
    // Limit 1 (matcher usage): top-level children exist...
    let node = parsesingle("echo $(foo $bar)", true, Some(1)).unwrap();
    let words = words_of(&node);
    assert_eq!(words[1].parts.len(), 1);
    assert_eq!(words[1].parts[0].kind(), "commandsubstitution");
    // ...but substitutions nested inside are filtered out.
    let node = parsesingle("echo $(foo $(bar))", true, Some(1)).unwrap();
    let words = words_of(&node);
    let inner = match &words[1].parts[0] {
        AstNode::CommandSubstitution { command, .. } => command,
        _ => panic!("expected substitution"),
    };
    let inner_words = match inner.as_ref() {
        AstNode::Command { parts, .. } => parts
            .iter()
            .filter_map(|p| match p {
                AstNode::Word(w) => Some(w),
                _ => None,
            })
            .collect::<Vec<_>>(),
        _ => panic!("expected inner command"),
    };
    assert!(inner_words[1].parts.is_empty());
    // Unbounded: the nested child survives.
    let node = parsesingle("echo $(foo $(bar))", true, None).unwrap();
    let words = words_of(&node);
    assert_eq!(words[1].parts.len(), 1);
}

#[test]
fn substitution_positions_are_absolute() {
    let input = "echo $(foo)";
    let node = parsesingle(input, true, None).unwrap();
    let words = words_of(&node);
    match &words[1].parts[0] {
        AstNode::CommandSubstitution { span, command } => {
            assert_eq!(&input[span.start..span.end], "$(foo)");
            assert_eq!(&input[command.span().start..command.span().end], "foo");
        }
        _ => panic!("expected substitution"),
    }
}

#[test]
fn tilde_and_parameter_children() {
    let node = single("echo ~/bin $HOME");
    let words = words_of(&node);
    assert_eq!(words[1].parts[0].kind(), "tilde");
    assert_eq!(words[2].parts[0].kind(), "parameter");
    assert_eq!(
        &"echo ~/bin $HOME"[words[1].parts[0].span().start..words[1].parts[0].span().end],
        "~"
    );
}

#[test]
fn graceful_degradations() {
    // `[[...]]` parses as an (unknown) simple command.
    let node = single("[[ -f x ]] && echo");
    assert_eq!(node.kind(), "list");
    // `time` wraps the pipeline instead of raising.
    let node = single("time foo | bar");
    assert_eq!(node.kind(), "unimplemented");
    // `select` shares the for shape.
    let node = single("select x in a b; do echo; done");
    assert_eq!(node.kind(), "for");
    // Stray closers are errors, empty input is an error.
    assert!(parsesingle(")", true, None).is_err());
    assert!(parsesingle("", true, None).is_err());
    assert!(parsesingle("echo $(foo", true, None).is_err());
}

#[test]
fn only_unreadable_words_fail_to_lex() {
    let mut lexer = Lexer::new("ab 'c d'e \"f\" $(x");
    assert!(matches!(lexer.next_token(), Ok(Token::Word(_))));
    match lexer.next_token() {
        Ok(Token::Word(w)) => {
            assert_eq!(w.cooked, "c de");
            assert_eq!((w.span.start, w.span.end), (3, 9));
        }
        _ => panic!("expected a word"),
    }
    assert!(matches!(lexer.next_token(), Ok(Token::Word(_))));
    assert!(lexer.next_token().is_err());
    assert!(scan_all("a 'b").is_err());
    assert!(scan_all("a \"b").is_err());
    assert!(scan_all("x=1 y\\ z | w; ~ $ \"a $ b\"").is_ok());
}
