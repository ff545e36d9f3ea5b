//! Matcher: walks the shell AST, resolves each command to its manpage, and
//! matches the command's words to options and positional arguments.
//!
//! The walk is a state machine over [`MatcherView`]; `walk_node` and its
//! companions below say what each step does, and the executable matcher is
//! proved to follow them.

use vstd::prelude::*;
use vstd::string::StringSliceAdditionalSpecFns;
use crate::ast::{AstNode, AstView, KeywordKind, RedirectTarget, Span, TargetView, WordNode, WordView, kind_name, nodes_view, all_words, all_words_seq, expansion_leaf, leaf_pred};
use crate::data::{DataError, ManpageData, ends_with, name_candidates, sort_by_score};
use crate::model::{
    CliOption, CliOptionView, DebugInfo, DebugView, Expansion, ExplainResult, HasArgument,
    MatchGroup, MatchGroupView, MatchResult, MatchResultView, ParsedManpage,
    ParsedManpageView, clone_strings, first_option, join, opt_option,
    opt_page, paragraph_sep, pages_view, positional_names, positional_prefix,
    positional_texts, results_view, strs, takes_argument, contains_str,
};
use crate::text::{decimal_text, push_decimal, push_str, str_chars, str_eq, string_from_chars, parse_i64, i64_text_value};

verus! {

/// Errors from matching.
#[derive(Debug)]
pub enum MatchError {
    /// No command in the input
    EmptyInput,
    /// Program has no manpage
    UnknownProgram(String),
    /// Data lookup failed
    Data(DataError),
}

/// How a matcher failure reads.
pub open spec fn match_error_text(e: MatchError) -> Seq<char> {
    match e {
        MatchError::EmptyInput => "no command to match"@,
        MatchError::UnknownProgram(p) => "unknown program: "@ + p@,
        MatchError::Data(d) => "data error: "@ + crate::data::data_error_text(d),
    }
}

impl MatchError {
    /// The failure as a sentence.
    pub fn message(&self) -> (r: String)
        ensures
            r@ == match_error_text(*self),
    {
        match self {
            MatchError::EmptyInput => "no command to match".to_owned(),
            MatchError::UnknownProgram(p) => {
                let mut s = "unknown program: ".to_owned();
                push_str(&mut s, p.as_str());
                s
            },
            MatchError::Data(d) => {
                let mut s = "data error: ".to_owned();
                let m = d.message();
                push_str(&mut s, m.as_str());
                s
            },
        }
    }
}

// ---------------------------------------------------------------------
// Help texts
// ---------------------------------------------------------------------

pub open spec fn no_synopsis() -> Seq<char> {
    "no synopsis found"@
}

pub open spec fn pipelines_help() -> Seq<char> {
    "A pipeline is a sequence of one or more commands separated by one of the control operators | or |&."@
}

pub open spec fn redirection_help() -> Seq<char> {
    "Before a command is executed, its input and output may be redirected."@
}

pub open spec fn assignment_help() -> Seq<char> {
    "An assignment statement sets a variable value."@
}

/// Help text of a list operator ("" for others).
pub open spec fn operator_help(op: Seq<char>) -> Seq<char> {
    if op == ";"@ {
        "Commands separated by ; are executed sequentially."@
    } else if op == "&"@ {
        "If a command is terminated by &, the shell executes the command in the background."@
    } else if op == "&&"@ || op == "||"@ {
        "AND and OR lists are sequences of pipelines separated by && and ||."@
    } else {
        ""@
    }
}

/// Help text of a reserved word ("" for others).
pub open spec fn reserved_help(word: Seq<char>) -> Seq<char> {
    if word == "if"@ {
        "The if command executes a list of commands based on a condition."@
    } else if word == "then"@ {
        "The then keyword marks the start of the if-true branch."@
    } else if word == "else"@ {
        "The else keyword marks the start of the if-false branch."@
    } else if word == "fi"@ {
        "The fi keyword ends an if statement."@
    } else if word == "for"@ {
        "The for loop executes a list of commands for each item in a list."@
    } else if word == "while"@ {
        "The while loop executes a list of commands while a condition is true."@
    } else if word == "until"@ {
        "The until loop executes a list of commands until a condition is true."@
    } else if word == "do"@ {
        "The do keyword starts the body of a for/while/until loop."@
    } else if word == "done"@ {
        "The done keyword ends the body of a for/while/until loop."@
    } else if word == "case"@ {
        "The case statement executes commands based on pattern matching."@
    } else if word == "esac"@ {
        "The esac keyword ends a case statement."@
    } else if word == "in"@ {
        "The in keyword introduces patterns in a case statement."@
    } else if word == "function"@ {
        "A function definition creates a reusable command sequence."@
    } else if word == "!"@ {
        "The ! operator negates the exit status of a pipeline."@
    } else {
        ""@
    }
}

// ---------------------------------------------------------------------
// Matcher model
// ---------------------------------------------------------------------

/// Model of an expansion record.
pub struct ExpansionView {
    pub start: usize,
    pub end: usize,
    pub kind: Seq<char>,
}

pub open spec fn expansions_view(v: Seq<Expansion>) -> Seq<ExpansionView> {
    v.map_values(|e: Expansion| ExpansionView { start: e.start, end: e.end, kind: e.kind@ })
}

pub open spec fn groups_view(v: Seq<MatchGroup>) -> Seq<MatchGroupView> {
    v.map_values(|g: MatchGroup| g@)
}

/// State of the matcher: output groups, expansions, the group stack (shell
/// group at the bottom, the command being matched on top), the functions
/// being defined, and the previous and current option.
pub struct MatcherView {
    pub groups: Seq<MatchGroupView>,
    pub expansions: Seq<ExpansionView>,
    pub stack: Seq<MatchGroupView>,
    pub functions: Seq<Seq<char>>,
    pub prev: Option<CliOptionView>,
    pub current: Option<CliOptionView>,
}

/// An empty group.
pub open spec fn empty_group(name: Seq<char>) -> MatchGroupView {
    MatchGroupView {
        name,
        results: Seq::empty(),
        manpage: None,
        suggestions: Seq::empty(),
        error: None,
        positional_index: 0,
    }
}

/// State before the walk.
pub open spec fn initial_state() -> MatcherView {
    MatcherView {
        groups: seq![empty_group("shell"@)],
        expansions: Seq::empty(),
        stack: seq![empty_group("shell"@)],
        functions: Seq::empty(),
        prev: None,
        current: None,
    }
}

/// A result with help text.
pub open spec fn result_of(
    start: usize,
    end: usize,
    text: Seq<char>,
    match_text: Option<Seq<char>>,
    d: DebugView,
) -> MatchResultView {
    MatchResultView { start, end, text: Some(text), match_text, debug_info: Some(d) }
}

/// The result for a token that nothing explains: no help text.
pub open spec fn unknown_result(start: usize, end: usize) -> MatchResultView {
    MatchResultView { start, end, text: None, match_text: None, debug_info: Some(DebugView::Unknown) }
}

/// Debug record of a matched option.
pub open spec fn option_debug(o: CliOptionView) -> DebugView {
    DebugView::OptionMatch { short: o.short, long: o.long, has_argument: o.has_argument }
}

/// Append a result to the group on top of the stack.
pub open spec fn push_top(v: MatcherView, r: MatchResultView) -> MatcherView {
    let g = v.stack.last();
    MatcherView {
        stack: v.stack.update(v.stack.len() - 1, MatchGroupView { results: g.results.push(r), ..g }),
        ..v
    }
}

/// Append a result to the shell group (the first output group).
pub open spec fn push_shell(v: MatcherView, r: MatchResultView) -> MatcherView {
    let g = v.groups[0];
    MatcherView { groups: v.groups.update(0, MatchGroupView { results: g.results.push(r), ..g }), ..v }
}

/// A shell-level result for a span.
pub open spec fn shell_result(span: Span, text: Seq<char>, d: DebugView) -> MatchResultView {
    result_of(span.start, span.end, text, None, d)
}

/// Record an expansion.
pub open spec fn push_expansion(v: MatcherView, span: Span, kind: Seq<char>) -> MatcherView {
    MatcherView {
        expansions: v.expansions.push(ExpansionView { start: span.start, end: span.end, kind }),
        ..v
    }
}

/// Move the end of the top group's last result to `end` (the word is the
/// argument of the option matched last).
pub open spec fn extend_last(v: MatcherView, end: usize) -> MatcherView {
    let g = v.stack.last();
    if g.results.len() > 0 {
        let last = g.results.last();
        let results = g.results.update(
            g.results.len() - 1,
            MatchResultView { end, ..last },
        );
        MatcherView {
            stack: v.stack.update(v.stack.len() - 1, MatchGroupView { results, ..g }),
            ..v
        }
    } else {
        v
    }
}

/// The manpage of the command being matched (none in the shell group).
pub open spec fn man_page_of(v: MatcherView) -> Option<ParsedManpageView> {
    let g = v.stack.last();
    if g.name == "shell"@ {
        None
    } else {
        g.manpage
    }
}

/// Index of the first `c` in `s`.
pub open spec fn index_of(s: Seq<char>, c: char) -> Option<int>
    decreases s.len(),
{
    if s.len() == 0 {
        None
    } else {
        match index_of(s.drop_last(), c) {
            Some(i) => Some(i),
            None => if s.last() == c {
                Some(s.len() - 1)
            } else {
                None
            },
        }
    }
}

/// `p` is a prefix of `s`.
pub open spec fn has_prefix(s: Seq<char>, p: Seq<char>) -> bool {
    p.len() <= s.len() && s.take(p.len() as int) == p
}

/// The text an option is looked up by: `--flag=value` is looked up as
/// `--flag`.
pub open spec fn word_key(text: Seq<char>) -> Seq<char> {
    if has_prefix(text, "--"@) {
        match index_of(text, '=') {
            Some(i) => text.take(i),
            None => text,
        }
    } else {
        text
    }
}

/// A `-abc` cluster of short options (not quoted, more than two bytes).
pub open spec fn short_cluster(text: Seq<char>, quoted: bool) -> bool {
    &&& text != "-"@
    &&& has_prefix(text, "-"@)
    &&& !has_prefix(text, "--"@)
    &&& !quoted
    &&& utf8_len(text) > 2
}

/// `a + b`, saturating at `usize::MAX`.
pub open spec fn sat_add(a: usize, b: nat) -> usize {
    if a + b <= usize::MAX {
        (a + b) as usize
    } else {
        usize::MAX
    }
}

/// Byte width of a character in UTF-8 (`char::len_utf8`).
pub open spec fn char_width(c: char) -> nat {
    if (c as u32) < 0x80 {
        1
    } else if (c as u32) < 0x800 {
        2
    } else if (c as u32) < 0x10000 {
        3
    } else {
        4
    }
}

/// Byte length of a text in UTF-8.
pub open spec fn utf8_len(s: Seq<char>) -> nat
    decreases s.len(),
{
    if s.len() == 0 {
        0
    } else {
        utf8_len(s.drop_last()) + char_width(s.last())
    }
}

/// Match the short options of a cluster from character `i + 1` on;
/// `pos` is the byte offset of that character, `prev` the option of the
/// character before.
pub open spec fn short_options(
    v: MatcherView,
    mp: ParsedManpageView,
    text: Seq<char>,
    start: usize,
    end: usize,
    i: int,
    pos: usize,
    prev: Option<CliOptionView>,
) -> MatcherView
    decreases text.len() - i,
{
    if i < 0 || i + 1 >= text.len() {
        v
    } else {
        let t = seq![text[i + 1]];
        let next = sat_add(pos, char_width(text[i + 1]));
        match first_option(mp.options, "-"@ + t) {
            Some(o) => if i == 0 && takes_argument(o) {
                MatcherView {
                    current: None,
                    ..push_top(v, result_of(start, end, o.text, Some(text), option_debug(o)))
                }
            } else {
                short_options(
                    push_top(v, result_of(pos, next, o.text, Some(t), option_debug(o))),
                    mp,
                    text,
                    start,
                    end,
                    i + 1,
                    next,
                    Some(o),
                )
            },
            None => if i > 0 && (prev matches Some(p) && takes_argument(p)) {
                MatcherView { current: None, ..extend_last(v, end) }
            } else {
                short_options(
                    push_top(v, unknown_result(pos, next)),
                    mp,
                    text,
                    start,
                    end,
                    i + 1,
                    next,
                    None,
                )
            },
        }
    }
}

/// Merged help text of a positional.
pub open spec fn positional_text(mp: ParsedManpageView, name: Seq<char>, prefixed: bool) -> Seq<char> {
    join(positional_texts(mp.options, name, prefixed), paragraph_sep())
}

/// First prefixed positional, from index `j` on, whose merged help text
/// starts with its prefix.
pub open spec fn first_prefixed(mp: ParsedManpageView, j: int) -> Option<int>
    decreases positional_names(mp.options, true).len() - j,
{
    let names = positional_names(mp.options, true);
    if j < 0 || j >= names.len() {
        None
    } else if has_prefix(
        positional_text(mp, names[j], true),
        positional_prefix(mp.options, names[j]),
    ) {
        Some(j)
    } else {
        first_prefixed(mp, j + 1)
    }
}

/// Result for positional `k`.
pub open spec fn argument_result(
    mp: ParsedManpageView,
    start: usize,
    end: usize,
    k: Seq<char>,
) -> MatchResultView {
    result_of(
        start,
        end,
        positional_text(mp, k, false),
        None,
        DebugView::Argument { positional: k, prefix: None },
    )
}

/// Match a word to the command's positional arguments.
pub open spec fn positional_step(
    v: MatcherView,
    mp: ParsedManpageView,
    text: Seq<char>,
    start: usize,
    end: usize,
) -> MatcherView {
    let names = positional_names(mp.options, false);
    let pnames = positional_names(mp.options, true);
    let unknown = unknown_result(start, end);
    if names.len() == 0 && pnames.len() == 0 {
        push_top(v, unknown)
    } else {
        match first_prefixed(mp, 0) {
            Some(j) => push_top(
                v,
                result_of(
                    start,
                    end,
                    positional_text(mp, pnames[j], true),
                    None,
                    DebugView::Argument {
                        positional: pnames[j],
                        prefix: Some(positional_prefix(mp.options, pnames[j])),
                    },
                ),
            ),
            None => {
                let g = v.stack.last();
                if names.contains(text) {
                    push_top(v, argument_result(mp, start, end, text))
                } else if g.positional_index < names.len() {
                    let k = names[g.positional_index as int];
                    let bumped = MatcherView {
                        stack: v.stack.update(
                            v.stack.len() - 1,
                            MatchGroupView { positional_index: (g.positional_index + 1) as usize, ..g },
                        ),
                        ..v
                    };
                    push_top(bumped, argument_result(mp, start, end, k))
                } else if names.len() > 0 {
                    push_top(v, argument_result(mp, start, end, names.last()))
                } else {
                    push_top(v, unknown)
                }
            },
        }
    }
}

/// Match one word of a command.
#[verifier::opaque]
pub open spec fn visit_word_spec(v: MatcherView, w: WordView) -> MatcherView {
    let text = w.text;
    let start = w.span.start;
    let end = w.span.end;
    match man_page_of(v) {
        None => push_top(v, unknown_result(start, end)),
        Some(mp) => {
            let v1 = MatcherView { prev: v.current, ..v };
            let key = word_key(text);
            match first_option(mp.options, key) {
                Some(o) => {
                    let v2 = push_top(
                        MatcherView { current: Some(o), ..v1 },
                        result_of(start, end, o.text, Some(text), option_debug(o)),
                    );
                    if key != text {
                        MatcherView { current: None, ..v2 }
                    } else {
                        v2
                    }
                },
                None => if short_cluster(text, w.quoted) {
                    short_options(v1, mp, text, start, end, 0, start, None)
                } else if v1.prev matches Some(p) && takes_argument(p) {
                    extend_last(v1, end)
                } else {
                    positional_step(v1, mp, text, start, end)
                },
            }
        },
    }
}

/// The manpages found for a name: the best first, then the suggestions.
pub open spec fn find_pages(d: ManpageData, name: Seq<char>) -> Option<Seq<ParsedManpageView>> {
    if ends_with(name, ".gz"@) {
        if d.pages().contains_key(name) {
            Some(seq![d.pages()[name]@])
        } else {
            None
        }
    } else {
        let sorted = sort_by_score(name_candidates(d.pages(), d.maps(), name));
        if sorted.len() == 0 {
            None
        } else {
            Some(sorted.map_values(|e: (Seq<char>, i32)| d.pages()[e.0]@))
        }
    }
}

/// Number of groups named `command...`.
pub open spec fn command_group_count(groups: Seq<MatchGroupView>) -> nat
    decreases groups.len(),
{
    if groups.len() == 0 {
        0
    } else {
        command_group_count(groups.drop_last()) + if has_prefix(groups.last().name, "command"@) {
            1nat
        } else {
            0nat
        }
    }
}

/// Index of the first node of kind "word".
pub open spec fn first_word(parts: Seq<AstView>) -> Option<int>
    decreases parts.len(),
{
    if parts.len() == 0 {
        None
    } else {
        match first_word(parts.drop_last()) {
            Some(i) => Some(i),
            None => if kind_name(parts.last()) == "word"@ {
                Some(parts.len() - 1)
            } else {
                None
            },
        }
    }
}

/// The first later word that forms a known `command subcommand` pair:
/// its manpage and the word's end.
pub open spec fn subcommand(
    d: ManpageData,
    parts: Seq<AstView>,
    cmd: WordView,
    j: int,
) -> Option<(ParsedManpageView, usize)>
    decreases parts.len() - j,
{
    if j < 0 || j >= parts.len() {
        None
    } else {
        match parts[j] {
            AstView::Word(w) => if w.span.start > cmd.span.start && find_pages(
                d,
                cmd.text + " "@ + w.text,
            ) is Some {
                Some((find_pages(d, cmd.text + " "@ + w.text)->0[0], w.span.end))
            } else {
                subcommand(d, parts, cmd, j + 1)
            },
            _ => subcommand(d, parts, cmd, j + 1),
        }
    }
}

/// Synopsis text of a manpage.
pub open spec fn synopsis_text(mp: ParsedManpageView) -> Seq<char> {
    match mp.synopsis {
        Some(s) => s,
        None => no_synopsis(),
    }
}

/// Walk one node. `Err(name)` when a command has no manpage.
pub open spec fn walk_node(v: MatcherView, d: ManpageData, n: AstView) -> Result<MatcherView, Seq<char>>
    decreases n, 0nat,
{
    match n {
        AstView::List { parts, .. } => walk_all(v, d, parts),
        AstView::Pipeline { parts, .. } => walk_all(v, d, parts),
        AstView::Command { parts, .. } => visit_command_spec(v, d, parts),
        AstView::Compound { list, .. } => walk_all(v, d, list),
        AstView::Keyword { parts, .. } => walk_all(v, d, parts),
        AstView::Function { name, body, .. } => match walk_node(
            MatcherView { functions: v.functions.push(name.text), ..v },
            d,
            *body,
        ) {
            Ok(v1) => Ok(MatcherView { functions: v1.functions.drop_last(), ..v1 }),
            Err(e) => Err(e),
        },
        AstView::Redirect { output, .. } => match output {
            TargetView::Word(w) => walk_all(
                push_shell(v, shell_result(w.span, redirection_help(), DebugView::Redirect)),
                d,
                w.parts,
            ),
            _ => Ok(v),
        },
        AstView::CommandSubstitution { span, .. } => Ok(push_expansion(v, span, "substitution"@)),
        AstView::ProcessSubstitution { span, .. } => Ok(push_expansion(v, span, "substitution"@)),
        AstView::Tilde { span, .. } => Ok(push_expansion(v, span, "tilde"@)),
        AstView::Parameter { span, value } => Ok(
            push_expansion(
                v,
                span,
                if i64_text_value(value) is Some {
                    "parameter-digits"@
                } else {
                    "parameter-param"@
                },
            ),
        ),
        AstView::ReservedWord { span, word } => Ok(
            push_shell(v, shell_result(span, reserved_help(word), DebugView::ReservedWord)),
        ),
        AstView::Operator { span, op } => Ok(
            push_shell(v, shell_result(span, operator_help(op), DebugView::Operator)),
        ),
        AstView::Pipe { span, .. } => Ok(
            push_shell(v, shell_result(span, pipelines_help(), DebugView::Pipe)),
        ),
        AstView::Word(w) => Ok(visit_word_spec(v, w)),
        AstView::Assignment(w) => Ok(
            push_shell(v, shell_result(w.span, assignment_help(), DebugView::Assignment)),
        ),
        _ => Ok(v),
    }
}

/// Walk nodes in order.
pub open spec fn walk_all(v: MatcherView, d: ManpageData, s: Seq<AstView>) -> Result<
    MatcherView,
    Seq<char>,
>
    decreases s, 0nat,
{
    if s.len() == 0 {
        Ok(v)
    } else {
        match walk_all(v, d, s.drop_last()) {
            Ok(v1) => walk_node(v1, d, s.last()),
            Err(e) => Err(e),
        }
    }
}

/// Match a simple command.
pub open spec fn visit_command_spec(v: MatcherView, d: ManpageData, parts: Seq<AstView>) -> Result<
    MatcherView,
    Seq<char>,
>
    decreases parts, 2nat,
{
    match first_word(parts) {
        None => Ok(v),
        Some(i) => match parts[i] {
            AstView::Word(wn) => if v.functions.contains(wn.text) {
                Ok(
                    push_top(
                        v,
                        result_of(
                            wn.span.start,
                            wn.span.end,
                            "Call to function '"@ + wn.text + "'."@,
                            None,
                            DebugView::FunctionCall,
                        ),
                    ),
                )
            } else {
                match find_pages(d, wn.text) {
                    None => Err(wn.text),
                    Some(mps) => {
                        let (manpage, endpos) = match subcommand(d, parts, wn, 0) {
                            Some(p) => p,
                            None => (mps[0], wn.span.end),
                        };
                        let group = MatchGroupView {
                            name: "command"@ + decimal_text(command_group_count(v.groups)),
                            results: seq![
                                result_of(
                                    wn.span.start,
                                    endpos,
                                    synopsis_text(manpage),
                                    None,
                                    DebugView::Synopsis,
                                ),
                            ],
                            manpage: Some(manpage),
                            suggestions: mps.drop_first(),
                            error: None,
                            positional_index: 0,
                        };
                        close_command(
                            command_parts(MatcherView { stack: v.stack.push(group), ..v }, d, parts, wn.span),
                        )
                    },
                }
            },
            _ => Ok(v),
        },
    }
}

/// Move the finished command group from the stack to the output.
pub open spec fn close_command(r: Result<MatcherView, Seq<char>>) -> Result<MatcherView, Seq<char>> {
    match r {
        Ok(v2) => Ok(
            MatcherView { groups: v2.groups.push(v2.stack.last()), stack: v2.stack.drop_last(), ..v2 },
        ),
        Err(e) => Err(e),
    }
}

/// Match the arguments and redirects of a command, in order.
pub open spec fn command_parts(v: MatcherView, d: ManpageData, parts: Seq<AstView>, cmd: Span) -> Result<
    MatcherView,
    Seq<char>,
>
    decreases parts, 1nat,
{
    if parts.len() == 0 {
        Ok(v)
    } else {
        match command_parts(v, d, parts.drop_last(), cmd) {
            Ok(v1) => command_part(v1, d, parts.last(), cmd),
            Err(e) => Err(e),
        }
    }
}

/// Match one argument or redirect of a command.
pub open spec fn command_part(v: MatcherView, d: ManpageData, p: AstView, cmd: Span) -> Result<
    MatcherView,
    Seq<char>,
>
    decreases p, 0nat,
{
    match p {
        AstView::Word(w) => if w.span != cmd {
            Ok(visit_word_spec(v, w))
        } else {
            Ok(v)
        },
        AstView::Redirect { span, output, .. } => match output {
            TargetView::Word(w) => walk_all(
                push_shell(v, shell_result(span, redirection_help(), DebugView::Redirect)),
                d,
                w.parts,
            ),
            _ => Ok(v),
        },
        _ => Ok(v),
    }
}

// ---------------------------------------------------------------------
// Executable helpers
// ---------------------------------------------------------------------

/// Help text of a reserved word.
fn reserved_help_text(word: &str) -> (r: &'static str)
    ensures
        r@ == reserved_help(word@),
{
    if str_eq(word, "if") {
        "The if command executes a list of commands based on a condition."
    } else if str_eq(word, "then") {
        "The then keyword marks the start of the if-true branch."
    } else if str_eq(word, "else") {
        "The else keyword marks the start of the if-false branch."
    } else if str_eq(word, "fi") {
        "The fi keyword ends an if statement."
    } else if str_eq(word, "for") {
        "The for loop executes a list of commands for each item in a list."
    } else if str_eq(word, "while") {
        "The while loop executes a list of commands while a condition is true."
    } else if str_eq(word, "until") {
        "The until loop executes a list of commands until a condition is true."
    } else if str_eq(word, "do") {
        "The do keyword starts the body of a for/while/until loop."
    } else if str_eq(word, "done") {
        "The done keyword ends the body of a for/while/until loop."
    } else if str_eq(word, "case") {
        "The case statement executes commands based on pattern matching."
    } else if str_eq(word, "esac") {
        "The esac keyword ends a case statement."
    } else if str_eq(word, "in") {
        "The in keyword introduces patterns in a case statement."
    } else if str_eq(word, "function") {
        "A function definition creates a reusable command sequence."
    } else if str_eq(word, "!") {
        "The ! operator negates the exit status of a pipeline."
    } else {
        ""
    }
}

/// Help text of a list operator.
fn operator_help_text(op: &str) -> (r: &'static str)
    ensures
        r@ == operator_help(op@),
{
    if str_eq(op, ";") {
        "Commands separated by ; are executed sequentially."
    } else if str_eq(op, "&") {
        "If a command is terminated by &, the shell executes the command in the background."
    } else if str_eq(op, "&&") || str_eq(op, "||") {
        "AND and OR lists are sequences of pipelines separated by && and ||."
    } else {
        ""
    }
}

/// `p` is a prefix of `s`.
fn starts_with_str(s: &str, p: &str) -> (r: bool)
    ensures
        r == has_prefix(s@, p@),
{
    let sc = str_chars(s);
    let pc = str_chars(p);
    if pc.len() > sc.len() {
        return false;
    }
    let mut i: usize = 0;
    while i < pc.len()
        invariant
            i <= pc@.len() <= sc@.len(),
            sc@ == s@,
            pc@ == p@,
            forall|k: int| 0 <= k < i ==> sc@[k] == pc@[k],
        decreases pc@.len() - i,
    {
        if sc[i] != pc[i] {
            proof {
                assert(s@.take(p@.len() as int)[i as int] != p@[i as int]);
            }
            return false;
        }
        i += 1;
    }
    proof {
        assert(s@.take(p@.len() as int) =~= p@);
    }
    true
}

/// The text an option is looked up by.
fn word_key_of(text: &str) -> (r: String)
    ensures
        r@ == word_key(text@),
{
    proof {
        reveal_strlit("--");
    }
    let dashes = starts_with_str(text, "--");
    if !dashes {
        return text.to_owned();
    }
    assert(has_prefix(text@, "--"@));
    let cs = str_chars(text);
    let mut i: usize = 0;
    while i < cs.len()
        invariant
            i <= cs@.len(),
            cs@ == text@,
            has_prefix(text@, "--"@),
            index_of(cs@.take(i as int), '=') is None,
        decreases cs@.len() - i,
    {
        proof {
            assert(cs@.take(i + 1).drop_last() =~= cs@.take(i as int));
        }
        if cs[i] == '=' {
            proof {
                assert(cs@.take(i + 1).last() == cs@[i as int]);
                assert(index_of(cs@.take(i + 1), '=') == Some(i as int));
                lemma_index_of_prefix(cs@, '=', i as int + 1);
                assert(cs@.subrange(0, i as int) =~= text@.take(i as int));
                assert(index_of(text@, '=') == Some(i as int));
                assert(word_key(text@) == text@.take(i as int));
            }
            return string_from_chars(&cs, 0, i);
        }
        i += 1;
    }
    proof {
        assert(cs@.take(cs@.len() as int) =~= cs@);
    }
    text.to_owned()
}

/// The first `c` of a prefix is the first `c` of the whole sequence.
proof fn lemma_index_of_prefix(s: Seq<char>, c: char, n: int)
    requires
        0 <= n <= s.len(),
        index_of(s.take(n), c) is Some,
    ensures
        index_of(s, c) == index_of(s.take(n), c),
    decreases s.len(),
{
    if n < s.len() {
        assert(s.drop_last().take(n) =~= s.take(n));
        lemma_index_of_prefix(s.drop_last(), c, n);
    } else {
        assert(s.take(n) =~= s);
    }
}

/// A short-option cluster.
fn is_short_cluster(text: &str, quoted: bool) -> (r: bool)
    ensures
        r == short_cluster(text@, quoted),
{
    proof {
        reveal_strlit("-");
        reveal_strlit("--");
    }
    // Byte length above two, counted up to three.
    let cs = str_chars(text);
    let mut total: usize = 0;
    let mut i: usize = 0;
    while i < cs.len() && total <= 2
        invariant
            i <= cs@.len(),
            cs@ == text@,
            total == utf8_len(cs@.take(i as int)),
        decreases cs@.len() - i,
    {
        proof {
            assert(cs@.take(i + 1).drop_last() =~= cs@.take(i as int));
        }
        total = total + char_width_of(cs[i]);
        i += 1;
    }
    proof {
        lemma_utf8_len_mono(cs@, i as int);
        if i == cs@.len() {
            assert(cs@.take(i as int) =~= cs@);
        }
    }
    let wide = total > 2;
    !str_eq(text, "-") && starts_with_str(text, "-") && !starts_with_str(text, "--") && !quoted
        && wide
}

/// Byte lengths grow with the prefix.
proof fn lemma_utf8_len_mono(s: Seq<char>, n: int)
    requires
        0 <= n <= s.len(),
    ensures
        utf8_len(s.take(n)) <= utf8_len(s),
    decreases s.len(),
{
    if n < s.len() {
        assert(s.drop_last().take(n) =~= s.take(n));
        lemma_utf8_len_mono(s.drop_last(), n);
    } else {
        assert(s.take(n) =~= s);
    }
}

/// Byte width of a character.
fn char_width_of(c: char) -> (r: usize)
    ensures
        r == char_width(c),
{
    let u = c as u32;
    if u < 0x80 {
        1
    } else if u < 0x800 {
        2
    } else if u < 0x10000 {
        3
    } else {
        4
    }
}

/// The one-character string of `c`.
fn char_string(c: char) -> (r: String)
    ensures
        r@ == seq![c],
{
    let mut s = String::new();
    crate::text::push_char(&mut s, c);
    proof {
        assert(s@ =~= seq![c]);
    }
    s
}

/// Debug record of a matched option.
fn option_debug_of(o: &CliOption) -> (r: DebugInfo)
    ensures
        r@ == option_debug(o@),
{
    DebugInfo::OptionMatch {
        short: clone_strings(&o.short),
        long: clone_strings(&o.long),
        has_argument: o.has_argument.clone(),
    }
}

/// The option expects an argument.
fn option_takes_argument(o: &CliOption) -> (r: bool)
    ensures
        r == takes_argument(o@),
{
    match &o.has_argument {
        HasArgument::Bool(b) => *b,
        HasArgument::List(_) => false,
    }
}

/// Index of the first node of kind `word`.
fn first_word_index(parts: &Vec<AstNode>) -> (r: Option<usize>)
    ensures
        match r {
            Some(i) => first_word(nodes_view(parts@)) == Some(i as int) && i < parts@.len(),
            None => first_word(nodes_view(parts@)) is None,
        },
{
    let ghost pv = nodes_view(parts@);
    proof {
        crate::ast::lemma_nodes_view(parts@);
    }
    let mut i: usize = 0;
    while i < parts.len()
        invariant
            i <= parts@.len(),
            pv == nodes_view(parts@),
            pv.len() == parts@.len(),
            forall|k: int| 0 <= k < parts@.len() ==> #[trigger] pv[k] == parts@[k]@,
            first_word(pv.take(i as int)) is None,
        decreases parts@.len() - i,
    {
        proof {
            assert(pv.take(i + 1).drop_last() =~= pv.take(i as int));
        }
        if str_eq(parts[i].kind(), "word") {
            proof {
                assert(first_word(pv.take(i + 1)) == Some(i as int));
                lemma_first_word_prefix(pv, i as int + 1);
            }
            return Some(i);
        }
        i += 1;
    }
    proof {
        assert(pv.take(parts@.len() as int) =~= pv);
    }
    None
}

proof fn lemma_first_word_prefix(s: Seq<AstView>, n: int)
    requires
        0 <= n <= s.len(),
        first_word(s.take(n)) is Some,
    ensures
        first_word(s) == first_word(s.take(n)),
    decreases s.len(),
{
    if n < s.len() {
        assert(s.drop_last().take(n) =~= s.take(n));
        lemma_first_word_prefix(s.drop_last(), n);
    } else {
        assert(s.take(n) =~= s);
    }
}

// ---------------------------------------------------------------------
// The matcher
// ---------------------------------------------------------------------

struct Matcher<'a> {
    input: &'a str,
    data: &'a ManpageData,
    groups: Vec<MatchGroup>,
    expansions: Vec<Expansion>,
    group_stack: Vec<MatchGroup>,
    compound_stack: Vec<&'static str>,
    functions: Vec<String>,
    prev_option: Option<CliOption>,
    current_option: Option<CliOption>,
}

impl<'a> View for Matcher<'a> {
    type V = MatcherView;

    closed spec fn view(&self) -> MatcherView {
        MatcherView {
            groups: groups_view(self.groups@),
            expansions: expansions_view(self.expansions@),
            stack: groups_view(self.group_stack@),
            functions: strs(self.functions@),
            prev: opt_option(self.prev_option),
            current: opt_option(self.current_option),
        }
    }
}

/// A new empty group.
fn new_group(name: &str) -> (r: MatchGroup)
    ensures
        r@ == empty_group(name@),
{
    let g = MatchGroup {
        name: name.to_owned(),
        results: Vec::new(),
        manpage: None,
        suggestions: Vec::new(),
        error: None,
        positional_index: 0,
    };
    proof {
        assert(results_view(g.results@) =~= Seq::<MatchResultView>::empty());
        assert(pages_view(g.suggestions@) =~= Seq::<ParsedManpageView>::empty());
    }
    g
}

impl<'a> Matcher<'a> {
    closed spec fn wf(&self) -> bool {
        self.groups@.len() >= 1 && self.group_stack@.len() >= 1
    }

    fn new(input: &'a str, data: &'a ManpageData) -> (r: Matcher<'a>)
        ensures
            r.wf(),
            r@ == initial_state(),
            r.data == data,
            r.input == input,
    {
        let shell = new_group("shell");
        let shell_copy = new_group("shell");
        let mut groups: Vec<MatchGroup> = Vec::new();
        groups.push(shell_copy);
        let mut group_stack: Vec<MatchGroup> = Vec::new();
        group_stack.push(shell);
        let m = Matcher {
            input,
            data,
            groups,
            expansions: Vec::new(),
            group_stack,
            compound_stack: Vec::new(),
            functions: Vec::new(),
            prev_option: None,
            current_option: None,
        };
        proof {
            reveal_strlit("shell");
            assert(m@.groups =~= initial_state().groups);
            assert(m@.stack =~= initial_state().stack);
            assert(m@.expansions =~= initial_state().expansions);
            assert(m@.functions =~= initial_state().functions);
        }
        m
    }

    /// The manpage of the command being matched.
    fn man_page(&self) -> (r: Option<ParsedManpage>)
        requires
            self.wf(),
        ensures
            opt_page(r) == man_page_of(self@),
    {
        let g = &self.group_stack[self.group_stack.len() - 1];
        proof {
            assert(self@.stack.last() == g@);
        }
        if str_eq(g.name.as_str(), "shell") {
            None
        } else {
            match &g.manpage {
                Some(m) => Some(m.clone()),
                None => None,
            }
        }
    }

    /// Append a result to the group on top of the stack.
    fn push_result(&mut self, r: MatchResult)
        requires
            old(self).wf(),
        ensures
            final(self).wf(),
            final(self)@ == push_top(old(self)@, r@),
            final(self).data == old(self).data,
            final(self).input == old(self).input,
    {
        let ghost old_stack = self.group_stack@;
        let mut g = self.group_stack.pop().unwrap();
        let ghost g0 = g@;
        g.results.push(r);
        proof {
            assert(results_view(g.results@) =~= g0.results.push(r@));
        }
        self.group_stack.push(g);
        proof {
            assert(groups_view(self.group_stack@) =~= groups_view(old_stack).update(
                old_stack.len() - 1,
                MatchGroupView { results: g0.results.push(r@), ..g0 },
            ));
        }
    }

    /// Append a result with help text to the group on top of the stack.
    fn add_match_result(&mut self, start: usize, end: usize, text: &str, match_text: Option<&str>, d: DebugInfo)
        requires
            old(self).wf(),
        ensures
            final(self).wf(),
            final(self)@ == push_top(
                old(self)@,
                result_of(start, end, text@, match match_text {
                    Some(m) => Some(m@),
                    None => None,
                }, d@),
            ),
            final(self).data == old(self).data,
            final(self).input == old(self).input,
    {
        let mt = match match_text {
            Some(m) => Some(m.to_owned()),
            None => None,
        };
        self.push_result(MatchResult { start, end, text: Some(text.to_owned()), match_text: mt, debug_info: Some(d) });
    }

    /// Append an unknown-token result.
    fn add_unknown(&mut self, start: usize, end: usize)
        requires
            old(self).wf(),
        ensures
            final(self).wf(),
            final(self)@ == push_top(old(self)@, unknown_result(start, end)),
            final(self).data == old(self).data,
            final(self).input == old(self).input,
    {
        self.push_result(
            MatchResult { start, end, text: None, match_text: None, debug_info: Some(DebugInfo::Unknown) },
        );
    }

    /// Append a result to the shell group.
    fn add_shell_result(&mut self, span: Span, text: &str, d: DebugInfo)
        requires
            old(self).wf(),
        ensures
            final(self).wf(),
            final(self)@ == push_shell(old(self)@, shell_result(span, text@, d@)),
            final(self).data == old(self).data,
            final(self).input == old(self).input,
    {
        let ghost old_groups = self.groups@;
        let r = MatchResult { start: span.start, end: span.end, text: Some(text.to_owned()), match_text: None, debug_info: Some(d) };
        let ghost rv = r@;
        let mut g = self.groups.remove(0);
        let ghost g0 = g@;
        g.results.push(r);
        proof {
            assert(results_view(g.results@) =~= g0.results.push(rv));
        }
        self.groups.insert(0, g);
        proof {
            assert(groups_view(self.groups@) =~= groups_view(old_groups).update(
                0,
                MatchGroupView { results: g0.results.push(rv), ..g0 },
            ));
        }
    }

    /// Record an expansion.
    fn add_expansion(&mut self, span: Span, kind: &str)
        requires
            old(self).wf(),
        ensures
            final(self).wf(),
            final(self)@ == push_expansion(old(self)@, span, kind@),
            final(self).data == old(self).data,
            final(self).input == old(self).input,
    {
        let ghost old_e = self.expansions@;
        self.expansions.push(Expansion { start: span.start, end: span.end, kind: kind.to_owned() });
        proof {
            assert(expansions_view(self.expansions@) =~= expansions_view(old_e).push(
                ExpansionView { start: span.start, end: span.end, kind: kind@ },
            ));
        }
    }

    /// Record a redirection on the shell group.
    fn add_redirect_help(&mut self, span: Span)
        requires
            old(self).wf(),
        ensures
            final(self).wf(),
            final(self)@ == push_shell(old(self)@, shell_result(span, redirection_help(), DebugView::Redirect)),
            final(self).data == old(self).data,
            final(self).input == old(self).input,
    {
        self.add_shell_result(
            span,
            "Before a command is executed, its input and output may be redirected.",
            DebugInfo::Redirect,
        );
    }

    /// Extend the top group's last result to `end`.
    fn extend_last_result(&mut self, end: usize)
        requires
            old(self).wf(),
        ensures
            final(self).wf(),
            final(self)@ == extend_last(old(self)@, end),
            final(self).data == old(self).data,
            final(self).input == old(self).input,
    {
        let ghost old_stack = self.group_stack@;
        let mut g = self.group_stack.pop().unwrap();
        let ghost g0 = g@;
        match g.results.pop() {
            Some(mut last) => {
                let ghost l0 = last@;
                last.end = end;
                g.results.push(last);
                proof {
                    assert(results_view(g.results@) =~= g0.results.update(
                        g0.results.len() - 1,
                        MatchResultView { end, ..l0 },
                    ));
                }
            },
            None => {},
        }
        self.group_stack.push(g);
        proof {
            if g0.results.len() > 0 {
                assert(groups_view(self.group_stack@) =~= groups_view(old_stack).update(
                    old_stack.len() - 1,
                    MatchGroupView {
                        results: g0.results.update(
                            g0.results.len() - 1,
                            MatchResultView { end, ..g0.results.last() },
                        ),
                        ..g0
                    },
                ));
            } else {
                assert(groups_view(self.group_stack@) =~= groups_view(old_stack));
            }
        }
    }

    /// Name of the next command group: `command<N>`, N the number of
    /// command groups so far.
    fn generate_cmd_group_name(&self) -> (r: String)
        ensures
            r@ == "command"@ + decimal_text(command_group_count(self@.groups)),
    {
        let ghost gs = self@.groups;
        let mut count: u64 = 0;
        let mut i: usize = 0;
        while i < self.groups.len()
            invariant
                i <= self.groups@.len(),
                gs == groups_view(self.groups@),
                count == command_group_count(gs.take(i as int)),
                count <= i,
            decreases self.groups@.len() - i,
        {
            proof {
                assert(gs.take(i + 1).drop_last() =~= gs.take(i as int));
                assert(gs.take(i + 1).last() == self.groups@[i as int]@);
            }
            if starts_with_str(self.groups[i].name.as_str(), "command") {
                count = count + 1;
            }
            i += 1;
        }
        proof {
            assert(gs.take(self.groups@.len() as int) =~= gs);
        }
        let mut name = String::new();
        push_str(&mut name, "command");
        push_decimal(&mut name, count);
        name
    }

    /// The manpages for a program: best first, then suggestions.
    fn find_man_pages(&self, prog: &str) -> (r: Result<Vec<ParsedManpage>, MatchError>)
        ensures
            match find_pages(*self.data, prog@) {
                Some(mps) => r matches Ok(v) && pages_view(v@) == mps,
                None => r matches Err(MatchError::UnknownProgram(n)) && n@ == prog@,
            },
    {
        match self.data.find_man_page(prog) {
            Ok((mp, sugg)) => {
                let mut v: Vec<ParsedManpage> = Vec::new();
                v.push(mp.clone());
                let mut i: usize = 0;
                while i < sugg.len()
                    invariant
                        i <= sugg@.len(),
                        v@.len() == i + 1,
                        v@[0]@ == mp@,
                        forall|k: int| 0 <= k < i ==> #[trigger] v@[k + 1]@ == sugg@[k]@,
                    decreases sugg@.len() - i,
                {
                    v.push(sugg[i].clone());
                    i += 1;
                }
                proof {
                    reveal_strlit(".gz");
                    let d = *self.data;
                    if ends_with(prog@, ".gz"@) {
                        assert(pages_view(v@) =~= seq![d.pages()[prog@]@]);
                    } else {
                        let sorted = sort_by_score(name_candidates(d.pages(), d.maps(), prog@));
                        assert forall|k: int| 0 <= k < v@.len() implies #[trigger] v@[k]@ == d.pages()[sorted[k].0]@ by {
                            if k > 0 {
                                assert(v@[(k - 1) + 1]@ == sugg@[k - 1]@);
                            }
                        }
                        assert(pages_view(v@) =~= sorted.map_values(|e: (Seq<char>, i32)| d.pages()[e.0]@));
                    }
                }
                Ok(v)
            },
            Err(_) => Err(MatchError::UnknownProgram(prog.to_owned())),
        }
    }
}

impl<'a> Matcher<'a> {
    /// Match a `-abc` cluster of short options against the manpage.
    fn match_short_options(&mut self, mp: &ParsedManpage, text: &str, start: usize, end: usize) -> (r:
        Result<(), MatchError>)
        requires
            old(self).wf(),
            man_page_of(old(self)@) == Some(mp@),
        ensures
            final(self).wf(),
            r is Ok,
            final(self)@ == short_options(old(self)@, mp@, text@, start, end, 0, start, None),
            final(self).data == old(self).data,
            final(self).input == old(self).input,
    {
        proof {
            reveal_strlit("-");
        }
        let cs = str_chars(text);
        let mut pos = start;
        let mut prev: Option<CliOption> = None;
        let mut i: usize = 0;
        while i < cs.len() && i + 1 < cs.len()
            invariant
                self.wf(),
                cs@ == text@,
                i <= cs@.len(),
                man_page_of(self@) == Some(mp@),
                short_options(old(self)@, mp@, text@, start, end, 0, start, None) == short_options(
                    self@,
                    mp@,
                    text@,
                    start,
                    end,
                    i as int,
                    pos,
                    opt_option(prev),
                ),
                self.data == old(self).data,
                self.input == old(self).input,
            decreases cs@.len() - i,
        {
            let c = cs[i + 1];
            let t = char_string(c);
            let w = char_width_of(c);
            let next = pos.saturating_add(w);
            let mut op = "-".to_owned();
            push_str(&mut op, t.as_str());
            let ghost v0 = self@;
            match mp.find_option(op.as_str()) {
                Some(option) => {
                    if i == 0 && option_takes_argument(option) {
                        self.current_option = Some(option.clone());
                        self.add_match_result(start, end, option.text.as_str(), Some(text), option_debug_of(option));
                        self.current_option = None;
                        proof {
                            assert(self@ == MatcherView {
                                current: None,
                                ..push_top(v0, result_of(start, end, option@.text, Some(text@), option_debug(option@)))
                            });
                        }
                        return Ok(());
                    }
                    self.add_match_result(pos, next, option.text.as_str(), Some(t.as_str()), option_debug_of(option));
                    prev = Some(option.clone());
                },
                None => {
                    let takes = match &prev {
                        Some(p) => option_takes_argument(p),
                        None => false,
                    };
                    if i > 0 && takes {
                        self.extend_last_result(end);
                        self.current_option = None;
                        proof {
                            assert(self@ == MatcherView { current: None, ..extend_last(v0, end) });
                        }
                        return Ok(());
                    }
                    self.add_unknown(pos, next);
                    prev = None;
                },
            }
            pos = next;
            i += 1;
        }
        Ok(())
    }

    /// Match a word to the positional arguments of `mp`.
    fn match_positional(&mut self, mp: &ParsedManpage, text: &str, start: usize, end: usize)
        requires
            old(self).wf(),
        ensures
            final(self).wf(),
            final(self)@ == positional_step(old(self)@, mp@, text@, start, end),
            final(self).data == old(self).data,
            final(self).input == old(self).input,
    {
        let ghost names = positional_names(mp@.options, false);
        let ghost pnames = positional_names(mp@.options, true);
        let positionals = mp.positionals();
        let prefixed = mp.prefixed_positionals();
        if positionals.len() == 0 && prefixed.len() == 0 {
            self.add_unknown(start, end);
            return;
        }
        let mut j: usize = 0;
        while j < prefixed.len()
            invariant
                self.wf(),
                self.data == old(self).data,
                self.input == old(self).input,
                self@ == old(self)@,
                j <= prefixed@.len(),
                pnames == positional_names(mp@.options, true),
                prefixed@.len() == pnames.len(),
                first_prefixed(mp@, 0) == first_prefixed(mp@, j as int),
                forall|i: int|
                    0 <= i < prefixed@.len() ==> (#[trigger] prefixed@[i]).0@ == pnames[i]
                        && prefixed@[i].1.0@ == positional_prefix(mp@.options, pnames[i])
                        && prefixed@[i].1.1@ == positional_text(mp@, pnames[i], true),
            decreases prefixed@.len() - j,
        {
            let (k, (prefix, ptext)) = &prefixed[j];
            if starts_with_str(ptext.as_str(), prefix.as_str()) {
                proof {
                    assert(first_prefixed(mp@, j as int) == Some(j as int));
                }
                self.add_match_result(
                    start,
                    end,
                    ptext.as_str(),
                    None,
                    DebugInfo::Argument { positional: k.clone(), prefix: Some(prefix.clone()) },
                );
                return;
            }
            proof {
                assert(!has_prefix(positional_text(mp@, pnames[j as int], true), positional_prefix(mp@.options, pnames[j as int])));
                assert(first_prefixed(mp@, j as int) == first_prefixed(mp@, j + 1));
            }
            j += 1;
        }
        assert(first_prefixed(mp@, 0) is None);
        // Which positional this word fills.
        let mut in_names = false;
        let mut m: usize = 0;
        while m < positionals.len()
            invariant
                self.wf(),
                self.data == old(self).data,
                self.input == old(self).input,
                self@ == old(self)@,
                m <= positionals@.len(),
                names == positional_names(mp@.options, false),
                positionals@.len() == names.len(),
                forall|i: int| 0 <= i < positionals@.len() ==> (#[trigger] positionals@[i]).0@ == names[i],
                in_names == exists|i: int| 0 <= i < m && names[i] == text@,
            decreases positionals@.len() - m,
        {
            if str_eq(positionals[m].0.as_str(), text) {
                in_names = true;
            }
            m += 1;
        }
        let ghost v0 = self@;
        let top = self.group_stack.len() - 1;
        let idx = self.group_stack[top].positional_index;
        proof {
            assert(v0.stack.last() == self.group_stack@[top as int]@);
            assert(in_names == names.contains(text@));
        }
        let key: Option<String> = if in_names {
            Some(text.to_owned())
        } else if idx < positionals.len() {
            let k = positionals[idx].0.clone();
            let ghost old_stack = self.group_stack@;
            let mut g = self.group_stack.pop().unwrap();
            let ghost g0 = g@;
            g.positional_index = idx + 1;
            self.group_stack.push(g);
            proof {
                assert(groups_view(self.group_stack@) =~= groups_view(old_stack).update(
                    old_stack.len() - 1,
                    MatchGroupView { positional_index: (idx + 1) as usize, ..g0 },
                ));
            }
            Some(k)
        } else if positionals.len() > 0 {
            Some(positionals[positionals.len() - 1].0.clone())
        } else {
            None
        };
        let key = match key {
            Some(k) => k,
            None => {
                self.add_unknown(start, end);
                return;
            },
        };
        // Its merged help text.
        let mut found: Option<String> = None;
        let mut m: usize = 0;
        while m < positionals.len() && found.is_none()
            invariant
                self.wf(),
                self.data == old(self).data,
                self.input == old(self).input,
                m <= positionals@.len(),
                names == positional_names(mp@.options, false),
                positionals@.len() == names.len(),
                forall|i: int|
                    0 <= i < positionals@.len() ==> (#[trigger] positionals@[i]).0@ == names[i]
                        && positionals@[i].1@ == positional_text(mp@, names[i], false),
                match found {
                    Some(t) => t@ == positional_text(mp@, key@, false),
                    None => forall|i: int| 0 <= i < m ==> names[i] != key@,
                },
            decreases positionals@.len() - m,
        {
            if str_eq(positionals[m].0.as_str(), key.as_str()) {
                found = Some(positionals[m].1.clone());
            }
            m += 1;
        }
        match found {
            Some(t) => {
                self.add_match_result(
                    start,
                    end,
                    t.as_str(),
                    None,
                    DebugInfo::Argument { positional: key, prefix: None },
                );
            },
            None => {
                proof {
                    if in_names {
                        let i = choose|i: int| 0 <= i < names.len() && names[i] == text@;
                        assert(names[i] != key@);
                    } else if idx < names.len() {
                        assert(names[idx as int] != key@);
                    } else {
                        assert(names[names.len() - 1] != key@);
                    }
                }
                self.add_unknown(start, end);
            },
        }
    }

    /// Match one word of a command.
    fn visit_word(&mut self, word: &WordNode) -> (r: Result<(), MatchError>)
        requires
            old(self).wf(),
        ensures
            final(self).wf(),
            r is Ok,
            final(self)@ == visit_word_spec(old(self)@, word@),
            final(self).data == old(self).data,
            final(self).input == old(self).input,
    {
        proof {
            reveal_with_fuel(crate::ast::word_view, 2);
            reveal(visit_word_spec);
        }
        let text = word.text.as_str();
        let start = word.span.start;
        let end = word.span.end;
        let mp = match self.man_page() {
            None => {
                self.add_unknown(start, end);
                return Ok(());
            },
            Some(m) => m,
        };
        let ghost v0 = self@;
        self.prev_option = match &self.current_option {
            Some(o) => Some(o.clone()),
            None => None,
        };
        let ghost v1 = self@;
        proof {
            assert(v1 == MatcherView { prev: v0.current, ..v0 });
        }
        let key = word_key_of(text);
        match mp.find_option(key.as_str()) {
            Some(option) => {
                self.current_option = Some(option.clone());
                self.add_match_result(start, end, option.text.as_str(), Some(text), option_debug_of(option));
                if !str_eq(key.as_str(), text) {
                    self.current_option = None;
                }
                return Ok(());
            },
            None => {},
        }
        if is_short_cluster(text, word.quoted) {
            self.match_short_options(&mp, text, start, end)?;
            return Ok(());
        }
        let takes = match &self.prev_option {
            Some(p) => option_takes_argument(p),
            None => false,
        };
        if takes {
            self.extend_last_result(end);
            return Ok(());
        }
        self.match_positional(&mp, text, start, end);
        Ok(())
    }
}

/// What every step of the walk keeps: the functions being defined and the
/// depth of the group stack; output groups are only added.
pub open spec fn keeps_frame(v: MatcherView, v1: MatcherView) -> bool {
    &&& v1.functions == v.functions
    &&& v1.stack.len() == v.stack.len()
    &&& v1.groups.len() >= v.groups.len()
    &&& v1.groups[0].name == v.groups[0].name
}

proof fn lemma_short_frame(
    v: MatcherView,
    mp: ParsedManpageView,
    text: Seq<char>,
    start: usize,
    end: usize,
    i: int,
    pos: usize,
    prev: Option<CliOptionView>,
)
    requires
        v.stack.len() >= 1,
    ensures
        keeps_frame(v, short_options(v, mp, text, start, end, i, pos, prev)),
    decreases text.len() - i,
{
    if i < 0 || i + 1 >= text.len() {
    } else {
        let t = seq![text[i + 1]];
        let next = sat_add(pos, char_width(text[i + 1]));
        match first_option(mp.options, "-"@ + t) {
            Some(o) => if i == 0 && takes_argument(o) {
            } else {
                lemma_short_frame(
                    push_top(v, result_of(pos, next, o.text, Some(t), option_debug(o))),
                    mp, text, start, end, i + 1, next, Some(o),
                );
            },
            None => if i > 0 && (prev matches Some(p) && takes_argument(p)) {
            } else {
                lemma_short_frame(
                    push_top(v, unknown_result(pos, next)),
                    mp, text, start, end, i + 1, next, None,
                );
            },
        }
    }
}

proof fn lemma_word_frame(v: MatcherView, w: WordView)
    requires
        v.stack.len() >= 1,
    ensures
        keeps_frame(v, visit_word_spec(v, w)),
{
    reveal(visit_word_spec);
    match man_page_of(v) {
        None => {},
        Some(mp) => {
            let v1 = MatcherView { prev: v.current, ..v };
            lemma_short_frame(v1, mp, w.text, w.span.start, w.span.end, 0, w.span.start, None);
        },
    }
}

proof fn lemma_walk_frame(v: MatcherView, d: ManpageData, n: AstView)
    requires
        v.stack.len() >= 1,
        v.groups.len() >= 1,
    ensures
        walk_node(v, d, n) matches Ok(v1) ==> keeps_frame(v, v1),
    decreases n, 0nat,
{
    match n {
        AstView::List { parts, .. } => lemma_walk_all_frame(v, d, parts),
        AstView::Pipeline { parts, .. } => lemma_walk_all_frame(v, d, parts),
        AstView::Command { parts, .. } => lemma_command_frame(v, d, parts),
        AstView::Compound { list, .. } => lemma_walk_all_frame(v, d, list),
        AstView::Keyword { parts, .. } => lemma_walk_all_frame(v, d, parts),
        AstView::Function { name, body, .. } => {
            lemma_walk_frame(MatcherView { functions: v.functions.push(name.text), ..v }, d, *body);
            assert(v.functions.push(name.text).drop_last() =~= v.functions);
        },
        AstView::Redirect { output, .. } => match output {
            TargetView::Word(w) => lemma_walk_all_frame(
                push_shell(v, shell_result(w.span, redirection_help(), DebugView::Redirect)),
                d,
                w.parts,
            ),
            _ => {},
        },
        AstView::Word(w) => lemma_word_frame(v, w),
        _ => {},
    }
}

proof fn lemma_walk_all_frame(v: MatcherView, d: ManpageData, s: Seq<AstView>)
    requires
        v.stack.len() >= 1,
        v.groups.len() >= 1,
    ensures
        walk_all(v, d, s) matches Ok(v1) ==> keeps_frame(v, v1),
    decreases s, 0nat,
{
    if s.len() > 0 {
        lemma_walk_all_frame(v, d, s.drop_last());
        match walk_all(v, d, s.drop_last()) {
            Ok(v1) => lemma_walk_frame(v1, d, s.last()),
            Err(_) => {},
        }
    }
}

proof fn lemma_command_frame(v: MatcherView, d: ManpageData, parts: Seq<AstView>)
    requires
        v.stack.len() >= 1,
        v.groups.len() >= 1,
    ensures
        visit_command_spec(v, d, parts) matches Ok(v1) ==> keeps_frame(v, v1),
    decreases parts, 2nat,
{
    match first_word(parts) {
        None => {},
        Some(i) => match parts[i] {
            AstView::Word(wn) => if v.functions.contains(wn.text) {
            } else {
                match find_pages(d, wn.text) {
                    None => {},
                    Some(mps) => {
                        let (manpage, endpos) = match subcommand(d, parts, wn, 0) {
                            Some(p) => p,
                            None => (mps[0], wn.span.end),
                        };
                        let group = MatchGroupView {
                            name: "command"@ + decimal_text(command_group_count(v.groups)),
                            results: seq![
                                result_of(
                                    wn.span.start,
                                    endpos,
                                    synopsis_text(manpage),
                                    None,
                                    DebugView::Synopsis,
                                ),
                            ],
                            manpage: Some(manpage),
                            suggestions: mps.drop_first(),
                            error: None,
                            positional_index: 0,
                        };
                        lemma_command_parts_frame(
                            MatcherView { stack: v.stack.push(group), ..v },
                            d,
                            parts,
                            wn.span,
                        );
                    },
                }
            },
            _ => {},
        },
    }
}

proof fn lemma_command_parts_frame(v: MatcherView, d: ManpageData, parts: Seq<AstView>, cmd: Span)
    requires
        v.stack.len() >= 1,
        v.groups.len() >= 1,
    ensures
        command_parts(v, d, parts, cmd) matches Ok(v1) ==> keeps_frame(v, v1),
    decreases parts, 1nat,
{
    if parts.len() > 0 {
        lemma_command_parts_frame(v, d, parts.drop_last(), cmd);
        match command_parts(v, d, parts.drop_last(), cmd) {
            Ok(v1) => lemma_command_part_frame(v1, d, parts.last(), cmd),
            Err(_) => {},
        }
    }
}

proof fn lemma_command_part_frame(v: MatcherView, d: ManpageData, p: AstView, cmd: Span)
    requires
        v.stack.len() >= 1,
        v.groups.len() >= 1,
    ensures
        command_part(v, d, p, cmd) matches Ok(v1) ==> keeps_frame(v, v1),
    decreases p, 0nat,
{
    match p {
        AstView::Word(w) => lemma_word_frame(v, w),
        AstView::Redirect { span, output, .. } => match output {
            TargetView::Word(w) => lemma_walk_all_frame(
                push_shell(v, shell_result(span, redirection_help(), DebugView::Redirect)),
                d,
                w.parts,
            ),
            _ => {},
        },
        _ => {},
    }
}

/// Once a prefix of the nodes fails, the walk fails the same way.
proof fn lemma_walk_all_err(v: MatcherView, d: ManpageData, s: Seq<AstView>, n: int)
    requires
        0 <= n <= s.len(),
        walk_all(v, d, s.take(n)) is Err,
    ensures
        walk_all(v, d, s) == walk_all(v, d, s.take(n)),
    decreases s.len(),
{
    if n < s.len() {
        assert(s.drop_last().take(n) =~= s.take(n));
        lemma_walk_all_err(v, d, s.drop_last(), n);
    } else {
        assert(s.take(n) =~= s);
    }
}

/// Once a prefix of a command's parts fails, the command fails the same way.
proof fn lemma_command_parts_err(v: MatcherView, d: ManpageData, s: Seq<AstView>, cmd: Span, n: int)
    requires
        0 <= n <= s.len(),
        command_parts(v, d, s.take(n), cmd) is Err,
    ensures
        command_parts(v, d, s, cmd) == command_parts(v, d, s.take(n), cmd),
    decreases s.len(),
{
    if n < s.len() {
        assert(s.drop_last().take(n) =~= s.take(n));
        lemma_command_parts_err(v, d, s.drop_last(), cmd, n);
    } else {
        assert(s.take(n) =~= s);
    }
}

/// The walk's outcome matches the model's.
pub open spec fn walk_outcome(r: Result<(), MatchError>, after: MatcherView, expected: Result<MatcherView, Seq<char>>) -> bool {
    match expected {
        Ok(v) => r is Ok && after == v,
        Err(n) => r matches Err(MatchError::UnknownProgram(m)) && m@ == n,
    }
}

impl<'a> Matcher<'a> {
    /// Walk nodes in order.
    fn walk_each(&mut self, parts: &Vec<AstNode>) -> (r: Result<(), MatchError>)
        requires
            old(self).wf(),
        ensures
            final(self).wf(),
            final(self).data == old(self).data,
            final(self).input == old(self).input,
            walk_outcome(r, final(self)@, walk_all(old(self)@, *old(self).data, nodes_view(parts@))),
        decreases parts,
    {
        let ghost pv = nodes_view(parts@);
        let ghost v0 = self@;
        let ghost d = *self.data;
        proof {
            crate::ast::lemma_nodes_view(parts@);
        }
        let mut i: usize = 0;
        while i < parts.len()
            invariant
                self.wf(),
                self.data == old(self).data,
                self.input == old(self).input,
                d == *self.data,
                v0 == old(self)@,
                i <= parts@.len(),
                pv == nodes_view(parts@),
                pv.len() == parts@.len(),
                forall|k: int| 0 <= k < parts@.len() ==> #[trigger] pv[k] == parts@[k]@,
                walk_all(v0, d, pv.take(i as int)) == Ok::<MatcherView, Seq<char>>(self@),
            decreases parts@.len() - i,
        {
            proof {
                vstd::std_specs::vec::axiom_vec_index_decreases(*parts, i as int);
                assert(pv.take(i + 1).drop_last() =~= pv.take(i as int));
                assert(pv.take(i + 1).last() == parts@[i as int]@);
            }
            let r = self.walk(&parts[i]);
            match r {
                Ok(()) => {},
                Err(e) => {
                    proof {
                        lemma_walk_all_err(v0, d, pv, i + 1);
                    }
                    return Err(e);
                },
            }
            i += 1;
        }
        proof {
            assert(pv.take(parts@.len() as int) =~= pv);
        }
        Ok(())
    }

    /// Walk one node.
    fn walk(&mut self, node: &AstNode) -> (r: Result<(), MatchError>)
        requires
            old(self).wf(),
        ensures
            final(self).wf(),
            final(self).data == old(self).data,
            final(self).input == old(self).input,
            walk_outcome(r, final(self)@, walk_node(old(self)@, *old(self).data, node@)),
        decreases node,
    {
        let ghost v0 = self@;
        let ghost d = *self.data;
        match node {
            AstNode::List { span, parts } => {
                proof {
                    assert(node@ == AstView::List { span: *span, parts: nodes_view(parts@) });
                }
                self.walk_each(parts)
            },
            AstNode::Pipeline { span, parts } => {
                proof {
                    assert(node@ == AstView::Pipeline { span: *span, parts: nodes_view(parts@) });
                }
                self.walk_each(parts)
            },
            AstNode::Command { span, parts } => {
                proof {
                    assert(node@ == AstView::Command { span: *span, parts: nodes_view(parts@) });
                }
                self.visit_command(parts)
            },
            AstNode::Compound { span, list, redirects } => {
                proof {
                    assert(node@ == AstView::Compound {
                        span: *span,
                        list: nodes_view(list@),
                        redirects: nodes_view(redirects@),
                    });
                }
                self.walk_each(list)
            },
            AstNode::Keyword { kind, span, parts } => {
                proof {
                    assert(node@ == AstView::Keyword { kind: *kind, span: *span, parts: nodes_view(parts@) });
                }
                let compound = match kind {
                    KeywordKind::If => "if",
                    KeywordKind::For => "for",
                    KeywordKind::While => "while",
                    KeywordKind::Until => "until",
                    KeywordKind::Case => "case",
                    KeywordKind::Pattern => "pattern",
                };
                self.compound_stack.push(compound);
                let r = self.walk_each(parts);
                match r {
                    Ok(()) => {},
                    Err(e) => {
                        return Err(e);
                    },
                }
                self.compound_stack.pop();
                Ok(())
            },
            AstNode::Function { span, name, body, parts } => {
                proof {
                    assert(node@ == AstView::Function {
                        span: *span,
                        name: name@,
                        body: Box::new((*body)@),
                        parts: nodes_view(parts@),
                    });
                }
                self.functions.push(name.text.clone());
                let ghost v1 = self@;
                proof {
                    assert(strs(self.functions@) =~= v0.functions.push(name@.text));
                    assert(v1 == MatcherView { functions: v0.functions.push(name@.text), ..v0 });
                    lemma_walk_frame(v1, d, (*body)@);
                }
                let r = self.walk(body);
                match r {
                    Ok(()) => {},
                    Err(e) => {
                        return Err(e);
                    },
                }
                let ghost v2 = self@;
                let ghost f1 = self.functions@;
                proof {
                    assert(strs(f1).len() == f1.len());
                    assert(f1.len() > 0);
                }
                self.functions.pop();
                proof {
                    assert(strs(self.functions@) =~= strs(f1).drop_last());
                    assert(self@ == MatcherView { functions: v2.functions.drop_last(), ..v2 });
                }
                Ok(())
            },
            AstNode::Redirect { span, input, op, output, heredoc } => {
                match output {
                    RedirectTarget::Word(w) => {
                        proof {
                            assert(output@ == TargetView::Word(w@));
                            assert(node@ is Redirect);
                            assert(node@->Redirect_output == TargetView::Word(w@));
                        }
                        self.add_redirect_help(w.span);
                        self.walk_each(&w.parts)
                    },
                    _ => {
                        proof {
                            assert(!(output@ is Word));
                            assert(node@ is Redirect);
                            assert(node@->Redirect_output == output@);
                        }
                        Ok(())
                    },
                }
            },
            AstNode::Word(w) => {
                proof {
                    assert(node@ == AstView::Word(w@));
                }
                self.visit_word(w)
            },
            _ => self.walk_leaf(node),
        }
    }

    /// Walk a node without children to visit.
    fn walk_leaf(&mut self, node: &AstNode) -> (r: Result<(), MatchError>)
        requires
            old(self).wf(),
            !(node is List || node is Pipeline || node is Command || node is Compound || node is Keyword
                || node is Function || node is Redirect || node is Word),
        ensures
            final(self).wf(),
            final(self).data == old(self).data,
            final(self).input == old(self).input,
            walk_outcome(r, final(self)@, walk_node(old(self)@, *old(self).data, node@)),
    {
        proof {
            reveal_with_fuel(crate::ast::node_view, 2);
            reveal_with_fuel(crate::ast::word_view, 2);
        }
        match node {
            AstNode::CommandSubstitution { span, .. } => {
                self.add_expansion(*span, "substitution");
            },
            AstNode::ProcessSubstitution { span, .. } => {
                self.add_expansion(*span, "substitution");
            },
            AstNode::Tilde { span, .. } => {
                self.add_expansion(*span, "tilde");
            },
            AstNode::Parameter { span, value } => {
                let kind = match parse_i64(value.as_str()) {
                    Some(_) => "parameter-digits",
                    None => "parameter-param",
                };
                self.add_expansion(*span, kind);
            },
            AstNode::ReservedWord { word, span } => {
                self.add_shell_result(*span, reserved_help_text(word.as_str()), DebugInfo::ReservedWord);
            },
            AstNode::Operator { op, span } => {
                self.add_shell_result(*span, operator_help_text(op.as_str()), DebugInfo::Operator);
            },
            AstNode::Pipe { span, .. } => {
                self.add_shell_result(
                    *span,
                    "A pipeline is a sequence of one or more commands separated by one of the control operators | or |&.",
                    DebugInfo::Pipe,
                );
            },
            AstNode::Assignment(w) => {
                self.add_shell_result(w.span, "An assignment statement sets a variable value.", DebugInfo::Assignment);
            },
            _ => {},
        }
        Ok(())
    }

    /// Match one argument or redirect of a command.
    fn visit_command_part(&mut self, part: &AstNode, cmd: Span) -> (r: Result<(), MatchError>)
        requires
            old(self).wf(),
        ensures
            final(self).wf(),
            final(self).data == old(self).data,
            final(self).input == old(self).input,
            walk_outcome(r, final(self)@, command_part(old(self)@, *old(self).data, part@, cmd)),
        decreases part,
    {
        match part {
            AstNode::Word(w) => {
                proof {
                    assert(part@ == AstView::Word(w@));
                }
                if w.span.start != cmd.start || w.span.end != cmd.end {
                    self.visit_word(w)?;
                }
                Ok(())
            },
            AstNode::Redirect { span, input, op, output, heredoc } => {
                match output {
                    RedirectTarget::Word(w) => {
                        proof {
                            assert(output@ == TargetView::Word(w@));
                            assert(part@ is Redirect);
                            assert(part@->Redirect_output == TargetView::Word(w@));
                            assert(part@->Redirect_span == *span);
                        }
                        self.add_redirect_help(*span);
                        self.walk_each(&w.parts)
                    },
                    _ => {
                        proof {
                            assert(!(output@ is Word));
                            assert(part@->Redirect_output == output@);
                        }
                        Ok(())
                    },
                }
            },
            _ => {
                proof {
                    assert(!(part@ is Word) && !(part@ is Redirect));
                }
                Ok(())
            },
        }
    }

    /// Match a simple command: look up its manpage (or a `command
    /// subcommand` pair), open a command group with the synopsis, and match
    /// its words and redirects.
    fn visit_command(&mut self, parts: &Vec<AstNode>) -> (r: Result<(), MatchError>)
        requires
            old(self).wf(),
        ensures
            final(self).wf(),
            final(self).data == old(self).data,
            final(self).input == old(self).input,
            walk_outcome(r, final(self)@, visit_command_spec(old(self)@, *old(self).data, nodes_view(parts@))),
        decreases parts,
    {
        let ghost pv = nodes_view(parts@);
        let ghost v0 = self@;
        let ghost d = *self.data;
        proof {
            crate::ast::lemma_nodes_view(parts@);
            reveal_with_fuel(crate::ast::node_view, 2);
            reveal_with_fuel(crate::ast::word_view, 2);
        }
        if parts.len() == 0 {
            return Ok(());
        }
        let idx = match first_word_index(parts) {
            None => {
                return Ok(());
            },
            Some(i) => i,
        };
        let word_node = match &parts[idx] {
            AstNode::Word(w) => w,
            _ => {
                return Ok(());
            },
        };
        let ghost wn = word_node@;
        proof {
            assert(pv[idx as int] == AstView::Word(wn));
        }
        let ws = word_node.span.start;
        let we = word_node.span.end;
        if contains_str(&self.functions, word_node.text.as_str()) {
            let mut msg = String::new();
            push_str(&mut msg, "Call to function '");
            push_str(&mut msg, word_node.text.as_str());
            push_str(&mut msg, "'.");
            self.add_match_result(ws, we, msg.as_str(), None, DebugInfo::FunctionCall);
            return Ok(());
        }
        let mps = self.find_man_pages(word_node.text.as_str())?;
        let ghost mpsv = pages_view(mps@);
        let mut manpage = mps[0].clone();
        let mut suggestions: Vec<ParsedManpage> = Vec::new();
        let mut k: usize = 1;
        while k < mps.len()
            invariant
                1 <= k <= mps@.len(),
                suggestions@.len() == k - 1,
                forall|m: int| 0 <= m < suggestions@.len() ==> #[trigger] suggestions@[m]@ == mps@[m + 1]@,
            decreases mps@.len() - k,
        {
            suggestions.push(mps[k].clone());
            k += 1;
        }
        proof {
            assert(pages_view(suggestions@) =~= mpsv.drop_first());
        }
        // Subcommand: the first later word that names a manpage together
        // with the command.
        let mut endpos = we;
        let mut j: usize = 0;
        let mut sub_found = false;
        proof {
            assert(mpsv[0] == manpage@);
        }
        while j < parts.len() && !sub_found
            invariant
                j <= parts@.len(),
                d == *self.data,
                pv == nodes_view(parts@),
                pv.len() == parts@.len(),
                forall|m: int| 0 <= m < parts@.len() ==> #[trigger] pv[m] == parts@[m]@,
                wn == word_node@,
                ws == wn.span.start,
                we == wn.span.end,
                match subcommand(d, pv, wn, 0) {
                    Some(p) => if sub_found {
                        p == (manpage@, endpos)
                    } else {
                        subcommand(d, pv, wn, j as int) == Some(p)
                    },
                    None => !sub_found && subcommand(d, pv, wn, j as int) is None,
                },
                !sub_found ==> manpage@ == mpsv[0] && endpos == we,
                mpsv.len() > 0,
            decreases parts@.len() - j,
        {
            proof {
                reveal_with_fuel(crate::ast::node_view, 2);
                reveal_with_fuel(crate::ast::word_view, 2);
            }
            match &parts[j] {
                AstNode::Word(w) => {
                    proof {
                        assert(pv[j as int] == AstView::Word(w@));
                    }
                    if w.span.start > ws {
                        let mut multi = String::new();
                        push_str(&mut multi, word_node.text.as_str());
                        push_str(&mut multi, " ");
                        push_str(&mut multi, w.text.as_str());
                        let ghost key = wn.text + " "@ + w@.text;
                        proof {
                            assert(multi@ =~= key);
                        }
                        match self.find_man_pages(multi.as_str()) {
                            Ok(sub_mps) => {
                                proof {
                                    assert(find_pages(d, key) is Some);
                                    assert(pages_view(sub_mps@).len() == sub_mps@.len());
                                    assert(pages_view(sub_mps@)[0] == sub_mps@[0]@);
                                    assert(subcommand(d, pv, wn, j as int) == Some(
                                        (find_pages(d, key)->0[0], w.span.end),
                                    ));
                                }
                                manpage = sub_mps[0].clone();
                                endpos = w.span.end;
                                sub_found = true;
                            },
                            Err(_) => {
                                proof {
                                    assert(find_pages(d, key) is None);
                                    assert(subcommand(d, pv, wn, j as int) == subcommand(d, pv, wn, j + 1));
                                }
                            },
                        }
                    } else {
                        proof {
                            assert(subcommand(d, pv, wn, j as int) == subcommand(d, pv, wn, j + 1));
                        }
                    }
                },
                _ => {
                    proof {
                        assert(!(pv[j as int] is Word));
                        assert(subcommand(d, pv, wn, j as int) == subcommand(d, pv, wn, j + 1));
                    }
                },
            }
            j += 1;
        }
        let name = self.generate_cmd_group_name();
        let synopsis = match &manpage.synopsis {
            Some(s) => s.clone(),
            None => "no synopsis found".to_owned(),
        };
        let mut results: Vec<MatchResult> = Vec::new();
        results.push(
            MatchResult {
                start: ws,
                end: endpos,
                text: Some(synopsis),
                match_text: None,
                debug_info: Some(DebugInfo::Synopsis),
            },
        );
        let ghost mg = manpage@;
        let ghost ep = endpos;
        proof {
            let sp = match subcommand(d, pv, wn, 0) {
                Some(p) => p,
                None => (mpsv[0], wn.span.end),
            };
            assert(mg == sp.0 && ep == sp.1);
            assert(results_view(results@) =~= seq![
                result_of(ws, endpos, synopsis_text(mg), None, DebugView::Synopsis),
            ]);
        }
        let group = MatchGroup {
            name,
            results,
            manpage: Some(manpage),
            suggestions,
            error: None,
            positional_index: 0,
        };
        let ghost gv = group@;
        let ghost old_stack = self.group_stack@;
        self.group_stack.push(group);
        let ghost v1 = self@;
        proof {
            assert(groups_view(self.group_stack@) =~= groups_view(old_stack).push(gv));
            assert(v1 == MatcherView { stack: v0.stack.push(gv), ..v0 });
            assert(command_parts(v1, d, pv.take(0), wn.span) == Ok::<MatcherView, Seq<char>>(v1));
            assert(first_word(pv) == Some(idx as int));
            assert(gv == MatchGroupView {
                name: "command"@ + decimal_text(command_group_count(v0.groups)),
                results: seq![result_of(ws, ep, synopsis_text(mg), None, DebugView::Synopsis)],
                manpage: Some(mg),
                suggestions: mpsv.drop_first(),
                error: None,
                positional_index: 0,
            });
            assert(visit_command_spec(v0, d, pv) == close_command(command_parts(v1, d, pv, wn.span)));
        }
        // Match the arguments and redirects.
        let mut i: usize = 0;
        while i < parts.len()
            invariant
                self.wf(),
                self.data == old(self).data,
                self.input == old(self).input,
                d == *self.data,
                i <= parts@.len(),
                pv == nodes_view(parts@),
                pv.len() == parts@.len(),
                forall|m: int| 0 <= m < parts@.len() ==> #[trigger] pv[m] == parts@[m]@,
                wn == word_node@,
                ws == wn.span.start,
                we == wn.span.end,
                v1.stack.len() >= 2,
                v1.groups.len() >= 1,
                v0 == old(self)@,
                visit_command_spec(v0, d, pv) == close_command(command_parts(v1, d, pv, wn.span)),
                self@.stack.len() == v1.stack.len(),
                self@.stack.len() == self.group_stack@.len(),
                command_parts(v1, d, pv.take(i as int), wn.span) == Ok::<MatcherView, Seq<char>>(self@),
            decreases parts@.len() - i,
        {
            proof {
                vstd::std_specs::vec::axiom_vec_index_decreases(*parts, i as int);
                assert(pv.take(i + 1).drop_last() =~= pv.take(i as int));
                assert(pv.take(i + 1).last() == parts@[i as int]@);
            }
            let r = self.visit_command_part(&parts[i], word_node.span);
            match r {
                Ok(()) => {},
                Err(e) => {
                    proof {
                        lemma_command_parts_err(v1, d, pv, wn.span, i + 1);
                    }
                    return Err(e);
                },
            }
            proof {
                lemma_command_parts_frame(v1, d, pv.take(i + 1), wn.span);
            }
            i += 1;
        }
        proof {
            assert(pv.take(parts@.len() as int) =~= pv);
        }
        let ghost v2 = self@;
        let ghost g2 = self.groups@;
        let completed = self.group_stack.pop().unwrap();
        self.groups.push(completed);
        proof {
            assert(groups_view(self.groups@) =~= v2.groups.push(v2.stack.last()));
            assert(groups_view(self.group_stack@) =~= v2.stack.drop_last());
        }
        Ok(())
    }
}

/// What explaining a parsed command gives: the groups and expansions of
/// walking its nodes; `Err(None)` for no nodes, `Err(Some(name))` when the
/// program `name` has no manpage.
pub open spec fn explain_spec(d: ManpageData, ast: Seq<AstView>) -> Result<
    (Seq<MatchGroupView>, Seq<ExpansionView>),
    Option<Seq<char>>,
> {
    if ast.len() == 0 {
        Err(None)
    } else {
        match walk_all(initial_state(), d, ast) {
            Ok(v) => Ok((v.groups, v.expansions)),
            Err(n) => Err(Some(n)),
        }
    }
}

/// The result matches the model's outcome.
pub open spec fn explain_outcome(
    r: Result<ExplainResult, MatchError>,
    expected: Result<(Seq<MatchGroupView>, Seq<ExpansionView>), Option<Seq<char>>>,
) -> bool {
    match expected {
        Ok((gs, es)) => r matches Ok(res) && groups_view(res.groups@) == gs && expansions_view(
            res.expansions@,
        ) == es,
        Err(None) => r matches Err(MatchError::EmptyInput),
        Err(Some(n)) => r matches Err(MatchError::UnknownProgram(m)) && m@ == n,
    }
}

/// Law: whatever is explained, the first group is the shell group.
pub proof fn lemma_shell_group_first(d: ManpageData, ast: Seq<AstView>)
    ensures
        explain_spec(d, ast) matches Ok((gs, _)) ==> gs.len() >= 1 && gs[0].name == "shell"@,
{
    lemma_walk_all_frame(initial_state(), d, ast);
}

/// The groups are the shell group, with no manpage, and then `command0`,
/// `command1`, ... in order, each with its manpage.
pub open spec fn numbered(g: Seq<MatchGroupView>) -> bool {
    &&& g.len() >= 1
    &&& g[0].name == "shell"@
    &&& forall|i: int|
        1 <= i < g.len() ==> #[trigger] g[i].name == "command"@ + decimal_text((i - 1) as nat)
    &&& g[0].manpage is None
    &&& forall|i: int| 1 <= i < g.len() ==> #[trigger] g[i].manpage is Some
}

/// A step that keeps the names and number of the output groups and the
/// depth and top name of the group stack.
pub open spec fn names_kept(v: MatcherView, v1: MatcherView) -> bool {
    &&& v1.groups.len() == v.groups.len()
    &&& forall|i: int| 0 <= i < v.groups.len() ==> #[trigger] v1.groups[i].name == v.groups[i].name
    &&& forall|i: int| 0 <= i < v.groups.len() ==> #[trigger] v1.groups[i].manpage == v.groups[i].manpage
    &&& v1.stack.len() == v.stack.len()
    &&& v1.stack.last().name == v.stack.last().name
    &&& v1.stack.last().manpage == v.stack.last().manpage
}

proof fn lemma_short_names(
    v: MatcherView,
    mp: ParsedManpageView,
    text: Seq<char>,
    start: usize,
    end: usize,
    i: int,
    pos: usize,
    prev: Option<CliOptionView>,
)
    requires
        v.stack.len() >= 1,
    ensures
        names_kept(v, short_options(v, mp, text, start, end, i, pos, prev)),
    decreases text.len() - i,
{
    if i < 0 || i + 1 >= text.len() {
    } else {
        let t = seq![text[i + 1]];
        let next = sat_add(pos, char_width(text[i + 1]));
        match first_option(mp.options, "-"@ + t) {
            Some(o) => if i == 0 && takes_argument(o) {
            } else {
                lemma_short_names(
                    push_top(v, result_of(pos, next, o.text, Some(t), option_debug(o))),
                    mp, text, start, end, i + 1, next, Some(o),
                );
            },
            None => if i > 0 && (prev matches Some(p) && takes_argument(p)) {
            } else {
                lemma_short_names(
                    push_top(v, unknown_result(pos, next)),
                    mp, text, start, end, i + 1, next, None,
                );
            },
        }
    }
}

proof fn lemma_word_names(v: MatcherView, w: WordView)
    requires
        v.stack.len() >= 1,
    ensures
        names_kept(v, visit_word_spec(v, w)),
{
    reveal(visit_word_spec);
    match man_page_of(v) {
        None => {},
        Some(mp) => {
            let v1 = MatcherView { prev: v.current, ..v };
            lemma_short_names(v1, mp, w.text, w.span.start, w.span.end, 0, w.span.start, None);
        },
    }
}

/// Walking expansion nodes only records expansions.
proof fn lemma_leaf_walk(v: MatcherView, d: ManpageData, s: Seq<AstView>)
    requires
        forall|i: int| 0 <= i < s.len() ==> expansion_leaf(#[trigger] s[i]),
    ensures
        walk_all(v, d, s) matches Ok(v1) ==> names_kept(v, v1),
    decreases s.len(),
{
    if s.len() > 0 {
        assert forall|i: int| 0 <= i < s.drop_last().len() implies expansion_leaf(
            #[trigger] s.drop_last()[i],
        ) by {
            assert(s.drop_last()[i] == s[i]);
        }
        lemma_leaf_walk(v, d, s.drop_last());
        assert(expansion_leaf(s[s.len() - 1]));
        match walk_all(v, d, s.drop_last()) {
            Ok(v1) => {
                assert(walk_node(v1, d, s.last()) is Ok);
                let v2 = walk_node(v1, d, s.last())->Ok_0;
                assert(v2.groups == v1.groups && v2.stack == v1.stack);
                assert forall|i: int| 0 <= i < v.groups.len() implies #[trigger] v2.groups[i].name
                    == v.groups[i].name by {
                    assert(v1.groups[i].name == v.groups[i].name);
                }
            },
            Err(_) => {},
        }
    }
}

proof fn lemma_command_parts_names(v: MatcherView, d: ManpageData, parts: Seq<AstView>, cmd: Span)
    requires
        v.stack.len() >= 1,
        v.groups.len() >= 1,
        all_words_seq(parts, leaf_pred()),
    ensures
        command_parts(v, d, parts, cmd) matches Ok(v1) ==> names_kept(v, v1),
    decreases parts.len(),
{
    if parts.len() > 0 {
        lemma_command_parts_names(v, d, parts.drop_last(), cmd);
        assert(all_words(parts.last(), leaf_pred()));
        match command_parts(v, d, parts.drop_last(), cmd) {
            Ok(v1) => {
                match parts.last() {
                    AstView::Word(w) => lemma_word_names(v1, w),
                    AstView::Redirect { span, output, .. } => match output {
                        TargetView::Word(w) => {
                            assert(leaf_pred()(w));
                            lemma_leaf_walk(
                                push_shell(v1, shell_result(span, redirection_help(), DebugView::Redirect)),
                                d,
                                w.parts,
                            );
                        },
                        _ => {},
                    },
                    _ => {},
                }
                if command_parts(v, d, parts, cmd) is Ok {
                    let v2 = command_parts(v, d, parts, cmd)->Ok_0;
                    assert(v2 == command_part(v1, d, parts.last(), cmd)->Ok_0);
                    assert forall|i: int| 0 <= i < v.groups.len() implies #[trigger] v2.groups[i].name
                        == v.groups[i].name by {
                        assert(v1.groups[i].name == v.groups[i].name);
                    }
                }
            },
            Err(_) => {},
        }
    }
}

/// A numbered list has one command group less than it has groups.
proof fn lemma_numbered_count(g: Seq<MatchGroupView>)
    requires
        numbered(g),
    ensures
        command_group_count(g) == g.len() - 1,
    decreases g.len(),
{
    reveal_strlit("shell");
    reveal_strlit("command");
    if g.len() == 1 {
        assert(!has_prefix(g[0].name, "command"@));
        assert(command_group_count(g.drop_last()) == 0);
    } else {
        let h = g.drop_last();
        assert forall|i: int| 1 <= i < h.len() implies #[trigger] h[i].name == "command"@ + decimal_text(
            (i - 1) as nat,
        ) by {
            assert(h[i] == g[i]);
        }
        assert(h[0] == g[0]);
        lemma_numbered_count(h);
        let n = g[g.len() - 1].name;
        assert(n == "command"@ + decimal_text((g.len() - 2) as nat));
        assert(n.take("command"@.len() as int) =~= "command"@);
    }
}

proof fn lemma_walk_numbered(v: MatcherView, d: ManpageData, n: AstView)
    requires
        numbered(v.groups),
        v.stack.len() >= 1,
        all_words(n, leaf_pred()),
    ensures
        walk_node(v, d, n) matches Ok(v1) ==> numbered(v1.groups) && v1.stack.len() == v.stack.len(),
    decreases n, 0nat,
{
    match n {
        AstView::List { parts, .. } => lemma_walk_all_numbered(v, d, parts),
        AstView::Pipeline { parts, .. } => lemma_walk_all_numbered(v, d, parts),
        AstView::Command { parts, .. } => lemma_command_numbered(v, d, parts),
        AstView::Compound { list, .. } => lemma_walk_all_numbered(v, d, list),
        AstView::Keyword { parts, .. } => lemma_walk_all_numbered(v, d, parts),
        AstView::Function { name, body, .. } => {
            lemma_walk_numbered(MatcherView { functions: v.functions.push(name.text), ..v }, d, *body);
        },
        AstView::Redirect { output, .. } => match output {
            TargetView::Word(w) => {
                assert(leaf_pred()(w));
                let v0 = push_shell(v, shell_result(w.span, redirection_help(), DebugView::Redirect));
                lemma_leaf_walk(v0, d, w.parts);
                if walk_all(v0, d, w.parts) is Ok {
                    let v1 = walk_all(v0, d, w.parts)->Ok_0;
                    assert forall|i: int| 1 <= i < v1.groups.len() implies #[trigger] v1.groups[i].name
                        == "command"@ + decimal_text((i - 1) as nat) by {
                        assert(v1.groups[i].name == v0.groups[i].name);
                        assert(v0.groups[i] == v.groups[i]);
                    }
                    assert(v1.groups[0].name == v0.groups[0].name);
                }
            },
            _ => {},
        },
        AstView::Word(w) => {
            lemma_word_names(v, w);
            let v1 = visit_word_spec(v, w);
            assert forall|i: int| 1 <= i < v1.groups.len() implies #[trigger] v1.groups[i].name
                == "command"@ + decimal_text((i - 1) as nat) by {
                assert(v1.groups[i].name == v.groups[i].name);
            }
            assert(v1.groups[0].name == v.groups[0].name);
        },
        AstView::ReservedWord { span, word } => {
            let v1 = push_shell(v, shell_result(span, reserved_help(word), DebugView::ReservedWord));
            assert forall|i: int| 1 <= i < v1.groups.len() implies #[trigger] v1.groups[i].name
                == "command"@ + decimal_text((i - 1) as nat) by {
                assert(v1.groups[i] == v.groups[i]);
            }
        },
        AstView::Operator { span, op } => {
            let v1 = push_shell(v, shell_result(span, operator_help(op), DebugView::Operator));
            assert forall|i: int| 1 <= i < v1.groups.len() implies #[trigger] v1.groups[i].name
                == "command"@ + decimal_text((i - 1) as nat) by {
                assert(v1.groups[i] == v.groups[i]);
            }
        },
        AstView::Pipe { span, .. } => {
            let v1 = push_shell(v, shell_result(span, pipelines_help(), DebugView::Pipe));
            assert forall|i: int| 1 <= i < v1.groups.len() implies #[trigger] v1.groups[i].name
                == "command"@ + decimal_text((i - 1) as nat) by {
                assert(v1.groups[i] == v.groups[i]);
            }
        },
        AstView::Assignment(w) => {
            let v1 = push_shell(v, shell_result(w.span, assignment_help(), DebugView::Assignment));
            assert forall|i: int| 1 <= i < v1.groups.len() implies #[trigger] v1.groups[i].name
                == "command"@ + decimal_text((i - 1) as nat) by {
                assert(v1.groups[i] == v.groups[i]);
            }
        },
        _ => {},
    }
}

proof fn lemma_walk_all_numbered(v: MatcherView, d: ManpageData, s: Seq<AstView>)
    requires
        numbered(v.groups),
        v.stack.len() >= 1,
        all_words_seq(s, leaf_pred()),
    ensures
        walk_all(v, d, s) matches Ok(v1) ==> numbered(v1.groups) && v1.stack.len() == v.stack.len(),
    decreases s, 0nat,
{
    if s.len() > 0 {
        lemma_walk_all_numbered(v, d, s.drop_last());
        match walk_all(v, d, s.drop_last()) {
            Ok(v1) => lemma_walk_numbered(v1, d, s.last()),
            Err(_) => {},
        }
    }
}

proof fn lemma_command_numbered(v: MatcherView, d: ManpageData, parts: Seq<AstView>)
    requires
        numbered(v.groups),
        v.stack.len() >= 1,
        all_words_seq(parts, leaf_pred()),
    ensures
        visit_command_spec(v, d, parts) matches Ok(v1) ==> numbered(v1.groups) && v1.stack.len()
            == v.stack.len(),
    decreases parts, 2nat,
{
    match first_word(parts) {
        None => {},
        Some(i) => match parts[i] {
            AstView::Word(wn) => if v.functions.contains(wn.text) {
                let v1 = push_top(
                    v,
                    result_of(
                        wn.span.start,
                        wn.span.end,
                        "Call to function '"@ + wn.text + "'."@,
                        None,
                        DebugView::FunctionCall,
                    ),
                );
                assert(v1.groups == v.groups);
            } else {
                match find_pages(d, wn.text) {
                    None => {},
                    Some(mps) => {
                        let (manpage, endpos) = match subcommand(d, parts, wn, 0) {
                            Some(p) => p,
                            None => (mps[0], wn.span.end),
                        };
                        lemma_numbered_count(v.groups);
                        let group = MatchGroupView {
                            name: "command"@ + decimal_text(command_group_count(v.groups)),
                            results: seq![
                                result_of(
                                    wn.span.start,
                                    endpos,
                                    synopsis_text(manpage),
                                    None,
                                    DebugView::Synopsis,
                                ),
                            ],
                            manpage: Some(manpage),
                            suggestions: mps.drop_first(),
                            error: None,
                            positional_index: 0,
                        };
                        let v0 = MatcherView { stack: v.stack.push(group), ..v };
                        lemma_command_parts_names(v0, d, parts, wn.span);
                        match command_parts(v0, d, parts, wn.span) {
                            Ok(v2) => {
                                let v3 = MatcherView {
                                    groups: v2.groups.push(v2.stack.last()),
                                    stack: v2.stack.drop_last(),
                                    ..v2
                                };
                                assert(v2.stack.last().name == group.name);
                                assert forall|k: int| 1 <= k < v3.groups.len() implies #[trigger] v3.groups[k].name
                                    == "command"@ + decimal_text((k - 1) as nat) by {
                                    if k < v2.groups.len() {
                                        assert(v3.groups[k] == v2.groups[k]);
                                        assert(v2.groups[k].name == v0.groups[k].name);
                                    }
                                }
                                assert(v3.groups[0] == v2.groups[0]);
                                assert(v2.groups[0].name == v0.groups[0].name);
                                assert(v2.groups[0].manpage == v0.groups[0].manpage);
                                assert(v2.stack.last().manpage == group.manpage);
                                assert forall|k: int| 1 <= k < v3.groups.len() implies #[trigger] v3.groups[k].manpage
                                    is Some by {
                                    if k < v2.groups.len() {
                                        assert(v3.groups[k] == v2.groups[k]);
                                        assert(v2.groups[k].manpage == v0.groups[k].manpage);
                                    }
                                }
                            },
                            Err(_) => {},
                        }
                    },
                }
            },
            _ => {},
        },
    }
}

/// Law: explaining a tree whose words hold only expansion nodes gives the
/// shell group first, with no manpage, and then the command groups, named
/// `command0`, `command1`, ... in the order the commands finish, each with
/// the manpage it was matched against.
pub proof fn lemma_groups_numbered(d: ManpageData, ast: Seq<AstView>)
    requires
        all_words_seq(ast, leaf_pred()),
    ensures
        explain_spec(d, ast) matches Ok((gs, _)) ==> numbered(gs),
{
    reveal_strlit("shell");
    assert(numbered(initial_state().groups));
    lemma_walk_all_numbered(initial_state(), d, ast);
}

/// The number of commands with a word that walking `n` meets.
pub open spec fn command_count(n: AstView) -> nat
    decreases n,
{
    match n {
        AstView::List { parts, .. } => commands_count(parts),
        AstView::Pipeline { parts, .. } => commands_count(parts),
        AstView::Keyword { parts, .. } => commands_count(parts),
        AstView::Compound { list, .. } => commands_count(list),
        AstView::Command { parts, .. } => if first_word(parts) is Some {
            1
        } else {
            0
        },
        _ => 0,
    }
}

/// The number of commands with a word that walking the nodes meets.
pub open spec fn commands_count(s: Seq<AstView>) -> nat
    decreases s,
{
    if s.len() == 0 {
        0
    } else {
        commands_count(s.drop_last()) + command_count(s.last())
    }
}

/// Walking `n` meets no function definition.
pub open spec fn function_free(n: AstView) -> bool
    decreases n,
{
    match n {
        AstView::List { parts, .. } => functions_free(parts),
        AstView::Pipeline { parts, .. } => functions_free(parts),
        AstView::Keyword { parts, .. } => functions_free(parts),
        AstView::Compound { list, .. } => functions_free(list),
        AstView::Function { .. } => false,
        _ => true,
    }
}

/// Walking the nodes meets no function definition.
pub open spec fn functions_free(s: Seq<AstView>) -> bool
    decreases s,
{
    if s.len() == 0 {
        true
    } else {
        functions_free(s.drop_last()) && function_free(s.last())
    }
}

proof fn lemma_walk_count(v: MatcherView, d: ManpageData, n: AstView)
    requires
        v.functions.len() == 0,
        v.stack.len() >= 1,
        v.groups.len() >= 1,
        all_words(n, leaf_pred()),
        function_free(n),
    ensures
        walk_node(v, d, n) matches Ok(v1) ==> v1.groups.len() == v.groups.len() + command_count(n)
            && v1.functions.len() == 0 && v1.stack.len() == v.stack.len(),
    decreases n, 0nat,
{
    lemma_walk_frame(v, d, n);
    match n {
        AstView::List { parts, .. } => lemma_walk_all_count(v, d, parts),
        AstView::Pipeline { parts, .. } => lemma_walk_all_count(v, d, parts),
        AstView::Compound { list, .. } => lemma_walk_all_count(v, d, list),
        AstView::Keyword { parts, .. } => lemma_walk_all_count(v, d, parts),
        AstView::Command { parts, .. } => {
            match first_word(parts) {
                None => {},
                Some(i) => {
                    lemma_first_word_is_word(parts);
                    match parts[i] {
                        AstView::Word(wn) => {
                            assert(!v.functions.contains(wn.text));
                            match find_pages(d, wn.text) {
                                None => {},
                                Some(mps) => {
                                    let (manpage, endpos) = match subcommand(d, parts, wn, 0) {
                                        Some(p) => p,
                                        None => (mps[0], wn.span.end),
                                    };
                                    let group = MatchGroupView {
                                        name: "command"@ + decimal_text(command_group_count(v.groups)),
                                        results: seq![
                                            result_of(
                                                wn.span.start,
                                                endpos,
                                                synopsis_text(manpage),
                                                None,
                                                DebugView::Synopsis,
                                            ),
                                        ],
                                        manpage: Some(manpage),
                                        suggestions: mps.drop_first(),
                                        error: None,
                                        positional_index: 0,
                                    };
                                    let v0 = MatcherView { stack: v.stack.push(group), ..v };
                                    lemma_command_parts_names(v0, d, parts, wn.span);
                                    assert(walk_node(v, d, n) == visit_command_spec(v, d, parts));
                                    assert(visit_command_spec(v, d, parts) == close_command(
                                        command_parts(v0, d, parts, wn.span),
                                    ));
                                    assert(command_count(n) == 1);
                                },
                            }
                        },
                        _ => {},
                    }
                },
            }
        },
        AstView::Redirect { output, .. } => match output {
            TargetView::Word(w) => {
                assert(leaf_pred()(w));
                lemma_leaf_walk(
                    push_shell(v, shell_result(w.span, redirection_help(), DebugView::Redirect)),
                    d,
                    w.parts,
                );
            },
            _ => {},
        },
        AstView::Word(w) => lemma_word_names(v, w),
        _ => {},
    }
}

proof fn lemma_walk_all_count(v: MatcherView, d: ManpageData, s: Seq<AstView>)
    requires
        v.functions.len() == 0,
        v.stack.len() >= 1,
        v.groups.len() >= 1,
        all_words_seq(s, leaf_pred()),
        functions_free(s),
    ensures
        walk_all(v, d, s) matches Ok(v1) ==> v1.groups.len() == v.groups.len() + commands_count(s)
            && v1.functions.len() == 0 && v1.stack.len() == v.stack.len(),
    decreases s, 0nat,
{
    if s.len() > 0 {
        lemma_walk_all_count(v, d, s.drop_last());
        match walk_all(v, d, s.drop_last()) {
            Ok(v1) => lemma_walk_count(v1, d, s.last()),
            Err(_) => {},
        }
    }
}

/// The first word found is a word node.
proof fn lemma_first_word_is_word(s: Seq<AstView>)
    ensures
        first_word(s) matches Some(i) ==> 0 <= i < s.len() && s[i] is Word,
    decreases s.len(),
{
    if s.len() > 0 {
        lemma_first_word_is_word(s.drop_last());
        crate::ast::lemma_word_kind(s.last());
        if first_word(s.drop_last()) is Some {
            let i = first_word(s.drop_last())->0;
            assert(s.drop_last()[i] == s[i]);
        }
    }
}

/// Law: explaining a tree without function definitions, whose words hold
/// only expansion nodes, gives the shell group and one group per command
/// that has a word.
pub proof fn lemma_one_group_per_command(d: ManpageData, ast: Seq<AstView>)
    requires
        all_words_seq(ast, leaf_pred()),
        functions_free(ast),
    ensures
        explain_spec(d, ast) matches Ok((gs, _)) ==> gs.len() == 1 + commands_count(ast),
{
    lemma_walk_all_count(initial_state(), d, ast);
}

impl<'a> Matcher<'a> {
    /// Walk the nodes of a parsed command and hand out the groups.
    fn match_nodes(&mut self, ast: &Vec<AstNode>) -> (r: Result<Vec<MatchGroup>, MatchError>)
        requires
            old(self).wf(),
            old(self)@ == initial_state(),
        ensures
            final(self).wf(),
            final(self).input == old(self).input,
            final(self).data == old(self).data,
            match explain_spec(*old(self).data, nodes_view(ast@)) {
                Ok((gs, es)) => r matches Ok(g) && groups_view(g@) == gs && expansions_view(
                    final(self).expansions@,
                ) == es,
                Err(None) => r matches Err(MatchError::EmptyInput),
                Err(Some(n)) => r matches Err(MatchError::UnknownProgram(m)) && m@ == n,
            },
    {
        if ast.len() == 0 {
            return Err(MatchError::EmptyInput);
        }
        let ghost d = *self.data;
        let r = self.walk_each(ast);
        match r {
            Ok(()) => {},
            Err(e) => {
                return Err(e);
            },
        }
        let mut groups: Vec<MatchGroup> = Vec::new();
        std::mem::swap(&mut groups, &mut self.groups);
        let shell = new_group("shell");
        self.groups.push(shell);
        Ok(groups)
    }

    /// Parse the input and match it.
    fn match_ast(&mut self) -> (r: Result<Vec<MatchGroup>, MatchError>)
        requires
            old(self).wf(),
            old(self)@ == initial_state(),
        ensures
            final(self).wf(),
            r matches Ok(g) ==> exists|ast: Seq<AstNode>|
                #![trigger nodes_view(ast)]
                crate::parser::parse_shaped(ast, old(self).input.spec_bytes())
                    && explain_spec(*old(self).data, nodes_view(ast)) == Ok::<
                    (Seq<MatchGroupView>, Seq<ExpansionView>),
                    Option<Seq<char>>,
                >((groups_view(g@), expansions_view(final(self).expansions@))),
            r matches Err(e) ==> e is EmptyInput || e is UnknownProgram,
            r matches Err(MatchError::UnknownProgram(n)) ==> exists|ast: Seq<AstNode>|
                #![trigger nodes_view(ast)]
                crate::parser::parse_shaped(ast, old(self).input.spec_bytes()) && explain_spec(
                    *old(self).data,
                    nodes_view(ast),
                ) == Err::<(Seq<MatchGroupView>, Seq<ExpansionView>), Option<Seq<char>>>(Some(n@)),
            crate::parser::blank_from(old(self).input.spec_bytes(), 0) ==> r matches Err(
                MatchError::EmptyInput,
            ),
    {
        let ast = match crate::parser::parse(self.input, true, Some(1)) {
            Ok(a) => a,
            Err(_) => {
                return Err(MatchError::EmptyInput);
            },
        };
        let r = self.match_nodes(&ast);
        proof {
            if r is Ok {
                assert(crate::parser::parse_shaped(ast@, self.input.spec_bytes()));
            }
            if r is Err {
                assert(crate::parser::parse_shaped(ast@, self.input.spec_bytes()));
            }
        }
        r
    }
}

/// Explain the nodes parsed from `input`: walk them, resolving each
/// command to its manpage.
pub fn explain_nodes(input: &str, ast: &Vec<AstNode>, data: &ManpageData) -> (r: Result<
    ExplainResult,
    MatchError,
>)
    ensures
        explain_outcome(r, explain_spec(*data, nodes_view(ast@))),
{
    let mut matcher = Matcher::new(input, data);
    let groups = matcher.match_nodes(ast)?;
    Ok(ExplainResult { groups, expansions: matcher.expansions })
}

/// `out` is what explaining the command line `text` can give: the
/// explanation of a list of nodes shaped as parsing the text's bytes
/// gives them.
pub open spec fn explains(
    d: ManpageData,
    text: Seq<char>,
    out: (Seq<MatchGroupView>, Seq<ExpansionView>),
) -> bool {
    exists|ast: Seq<AstNode>|
        #![trigger nodes_view(ast)]
        crate::parser::parse_shaped(ast, vstd::utf8::encode_utf8(text)) && explain_spec(
            d,
            nodes_view(ast),
        ) == Ok::<(Seq<MatchGroupView>, Seq<ExpansionView>), Option<Seq<char>>>(out)
}

/// Explaining the command line `text` can stop at an unknown program named
/// `n`: some tree shaped as parsing the text's bytes gives it has a command
/// whose program `n` has no manpage.
pub open spec fn unknown_in(d: ManpageData, text: Seq<char>, n: Seq<char>) -> bool {
    exists|ast: Seq<AstNode>|
        #![trigger nodes_view(ast)]
        crate::parser::parse_shaped(ast, vstd::utf8::encode_utf8(text)) && explain_spec(
            d,
            nodes_view(ast),
        ) == Err::<(Seq<MatchGroupView>, Seq<ExpansionView>), Option<Seq<char>>>(Some(n))
}

/// Match a raw command string against the manpage data: parse it (strict
/// heredocs, substitution children one level deep) and explain the nodes.
pub fn explain_command(input: &str, data: &ManpageData) -> (r: Result<ExplainResult, MatchError>)
    ensures
        r matches Ok(res) ==> explains(
            *data,
            input@,
            (groups_view(res.groups@), expansions_view(res.expansions@)),
        ),
        r matches Ok(res) ==> res.groups@.len() >= 1 && res.groups@[0].name@ == "shell"@,
        r matches Ok(res) ==> numbered(groups_view(res.groups@)),
        r matches Err(e) ==> e is EmptyInput || e is UnknownProgram,
        r matches Err(MatchError::UnknownProgram(n)) ==> unknown_in(*data, input@, n@),
        crate::parser::blank_from(input.spec_bytes(), 0) ==> r matches Err(MatchError::EmptyInput),
{
    let mut matcher = Matcher::new(input, data);
    let groups = matcher.match_ast()?;
    let res = ExplainResult { groups, expansions: matcher.expansions };
    proof {
        let ast = choose|ast: Seq<AstNode>|
            #![trigger nodes_view(ast)]
            crate::parser::parse_shaped(ast, input.spec_bytes()) && explain_spec(
                *data,
                nodes_view(ast),
            ) == Ok::<(Seq<MatchGroupView>, Seq<ExpansionView>), Option<Seq<char>>>(
                (groups_view(res.groups@), expansions_view(res.expansions@)),
            );
        lemma_shell_group_first(*data, nodes_view(ast));
        assert(groups_view(res.groups@)[0] == res.groups@[0]@);
        let src = input.spec_bytes();
        assert forall|w: WordView| #[trigger] crate::parser::read_pred(src)(w) implies leaf_pred()(w) by {
        }
        crate::ast::lemma_all_words_seq_mono(nodes_view(ast), crate::parser::read_pred(src), leaf_pred());
        lemma_groups_numbered(*data, nodes_view(ast));
    }
    Ok(res)
}

/// A found index lies inside the sequence.
proof fn lemma_index_of_bound(s: Seq<char>, c: char)
    ensures
        index_of(s, c) matches Some(i) ==> 0 <= i < s.len() && s[i] == c,
    decreases s.len(),
{
    if s.len() > 0 {
        lemma_index_of_bound(s.drop_last(), c);
    }
}

/// `&&` and `||` are explained by one and the same help text, the text of
/// AND and OR lists, so an operator result for `||` reads exactly as one
/// for `&&`.
pub proof fn lemma_and_or_share_help()
    ensures
        operator_help("||"@) == operator_help("&&"@),
        operator_help("||"@) == "AND and OR lists are sequences of pipelines separated by && and ||."@,
        operator_help("&&"@) == "AND and OR lists are sequences of pipelines separated by && and ||."@,
{
    reveal_strlit(";");
    reveal_strlit("&");
    reveal_strlit("&&");
    reveal_strlit("||");
    assert("||"@.len() == 2 && ";"@.len() == 1 && "&"@.len() == 1);
    assert("||"@ != ";"@);
    assert("||"@ != "&"@);
    assert("&&"@ != ";"@);
    assert("&&"@ != "&"@);
}

/// Walking an `&&` or `||` operator adds to the shell group one result at
/// the operator's span, and both spellings carry the AND/OR list help.
pub proof fn lemma_and_or_operator_result(v: MatcherView, d: ManpageData, span: Span, op: Seq<char>)
    requires
        v.groups.len() > 0,
        op == "&&"@ || op == "||"@,
    ensures
        walk_node(v, d, AstView::Operator { span, op }) matches Ok(v2) && v2.groups.len() == v.groups.len()
            && v2.groups[0].results == v.groups[0].results.push(
            MatchResultView {
                start: span.start,
                end: span.end,
                text: Some("AND and OR lists are sequences of pipelines separated by && and ||."@),
                match_text: None,
                debug_info: Some(DebugView::Operator),
            },
        ),
{
    lemma_and_or_share_help();
}

/// A `--flag=value` word that matches an option carries its own value: the
/// option it matched is left pending for no following word, so the next
/// word is never taken as that option's argument.
pub proof fn lemma_flag_value_leaves_no_pending_option(v: MatcherView, w: WordView)
    requires
        man_page_of(v) is Some,
        has_prefix(w.text, "--"@),
        index_of(w.text, '=') is Some,
        first_option(man_page_of(v).unwrap().options, word_key(w.text)) is Some,
    ensures
        visit_word_spec(v, w).current is None,
        word_key(w.text) != w.text,
{
    reveal(visit_word_spec);
    lemma_index_of_bound(w.text, '=');
    let i = index_of(w.text, '=').unwrap();
    assert(word_key(w.text) == w.text.take(i));
    assert(word_key(w.text).len() < w.text.len());
}

/// A word that names no positional argument, met once every positional
/// has been taken in turn, is explained as the last positional argument.
pub proof fn lemma_extra_word_takes_last_positional(
    v: MatcherView,
    mp: ParsedManpageView,
    text: Seq<char>,
    start: usize,
    end: usize,
)
    requires
        v.stack.len() > 0,
        positional_names(mp.options, false).len() > 0,
        first_prefixed(mp, 0) is None,
        !positional_names(mp.options, false).contains(text),
        v.stack.last().positional_index >= positional_names(mp.options, false).len(),
    ensures
        ({
            let last = positional_names(mp.options, false).last();
            let g = positional_step(v, mp, text, start, end).stack.last();
            &&& g.results.len() == v.stack.last().results.len() + 1
            &&& g.results.last().debug_info == Some(DebugView::Argument { positional: last, prefix: None })
            &&& g.results.last().text == Some(positional_text(mp, last, false))
            &&& g.results.last().start == start && g.results.last().end == end
            &&& g.positional_index == v.stack.last().positional_index
        }),
{
}

} // verus!
