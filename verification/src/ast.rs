//! Shell AST with the node kinds of bashlex.
//!
//! Every node carries a byte `span` into the input; words carry their
//! quote-removed text next to the raw span. Each executable type has a
//! mathematical view (`AstView`, `WordView`) over which the contracts speak.

use vstd::prelude::*;
use vstd::utf8::encode_utf8;
use crate::text::str_eq;

verus! {

/// Byte span into the input string: `[start, end)`.
#[derive(Debug, Clone, Copy, PartialEq, Eq, Structural)]
pub struct Span {
    /// Start offset (inclusive)
    pub start: usize,
    /// End offset (exclusive)
    pub end: usize,
}

/// Length of a span in bytes (zero when `end` precedes `start`).
pub open spec fn span_len(s: Span) -> int {
    if s.end >= s.start { s.end - s.start } else { 0 }
}

impl Span {
    /// Length in bytes.
    pub fn len(&self) -> (r: usize)
        ensures
            r == span_len(*self),
    {
        self.end.saturating_sub(self.start)
    }

    /// True when the span is empty.
    pub fn is_empty(&self) -> (r: bool)
        ensures
            r == (self.end <= self.start),
    {
        self.end <= self.start
    }

    /// Both ends moved right by `offset`.
    pub fn shifted(&self, offset: usize) -> (r: Span)
        requires
            self.start + offset <= usize::MAX,
            self.end + offset <= usize::MAX,
        ensures
            r.start == self.start + offset,
            r.end == self.end + offset,
    {
        Span { start: self.start + offset, end: self.end + offset }
    }

    /// Minimal span covering all the given spans; `None` for none.
    pub fn covering(spans: &[Span]) -> (r: Option<Span>)
        ensures
            r is None <==> spans@.len() == 0,
            r matches Some(c) ==> {
                &&& forall|i: int|
                    0 <= i < spans@.len() ==> c.start <= #[trigger] spans@[i].start && spans@[i].end
                        <= c.end
                &&& exists|i: int| 0 <= i < spans@.len() && c.start == #[trigger] spans@[i].start
                &&& exists|i: int| 0 <= i < spans@.len() && c.end == #[trigger] spans@[i].end
            },
    {
        if spans.len() == 0 {
            return None;
        }
        let mut start = spans[0].start;
        let mut end = spans[0].end;
        let mut i: usize = 1;
        while i < spans.len()
            invariant
                1 <= i <= spans@.len(),
                forall|k: int| 0 <= k < i ==> start <= #[trigger] spans@[k].start && spans@[k].end <= end,
                exists|k: int| 0 <= k < i && start == #[trigger] spans@[k].start,
                exists|k: int| 0 <= k < i && end == #[trigger] spans@[k].end,
            decreases spans@.len() - i,
        {
            let s = spans[i];
            if s.start < start {
                start = s.start;
            }
            if s.end > end {
                end = s.end;
            }
            i += 1;
        }
        Some(Span { start, end })
    }
}

/// A word: quote-removed text plus expansion children.
///
/// `text` keeps expansions verbatim (`$(...)`, `$VAR`, `~user`); `span`
/// covers the raw source including quotes.
#[derive(Debug, PartialEq)]
pub struct WordNode {
    /// Source span (includes quotes)
    pub span: Span,
    /// Quote-removed, expansion-preserving text
    pub text: String,
    /// Expansion children (substitutions, tilde, parameters)
    pub parts: Vec<AstNode>,
    /// The word was quoted or escaped anywhere
    pub quoted: bool,
}

/// Redirect target: a word, a file descriptor, a closing dash, or absent.
#[derive(Debug, PartialEq)]
pub enum RedirectTarget {
    /// Target word node
    Word(WordNode),
    /// Numeric file descriptor (`2>&1`)
    Fd(i64),
    /// Closing dash (`>&-`, `<&-`)
    Dash,
    /// No target
    NoTarget,
}

/// Redirect source: a file descriptor number or a `{varname}` word.
#[derive(Debug, PartialEq)]
pub enum RedirectSource {
    /// Numeric file descriptor (`2>`)
    Fd(i64),
    /// `{varname}` form
    Word(String),
}

/// A shell AST node; the variants follow the bashlex node kinds.
#[derive(Debug, PartialEq)]
pub enum AstNode {
    /// Command list
    List { span: Span, parts: Vec<AstNode> },
    /// `cmd1 | cmd2`, optionally negated with a leading `!`
    Pipeline { span: Span, parts: Vec<AstNode> },
    /// Simple command: words, assignments and redirects in order
    Command { span: Span, parts: Vec<AstNode> },
    /// `{ ...; }`, `( ... )` and case clauses, with trailing redirects
    Compound { span: Span, list: Vec<AstNode>, redirects: Vec<AstNode> },
    /// if / for / while / until / case bodies and case patterns
    Keyword { kind: KeywordKind, span: Span, parts: Vec<AstNode> },
    /// Function definition
    Function { span: Span, name: WordNode, body: Box<AstNode>, parts: Vec<AstNode> },
    /// Plain word
    Word(WordNode),
    /// `NAME=value` prefix word
    Assignment(WordNode),
    /// `;`, `&`, `&&`, `||`
    Operator { span: Span, op: String },
    /// `|` or `|&`
    Pipe { span: Span, pipe: String },
    /// Shell redirection, with the heredoc body for `<<` / `<<-`
    Redirect {
        span: Span,
        input: Option<RedirectSource>,
        op: String,
        output: RedirectTarget,
        heredoc: Option<Box<AstNode>>,
    },
    /// Reserved word (`if`, `then`, `do`, `{`, `!`, ...)
    ReservedWord { span: Span, word: String },
    /// `$(...)` or backquote substitution with its parsed command
    CommandSubstitution { span: Span, command: Box<AstNode> },
    /// `<(...)` / `>(...)` with its parsed command
    ProcessSubstitution { span: Span, command: Box<AstNode> },
    /// `$name`, `${...}`, `$1`, `$*`, ...
    Parameter { span: Span, value: String },
    /// `~`, `~/x`, `~user/...`
    Tilde { span: Span, value: String },
    /// Heredoc body
    Heredoc { span: Span, value: String },
    /// Parsed-but-unsupported construct
    Unimplemented { span: Span, parts: Vec<AstNode> },
}

/// Keyword-command flavors (bashlex uses one kind per keyword).
#[derive(Debug, Clone, Copy, PartialEq, Eq, Structural)]
pub enum KeywordKind {
    /// if/then/elif/else/fi
    If,
    /// for/in/do/done (also select)
    For,
    /// while/do/done
    While,
    /// until/do/done
    Until,
    /// case/in/esac
    Case,
    /// case pattern alternative
    Pattern,
}

// ---------------------------------------------------------------------
// Mathematical model
// ---------------------------------------------------------------------

/// Model of a word.
pub struct WordView {
    pub span: Span,
    pub text: Seq<char>,
    pub parts: Seq<AstView>,
    pub quoted: bool,
}

/// Model of a redirect target.
pub enum TargetView {
    Word(WordView),
    Fd(i64),
    Dash,
    NoTarget,
}

/// Model of a redirect source.
pub enum SourceView {
    Fd(i64),
    Word(Seq<char>),
}

/// Model of a node: strings become character sequences, vectors sequences.
pub enum AstView {
    List { span: Span, parts: Seq<AstView> },
    Pipeline { span: Span, parts: Seq<AstView> },
    Command { span: Span, parts: Seq<AstView> },
    Compound { span: Span, list: Seq<AstView>, redirects: Seq<AstView> },
    Keyword { kind: KeywordKind, span: Span, parts: Seq<AstView> },
    Function { span: Span, name: WordView, body: Box<AstView>, parts: Seq<AstView> },
    Word(WordView),
    Assignment(WordView),
    Operator { span: Span, op: Seq<char> },
    Pipe { span: Span, pipe: Seq<char> },
    Redirect {
        span: Span,
        input: Option<SourceView>,
        op: Seq<char>,
        output: TargetView,
        heredoc: Option<Box<AstView>>,
    },
    ReservedWord { span: Span, word: Seq<char> },
    CommandSubstitution { span: Span, command: Box<AstView> },
    ProcessSubstitution { span: Span, command: Box<AstView> },
    Parameter { span: Span, value: Seq<char> },
    Tilde { span: Span, value: Seq<char> },
    Heredoc { span: Span, value: Seq<char> },
    Unimplemented { span: Span, parts: Seq<AstView> },
}

pub open spec fn source_view(s: RedirectSource) -> SourceView {
    match s {
        RedirectSource::Fd(n) => SourceView::Fd(n),
        RedirectSource::Word(w) => SourceView::Word(w@),
    }
}

pub open spec fn nodes_view(s: Seq<AstNode>) -> Seq<AstView>
    decreases s,
{
    if s.len() == 0 {
        Seq::empty()
    } else {
        nodes_view(s.drop_last()).push(node_view(s.last()))
    }
}

pub open spec fn word_view(w: WordNode) -> WordView
    decreases w,
{
    WordView { span: w.span, text: w.text@, parts: nodes_view(w.parts@), quoted: w.quoted }
}

pub open spec fn target_view(t: RedirectTarget) -> TargetView
    decreases t,
{
    match t {
        RedirectTarget::Word(w) => TargetView::Word(word_view(w)),
        RedirectTarget::Fd(n) => TargetView::Fd(n),
        RedirectTarget::Dash => TargetView::Dash,
        RedirectTarget::NoTarget => TargetView::NoTarget,
    }
}

pub open spec fn node_view(n: AstNode) -> AstView
    decreases n,
{
    match n {
        AstNode::List { span, parts } => AstView::List { span, parts: nodes_view(parts@) },
        AstNode::Pipeline { span, parts } => AstView::Pipeline { span, parts: nodes_view(parts@) },
        AstNode::Command { span, parts } => AstView::Command { span, parts: nodes_view(parts@) },
        AstNode::Compound { span, list, redirects } => AstView::Compound {
            span,
            list: nodes_view(list@),
            redirects: nodes_view(redirects@),
        },
        AstNode::Keyword { kind, span, parts } => AstView::Keyword {
            kind,
            span,
            parts: nodes_view(parts@),
        },
        AstNode::Function { span, name, body, parts } => AstView::Function {
            span,
            name: word_view(name),
            body: Box::new(node_view(*body)),
            parts: nodes_view(parts@),
        },
        AstNode::Word(w) => AstView::Word(word_view(w)),
        AstNode::Assignment(w) => AstView::Assignment(word_view(w)),
        AstNode::Operator { span, op } => AstView::Operator { span, op: op@ },
        AstNode::Pipe { span, pipe } => AstView::Pipe { span, pipe: pipe@ },
        AstNode::Redirect { span, input, op, output, heredoc } => AstView::Redirect {
            span,
            input: match input {
                Some(s) => Some(source_view(s)),
                None => None,
            },
            op: op@,
            output: target_view(output),
            heredoc: match heredoc {
                Some(h) => Some(Box::new(node_view(*h))),
                None => None,
            },
        },
        AstNode::ReservedWord { span, word } => AstView::ReservedWord { span, word: word@ },
        AstNode::CommandSubstitution { span, command } => AstView::CommandSubstitution {
            span,
            command: Box::new(node_view(*command)),
        },
        AstNode::ProcessSubstitution { span, command } => AstView::ProcessSubstitution {
            span,
            command: Box::new(node_view(*command)),
        },
        AstNode::Parameter { span, value } => AstView::Parameter { span, value: value@ },
        AstNode::Tilde { span, value } => AstView::Tilde { span, value: value@ },
        AstNode::Heredoc { span, value } => AstView::Heredoc { span, value: value@ },
        AstNode::Unimplemented { span, parts } => AstView::Unimplemented {
            span,
            parts: nodes_view(parts@),
        },
    }
}

impl View for AstNode {
    type V = AstView;

    open spec fn view(&self) -> AstView {
        node_view(*self)
    }
}

impl View for WordNode {
    type V = WordView;

    open spec fn view(&self) -> WordView {
        word_view(*self)
    }
}

impl View for RedirectTarget {
    type V = TargetView;

    open spec fn view(&self) -> TargetView {
        target_view(*self)
    }
}

impl View for RedirectSource {
    type V = SourceView;

    open spec fn view(&self) -> SourceView {
        source_view(*self)
    }
}

pub proof fn lemma_nodes_view(s: Seq<AstNode>)
    ensures
        nodes_view(s).len() == s.len(),
        forall|i: int| 0 <= i < s.len() ==> #[trigger] nodes_view(s)[i] == node_view(s[i]),
    decreases s.len(),
{
    if s.len() > 0 {
        lemma_nodes_view(s.drop_last());
    }
}

/// Span of a node model.
pub open spec fn span_of(v: AstView) -> Span {
    match v {
        AstView::List { span, .. } => span,
        AstView::Pipeline { span, .. } => span,
        AstView::Command { span, .. } => span,
        AstView::Compound { span, .. } => span,
        AstView::Keyword { span, .. } => span,
        AstView::Function { span, .. } => span,
        AstView::Word(w) => w.span,
        AstView::Assignment(w) => w.span,
        AstView::Operator { span, .. } => span,
        AstView::Pipe { span, .. } => span,
        AstView::Redirect { span, .. } => span,
        AstView::ReservedWord { span, .. } => span,
        AstView::CommandSubstitution { span, .. } => span,
        AstView::ProcessSubstitution { span, .. } => span,
        AstView::Parameter { span, .. } => span,
        AstView::Tilde { span, .. } => span,
        AstView::Heredoc { span, .. } => span,
        AstView::Unimplemented { span, .. } => span,
    }
}

/// The bashlex `kind` string of a node model.
pub open spec fn kind_name(v: AstView) -> Seq<char> {
    match v {
        AstView::List { .. } => "list"@,
        AstView::Pipeline { .. } => "pipeline"@,
        AstView::Command { .. } => "command"@,
        AstView::Compound { .. } => "compound"@,
        AstView::Keyword { kind, .. } => match kind {
            KeywordKind::If => "if"@,
            KeywordKind::For => "for"@,
            KeywordKind::While => "while"@,
            KeywordKind::Until => "until"@,
            KeywordKind::Case => "case"@,
            KeywordKind::Pattern => "pattern"@,
        },
        AstView::Function { .. } => "function"@,
        AstView::Word(_) => "word"@,
        AstView::Assignment(_) => "assignment"@,
        AstView::Operator { .. } => "operator"@,
        AstView::Pipe { .. } => "pipe"@,
        AstView::Redirect { .. } => "redirect"@,
        AstView::ReservedWord { .. } => "reservedword"@,
        AstView::CommandSubstitution { .. } => "commandsubstitution"@,
        AstView::ProcessSubstitution { .. } => "processsubstitution"@,
        AstView::Parameter { .. } => "parameter"@,
        AstView::Tilde { .. } => "tilde"@,
        AstView::Heredoc { .. } => "heredoc"@,
        AstView::Unimplemented { .. } => "unimplemented"@,
    }
}

/// Only a word node is of kind "word".
pub proof fn lemma_word_kind(v: AstView)
    ensures
        kind_name(v) == "word"@ ==> v is Word,
{
    reveal_strlit("list");
    reveal_strlit("pipeline");
    reveal_strlit("command");
    reveal_strlit("compound");
    reveal_strlit("if");
    reveal_strlit("for");
    reveal_strlit("while");
    reveal_strlit("until");
    reveal_strlit("case");
    reveal_strlit("pattern");
    reveal_strlit("function");
    reveal_strlit("word");
    reveal_strlit("assignment");
    reveal_strlit("operator");
    reveal_strlit("pipe");
    reveal_strlit("redirect");
    reveal_strlit("reservedword");
    reveal_strlit("commandsubstitution");
    reveal_strlit("processsubstitution");
    reveal_strlit("parameter");
    reveal_strlit("tilde");
    reveal_strlit("heredoc");
    reveal_strlit("unimplemented");
    if kind_name(v) == "word"@ {
        assert(kind_name(v).len() == 4 && kind_name(v)[0] == 'w');
    }
}

/// Direct children in visit order (bashlex nodevisitor traversal).
pub open spec fn children_view(v: AstView) -> Seq<AstView> {
    match v {
        AstView::List { parts, .. } => parts,
        AstView::Pipeline { parts, .. } => parts,
        AstView::Command { parts, .. } => parts,
        AstView::Keyword { parts, .. } => parts,
        AstView::Function { parts, .. } => parts,
        AstView::Unimplemented { parts, .. } => parts,
        AstView::Compound { list, redirects, .. } => list + redirects,
        AstView::Word(w) => w.parts,
        AstView::Assignment(w) => w.parts,
        AstView::Redirect { output, heredoc, .. } => {
            let from_word = match output {
                TargetView::Word(w) => w.parts,
                _ => Seq::empty(),
            };
            match heredoc {
                Some(h) => from_word.push(*h),
                None => from_word,
            }
        },
        AstView::CommandSubstitution { command, .. } => seq![*command],
        AstView::ProcessSubstitution { command, .. } => seq![*command],
        _ => Seq::empty(),
    }
}

pub open spec fn max_int(a: int, b: int) -> int {
    if a >= b { a } else { b }
}

/// Greatest `end` over a sequence of subtrees (0 for none).
pub open spec fn max_end_seq(s: Seq<AstView>) -> int
    decreases s,
{
    if s.len() == 0 {
        0
    } else {
        max_int(max_end_seq(s.drop_last()), max_end(s.last()))
    }
}

/// Greatest `end` over a node and, through `children_view`, all its
/// descendants.
pub open spec fn max_end(v: AstView) -> int
    decreases v,
{
    let own = span_of(v).end as int;
    match v {
        AstView::List { parts, .. } => max_int(own, max_end_seq(parts)),
        AstView::Pipeline { parts, .. } => max_int(own, max_end_seq(parts)),
        AstView::Command { parts, .. } => max_int(own, max_end_seq(parts)),
        AstView::Keyword { parts, .. } => max_int(own, max_end_seq(parts)),
        AstView::Function { parts, .. } => max_int(own, max_end_seq(parts)),
        AstView::Unimplemented { parts, .. } => max_int(own, max_end_seq(parts)),
        AstView::Compound { list, redirects, .. } => max_int(
            own,
            max_int(max_end_seq(list), max_end_seq(redirects)),
        ),
        AstView::Word(w) => max_int(own, max_end_seq(w.parts)),
        AstView::Assignment(w) => max_int(own, max_end_seq(w.parts)),
        AstView::Redirect { output, heredoc, .. } => {
            let a = match output {
                TargetView::Word(w) => max_end_seq(w.parts),
                _ => 0,
            };
            let b = match heredoc {
                Some(h) => max_end(*h),
                None => 0,
            };
            max_int(own, max_int(a, b))
        },
        AstView::CommandSubstitution { command, .. } => max_int(own, max_end(*command)),
        AstView::ProcessSubstitution { command, .. } => max_int(own, max_end(*command)),
        _ => own,
    }
}

/// Every span in a sequence of subtrees satisfies `p`.
pub open spec fn all_spans_seq(s: Seq<AstView>, p: spec_fn(Span) -> bool) -> bool
    decreases s,
{
    if s.len() == 0 {
        true
    } else {
        all_spans_seq(s.drop_last(), p) && all_spans(s.last(), p)
    }
}

/// Every span in a word (its own and its expansions') satisfies `p`.
pub open spec fn all_spans_word(w: WordView, p: spec_fn(Span) -> bool) -> bool
    decreases w,
{
    p(w.span) && all_spans_seq(w.parts, p)
}

/// Every span anywhere in the subtree satisfies `p` (function names and
/// bodies, redirect targets and heredoc bodies included).
pub open spec fn all_spans(v: AstView, p: spec_fn(Span) -> bool) -> bool
    decreases v,
{
    match v {
        AstView::List { span, parts } => p(span) && all_spans_seq(parts, p),
        AstView::Pipeline { span, parts } => p(span) && all_spans_seq(parts, p),
        AstView::Command { span, parts } => p(span) && all_spans_seq(parts, p),
        AstView::Keyword { span, parts, .. } => p(span) && all_spans_seq(parts, p),
        AstView::Unimplemented { span, parts } => p(span) && all_spans_seq(parts, p),
        AstView::Compound { span, list, redirects } => p(span) && all_spans_seq(list, p)
            && all_spans_seq(redirects, p),
        AstView::Function { span, name, body, parts } => p(span) && all_spans_word(name, p)
            && all_spans(*body, p) && all_spans_seq(parts, p),
        AstView::Word(w) => all_spans_word(w, p),
        AstView::Assignment(w) => all_spans_word(w, p),
        AstView::Redirect { span, output, heredoc, .. } => p(span) && match output {
            TargetView::Word(w) => all_spans_word(w, p),
            _ => true,
        } && match heredoc {
            Some(h) => all_spans(*h, p),
            None => true,
        },
        AstView::CommandSubstitution { span, command } => p(span) && all_spans(*command, p),
        AstView::ProcessSubstitution { span, command } => p(span) && all_spans(*command, p),
        AstView::Operator { span, .. } => p(span),
        AstView::Pipe { span, .. } => p(span),
        AstView::ReservedWord { span, .. } => p(span),
        AstView::Parameter { span, .. } => p(span),
        AstView::Tilde { span, .. } => p(span),
        AstView::Heredoc { span, .. } => p(span),
    }
}

/// A node that a word's expansion yields: a command or process
/// substitution, a parameter or a tilde prefix.
pub open spec fn expansion_leaf(v: AstView) -> bool {
    v is CommandSubstitution || v is ProcessSubstitution || v is Parameter || v is Tilde
}

/// The children of the word are expansion nodes.
pub open spec fn leaf_parts(w: WordView) -> bool {
    forall|i: int| 0 <= i < w.parts.len() ==> expansion_leaf(#[trigger] w.parts[i])
}

/// The predicate `leaf_parts`.
pub open spec fn leaf_pred() -> spec_fn(WordView) -> bool {
    |w: WordView| leaf_parts(w)
}

/// A predicate that holds of every word of a tree holds of every word of a
/// tree where a weaker one is asked.
pub proof fn lemma_all_words_mono(v: AstView, q: spec_fn(WordView) -> bool, r: spec_fn(WordView) -> bool)
    requires
        all_words(v, q),
        forall|w: WordView| #[trigger] q(w) ==> r(w),
    ensures
        all_words(v, r),
    decreases v,
{
    match v {
        AstView::List { parts, .. } => lemma_all_words_seq_mono(parts, q, r),
        AstView::Pipeline { parts, .. } => lemma_all_words_seq_mono(parts, q, r),
        AstView::Command { parts, .. } => lemma_all_words_seq_mono(parts, q, r),
        AstView::Keyword { parts, .. } => lemma_all_words_seq_mono(parts, q, r),
        AstView::Unimplemented { parts, .. } => lemma_all_words_seq_mono(parts, q, r),
        AstView::Compound { list, redirects, .. } => {
            lemma_all_words_seq_mono(list, q, r);
            lemma_all_words_seq_mono(redirects, q, r);
        },
        AstView::Function { body, parts, .. } => {
            lemma_all_words_mono(*body, q, r);
            lemma_all_words_seq_mono(parts, q, r);
        },
        AstView::Redirect { heredoc, .. } => match heredoc {
            Some(h) => lemma_all_words_mono(*h, q, r),
            None => {},
        },
        _ => {},
    }
}

pub proof fn lemma_all_words_seq_mono(s: Seq<AstView>, q: spec_fn(WordView) -> bool, r: spec_fn(WordView) -> bool)
    requires
        all_words_seq(s, q),
        forall|w: WordView| #[trigger] q(w) ==> r(w),
    ensures
        all_words_seq(s, r),
    decreases s,
{
    if s.len() > 0 {
        lemma_all_words_seq_mono(s.drop_last(), q, r);
        lemma_all_words_mono(s.last(), q, r);
    }
}

/// Every word of the sequence of subtrees satisfies `q` (see `all_words`).
pub open spec fn all_words_seq(s: Seq<AstView>, q: spec_fn(WordView) -> bool) -> bool
    decreases s,
{
    if s.len() == 0 {
        true
    } else {
        all_words_seq(s.drop_last(), q) && all_words(s.last(), q)
    }
}

/// Every word of the subtree satisfies `q`: the words and assignments of
/// commands, function names, redirect targets and the words of compound
/// and keyword commands, heredoc bodies included; the commands inside a
/// word's substitutions are not visited.
pub open spec fn all_words(v: AstView, q: spec_fn(WordView) -> bool) -> bool
    decreases v,
{
    match v {
        AstView::List { parts, .. } => all_words_seq(parts, q),
        AstView::Pipeline { parts, .. } => all_words_seq(parts, q),
        AstView::Command { parts, .. } => all_words_seq(parts, q),
        AstView::Keyword { parts, .. } => all_words_seq(parts, q),
        AstView::Unimplemented { parts, .. } => all_words_seq(parts, q),
        AstView::Compound { list, redirects, .. } => all_words_seq(list, q) && all_words_seq(
            redirects,
            q,
        ),
        AstView::Function { name, body, parts, .. } => q(name) && all_words(*body, q)
            && all_words_seq(parts, q),
        AstView::Word(w) => q(w),
        AstView::Assignment(w) => q(w),
        AstView::Redirect { output, heredoc, .. } => (match output {
            TargetView::Word(w) => q(w),
            _ => true,
        }) && (match heredoc {
            Some(h) => all_words(*h, q),
            None => true,
        }),
        _ => true,
    }
}

/// Concatenating two sequences whose words satisfy `q`.
pub proof fn lemma_words_seq_concat(a: Seq<AstView>, b: Seq<AstView>, q: spec_fn(WordView) -> bool)
    requires
        all_words_seq(a, q),
        all_words_seq(b, q),
    ensures
        all_words_seq(a + b, q),
    decreases b.len(),
{
    if b.len() == 0 {
        assert(a + b =~= a);
    } else {
        lemma_words_seq_concat(a, b.drop_last(), q);
        assert((a + b).drop_last() =~= a + b.drop_last());
        assert((a + b).last() == b.last());
    }
}

/// Appending a subtree whose words satisfy `q`.
pub proof fn lemma_words_push(parts: Seq<AstNode>, n: AstNode, q: spec_fn(WordView) -> bool)
    requires
        all_words_seq(nodes_view(parts), q),
        all_words(node_view(n), q),
    ensures
        all_words_seq(nodes_view(parts.push(n)), q),
{
    assert(parts.push(n).drop_last() =~= parts);
    let vs = nodes_view(parts.push(n));
    assert(vs.drop_last() =~= nodes_view(parts));
    assert(vs.last() == node_view(n));
}

/// A span lies inside `[lo, hi]` with its ends in order.
pub open spec fn span_within(s: Span, lo: int, hi: int) -> bool {
    lo <= s.start <= s.end <= hi
}

/// The predicate "lies inside `[lo, hi]` with ends in order".
pub open spec fn within_pred(lo: int, hi: int) -> spec_fn(Span) -> bool {
    |s: Span| span_within(s, lo, hi)
}

/// Every span of the subtree lies inside `[lo, hi]` with ends in order.
pub open spec fn spans_within(v: AstView, lo: int, hi: int) -> bool {
    all_spans(v, within_pred(lo, hi))
}

/// Every span of the sequence of subtrees lies inside `[lo, hi]`.
pub open spec fn seq_within(s: Seq<AstView>, lo: int, hi: int) -> bool {
    all_spans_seq(s, within_pred(lo, hi))
}

/// Every span of the word lies inside `[lo, hi]`.
pub open spec fn word_within(w: WordView, lo: int, hi: int) -> bool {
    all_spans_word(w, within_pred(lo, hi))
}

/// Every span of the subtree has both ends at most `hi`.
pub open spec fn spans_at_most(v: AstView, hi: int) -> bool {
    all_spans(v, |s: Span| s.start <= hi && s.end <= hi)
}

pub open spec fn shift_span(s: Span, off: int) -> Span {
    Span { start: (s.start + off) as usize, end: (s.end + off) as usize }
}

pub open spec fn shift_seq(s: Seq<AstView>, off: int) -> Seq<AstView>
    decreases s,
{
    if s.len() == 0 {
        Seq::empty()
    } else {
        shift_seq(s.drop_last(), off).push(shift_view(s.last(), off))
    }
}

pub open spec fn shift_word(w: WordView, off: int) -> WordView
    decreases w,
{
    WordView {
        span: shift_span(w.span, off),
        text: w.text,
        parts: shift_seq(w.parts, off),
        quoted: w.quoted,
    }
}

/// The subtree with every span moved right by `off`, all else unchanged.
pub open spec fn shift_view(v: AstView, off: int) -> AstView
    decreases v,
{
    match v {
        AstView::List { span, parts } => AstView::List {
            span: shift_span(span, off),
            parts: shift_seq(parts, off),
        },
        AstView::Pipeline { span, parts } => AstView::Pipeline {
            span: shift_span(span, off),
            parts: shift_seq(parts, off),
        },
        AstView::Command { span, parts } => AstView::Command {
            span: shift_span(span, off),
            parts: shift_seq(parts, off),
        },
        AstView::Compound { span, list, redirects } => AstView::Compound {
            span: shift_span(span, off),
            list: shift_seq(list, off),
            redirects: shift_seq(redirects, off),
        },
        AstView::Keyword { kind, span, parts } => AstView::Keyword {
            kind,
            span: shift_span(span, off),
            parts: shift_seq(parts, off),
        },
        AstView::Function { span, name, body, parts } => AstView::Function {
            span: shift_span(span, off),
            name: shift_word(name, off),
            body: Box::new(shift_view(*body, off)),
            parts: shift_seq(parts, off),
        },
        AstView::Word(w) => AstView::Word(shift_word(w, off)),
        AstView::Assignment(w) => AstView::Assignment(shift_word(w, off)),
        AstView::Operator { span, op } => AstView::Operator { span: shift_span(span, off), op },
        AstView::Pipe { span, pipe } => AstView::Pipe { span: shift_span(span, off), pipe },
        AstView::Redirect { span, input, op, output, heredoc } => AstView::Redirect {
            span: shift_span(span, off),
            input,
            op,
            output: match output {
                TargetView::Word(w) => TargetView::Word(shift_word(w, off)),
                other => other,
            },
            heredoc: match heredoc {
                Some(h) => Some(Box::new(shift_view(*h, off))),
                None => None,
            },
        },
        AstView::ReservedWord { span, word } => AstView::ReservedWord {
            span: shift_span(span, off),
            word,
        },
        AstView::CommandSubstitution { span, command } => AstView::CommandSubstitution {
            span: shift_span(span, off),
            command: Box::new(shift_view(*command, off)),
        },
        AstView::ProcessSubstitution { span, command } => AstView::ProcessSubstitution {
            span: shift_span(span, off),
            command: Box::new(shift_view(*command, off)),
        },
        AstView::Parameter { span, value } => AstView::Parameter {
            span: shift_span(span, off),
            value,
        },
        AstView::Tilde { span, value } => AstView::Tilde { span: shift_span(span, off), value },
        AstView::Heredoc { span, value } => AstView::Heredoc { span: shift_span(span, off), value },
        AstView::Unimplemented { span, parts } => AstView::Unimplemented {
            span: shift_span(span, off),
            parts: shift_seq(parts, off),
        },
    }
}


// ---------------------------------------------------------------------
// Lemmas on the model
// ---------------------------------------------------------------------

pub proof fn lemma_all_spans_seq(s: Seq<AstView>, p: spec_fn(Span) -> bool)
    ensures
        all_spans_seq(s, p) <==> forall|i: int| 0 <= i < s.len() ==> #[trigger] all_spans(s[i], p),
    decreases s.len(),
{
    if s.len() > 0 {
        let t = s.drop_last();
        lemma_all_spans_seq(t, p);
        if all_spans_seq(s, p) {
            assert forall|i: int| 0 <= i < s.len() implies #[trigger] all_spans(s[i], p) by {
                if i < s.len() - 1 {
                    assert(t[i] == s[i]);
                }
            }
        }
        if forall|i: int| 0 <= i < s.len() ==> #[trigger] all_spans(s[i], p) {
            assert forall|i: int| 0 <= i < t.len() implies #[trigger] all_spans(t[i], p) by {
                assert(t[i] == s[i]);
                assert(all_spans(s[i], p));
            }
            assert(all_spans(s[s.len() - 1], p));
        }
    }
}

pub proof fn lemma_all_spans_seq_concat(a: Seq<AstView>, b: Seq<AstView>, p: spec_fn(Span) -> bool)
    ensures
        all_spans_seq(a + b, p) <==> all_spans_seq(a, p) && all_spans_seq(b, p),
{
    lemma_all_spans_seq(a, p);
    lemma_all_spans_seq(b, p);
    lemma_all_spans_seq(a + b, p);
    assert forall|i: int| 0 <= i < b.len() implies #[trigger] (a + b)[a.len() + i] == b[i] by {}
    if all_spans_seq(a, p) && all_spans_seq(b, p) {
        assert forall|i: int| 0 <= i < (a + b).len() implies #[trigger] all_spans((a + b)[i], p) by {
            if i < a.len() {
                assert((a + b)[i] == a[i]);
            } else {
                assert((a + b)[i] == b[i - a.len()]);
            }
        }
    }
    if all_spans_seq(a + b, p) {
        assert forall|i: int| 0 <= i < a.len() implies #[trigger] all_spans(a[i], p) by {
            assert((a + b)[i] == a[i]);
        }
        assert forall|i: int| 0 <= i < b.len() implies #[trigger] all_spans(b[i], p) by {
            assert((a + b)[a.len() + i] == b[i]);
        }
    }
}

/// Appending a node that lies inside `[lo, hi]`.
pub proof fn lemma_nodes_push_within(parts: Seq<AstNode>, n: AstNode, lo: int, hi: int)
    requires
        seq_within(nodes_view(parts), lo, hi),
        spans_within(node_view(n), lo, hi),
    ensures
        seq_within(nodes_view(parts.push(n)), lo, hi),
        nodes_view(parts.push(n)) == nodes_view(parts).push(node_view(n)),
{
    assert(parts.push(n).drop_last() =~= parts);
    let vs = nodes_view(parts.push(n));
    assert(vs == nodes_view(parts).push(node_view(n)));
    assert(vs.drop_last() =~= nodes_view(parts));
    assert(vs.last() == node_view(n));
}

/// The model of a concatenation.
pub proof fn lemma_nodes_view_concat(a: Seq<AstNode>, b: Seq<AstNode>)
    ensures
        nodes_view(a + b) == nodes_view(a) + nodes_view(b),
{
    lemma_nodes_view(a);
    lemma_nodes_view(b);
    lemma_nodes_view(a + b);
    assert forall|i: int| 0 <= i < (a + b).len() implies nodes_view(a + b)[i] == (nodes_view(a) + nodes_view(b))[i] by {
        if i < a.len() {
            assert((a + b)[i] == a[i]);
        } else {
            assert((a + b)[i] == b[i - a.len()]);
        }
    }
    assert(nodes_view(a + b) =~= nodes_view(a) + nodes_view(b));
}

pub proof fn lemma_shift_seq(s: Seq<AstView>, off: int)
    ensures
        shift_seq(s, off).len() == s.len(),
        forall|i: int| 0 <= i < s.len() ==> #[trigger] shift_seq(s, off)[i] == shift_view(s[i], off),
    decreases s.len(),
{
    if s.len() > 0 {
        lemma_shift_seq(s.drop_last(), off);
    }
}

pub proof fn lemma_max_end_seq_step(s: Seq<AstView>, i: int)
    requires
        0 <= i < s.len(),
    ensures
        max_end_seq(s.take(i + 1)) == max_int(max_end_seq(s.take(i)), max_end(s[i])),
{
    assert(s.take(i + 1).drop_last() =~= s.take(i));
}

pub proof fn lemma_shift_zero_seq(s: Seq<AstView>)
    ensures
        shift_seq(s, 0) == s,
    decreases s,
{
    if s.len() > 0 {
        lemma_shift_zero_seq(s.drop_last());
        lemma_shift_zero(s.last());
        assert(shift_seq(s, 0) =~= s);
    } else {
        assert(shift_seq(s, 0) =~= s);
    }
}

pub proof fn lemma_shift_zero_word(w: WordView)
    ensures
        shift_word(w, 0) == w,
    decreases w,
{
    lemma_shift_zero_seq(w.parts);
}

/// Shifting by zero changes nothing.
pub proof fn lemma_shift_zero(v: AstView)
    ensures
        shift_view(v, 0) == v,
    decreases v,
{
    match v {
        AstView::List { parts, .. } => lemma_shift_zero_seq(parts),
        AstView::Pipeline { parts, .. } => lemma_shift_zero_seq(parts),
        AstView::Command { parts, .. } => lemma_shift_zero_seq(parts),
        AstView::Compound { list, redirects, .. } => {
            lemma_shift_zero_seq(list);
            lemma_shift_zero_seq(redirects);
        },
        AstView::Keyword { parts, .. } => lemma_shift_zero_seq(parts),
        AstView::Function { name, body, parts, .. } => {
            lemma_shift_zero_word(name);
            lemma_shift_zero(*body);
            lemma_shift_zero_seq(parts);
        },
        AstView::Word(w) => lemma_shift_zero_word(w),
        AstView::Assignment(w) => lemma_shift_zero_word(w),
        AstView::Redirect { output, heredoc, .. } => {
            match output {
                TargetView::Word(w) => lemma_shift_zero_word(w),
                _ => {},
            }
            match heredoc {
                Some(h) => lemma_shift_zero(*h),
                None => {},
            }
        },
        AstView::CommandSubstitution { command, .. } => lemma_shift_zero(*command),
        AstView::ProcessSubstitution { command, .. } => lemma_shift_zero(*command),
        AstView::Unimplemented { parts, .. } => lemma_shift_zero_seq(parts),
        _ => {},
    }
}

/// A predicate on spans that follows from another carries over to whole
/// subtrees.
pub proof fn lemma_all_spans_mono_seq(s: Seq<AstView>, p: spec_fn(Span) -> bool, q: spec_fn(Span) -> bool)
    requires
        forall|x: Span| #[trigger] p(x) ==> q(x),
        all_spans_seq(s, p),
    ensures
        all_spans_seq(s, q),
    decreases s,
{
    if s.len() > 0 {
        lemma_all_spans_mono_seq(s.drop_last(), p, q);
        lemma_all_spans_mono(s.last(), p, q);
    }
}

pub proof fn lemma_all_spans_mono_word(w: WordView, p: spec_fn(Span) -> bool, q: spec_fn(Span) -> bool)
    requires
        forall|x: Span| #[trigger] p(x) ==> q(x),
        all_spans_word(w, p),
    ensures
        all_spans_word(w, q),
    decreases w,
{
    lemma_all_spans_mono_seq(w.parts, p, q);
}

pub proof fn lemma_all_spans_mono(v: AstView, p: spec_fn(Span) -> bool, q: spec_fn(Span) -> bool)
    requires
        forall|x: Span| #[trigger] p(x) ==> q(x),
        all_spans(v, p),
    ensures
        all_spans(v, q),
    decreases v,
{
    match v {
        AstView::List { parts, .. } => lemma_all_spans_mono_seq(parts, p, q),
        AstView::Pipeline { parts, .. } => lemma_all_spans_mono_seq(parts, p, q),
        AstView::Command { parts, .. } => lemma_all_spans_mono_seq(parts, p, q),
        AstView::Keyword { parts, .. } => lemma_all_spans_mono_seq(parts, p, q),
        AstView::Unimplemented { parts, .. } => lemma_all_spans_mono_seq(parts, p, q),
        AstView::Compound { list, redirects, .. } => {
            lemma_all_spans_mono_seq(list, p, q);
            lemma_all_spans_mono_seq(redirects, p, q);
        },
        AstView::Function { name, body, parts, .. } => {
            lemma_all_spans_mono_word(name, p, q);
            lemma_all_spans_mono(*body, p, q);
            lemma_all_spans_mono_seq(parts, p, q);
        },
        AstView::Word(w) => lemma_all_spans_mono_word(w, p, q),
        AstView::Assignment(w) => lemma_all_spans_mono_word(w, p, q),
        AstView::Redirect { output, heredoc, .. } => {
            match output {
                TargetView::Word(w) => lemma_all_spans_mono_word(w, p, q),
                _ => {},
            }
            match heredoc {
                Some(h) => lemma_all_spans_mono(*h, p, q),
                None => {},
            }
        },
        AstView::CommandSubstitution { command, .. } => lemma_all_spans_mono(*command, p, q),
        AstView::ProcessSubstitution { command, .. } => lemma_all_spans_mono(*command, p, q),
        _ => {},
    }
}

pub proof fn lemma_shift_within_seq(s: Seq<AstView>, off: int, lo: int, hi: int)
    requires
        seq_within(s, lo, hi),
        0 <= off,
        0 <= lo,
        hi + off <= usize::MAX,
    ensures
        seq_within(shift_seq(s, off), lo + off, hi + off),
    decreases s,
{
    if s.len() > 0 {
        lemma_shift_within_seq(s.drop_last(), off, lo, hi);
        lemma_shift_within(s.last(), off, lo, hi);
        assert(shift_seq(s, off).drop_last() == shift_seq(s.drop_last(), off));
    }
}

pub proof fn lemma_shift_within_word(w: WordView, off: int, lo: int, hi: int)
    requires
        word_within(w, lo, hi),
        0 <= off,
        0 <= lo,
        hi + off <= usize::MAX,
    ensures
        word_within(shift_word(w, off), lo + off, hi + off),
    decreases w,
{
    lemma_shift_within_seq(w.parts, off, lo, hi);
}

/// Moving a subtree that lies in `[lo, hi]` by `off` puts it in
/// `[lo + off, hi + off]`.
pub proof fn lemma_shift_within(v: AstView, off: int, lo: int, hi: int)
    requires
        spans_within(v, lo, hi),
        0 <= off,
        0 <= lo,
        hi + off <= usize::MAX,
    ensures
        spans_within(shift_view(v, off), lo + off, hi + off),
    decreases v,
{
    match v {
        AstView::List { parts, .. } => lemma_shift_within_seq(parts, off, lo, hi),
        AstView::Pipeline { parts, .. } => lemma_shift_within_seq(parts, off, lo, hi),
        AstView::Command { parts, .. } => lemma_shift_within_seq(parts, off, lo, hi),
        AstView::Keyword { parts, .. } => lemma_shift_within_seq(parts, off, lo, hi),
        AstView::Unimplemented { parts, .. } => lemma_shift_within_seq(parts, off, lo, hi),
        AstView::Compound { list, redirects, .. } => {
            lemma_shift_within_seq(list, off, lo, hi);
            lemma_shift_within_seq(redirects, off, lo, hi);
        },
        AstView::Function { name, body, parts, .. } => {
            lemma_shift_within_word(name, off, lo, hi);
            lemma_shift_within(*body, off, lo, hi);
            lemma_shift_within_seq(parts, off, lo, hi);
        },
        AstView::Word(w) => lemma_shift_within_word(w, off, lo, hi),
        AstView::Assignment(w) => lemma_shift_within_word(w, off, lo, hi),
        AstView::Redirect { output, heredoc, .. } => {
            match output {
                TargetView::Word(w) => lemma_shift_within_word(w, off, lo, hi),
                _ => {},
            }
            match heredoc {
                Some(h) => lemma_shift_within(*h, off, lo, hi),
                None => {},
            }
        },
        AstView::CommandSubstitution { command, .. } => lemma_shift_within(*command, off, lo, hi),
        AstView::ProcessSubstitution { command, .. } => lemma_shift_within(*command, off, lo, hi),
        _ => {},
    }
}

pub proof fn lemma_max_end_within_seq(s: Seq<AstView>, lo: int, hi: int)
    requires
        seq_within(s, lo, hi),
        0 <= hi,
    ensures
        max_end_seq(s) <= hi,
    decreases s,
{
    if s.len() > 0 {
        lemma_max_end_within_seq(s.drop_last(), lo, hi);
        lemma_max_end_within(s.last(), lo, hi);
    }
}

/// A subtree inside `[lo, hi]` ends, heredocs included, by `hi`.
pub proof fn lemma_max_end_within(v: AstView, lo: int, hi: int)
    requires
        spans_within(v, lo, hi),
        0 <= hi,
    ensures
        max_end(v) <= hi,
    decreases v,
{
    reveal_with_fuel(all_spans, 2);
    reveal_with_fuel(all_spans_word, 2);
    match v {
        AstView::List { parts, .. } => lemma_max_end_within_seq(parts, lo, hi),
        AstView::Pipeline { parts, .. } => lemma_max_end_within_seq(parts, lo, hi),
        AstView::Command { parts, .. } => lemma_max_end_within_seq(parts, lo, hi),
        AstView::Keyword { parts, .. } => lemma_max_end_within_seq(parts, lo, hi),
        AstView::Unimplemented { parts, .. } => lemma_max_end_within_seq(parts, lo, hi),
        AstView::Function { parts, .. } => lemma_max_end_within_seq(parts, lo, hi),
        AstView::Compound { list, redirects, .. } => {
            lemma_max_end_within_seq(list, lo, hi);
            lemma_max_end_within_seq(redirects, lo, hi);
        },
        AstView::Word(w) => lemma_max_end_within_seq(w.parts, lo, hi),
        AstView::Assignment(w) => lemma_max_end_within_seq(w.parts, lo, hi),
        AstView::Redirect { output, heredoc, .. } => {
            match output {
                TargetView::Word(w) => lemma_max_end_within_seq(w.parts, lo, hi),
                _ => {},
            }
            match heredoc {
                Some(h) => lemma_max_end_within(*h, lo, hi),
                None => {},
            }
        },
        AstView::CommandSubstitution { command, .. } => lemma_max_end_within(*command, lo, hi),
        AstView::ProcessSubstitution { command, .. } => lemma_max_end_within(*command, lo, hi),
        _ => {},
    }
}

// ---------------------------------------------------------------------
// Copies
// ---------------------------------------------------------------------

/// A copy of a vector of nodes with the same model.
pub fn copy_nodes(v: &Vec<AstNode>) -> (r: Vec<AstNode>)
    ensures
        nodes_view(r@) == nodes_view(v@),
    decreases v,
{
    let mut out: Vec<AstNode> = Vec::new();
    let mut i: usize = 0;
    while i < v.len()
        invariant
            i <= v@.len(),
            out@.len() == i,
            forall|j: int| 0 <= j < i ==> #[trigger] node_view(out@[j]) == node_view(v@[j]),
        decreases v@.len() - i,
    {
        proof {
            vstd::std_specs::vec::axiom_vec_index_decreases(*v, i as int);
        }
        let c = v[i].deep_copy();
        out.push(c);
        i += 1;
    }
    proof {
        lemma_nodes_view(out@);
        lemma_nodes_view(v@);
        assert(nodes_view(out@) =~= nodes_view(v@));
    }
    out
}

impl RedirectSource {
    /// A copy with the same model.
    pub fn deep_copy(&self) -> (r: RedirectSource)
        ensures
            r@ == self@,
    {
        match self {
            RedirectSource::Fd(n) => RedirectSource::Fd(*n),
            RedirectSource::Word(w) => RedirectSource::Word(w.clone()),
        }
    }
}

impl WordNode {
    /// A copy with the same model.
    pub fn deep_copy(&self) -> (r: WordNode)
        ensures
            r@ == self@,
        decreases self,
    {
        WordNode {
            span: self.span,
            text: self.text.clone(),
            parts: copy_nodes(&self.parts),
            quoted: self.quoted,
        }
    }

    /// True when the word carries expansions.
    pub fn is_expanded(&self) -> (r: bool)
        ensures
            r == (self.parts@.len() > 0),
    {
        self.parts.len() > 0
    }

    /// True when the word was quoted: it records a quote, or its raw span is
    /// longer than its text in UTF-8 bytes.
    pub fn was_quoted(&self) -> (r: bool)
        ensures
            r == (self.quoted || span_len(self.span) > (encode_utf8(self.text@).len() as usize)),
    {
        self.quoted || self.span.len() > self.text.as_str().len()
    }
}

impl RedirectTarget {
    /// A copy with the same model.
    pub fn deep_copy(&self) -> (r: RedirectTarget)
        ensures
            r@ == self@,
        decreases self,
    {
        match self {
            RedirectTarget::Word(w) => RedirectTarget::Word(w.deep_copy()),
            RedirectTarget::Fd(n) => RedirectTarget::Fd(*n),
            RedirectTarget::Dash => RedirectTarget::Dash,
            RedirectTarget::NoTarget => RedirectTarget::NoTarget,
        }
    }
}

impl Clone for WordNode {
    fn clone(&self) -> (r: Self)
        ensures
            r@ == self@,
    {
        self.deep_copy()
    }
}

impl Clone for RedirectTarget {
    fn clone(&self) -> (r: Self)
        ensures
            r@ == self@,
    {
        self.deep_copy()
    }
}

impl Clone for RedirectSource {
    fn clone(&self) -> (r: Self)
        ensures
            r@ == self@,
    {
        self.deep_copy()
    }
}

impl Clone for AstNode {
    fn clone(&self) -> (r: Self)
        ensures
            r@ == self@,
    {
        self.deep_copy()
    }
}

impl AstNode {
    /// A copy with the same model.
    pub fn deep_copy(&self) -> (r: AstNode)
        ensures
            r@ == self@,
        decreases self,
    {
        match self {
            AstNode::List { span, parts } => AstNode::List { span: *span, parts: copy_nodes(parts) },
            AstNode::Pipeline { span, parts } => AstNode::Pipeline {
                span: *span,
                parts: copy_nodes(parts),
            },
            AstNode::Command { span, parts } => AstNode::Command {
                span: *span,
                parts: copy_nodes(parts),
            },
            AstNode::Compound { span, list, redirects } => AstNode::Compound {
                span: *span,
                list: copy_nodes(list),
                redirects: copy_nodes(redirects),
            },
            AstNode::Keyword { kind, span, parts } => AstNode::Keyword {
                kind: *kind,
                span: *span,
                parts: copy_nodes(parts),
            },
            AstNode::Function { span, name, body, parts } => AstNode::Function {
                span: *span,
                name: name.deep_copy(),
                body: Box::new((**body).deep_copy()),
                parts: copy_nodes(parts),
            },
            AstNode::Word(w) => AstNode::Word(w.deep_copy()),
            AstNode::Assignment(w) => AstNode::Assignment(w.deep_copy()),
            AstNode::Operator { span, op } => AstNode::Operator { span: *span, op: op.clone() },
            AstNode::Pipe { span, pipe } => AstNode::Pipe { span: *span, pipe: pipe.clone() },
            AstNode::Redirect { span, input, op, output, heredoc } => {
                let input2 = match input {
                    Some(s) => Some(s.deep_copy()),
                    None => None,
                };
                let heredoc2 = match heredoc {
                    Some(h) => Some(Box::new((**h).deep_copy())),
                    None => None,
                };
                AstNode::Redirect {
                    span: *span,
                    input: input2,
                    op: op.clone(),
                    output: output.deep_copy(),
                    heredoc: heredoc2,
                }
            },
            AstNode::ReservedWord { span, word } => AstNode::ReservedWord {
                span: *span,
                word: word.clone(),
            },
            AstNode::CommandSubstitution { span, command } => AstNode::CommandSubstitution {
                span: *span,
                command: Box::new((**command).deep_copy()),
            },
            AstNode::ProcessSubstitution { span, command } => AstNode::ProcessSubstitution {
                span: *span,
                command: Box::new((**command).deep_copy()),
            },
            AstNode::Parameter { span, value } => AstNode::Parameter {
                span: *span,
                value: value.clone(),
            },
            AstNode::Tilde { span, value } => AstNode::Tilde { span: *span, value: value.clone() },
            AstNode::Heredoc { span, value } => AstNode::Heredoc {
                span: *span,
                value: value.clone(),
            },
            AstNode::Unimplemented { span, parts } => AstNode::Unimplemented {
                span: *span,
                parts: copy_nodes(parts),
            },
        }
    }
}


// ---------------------------------------------------------------------
// Queries and span shifting
// ---------------------------------------------------------------------

/// The bound that keeps a shift by `off` from overflowing.
pub open spec fn shift_fits(v: AstView, off: int) -> bool {
    spans_at_most(v, usize::MAX - off)
}

/// Shift every node of a vector.
pub fn shift_nodes(v: &Vec<AstNode>, offset: usize) -> (r: Vec<AstNode>)
    requires
        all_spans_seq(nodes_view(v@), |s: Span| s.start <= usize::MAX - offset && s.end <= usize::MAX - offset),
    ensures
        nodes_view(r@) == shift_seq(nodes_view(v@), offset as int),
    decreases v,
{
    let ghost p = |s: Span| s.start <= usize::MAX - offset && s.end <= usize::MAX - offset;
    proof {
        lemma_all_spans_seq(nodes_view(v@), p);
        lemma_nodes_view(v@);
        assert forall|k: int| 0 <= k < v@.len() implies #[trigger] all_spans(node_view(v@[k]), p) by {
            assert(nodes_view(v@)[k] == node_view(v@[k]));
        }
    }
    let mut out: Vec<AstNode> = Vec::new();
    let mut i: usize = 0;
    while i < v.len()
        invariant
            i <= v@.len(),
            out@.len() == i,
            forall|k: int| 0 <= k < v@.len() ==> #[trigger] all_spans(node_view(v@[k]), p),
            forall|j: int| 0 <= j < i ==> #[trigger] node_view(out@[j]) == shift_view(node_view(v@[j]), offset as int),
            p == (|s: Span| s.start <= usize::MAX - offset && s.end <= usize::MAX - offset),
        decreases v@.len() - i,
    {
        proof {
            vstd::std_specs::vec::axiom_vec_index_decreases(*v, i as int);
            assert(all_spans(node_view(v@[i as int]), p));
        }
        let c = v[i].shifted(offset);
        out.push(c);
        i += 1;
    }
    proof {
        lemma_nodes_view(out@);
        lemma_shift_seq(nodes_view(v@), offset as int);
        assert(nodes_view(out@) =~= shift_seq(nodes_view(v@), offset as int));
    }
    out
}

impl WordNode {
    /// The word with every span moved right by `offset`.
    pub fn shifted_word(&self, offset: usize) -> (r: WordNode)
        requires
            all_spans_word(self@, |s: Span| s.start <= usize::MAX - offset && s.end <= usize::MAX - offset),
        ensures
            r@ == shift_word(self@, offset as int),
        decreases self,
    {
        WordNode {
            span: self.span.shifted(offset),
            text: self.text.clone(),
            parts: shift_nodes(&self.parts, offset),
            quoted: self.quoted,
        }
    }
}

/// Greatest subtree end over a vector of nodes (0 for none).
fn max_end_nodes(v: &Vec<AstNode>) -> (r: usize)
    ensures
        r == max_end_seq(nodes_view(v@)),
    decreases v,
{
    proof {
        lemma_nodes_view(v@);
    }
    let mut best: usize = 0;
    let mut i: usize = 0;
    while i < v.len()
        invariant
            i <= v@.len(),
            nodes_view(v@).len() == v@.len(),
            forall|k: int| 0 <= k < v@.len() ==> #[trigger] nodes_view(v@)[k] == node_view(v@[k]),
            best == max_end_seq(nodes_view(v@).take(i as int)),
        decreases v@.len() - i,
    {
        proof {
            vstd::std_specs::vec::axiom_vec_index_decreases(*v, i as int);
            lemma_max_end_seq_step(nodes_view(v@), i as int);
        }
        let e = v[i].subtree_end();
        if e > best {
            best = e;
        }
        i += 1;
    }
    proof {
        assert(nodes_view(v@).take(v@.len() as int) =~= nodes_view(v@));
    }
    best
}

/// The end of a subtree is at least the end of its own span, and never
/// negative.
pub proof fn lemma_max_end_nonneg(v: AstView)
    ensures
        max_end(v) >= span_of(v).end,
        max_end(v) >= 0,
{
}

/// A sequence's end covers the end of each of its subtrees.
pub proof fn lemma_max_end_seq_ge(s: Seq<AstView>, i: int)
    requires
        0 <= i < s.len(),
    ensures
        max_end(s[i]) <= max_end_seq(s),
    decreases s.len(),
{
    if i < s.len() - 1 {
        lemma_max_end_seq_ge(s.drop_last(), i);
        assert(s.drop_last()[i] == s[i]);
    }
}

proof fn lemma_max_end_seq_nonneg(s: Seq<AstView>)
    ensures
        max_end_seq(s) >= 0,
    decreases s.len(),
{
    if s.len() > 0 {
        lemma_max_end_seq_nonneg(s.drop_last());
        lemma_max_end_nonneg(s.last());
    }
}

proof fn lemma_max_end_seq_concat(a: Seq<AstView>, b: Seq<AstView>)
    ensures
        max_end_seq(a + b) == max_int(max_end_seq(a), max_end_seq(b)),
    decreases b.len(),
{
    lemma_max_end_seq_nonneg(a);
    lemma_max_end_seq_nonneg(b);
    if b.len() == 0 {
        assert(a + b =~= a);
    } else {
        lemma_max_end_seq_concat(a, b.drop_last());
        assert((a + b).drop_last() =~= a + b.drop_last());
        assert((a + b).last() == b.last());
    }
}

/// Law: the end of a subtree (`subtree_end`) is the greatest of its own
/// span's end and its children's subtree ends.
pub proof fn lemma_max_end_is_max(v: AstView)
    ensures
        max_end(v) == max_int(span_of(v).end as int, max_end_seq(children_view(v))),
{
    match v {
        AstView::Compound { list, redirects, .. } => {
            lemma_max_end_seq_concat(list, redirects);
            assert(max_end(v) == max_int(span_of(v).end as int, max_end_seq(children_view(v))));
        },
        AstView::Redirect { output, heredoc, .. } => {
            let from_word = match output {
                TargetView::Word(w) => w.parts,
                _ => Seq::empty(),
            };
            lemma_max_end_seq_nonneg(from_word);
            match heredoc {
                Some(h) => {
                    assert(from_word.push(*h).drop_last() =~= from_word);
                    assert(from_word.push(*h).last() == *h);
                    lemma_max_end_nonneg(*h);
                    assert(children_view(v) == from_word.push(*h));
                },
                None => {
                    assert(children_view(v) == from_word);
                },
            }
            assert(max_end(v) == max_int(span_of(v).end as int, max_end_seq(children_view(v))));
        },
        AstView::CommandSubstitution { command, .. } => {
            let one = seq![*command];
            assert(one.drop_last() =~= Seq::<AstView>::empty());
            assert(one.last() == *command);
            lemma_max_end_nonneg(*command);
            assert(children_view(v) == one);
            assert(max_end_seq(one.drop_last()) == 0);
            assert(max_end_seq(one) == max_int(max_end_seq(one.drop_last()), max_end(one.last())));
            assert(max_end(v) == max_int(span_of(v).end as int, max_end(*command)));
            assert(max_end(v) == max_int(span_of(v).end as int, max_end_seq(children_view(v))));
        },
        AstView::ProcessSubstitution { command, .. } => {
            let one = seq![*command];
            assert(one.drop_last() =~= Seq::<AstView>::empty());
            assert(one.last() == *command);
            lemma_max_end_nonneg(*command);
            assert(children_view(v) == one);
            assert(max_end_seq(one.drop_last()) == 0);
            assert(max_end_seq(one) == max_int(max_end_seq(one.drop_last()), max_end(one.last())));
            assert(max_end(v) == max_int(span_of(v).end as int, max_end(*command)));
            assert(max_end(v) == max_int(span_of(v).end as int, max_end_seq(children_view(v))));
        },
        AstView::List { parts, .. } => {
            assert(children_view(v) == parts);
            assert(max_end(v) == max_int(span_of(v).end as int, max_end_seq(children_view(v))));
        },
        AstView::Pipeline { parts, .. } => {
            assert(children_view(v) == parts);
            assert(max_end(v) == max_int(span_of(v).end as int, max_end_seq(children_view(v))));
        },
        AstView::Command { parts, .. } => {
            assert(children_view(v) == parts);
            assert(max_end(v) == max_int(span_of(v).end as int, max_end_seq(children_view(v))));
        },
        AstView::Keyword { parts, .. } => {
            assert(children_view(v) == parts);
            assert(max_end(v) == max_int(span_of(v).end as int, max_end_seq(children_view(v))));
        },
        AstView::Function { parts, .. } => {
            assert(children_view(v) == parts);
            assert(max_end(v) == max_int(span_of(v).end as int, max_end_seq(children_view(v))));
        },
        AstView::Unimplemented { parts, .. } => {
            assert(children_view(v) == parts);
            assert(max_end(v) == max_int(span_of(v).end as int, max_end_seq(children_view(v))));
        },
        AstView::Word(w) => {
            assert(children_view(v) == w.parts);
            assert(max_end(v) == max_int(span_of(v).end as int, max_end_seq(children_view(v))));
        },
        AstView::Assignment(w) => {
            assert(children_view(v) == w.parts);
            assert(max_end(v) == max_int(span_of(v).end as int, max_end_seq(children_view(v))));
        },
        _ => {
            assert(children_view(v) =~= Seq::<AstView>::empty());
            assert(max_end(v) == max_int(span_of(v).end as int, max_end_seq(children_view(v))));
        },
    }
}

/// Law: the end of a subtree is at least the end of each of its children's
/// subtrees, so `subtree_end` of a node bounds that of every child.
pub proof fn lemma_max_end_children(v: AstView)
    ensures
        forall|i: int|
            0 <= i < children_view(v).len() ==> max_end(#[trigger] children_view(v)[i]) <= max_end(v),
{
    assert forall|i: int| 0 <= i < children_view(v).len() implies max_end(
        #[trigger] children_view(v)[i],
    ) <= max_end(v) by {
        match v {
            AstView::Compound { list, redirects, .. } => {
                if i < list.len() {
                    assert((list + redirects)[i] == list[i]);
                    lemma_max_end_seq_ge(list, i);
                } else {
                    assert((list + redirects)[i] == redirects[i - list.len()]);
                    lemma_max_end_seq_ge(redirects, i - list.len());
                }
            },
            AstView::Redirect { output, heredoc, .. } => {
                let from_word = match output {
                    TargetView::Word(w) => w.parts,
                    _ => Seq::empty(),
                };
                if i < from_word.len() {
                    match heredoc {
                        Some(h) => assert(from_word.push(*h)[i] == from_word[i]),
                        None => {},
                    }
                    lemma_max_end_seq_ge(from_word, i);
                }
            },
            AstView::List { parts, .. } => lemma_max_end_seq_ge(parts, i),
            AstView::Pipeline { parts, .. } => lemma_max_end_seq_ge(parts, i),
            AstView::Command { parts, .. } => lemma_max_end_seq_ge(parts, i),
            AstView::Keyword { parts, .. } => lemma_max_end_seq_ge(parts, i),
            AstView::Function { parts, .. } => lemma_max_end_seq_ge(parts, i),
            AstView::Unimplemented { parts, .. } => lemma_max_end_seq_ge(parts, i),
            AstView::Word(w) => lemma_max_end_seq_ge(w.parts, i),
            AstView::Assignment(w) => lemma_max_end_seq_ge(w.parts, i),
            _ => {},
        }
    }
}

proof fn lemma_shift_seq_concat(a: Seq<AstView>, b: Seq<AstView>, off: int)
    ensures
        shift_seq(a + b, off) == shift_seq(a, off) + shift_seq(b, off),
    decreases b.len(),
{
    if b.len() == 0 {
        assert(a + b =~= a);
        assert(shift_seq(a, off) + shift_seq(b, off) =~= shift_seq(a, off));
    } else {
        lemma_shift_seq_concat(a, b.drop_last(), off);
        assert((a + b).drop_last() =~= a + b.drop_last());
        assert((a + b).last() == b.last());
        assert(shift_seq(a, off) + shift_seq(b.drop_last(), off).push(shift_view(b.last(), off))
            =~= (shift_seq(a, off) + shift_seq(b.drop_last(), off)).push(shift_view(b.last(), off)));
    }
}

/// Law: shifting a subtree shifts each of its children by the same amount,
/// and keeps their order.
pub proof fn lemma_shift_children(v: AstView, off: int)
    ensures
        children_view(shift_view(v, off)) == shift_seq(children_view(v), off),
{
    match v {
        AstView::Compound { span, list, redirects } => {
            lemma_shift_seq_concat(list, redirects, off);
            let w = shift_view(v, off);
            assert(w == AstView::Compound {
                span: shift_span(span, off),
                list: shift_seq(list, off),
                redirects: shift_seq(redirects, off),
            });
            assert(children_view(w) == shift_seq(list, off) + shift_seq(redirects, off));
            assert(children_view(v) == list + redirects);
            assert(children_view(w) == shift_seq(children_view(v), off));
            assert(children_view(shift_view(v, off)) =~= shift_seq(children_view(v), off));
        },
        AstView::Redirect { span, input, op, output, heredoc } => {
            let from_word = match output {
                TargetView::Word(w) => w.parts,
                _ => Seq::empty(),
            };
            let out2 = match output {
                TargetView::Word(w) => TargetView::Word(shift_word(w, off)),
                other => other,
            };
            let from2 = match out2 {
                TargetView::Word(w) => w.parts,
                _ => Seq::empty(),
            };
            assert(shift_seq(Seq::<AstView>::empty(), off) =~= Seq::<AstView>::empty());
            assert(from2 == shift_seq(from_word, off));
            let h2 = match heredoc {
                Some(h) => Some(Box::new(shift_view(*h, off))),
                None => None,
            };
            assert(shift_view(v, off) == AstView::Redirect {
                span: shift_span(span, off),
                input,
                op,
                output: out2,
                heredoc: h2,
            });
            match heredoc {
                Some(h) => {
                    assert(from_word.push(*h).drop_last() =~= from_word);
                    assert(from_word.push(*h).last() == *h);
                    assert(children_view(v) == from_word.push(*h));
                    assert(children_view(shift_view(v, off)) == from2.push(shift_view(*h, off)));
                },
                None => {
                    assert(children_view(v) == from_word);
                    assert(children_view(shift_view(v, off)) == from2);
                },
            }
            assert(children_view(shift_view(v, off)) =~= shift_seq(children_view(v), off));
        },
        AstView::CommandSubstitution { command, .. } => {
            let one = seq![*command];
            assert(one.drop_last() =~= Seq::<AstView>::empty());
            assert(one.last() == *command);
            assert(shift_seq(Seq::<AstView>::empty(), off) =~= Seq::<AstView>::empty());
            assert(shift_seq(one, off) == shift_seq(one.drop_last(), off).push(shift_view(one.last(), off)));
            assert(shift_seq(one, off) =~= seq![shift_view(*command, off)]);
        },
        AstView::ProcessSubstitution { command, .. } => {
            let one = seq![*command];
            assert(one.drop_last() =~= Seq::<AstView>::empty());
            assert(one.last() == *command);
            assert(shift_seq(Seq::<AstView>::empty(), off) =~= Seq::<AstView>::empty());
            assert(shift_seq(one, off) == shift_seq(one.drop_last(), off).push(shift_view(one.last(), off)));
            assert(shift_seq(one, off) =~= seq![shift_view(*command, off)]);
        },
        AstView::List { .. } => {},
        AstView::Pipeline { .. } => {},
        AstView::Command { .. } => {},
        AstView::Keyword { .. } => {},
        AstView::Function { .. } => {},
        AstView::Unimplemented { .. } => {},
        AstView::Word(w) => {
            assert(shift_view(v, off) == AstView::Word(shift_word(w, off)));
        },
        AstView::Assignment(w) => {
            assert(shift_view(v, off) == AstView::Assignment(shift_word(w, off)));
        },
        AstView::Operator { .. } | AstView::Pipe { .. } | AstView::ReservedWord { .. }
        | AstView::Parameter { .. } | AstView::Tilde { .. } | AstView::Heredoc { .. } => {
            assert(shift_seq(Seq::<AstView>::empty(), off) =~= Seq::<AstView>::empty());
            assert(children_view(v) =~= Seq::<AstView>::empty());
            assert(children_view(shift_view(v, off)) =~= Seq::<AstView>::empty());
        },
    }
}

/// Every span end moved right by `off` still fits in a `usize`.
pub open spec fn ends_fit(off: int) -> spec_fn(Span) -> bool {
    |sp: Span| sp.start + off <= usize::MAX && sp.end + off <= usize::MAX
}

/// The end of a shifted sequence of subtrees moves with it (an empty
/// sequence keeps end 0).
pub proof fn lemma_shift_max_end_seq(s: Seq<AstView>, off: int)
    requires
        off >= 0,
        all_spans_seq(s, ends_fit(off)),
    ensures
        max_end_seq(shift_seq(s, off)) == if s.len() == 0 {
            0
        } else {
            max_end_seq(s) + off
        },
    decreases s, 0nat,
{
    if s.len() > 0 {
        lemma_shift_max_end_seq(s.drop_last(), off);
        lemma_shift_max_end(s.last(), off);
        lemma_max_end_nonneg(s.last());
        let t = shift_seq(s, off);
        assert(t == shift_seq(s.drop_last(), off).push(shift_view(s.last(), off)));
        assert(t.drop_last() =~= shift_seq(s.drop_last(), off));
        assert(t.last() == shift_view(s.last(), off));
        assert(t.len() > 0);
        assert(max_end_seq(t) == max_int(max_end_seq(t.drop_last()), max_end(t.last())));
        assert(max_end_seq(s) == max_int(max_end_seq(s.drop_last()), max_end(s.last())));
    }
}

/// Law: shifting a subtree by `off` moves its end (`subtree_end`) by
/// `off`, as long as every shifted offset still fits.
#[verifier::spinoff_prover]
#[verifier::rlimit(40)]
pub proof fn lemma_shift_max_end(v: AstView, off: int)
    requires
        off >= 0,
        all_spans(v, ends_fit(off)),
    ensures
        max_end(shift_view(v, off)) == max_end(v) + off,
    decreases v, 1nat,
{
    lemma_max_end_nonneg(v);
    let goal = max_end(v) + off;
    match v {
        AstView::List { span, parts } => {
            assert(ends_fit(off)(span));
            assert(span.end + off <= usize::MAX);
            lemma_shift_max_end_seq(parts, off);
            let w = AstView::List { span: shift_span(span, off), parts: shift_seq(parts, off) };
            assert(shift_view(v, off) == w);
            assert(span_of(w).end == span.end + off);
            assert(max_end(w) == max_int(span.end + off, max_end_seq(shift_seq(parts, off))));
            assert(max_end(v) == max_int(span.end as int, max_end_seq(parts)));
            assert(max_end(shift_view(v, off)) == goal);
        },
        AstView::Pipeline { span, parts } => {
            assert(ends_fit(off)(span));
            assert(span.end + off <= usize::MAX);
            lemma_shift_max_end_seq(parts, off);
            let w = AstView::Pipeline { span: shift_span(span, off), parts: shift_seq(parts, off) };
            assert(shift_view(v, off) == w);
            assert(span_of(w).end == span.end + off);
            assert(max_end(w) == max_int(span.end + off, max_end_seq(shift_seq(parts, off))));
            assert(max_end(v) == max_int(span.end as int, max_end_seq(parts)));
            assert(max_end(shift_view(v, off)) == goal);
        },
        AstView::Command { span, parts } => {
            assert(ends_fit(off)(span));
            assert(span.end + off <= usize::MAX);
            lemma_shift_max_end_seq(parts, off);
            let w = AstView::Command { span: shift_span(span, off), parts: shift_seq(parts, off) };
            assert(shift_view(v, off) == w);
            assert(span_of(w).end == span.end + off);
            assert(max_end(w) == max_int(span.end + off, max_end_seq(shift_seq(parts, off))));
            assert(max_end(v) == max_int(span.end as int, max_end_seq(parts)));
            assert(max_end(shift_view(v, off)) == goal);
        },
        AstView::Keyword { kind, span, parts } => {
            lemma_shift_max_end_seq(parts, off);
            let w = AstView::Keyword { kind, span: shift_span(span, off), parts: shift_seq(parts, off) };
            assert(shift_view(v, off) == w);
            assert(ends_fit(off)(span));
            assert(span_of(w).end == span.end + off);
            assert(max_end(w) == max_int(span.end + off, max_end_seq(shift_seq(parts, off))));
            assert(max_end(v) == max_int(span.end as int, max_end_seq(parts)));
            assert(max_end(shift_view(v, off)) == goal);
        },
        AstView::Function { span, name, body, parts } => {
            lemma_shift_max_end_seq(parts, off);
            let w = AstView::Function {
                span: shift_span(span, off),
                name: shift_word(name, off),
                body: Box::new(shift_view(*body, off)),
                parts: shift_seq(parts, off),
            };
            assert(shift_view(v, off) == w);
            assert(ends_fit(off)(span));
            assert(span_of(w).end == span.end + off);
            assert(max_end(w) == max_int(span.end + off, max_end_seq(shift_seq(parts, off))));
            assert(max_end(v) == max_int(span.end as int, max_end_seq(parts)));
            assert(max_end(shift_view(v, off)) == goal);
        },
        AstView::Unimplemented { span, parts } => {
            lemma_shift_max_end_seq(parts, off);
            let w = AstView::Unimplemented { span: shift_span(span, off), parts: shift_seq(parts, off) };
            assert(shift_view(v, off) == w);
            assert(ends_fit(off)(span));
            assert(span_of(w).end == span.end + off);
            assert(max_end(w) == max_int(span.end + off, max_end_seq(shift_seq(parts, off))));
            assert(max_end(v) == max_int(span.end as int, max_end_seq(parts)));
            assert(max_end(shift_view(v, off)) == goal);
        },
        AstView::Compound { span, list, redirects } => {
            lemma_shift_max_end_seq(list, off);
            lemma_shift_max_end_seq(redirects, off);
            assert(shift_view(v, off) == AstView::Compound {
                span: shift_span(span, off),
                list: shift_seq(list, off),
                redirects: shift_seq(redirects, off),
            });
            assert(max_end(shift_view(v, off)) == goal);
        },
        AstView::Word(w) => {
            assert(all_spans_word(w, ends_fit(off)));
            lemma_shift_max_end_seq(w.parts, off);
            let x = AstView::Word(shift_word(w, off));
            assert(shift_view(v, off) == x);
            assert(ends_fit(off)(w.span));
            assert(span_of(x).end == w.span.end + off);
            assert(max_end(x) == max_int(w.span.end + off, max_end_seq(shift_seq(w.parts, off))));
            assert(max_end(v) == max_int(w.span.end as int, max_end_seq(w.parts)));
            assert(max_end(shift_view(v, off)) == goal);
        },
        AstView::Assignment(w) => {
            assert(all_spans_word(w, ends_fit(off)));
            lemma_shift_max_end_seq(w.parts, off);
            let x = AstView::Assignment(shift_word(w, off));
            assert(shift_view(v, off) == x);
            assert(ends_fit(off)(w.span));
            assert(span_of(x).end == w.span.end + off);
            assert(max_end(x) == max_int(w.span.end + off, max_end_seq(shift_seq(w.parts, off))));
            assert(max_end(v) == max_int(w.span.end as int, max_end_seq(w.parts)));
            assert(max_end(shift_view(v, off)) == goal);
        },
        AstView::Redirect { span, input, op, output, heredoc } => {
            match output {
                TargetView::Word(w) => {
                    assert(all_spans_word(w, ends_fit(off)));
                    lemma_shift_max_end_seq(w.parts, off);
                },
                _ => {},
            }
            match heredoc {
                Some(h) => lemma_shift_max_end(*h, off),
                None => {},
            }
            let out2 = match output {
                TargetView::Word(w) => TargetView::Word(shift_word(w, off)),
                other => other,
            };
            let h2 = match heredoc {
                Some(h) => Some(Box::new(shift_view(*h, off))),
                None => None,
            };
            assert(shift_view(v, off) == AstView::Redirect {
                span: shift_span(span, off),
                input,
                op,
                output: out2,
                heredoc: h2,
            });
            assert(max_end(shift_view(v, off)) == goal);
        },
        AstView::CommandSubstitution { span, command } => {
            lemma_shift_max_end(*command, off);
            assert(shift_view(v, off) == AstView::CommandSubstitution {
                span: shift_span(span, off),
                command: Box::new(shift_view(*command, off)),
            });
            assert(max_end(shift_view(v, off)) == goal);
        },
        AstView::ProcessSubstitution { span, command } => {
            lemma_shift_max_end(*command, off);
            assert(shift_view(v, off) == AstView::ProcessSubstitution {
                span: shift_span(span, off),
                command: Box::new(shift_view(*command, off)),
            });
            assert(max_end(shift_view(v, off)) == goal);
        },
        AstView::Operator { span, op } => {
            assert(shift_view(v, off) == AstView::Operator { span: shift_span(span, off), op });
            assert(max_end(shift_view(v, off)) == goal);
        },
        AstView::Pipe { span, pipe } => {
            assert(shift_view(v, off) == AstView::Pipe { span: shift_span(span, off), pipe });
            assert(max_end(shift_view(v, off)) == goal);
        },
        AstView::ReservedWord { span, word } => {
            assert(shift_view(v, off) == AstView::ReservedWord { span: shift_span(span, off), word });
            assert(max_end(shift_view(v, off)) == goal);
        },
        AstView::Parameter { span, value } => {
            assert(shift_view(v, off) == AstView::Parameter { span: shift_span(span, off), value });
            assert(max_end(shift_view(v, off)) == goal);
        },
        AstView::Tilde { span, value } => {
            assert(shift_view(v, off) == AstView::Tilde { span: shift_span(span, off), value });
            assert(max_end(shift_view(v, off)) == goal);
        },
        AstView::Heredoc { span, value } => {
            assert(shift_view(v, off) == AstView::Heredoc { span: shift_span(span, off), value });
            assert(max_end(shift_view(v, off)) == goal);
        },
    }
}

impl AstNode {
    /// The bashlex `kind` string of this node.
    pub fn kind(&self) -> (r: &'static str)
        ensures
            r@ == kind_name(self@),
    {
        match self {
            AstNode::List { .. } => "list",
            AstNode::Pipeline { .. } => "pipeline",
            AstNode::Command { .. } => "command",
            AstNode::Compound { .. } => "compound",
            AstNode::Keyword { kind, .. } => match kind {
                KeywordKind::If => "if",
                KeywordKind::For => "for",
                KeywordKind::While => "while",
                KeywordKind::Until => "until",
                KeywordKind::Case => "case",
                KeywordKind::Pattern => "pattern",
            },
            AstNode::Function { .. } => "function",
            AstNode::Word(_) => "word",
            AstNode::Assignment(_) => "assignment",
            AstNode::Operator { .. } => "operator",
            AstNode::Pipe { .. } => "pipe",
            AstNode::Redirect { .. } => "redirect",
            AstNode::ReservedWord { .. } => "reservedword",
            AstNode::CommandSubstitution { .. } => "commandsubstitution",
            AstNode::ProcessSubstitution { .. } => "processsubstitution",
            AstNode::Parameter { .. } => "parameter",
            AstNode::Tilde { .. } => "tilde",
            AstNode::Heredoc { .. } => "heredoc",
            AstNode::Unimplemented { .. } => "unimplemented",
        }
    }

    /// Source span of this node.
    pub fn span(&self) -> (r: Span)
        ensures
            r == span_of(self@),
    {
        proof {
            reveal_with_fuel(node_view, 2);
            reveal_with_fuel(word_view, 2);
        }
        match self {
            AstNode::List { span, .. } => *span,
            AstNode::Pipeline { span, .. } => *span,
            AstNode::Command { span, .. } => *span,
            AstNode::Compound { span, .. } => *span,
            AstNode::Keyword { span, .. } => *span,
            AstNode::Function { span, .. } => *span,
            AstNode::Operator { span, .. } => *span,
            AstNode::Pipe { span, .. } => *span,
            AstNode::Redirect { span, .. } => *span,
            AstNode::ReservedWord { span, .. } => *span,
            AstNode::CommandSubstitution { span, .. } => *span,
            AstNode::ProcessSubstitution { span, .. } => *span,
            AstNode::Parameter { span, .. } => *span,
            AstNode::Tilde { span, .. } => *span,
            AstNode::Heredoc { span, .. } => *span,
            AstNode::Unimplemented { span, .. } => *span,
            AstNode::Word(w) => w.span,
            AstNode::Assignment(w) => w.span,
        }
    }

    /// Direct children in visit order (bashlex nodevisitor traversal).
    pub fn children(&self) -> (r: Vec<&AstNode>)
        ensures
            r@.len() == children_view(self@).len(),
            forall|i: int| 0 <= i < r@.len() ==> (#[trigger] r@[i])@ == children_view(self@)[i],
    {
        let mut out: Vec<&AstNode> = Vec::new();
        proof {
            reveal_with_fuel(node_view, 2);
            reveal_with_fuel(word_view, 2);
            reveal_with_fuel(target_view, 2);
        }
        match self {
            AstNode::List { parts, .. } => {
                push_refs(&mut out, parts);
                proof {
                    lemma_nodes_view(parts@);
                }
            },
            AstNode::Pipeline { parts, .. } => {
                push_refs(&mut out, parts);
                proof {
                    lemma_nodes_view(parts@);
                }
            },
            AstNode::Command { parts, .. } => {
                push_refs(&mut out, parts);
                proof {
                    lemma_nodes_view(parts@);
                }
            },
            AstNode::Keyword { parts, .. } => {
                push_refs(&mut out, parts);
                proof {
                    lemma_nodes_view(parts@);
                }
            },
            AstNode::Function { parts, .. } => {
                push_refs(&mut out, parts);
                proof {
                    lemma_nodes_view(parts@);
                }
            },
            AstNode::Unimplemented { parts, .. } => {
                push_refs(&mut out, parts);
                proof {
                    lemma_nodes_view(parts@);
                }
            },
            AstNode::Compound { list, redirects, .. } => {
                push_refs(&mut out, list);
                push_refs(&mut out, redirects);
                proof {
                    lemma_nodes_view(list@);
                    lemma_nodes_view(redirects@);
                    let lv = nodes_view(list@);
                    let rv = nodes_view(redirects@);
                    let cv = children_view(self@);
                    assert(cv == lv + rv);
                    assert forall|i: int| 0 <= i < out@.len() implies (#[trigger] out@[i])@ == cv[i] by {
                        if i >= list@.len() {
                            let k = i - list@.len();
                            assert(out@[list@.len() + k]@ == node_view(redirects@[k]));
                            assert(rv[k] == node_view(redirects@[k]));
                            assert(cv[i] == rv[k]);
                        } else {
                            assert(lv[i] == node_view(list@[i]));
                            assert(cv[i] == lv[i]);
                        }
                    }
                }
            },
            AstNode::Word(w) => {
                push_refs(&mut out, &w.parts);
                proof {
                    lemma_nodes_view(w.parts@);
                }
            },
            AstNode::Assignment(w) => {
                push_refs(&mut out, &w.parts);
                proof {
                    lemma_nodes_view(w.parts@);
                }
            },
            AstNode::Redirect { output, heredoc, .. } => {
                let ghost wp: Seq<AstView> = match output {
                    RedirectTarget::Word(w) => nodes_view(w.parts@),
                    _ => Seq::empty(),
                };
                match output {
                    RedirectTarget::Word(w) => {
                        push_refs(&mut out, &w.parts);
                        proof {
                            lemma_nodes_view(w.parts@);
                        }
                    },
                    _ => {},
                }
                let ghost mid = out@;
                proof {
                    assert(mid.len() == wp.len());
                    assert forall|i: int| 0 <= i < mid.len() implies (#[trigger] mid[i])@ == wp[i] by {}
                }
                match heredoc {
                    Some(h) => out.push(&**h),
                    None => {},
                }
                proof {
                    let cv = children_view(self@);
                    assert(self@->output == target_view(*output));
                    let fw: Seq<AstView> = match self@->output {
                        TargetView::Word(w) => w.parts,
                        _ => Seq::empty(),
                    };
                    assert(fw == wp);
                    match heredoc {
                        Some(h) => {
                            assert(cv == wp.push(node_view(**h)));
                            assert forall|i: int| 0 <= i < out@.len() implies (#[trigger] out@[i])@ == cv[i] by {
                                if i < mid.len() {
                                    assert(out@[i] == mid[i]);
                                }
                            }
                        },
                        None => {
                            assert(cv == wp);
                        },
                    }
                }
            },
            AstNode::CommandSubstitution { command, .. } => {
                out.push(&**command);
            },
            AstNode::ProcessSubstitution { command, .. } => {
                out.push(&**command);
            },
            _ => {},
        }
        out
    }

    /// The subtree with every span moved right by `offset`
    /// (bashlex posshifter).
    pub fn shifted(&self, offset: usize) -> (r: AstNode)
        requires
            shift_fits(self@, offset as int),
        ensures
            r@ == shift_view(self@, offset as int),
        decreases self,
    {
        proof {
            reveal_with_fuel(node_view, 2);
            reveal_with_fuel(word_view, 2);
            reveal_with_fuel(target_view, 2);
        }
        if offset == 0 {
            proof {
                lemma_shift_zero(self@);
            }
            return self.clone();
        }
        match self {
            AstNode::List { span, parts } => AstNode::List {
                span: span.shifted(offset),
                parts: shift_nodes(parts, offset),
            },
            AstNode::Pipeline { span, parts } => AstNode::Pipeline {
                span: span.shifted(offset),
                parts: shift_nodes(parts, offset),
            },
            AstNode::Command { span, parts } => AstNode::Command {
                span: span.shifted(offset),
                parts: shift_nodes(parts, offset),
            },
            AstNode::Compound { span, list, redirects } => AstNode::Compound {
                span: span.shifted(offset),
                list: shift_nodes(list, offset),
                redirects: shift_nodes(redirects, offset),
            },
            AstNode::Keyword { kind, span, parts } => AstNode::Keyword {
                kind: *kind,
                span: span.shifted(offset),
                parts: shift_nodes(parts, offset),
            },
            AstNode::Function { span, name, body, parts } => AstNode::Function {
                span: span.shifted(offset),
                name: name.shifted_word(offset),
                body: Box::new((**body).shifted(offset)),
                parts: shift_nodes(parts, offset),
            },
            AstNode::Word(w) => AstNode::Word(w.shifted_word(offset)),
            AstNode::Assignment(w) => AstNode::Assignment(w.shifted_word(offset)),
            AstNode::Operator { span, op } => AstNode::Operator {
                span: span.shifted(offset),
                op: op.clone(),
            },
            AstNode::Pipe { span, pipe } => AstNode::Pipe {
                span: span.shifted(offset),
                pipe: pipe.clone(),
            },
            AstNode::Redirect { span, input, op, output, heredoc } => {
                let input2 = match input {
                    Some(s) => Some(s.deep_copy()),
                    None => None,
                };
                let output2 = match output {
                    RedirectTarget::Word(w) => RedirectTarget::Word(w.shifted_word(offset)),
                    other => other.deep_copy(),
                };
                let heredoc2 = match heredoc {
                    Some(h) => Some(Box::new((**h).shifted(offset))),
                    None => None,
                };
                AstNode::Redirect {
                    span: span.shifted(offset),
                    input: input2,
                    op: op.clone(),
                    output: output2,
                    heredoc: heredoc2,
                }
            },
            AstNode::ReservedWord { span, word } => AstNode::ReservedWord {
                span: span.shifted(offset),
                word: word.clone(),
            },
            AstNode::CommandSubstitution { span, command } => AstNode::CommandSubstitution {
                span: span.shifted(offset),
                command: Box::new((**command).shifted(offset)),
            },
            AstNode::ProcessSubstitution { span, command } => AstNode::ProcessSubstitution {
                span: span.shifted(offset),
                command: Box::new((**command).shifted(offset)),
            },
            AstNode::Parameter { span, value } => AstNode::Parameter {
                span: span.shifted(offset),
                value: value.clone(),
            },
            AstNode::Tilde { span, value } => AstNode::Tilde {
                span: span.shifted(offset),
                value: value.clone(),
            },
            AstNode::Heredoc { span, value } => AstNode::Heredoc {
                span: span.shifted(offset),
                value: value.clone(),
            },
            AstNode::Unimplemented { span, parts } => AstNode::Unimplemented {
                span: span.shifted(offset),
                parts: shift_nodes(parts, offset),
            },
        }
    }

    /// Greatest end offset in this subtree, heredoc bodies included
    /// (bashlex _endfinder: heredocs may extend past the node end).
    pub fn subtree_end(&self) -> (r: usize)
        ensures
            r == max_end(self@),
        decreases self,
    {
        proof {
            reveal_with_fuel(node_view, 2);
            reveal_with_fuel(word_view, 2);
            reveal_with_fuel(target_view, 2);
        }
        let own = self.span().end;
        let inner: usize = match self {
            AstNode::List { parts, .. } => max_end_nodes(parts),
            AstNode::Pipeline { parts, .. } => max_end_nodes(parts),
            AstNode::Command { parts, .. } => max_end_nodes(parts),
            AstNode::Keyword { parts, .. } => max_end_nodes(parts),
            AstNode::Function { parts, .. } => max_end_nodes(parts),
            AstNode::Unimplemented { parts, .. } => max_end_nodes(parts),
            AstNode::Compound { list, redirects, .. } => {
                let a = max_end_nodes(list);
                let b = max_end_nodes(redirects);
                if a >= b { a } else { b }
            },
            AstNode::Word(w) => max_end_nodes(&w.parts),
            AstNode::Assignment(w) => max_end_nodes(&w.parts),
            AstNode::Redirect { output, heredoc, .. } => {
                proof {
                    assert(self@->output == target_view(*output));
                }
                let a = match output {
                    RedirectTarget::Word(w) => max_end_nodes(&w.parts),
                    _ => 0,
                };
                let b = match heredoc {
                    Some(h) => (**h).subtree_end(),
                    None => 0,
                };
                if a >= b { a } else { b }
            },
            AstNode::CommandSubstitution { command, .. } => (**command).subtree_end(),
            AstNode::ProcessSubstitution { command, .. } => (**command).subtree_end(),
            _ => 0,
        };
        if own >= inner { own } else { inner }
    }
}

/// Append references to every element of `v`.
fn push_refs<'a>(out: &mut Vec<&'a AstNode>, v: &'a Vec<AstNode>)
    ensures
        final(out)@.len() == old(out)@.len() + v@.len(),
        forall|i: int| 0 <= i < old(out)@.len() ==> #[trigger] final(out)@[i] == old(out)@[i],
        forall|i: int|
            old(out)@.len() <= i < final(out)@.len() ==> *(#[trigger] final(out)@[i]) == v@[i - old(out)@.len()],
{
    let ghost start = out@.len();
    let mut i: usize = 0;
    while i < v.len()
        invariant
            i <= v@.len(),
            out@.len() == start + i,
            start == old(out)@.len(),
            forall|k: int| 0 <= k < start ==> #[trigger] out@[k] == old(out)@[k],
            forall|k: int| start <= k < out@.len() ==> *(#[trigger] out@[k]) == v@[k - start],
        decreases v@.len() - i,
    {
        out.push(&v[i]);
        i += 1;
    }
}

/// Index of the first part whose bashlex kind is `kind`, or -1
/// (bashlex findfirstkind).
pub fn find_first_kind(parts: &[AstNode], kind: &str) -> (r: i64)
    requires
        parts@.len() <= i64::MAX,
    ensures
        r == -1 <==> forall|i: int| 0 <= i < parts@.len() ==> kind_name(#[trigger] parts@[i]@) != kind@,
        r >= 0 ==> r < parts@.len() && kind_name(parts@[r as int]@) == kind@ && forall|i: int|
            0 <= i < r ==> kind_name(#[trigger] parts@[i]@) != kind@,
        r >= -1,
{
    let mut i: usize = 0;
    while i < parts.len()
        invariant
            i <= parts@.len(),
            parts@.len() <= i64::MAX,
            forall|k: int| 0 <= k < i ==> kind_name(#[trigger] parts@[k]@) != kind@,
        decreases parts@.len() - i,
    {
        if str_eq(parts[i].kind(), kind) {
            return i as i64;
        }
        i += 1;
    }
    -1
}

} // verus!
