//! Recursive-descent shell parser producing a bashlex-shaped AST.
//!
//! Grammar coverage: simple commands, pipelines, lists, redirects
//! (heredocs included), if/for/while/until/case compounds, functions,
//! subshells and groups. Bare newlines separate commands without operator
//! nodes; `select` parses like `for`; `time` / `coproc` wrap the following
//! pipeline in an Unimplemented node; `[[ ... ]]` degrades to a plain
//! command. Positions are byte offsets.

use vstd::prelude::*;
use vstd::string::StringSliceAdditionalSpecFns;
use crate::ast::{
    AstNode, AstView, KeywordKind, RedirectSource, RedirectTarget, Span, WordNode, all_spans,
    lemma_all_spans_seq, lemma_nodes_view, node_view, nodes_view,
    span_of, span_within, spans_within, seq_within, word_within, within_pred, max_end,
    lemma_nodes_push_within, lemma_shift_within, lemma_max_end_within, lemma_all_spans_mono,
    WordView, all_words, all_words_seq, lemma_words_push, leaf_parts, expansion_leaf,
};
use crate::lexer::{
    LexError, Lexer, OpKind, RawExpansion, RawWord, Token, blank_token_at, bytes_equal, cook, cook_end, first_byte, quote_in, expansion_ok, op_text, word_stops_at, lemma_token_start_bounds, lemma_operator_at_bounds, same_token, token_span, token_start, word_ok, word_token_ok,
};
use crate::text::{debug_text, debug_quoted, lossy_string, parse_i64, push_str, str_eq, utf8_slice};
use vstd::std_specs::vec::*;

verus! {

/// Parser failure.
#[derive(Debug, Clone, PartialEq, Eq)]
pub enum ParseError {
    /// Lexer failure
    Lex(LexError),
    /// Unexpected token where a command could start
    Unexpected {
        /// Description of what was found
        found: String,
        /// Byte offset
        offset: usize,
    },
    /// Unexpected end of input
    UnexpectedEof,
    /// No command in the input
    EmptyInput,
    /// Construct parsed but explicitly unsupported
    Unimplemented {
        /// Construct name
        what: String,
        /// Byte offset
        offset: usize,
    },
}

/// Byte offset of a failure, when it has one.
pub open spec fn error_offset(e: ParseError) -> Option<usize> {
    match e {
        ParseError::Lex(l) => Some(l.offset),
        ParseError::Unexpected { offset, .. } => Some(offset),
        ParseError::Unimplemented { offset, .. } => Some(offset),
        _ => None,
    }
}

impl ParseError {
    /// Byte offset of the failure, when known.
    pub fn offset(&self) -> (r: Option<usize>)
        ensures
            r == error_offset(*self),
    {
        match self {
            ParseError::Lex(e) => Some(e.offset),
            ParseError::Unexpected { offset, .. } => Some(*offset),
            ParseError::Unimplemented { offset, .. } => Some(*offset),
            ParseError::UnexpectedEof => None,
            ParseError::EmptyInput => None,
        }
    }
}

/// How a parser failure reads.
pub open spec fn parse_error_text(e: ParseError) -> Seq<char> {
    match e {
        ParseError::Lex(l) => "lex error: "@ + crate::lexer::lex_error_text(l),
        ParseError::Unexpected { found, offset } => "unexpected "@ + found@ + " at offset "@
            + crate::text::decimal_text(offset as nat),
        ParseError::UnexpectedEof => "unexpected end of input"@,
        ParseError::EmptyInput => "no command to parse"@,
        ParseError::Unimplemented { what, offset } => "unsupported construct "@ + what@
            + " at offset "@ + crate::text::decimal_text(offset as nat),
    }
}

impl ParseError {
    /// The failure as a sentence.
    pub fn message(&self) -> (r: String)
        ensures
            r@ == parse_error_text(*self),
    {
        match self {
            ParseError::Lex(l) => {
                let mut s = "lex error: ".to_owned();
                let d = l.describe();
                push_str(&mut s, d.as_str());
                s
            },
            ParseError::Unexpected { found, offset } => {
                let mut s = "unexpected ".to_owned();
                push_str(&mut s, found.as_str());
                push_str(&mut s, " at offset ");
                crate::text::push_decimal(&mut s, *offset as u64);
                s
            },
            ParseError::UnexpectedEof => "unexpected end of input".to_owned(),
            ParseError::EmptyInput => "no command to parse".to_owned(),
            ParseError::Unimplemented { what, offset } => {
                let mut s = "unsupported construct ".to_owned();
                push_str(&mut s, what.as_str());
                push_str(&mut s, " at offset ");
                crate::text::push_decimal(&mut s, *offset as u64);
                s
            },
        }
    }
}

impl From<LexError> for ParseError {
    fn from(e: LexError) -> (r: ParseError) {
        ParseError::Lex(e)
    }
}

impl vstd::std_specs::convert::FromSpecImpl<LexError> for ParseError {
    open spec fn obeys_from_spec() -> bool {
        true
    }

    open spec fn from_spec(e: LexError) -> ParseError {
        ParseError::Lex(e)
    }
}

/// Parse options.
#[derive(Debug, Clone, Copy)]
pub struct ParseOptions {
    /// Gather heredoc bodies strictly (error on a missing delimiter).
    pub strict: bool,
    /// Maximum substitution nesting that keeps child nodes; `None` means
    /// unbounded.
    pub expansion_limit: Option<i32>,
}

impl Default for ParseOptions {
    fn default() -> (r: ParseOptions)
        ensures
            r.strict,
            r.expansion_limit is None,
    {
        ParseOptions { strict: true, expansion_limit: None }
    }
}

// ---------------------------------------------------------------------
// Token buffer model
// ---------------------------------------------------------------------

/// A buffered token lies in `s` and ends by `at`, the scanner position.
pub open spec fn token_fits(s: Seq<u8>, t: Token, at: int) -> bool {
    match t {
        Token::Word(w) => word_ok(s, w) && w.span.end <= at,
        Token::Newline(sp) => sp.start < sp.end <= at && sp.end <= s.len(),
        Token::Op(_, sp) => sp.start < sp.end <= at && sp.end <= s.len(),
        Token::Eof => at == s.len(),
    }
}

/// Buffered tokens come in source order, end-of-input last.
pub open spec fn tokens_ordered(ts: Seq<Token>) -> bool {
    forall|k: int, l: int|
        0 <= k < l < ts.len() ==> match (#[trigger] token_span(ts[k]), #[trigger] token_span(
            ts[l],
        )) {
            (Some(a), Some(b)) => a.end <= b.start,
            (None, Some(_)) => false,
            _ => true,
        }
}

/// Only blanks, comments and newlines remain from `at` on: no command
/// starts there.
pub open spec fn blank_from(s: Seq<u8>, at: int) -> bool
    decreases s.len() - at,
{
    if at < 0 || at >= s.len() {
        true
    } else {
        let t = token_start(s, at);
        if t >= s.len() {
            true
        } else if s[t] == crate::lexer::NL && t >= at {
            blank_from(s, t + 1)
        } else {
            false
        }
    }
}

/// On blank input no word or operator starts next.
proof fn lemma_blank_next(s: Seq<u8>, at: int)
    requires
        0 <= at <= s.len(),
        blank_from(s, at),
    ensures
        blank_token_at(s, token_start(s, at)),
{
    lemma_token_start_bounds(s, at);
}

/// On blank input the next token is a newline or the end, and the rest
/// stays blank.
proof fn lemma_blank_token(s: Seq<u8>, at: int, tok: Token, at2: int)
    requires
        0 <= at <= s.len(),
        blank_from(s, at),
        crate::lexer::token_ok(s, token_start(s, at), tok, at2),
    ensures
        tok is Newline || tok is Eof,
        blank_from(s, at2),
        blank_token_at(s, token_start(s, at)),
{
    lemma_token_start_bounds(s, at);
}

/// A newline (or the end) read from `at`, followed by blank input, leaves
/// `at` blank too.
proof fn lemma_blank_back(s: Seq<u8>, at: int, tok: Token, at2: int)
    requires
        0 <= at <= s.len(),
        tok is Newline || tok is Eof,
        crate::lexer::token_ok(s, token_start(s, at), tok, at2),
        blank_from(s, at2),
    ensures
        blank_from(s, at),
{
    lemma_token_start_bounds(s, at);
}

/// What terminates a command sequence.
#[derive(Clone, Copy)]
struct EndSet {
    /// Stop before `)` (subshells, substitutions)
    stop_rparen: bool,
    /// Stop before `}` (groups, for-brace form)
    stop_rbrace: bool,
    /// Stop before these command-head words
    stop_words: StopWords,
}

/// The command-head words that end a sequence.
#[derive(Clone, Copy, PartialEq, Eq, Structural)]
enum StopWords {
    NoWords,
    Then,
    ElifElseFi,
    Fi,
    Do,
    Done,
}

impl EndSet {
    fn top() -> (r: EndSet)
        ensures
            !r.stop_rparen && !r.stop_rbrace && r.stop_words == StopWords::NoWords,
    {
        EndSet { stop_rparen: false, stop_rbrace: false, stop_words: StopWords::NoWords }
    }

    fn words(w: StopWords) -> (r: EndSet)
        ensures
            !r.stop_rparen && !r.stop_rbrace && r.stop_words == w,
    {
        EndSet { stop_rparen: false, stop_rbrace: false, stop_words: w }
    }
}

/// How an error message names a token.
pub open spec fn token_text(t: Token) -> Seq<char> {
    match t {
        Token::Word(w) => "word "@ + debug_text(w.cooked@),
        Token::Newline(_) => "newline"@,
        Token::Op(k, _) => "operator "@ + debug_text(op_text(k)),
        Token::Eof => "end of input"@,
    }
}

/// The buffered tokens begin a redirect: a redirect operator, or a
/// descriptor word right before one.
pub open spec fn redirect_ahead(buf: Seq<Token>) -> bool {
    &&& buf.len() > 0
    &&& match buf[0] {
        Token::Op(k, _) => redirect_op(k),
        Token::Word(w) => fd_word_before_redirect(w, buf),
        _ => false,
    }
}

/// The token ends a case clause body: `;;`, `;&`, `;;&` or `esac`.
pub open spec fn clause_end_token(t: Token) -> bool {
    match t {
        Token::Op(k, _) => k == OpKind::SemiSemi || k == OpKind::SemiAnd || k == OpKind::SemiSemiAnd,
        Token::Word(w) => w.cooked@ == "esac"@,
        _ => false,
    }
}

/// `w` is one of the words that `sw` stops at.
spec fn stop_word(sw: StopWords, w: Seq<char>) -> bool {
    match sw {
        StopWords::NoWords => false,
        StopWords::Then => w == "then"@,
        StopWords::ElifElseFi => w == "elif"@ || w == "else"@ || w == "fi"@,
        StopWords::Fi => w == "fi"@,
        StopWords::Do => w == "do"@,
        StopWords::Done => w == "done"@,
    }
}

/// The word is one of the stop words.
fn is_stop_word(sw: StopWords, word: &String) -> (r: bool)
    ensures
        r == stop_word(sw, word@),
{
    let w = word.as_str();
    match sw {
        StopWords::NoWords => false,
        StopWords::Then => str_eq(w, "then"),
        StopWords::ElifElseFi => str_eq(w, "elif") || str_eq(w, "else") || str_eq(w, "fi"),
        StopWords::Fi => str_eq(w, "fi"),
        StopWords::Do => str_eq(w, "do"),
        StopWords::Done => str_eq(w, "done"),
    }
}

/// The cooked text of a word equals `lit`.
fn word_is(w: &RawWord, lit: &str) -> (r: bool)
    ensures
        r == (w.cooked@ == lit@),
{
    str_eq(w.cooked.as_str(), lit)
}

/// The token read from `at` is a word that can be read whole.
pub open spec fn word_first(s: Seq<u8>, at: int) -> bool {
    let t = token_start(s, at);
    &&& t < s.len()
    &&& s[t] != crate::lexer::NL
    &&& !(crate::lexer::operator_start(s[t]) && !crate::lexer::procsubst_at(s, t))
    &&& crate::lexer::word_end(s, t, true, true) is Some
}

/// The input is one word and nothing but blanks after it: a word that
/// names no descriptor and opens no compound command, whose substitutions
/// (when they are parsed at all) are none.
pub open spec fn lone_word_input(s: Seq<u8>, subst_parsed: bool) -> bool {
    let t = token_start(s, 0);
    &&& word_first(s, 0)
    &&& blank_from(s, crate::lexer::word_end(s, t, true, true).unwrap())
    &&& !fd_word(crate::lexer::word_text(s, t, true, true))
    &&& !opens_compound(crate::lexer::word_text(s, t, true, true))
    &&& subst_parsed ==> no_substitution(crate::lexer::word_exps(s, t, true, true))
}

/// The expansion depth a limit allows (no limit: the largest `i32`).
pub open spec fn limit_value(l: Option<i32>) -> int {
    match l {
        Some(v) => v as int,
        None => i32::MAX as int,
    }
}

/// Words that open a compound or prefixed command.
pub open spec fn opens_compound(w: Seq<char>) -> bool {
    ||| w == "if"@
    ||| w == "for"@
    ||| w == "select"@
    ||| w == "while"@
    ||| w == "until"@
    ||| w == "case"@
    ||| w == "function"@
    ||| w == "time"@
    ||| w == "coproc"@
}

/// Recursive-descent parser over a streaming lexer.
struct Parser<'a> {
    input: &'a [u8],
    lexer: Lexer<'a>,
    /// Lookahead buffer (at most two tokens)
    buf: Vec<Token>,
    /// Current substitution nesting depth
    depth: i32,
    /// Depth limit for substitution children (`i32::MAX` when unbounded)
    limit: i32,
    strict: bool,
}

/// A word can be read from every position of `s`: no quote, backquote or
/// substitution is left open anywhere, so the lexer never fails on it.
pub open spec fn lexable(s: Seq<u8>) -> bool {
    forall|t: int| 0 <= t <= s.len() ==> #[trigger] word_token_ok(s, t)
}

impl<'a> Parser<'a> {
    spec fn src(&self) -> Seq<u8> {
        self.input@
    }

    spec fn wf(&self) -> bool {
        &&& self.lexer.src() == self.input@
        &&& 0 <= self.lexer.at() <= self.input@.len()
        &&& forall|k: int|
            0 <= k < self.buf@.len() ==> token_fits(self.input@, #[trigger] self.buf@[k], self.lexer.at())
        &&& tokens_ordered(self.buf@)
    }

    /// Offset of the first unconsumed token.
    spec fn cursor(&self) -> int {
        if self.buf@.len() > 0 && !(self.buf@[0] is Eof) {
            token_span(self.buf@[0]).unwrap().start as int
        } else {
            self.lexer.at()
        }
    }

    /// `new` is `old` after some parsing: same input and settings, still
    /// well formed, no token given back.
    spec fn evolves(old: Parser<'a>, new: Parser<'a>) -> bool {
        &&& new.input@ == old.input@
        &&& new.depth == old.depth
        &&& new.limit == old.limit
        &&& new.strict == old.strict
        &&& new.wf()
        &&& new.cursor() >= old.cursor()
        &&& new.lexer.at() >= old.lexer.at()
    }

    /// Nothing but newlines and the end are buffered, and no command
    /// follows.
    spec fn blank_state(&self) -> bool {
        &&& blank_from(self.input@, self.lexer.at())
        &&& forall|k: int| 0 <= k < self.buf@.len() ==> (#[trigger] self.buf@[k] is Newline || self.buf@[k] is Eof)
    }

    /// Only blanks remain after the lexer, and every buffered token but
    /// the first is a newline or the end.
    spec fn tail_blank(&self) -> bool {
        &&& blank_from(self.input@, self.lexer.at())
        &&& forall|k: int| 1 <= k < self.buf@.len() ==> (#[trigger] self.buf@[k] is Newline || self.buf@[k] is Eof)
    }

    /// The next token is a word that names no descriptor and has no
    /// substitution to parse at this depth, and only blanks follow it.
    spec fn lone_word_state(&self) -> bool {
        &&& self.buf@.len() >= 1
        &&& self.buf@[0] matches Token::Word(w) && !fd_word(w.cooked@) && (self.depth >= self.limit
            || no_substitution(w.expansions@))
        &&& self.tail_blank()
    }

    /// `lone_word_state`, with a word that opens no compound command and
    /// does not close the construct being parsed.
    spec fn lone_command_state(&self, end: EndSet) -> bool {
        &&& self.lone_word_state()
        &&& self.buf@[0] matches Token::Word(w) && !opens_compound(w.cooked@) && !stop_word(
            end.stop_words,
            w.cooked@,
        )
    }

    proof fn lemma_len(&self)
        ensures
            self.input@.len() <= usize::MAX,
    {
        assert(self.input.len() == self.input@.len());
    }

    proof fn lemma_cursor(&self)
        requires
            self.wf(),
        ensures
            0 <= self.cursor() <= self.lexer.at() <= self.input@.len(),
    {
        if self.buf@.len() > 0 && !(self.buf@[0] is Eof) {
            assert(token_fits(self.input@, self.buf@[0], self.lexer.at()));
        }
    }

    /// With the end of input next, nothing is left to parse.
    proof fn lemma_eof_blank(&self)
        requires
            self.wf(),
            self.buf@.len() > 0,
            self.buf@[0] is Eof,
        ensures
            self.blank_state(),
    {
        assert(token_fits(self.input@, self.buf@[0], self.lexer.at()));
        assert forall|k: int| 0 <= k < self.buf@.len() implies (#[trigger] self.buf@[k] is Newline
            || self.buf@[k] is Eof) by {
            if k > 0 {
                assert(match (token_span(self.buf@[0]), token_span(self.buf@[k])) {
                    (Some(a), Some(b)) => a.end <= b.start,
                    (None, Some(_)) => false,
                    _ => true,
                });
            }
        }
    }

    fn new(input: &'a str, strict: bool, expansion_limit: Option<i32>, depth: i32) -> (r: Parser<'a>)
        ensures
            r.wf(),
            r.input@ == input.spec_bytes(),
            r.cursor() == 0,
            r.buf@.len() == 0,
            r.depth == depth,
            r.strict == strict,
            r.limit == match expansion_limit {
                Some(l) => l,
                None => i32::MAX,
            },
    {
        let limit = match expansion_limit {
            Some(l) => l,
            None => i32::MAX,
        };
        Parser {
            input: input.as_bytes(),
            lexer: Lexer::new(input),
            buf: Vec::new(),
            depth,
            limit,
            strict,
        }
    }

    fn lexer_offset(&self) -> (r: usize)
        ensures
            r == self.lexer.at(),
    {
        self.lexer.offset()
    }
}


impl<'a> Parser<'a> {
    /// Lex one more token into the buffer.
    fn lex_one(&mut self) -> (r: Result<(), ParseError>)
        requires
            old(self).wf(),
        ensures
            Self::evolves(*old(self), *final(self)),
            final(self).lexer.at() >= old(self).lexer.at(),
            r is Ok ==> final(self).buf@.len() == old(self).buf@.len() + 1,
            r is Ok ==> final(self).buf@.subrange(0, old(self).buf@.len() as int) == old(self).buf@,
            r is Err ==> final(self).buf@ == old(self).buf@,
            r matches Err(e) ==> error_offset(e) matches Some(o) && o <= final(self).input@.len(),
            old(self).blank_state() ==> r is Ok && final(self).blank_state(),
            r is Ok && final(self).blank_state() ==> old(self).blank_state(),
            lexable(old(self).input@) ==> r is Ok,
            word_token_ok(old(self).input@, token_start(old(self).input@, old(self).lexer.at())) ==> r is Ok,
            r is Ok ==> crate::lexer::token_ok(
                old(self).input@,
                token_start(old(self).input@, old(self).lexer.at()),
                final(self).buf@[old(self).buf@.len() as int],
                final(self).lexer.at(),
            ),
            blank_from(old(self).input@, old(self).lexer.at()) ==> r is Ok && blank_from(
                final(self).input@,
                final(self).lexer.at(),
            ) && (final(self).buf@[old(self).buf@.len() as int] is Newline
                || final(self).buf@[old(self).buf@.len() as int] is Eof),
    {
        let ghost s = self.input@;
        let ghost at0 = self.lexer.at();
        proof {
            lemma_token_start_bounds(s, at0);
            if self.blank_state() {
                lemma_blank_next(s, at0);
            }
            if lexable(s) {
                assert(word_token_ok(s, token_start(s, at0)));
            }
            if blank_from(s, at0) {
                lemma_blank_next(s, at0);
            }
        }
        let tok = match self.lexer.next_token() {
            Ok(t) => t,
            Err(e) => return Err(ParseError::Lex(e)),
        };
        let ghost t = token_start(s, at0);
        let ghost old_buf = self.buf@;
        let ghost gtok = tok;
        self.buf.push(tok);
        proof {
            self.lemma_len();
            let at1 = self.lexer.at();
            if t < s.len() {
                lemma_operator_at_bounds(s, t);
            }
            assert(self.buf@ == old_buf.push(gtok));
            assert(token_fits(s, gtok, at1));
            assert(self.buf@[old_buf.len() as int] == gtok);
            if blank_from(s, at0) {
                lemma_blank_token(s, at0, gtok, at1);
            }
            if self.blank_state() {
                assert(self.buf@[old_buf.len() as int] == gtok);
                lemma_blank_back(s, at0, gtok, at1);
                assert forall|k: int| 0 <= k < old_buf.len() implies (#[trigger] old_buf[k] is Newline
                    || old_buf[k] is Eof) by {
                    assert(self.buf@[k] == old_buf[k]);
                }
            }
            if old(self).blank_state() {
                lemma_blank_token(s, at0, gtok, at1);
                assert forall|k: int| 0 <= k < self.buf@.len() implies (#[trigger] self.buf@[k] is Newline
                    || self.buf@[k] is Eof) by {
                    if k < old_buf.len() {
                        assert(self.buf@[k] == old_buf[k]);
                    }
                }
            }
            assert forall|k: int| 0 <= k < self.buf@.len() implies token_fits(
                s,
                #[trigger] self.buf@[k],
                at1,
            ) by {
                if k < old_buf.len() {
                    assert(token_fits(s, old_buf[k], at0));
                    assert(self.buf@[k] == old_buf[k]);
                }
            }
            assert forall|k: int, l: int| 0 <= k < l < self.buf@.len() implies match (
                #[trigger] token_span(self.buf@[k]),
                #[trigger] token_span(self.buf@[l]),
            ) {
                (Some(a), Some(b)) => a.end <= b.start,
                (None, Some(_)) => false,
                _ => true,
            } by {
                assert(self.buf@[k] == old_buf[k]);
                if l < old_buf.len() {
                    assert(self.buf@[l] == old_buf[l]);
                } else {
                    assert(self.buf@[l] == gtok);
                    assert(token_fits(s, old_buf[k], at0));
                }
            }
            assert(self.buf@.subrange(0, old_buf.len() as int) =~= old_buf);
            if old_buf.len() > 0 && !(old_buf[0] is Eof) {
                assert(self.buf@[0] == old_buf[0]);
            }
            if old_buf.len() == 0 || old_buf[0] is Eof {
                if old_buf.len() > 0 {
                    assert(self.buf@[0] == old_buf[0]);
                } else {
                    assert(self.buf@[0] == gtok);
                }
            }
        }
        Ok(())
    }

    /// Fill the lookahead buffer to two tokens (or up to end of input).
    fn fill(&mut self) -> (r: Result<(), ParseError>)
        requires
            old(self).wf(),
        ensures
            Self::evolves(*old(self), *final(self)),
            final(self).buf@.len() >= old(self).buf@.len(),
            final(self).buf@.subrange(0, old(self).buf@.len() as int) == old(self).buf@,
            r is Ok ==> final(self).buf@.len() >= 1,
            r matches Err(e) ==> error_offset(e) matches Some(o) && o <= final(self).input@.len(),
            old(self).blank_state() ==> r is Ok && final(self).blank_state(),
            r is Ok && final(self).blank_state() ==> old(self).blank_state(),
            lexable(old(self).input@) || old(self).buf@.len() >= 2 ==> r is Ok,
            old(self).tail_blank() ==> r is Ok && final(self).tail_blank(),
    {
        let ghost b0 = self.buf@;
        while self.buf.len() < 2
            invariant
                old(self).tail_blank() ==> self.tail_blank(),
                old(self).blank_state() ==> self.blank_state(),
                self.blank_state() ==> old(self).blank_state(),
                Self::evolves(*old(self), *self),
                self.buf@.len() >= b0.len(),
                self.buf@.subrange(0, b0.len() as int) == b0,
                b0 == old(self).buf@,
            ensures
                old(self).blank_state() ==> self.blank_state(),
                self.blank_state() ==> old(self).blank_state(),
                Self::evolves(*old(self), *self),
                self.buf@.len() >= b0.len(),
                self.buf@.subrange(0, b0.len() as int) == b0,
                self.buf@.len() >= 1,
            decreases 2 - self.buf@.len(),
        {
            let ghost before = self.buf@;
            self.lex_one()?;
            proof {
                assert(self.buf@.subrange(0, b0.len() as int) =~= before.subrange(
                    0,
                    b0.len() as int,
                ));
            }
            if self.buf[self.buf.len() - 1].is_eof() {
                break;
            }
        }
        Ok(())
    }

    /// The token `i` places ahead (0 or 1).
    fn peek(&mut self, i: usize) -> (r: Result<Token, ParseError>)
        requires
            old(self).wf(),
            i == 0 || (i == 1 && old(self).buf@.len() >= 1),
        ensures
            Self::evolves(*old(self), *final(self)),
            final(self).buf@.len() >= old(self).buf@.len(),
            final(self).buf@.subrange(0, old(self).buf@.len() as int) == old(self).buf@,
            r matches Ok(t) ==> final(self).buf@.len() > i && same_token(t, final(self).buf@[i as int]),
            r matches Err(e) ==> error_offset(e) matches Some(o) && o <= final(self).input@.len(),
            old(self).blank_state() ==> r is Ok && final(self).blank_state(),
            r is Ok && final(self).blank_state() ==> old(self).blank_state(),
            lexable(old(self).input@) || old(self).buf@.len() > i ==> r is Ok,
            old(self).buf@.len() > i ==> *final(self) == *old(self),
            old(self).tail_blank() ==> r is Ok && final(self).tail_blank(),
            old(self).buf@.len() == 0 && i == 0 && word_token_ok(
                old(self).input@,
                token_start(old(self).input@, old(self).lexer.at()),
            ) ==> r is Ok,
            old(self).buf@.len() == 0 && i == 0 && r is Ok ==> final(self).buf@.len() == 1
                && crate::lexer::token_ok(
                old(self).input@,
                token_start(old(self).input@, old(self).lexer.at()),
                final(self).buf@[0],
                final(self).lexer.at(),
            ),
    {
        let ghost b0 = self.buf@;
        while self.buf.len() <= i
            invariant
                old(self).tail_blank() ==> self.tail_blank(),
                b0.len() > i ==> *self == *old(self),
                self.buf@.len() == 0 ==> self.lexer.at() == old(self).lexer.at(),
                b0.len() == 0 && i == 0 && self.buf@.len() > 0 ==> self.buf@.len() == 1
                    && crate::lexer::token_ok(
                    old(self).input@,
                    token_start(old(self).input@, old(self).lexer.at()),
                    self.buf@[0],
                    self.lexer.at(),
                ),
                old(self).blank_state() ==> self.blank_state(),
                self.blank_state() ==> old(self).blank_state(),
                Self::evolves(*old(self), *self),
                self.buf@.len() >= b0.len(),
                self.buf@.subrange(0, b0.len() as int) == b0,
                b0 == old(self).buf@,
                i == 0 || (i == 1 && self.buf@.len() >= 1),
            ensures
                old(self).blank_state() ==> self.blank_state(),
                self.blank_state() ==> old(self).blank_state(),
                Self::evolves(*old(self), *self),
                self.buf@.len() >= b0.len(),
                self.buf@.subrange(0, b0.len() as int) == b0,
                self.buf@.len() > i,
            decreases i + 1 - self.buf@.len(),
        {
            let ghost before = self.buf@;
            self.lex_one()?;
            proof {
                assert(self.buf@.subrange(0, b0.len() as int) =~= before.subrange(
                    0,
                    b0.len() as int,
                ));
            }
            if self.buf[self.buf.len() - 1].is_eof() {
                break;
            }
        }
        let idx = if self.buf.len() < i {
            self.buf.len()
        } else {
            i
        };
        Ok(self.buf[idx].clone())
    }
}

impl<'a> Parser<'a> {
    /// Consume the next token (end of input stays put).
    fn next(&mut self) -> (r: Result<Token, ParseError>)
        requires
            old(self).wf(),
        ensures
            Self::evolves(*old(self), *final(self)),
            r matches Ok(t) ==> token_fits(final(self).input@, t, final(self).lexer.at()),
            r matches Ok(t) ==> (t is Eof ==> final(self).cursor() == final(self).input@.len()
                && final(self).buf@.len() > 0 && final(self).buf@[0] is Eof),
            r matches Ok(t) ==> !(t is Eof) ==> old(self).cursor() <= token_span(t).unwrap().start
                && token_span(t).unwrap().end <= final(self).cursor(),
            r matches Ok(t) ==> old(self).buf@.len() > 0 ==> same_token(t, old(self).buf@[0]),
            r matches Err(e) ==> error_offset(e) matches Some(o) && o <= final(self).input@.len(),
            old(self).blank_state() ==> r is Ok && final(self).blank_state(),
            r matches Ok(t) && (t is Newline || t is Eof) && final(self).blank_state()
                ==> old(self).blank_state(),
            lexable(old(self).input@) || old(self).buf@.len() >= 2 ==> r is Ok,
            r is Ok && old(self).buf@.len() >= 2 && !(old(self).buf@[0] is Eof) ==> final(self).buf@.len() >= 1
                && final(self).buf@[0] == old(self).buf@[1],
            old(self).tail_blank() ==> r is Ok && final(self).blank_state(),
    {
        let ghost b0 = self.buf@;
        self.fill()?;
        let ghost filled = *self;
        proof {
            if b0.len() > 0 {
                assert(self.buf@[0] == self.buf@.subrange(0, b0.len() as int)[0]);
            }
            self.lemma_cursor();
        }
        if self.buf[0].is_eof() {
            proof {
                assert(token_fits(self.input@, self.buf@[0], self.lexer.at()));
            }
            return Ok(Token::Eof);
        }
        let ghost before = self.buf@;
        let t = self.buf.remove(0);
        proof {
            let s = self.input@;
            let at = self.lexer.at();
            assert(token_fits(s, before[0], at));
            assert(t == before[0]);
            assert(self.buf@ == before.subrange(1, before.len() as int));
            assert forall|k: int| 0 <= k < self.buf@.len() implies token_fits(
                s,
                #[trigger] self.buf@[k],
                at,
            ) by {
                assert(self.buf@[k] == before[k + 1]);
                assert(token_fits(s, before[k + 1], at));
            }
            assert forall|k: int, l: int| 0 <= k < l < self.buf@.len() implies match (
                #[trigger] token_span(self.buf@[k]),
                #[trigger] token_span(self.buf@[l]),
            ) {
                (Some(a), Some(b)) => a.end <= b.start,
                (None, Some(_)) => false,
                _ => true,
            } by {
                assert(self.buf@[k] == before[k + 1]);
                assert(self.buf@[l] == before[l + 1]);
                assert(match (token_span(before[k + 1]), token_span(before[l + 1])) {
                    (Some(a), Some(b)) => a.end <= b.start,
                    (None, Some(_)) => false,
                    _ => true,
                });
            }
            if self.buf@.len() > 0 {
                assert(self.buf@[0] == before[1]);
                assert(match (token_span(before[0]), token_span(before[1])) {
                    (Some(a), Some(b)) => a.end <= b.start,
                    (None, Some(_)) => false,
                    _ => true,
                });
                if self.buf@[0] is Eof {
                    assert(token_fits(s, before[1], at));
                }
            }
            if old(self).blank_state() {
                assert forall|k: int| 0 <= k < self.buf@.len() implies (#[trigger] self.buf@[k] is Newline
                    || self.buf@[k] is Eof) by {
                    assert(self.buf@[k] == before[k + 1]);
                }
            }
            if self.blank_state() && t is Newline {
                assert forall|k: int| 0 <= k < before.len() implies (#[trigger] before[k] is Newline
                    || before[k] is Eof) by {
                    if k > 0 {
                        assert(self.buf@[k - 1] == before[k]);
                    }
                }
                assert(filled.blank_state());
            }
        }
        Ok(t)
    }

    /// Drop buffered tokens that start before `off` and move the lexer
    /// to at least `off`.
    fn skip_to(&mut self, off: usize)
        requires
            old(self).wf(),
            off <= old(self).input@.len(),
        ensures
            Self::evolves(*old(self), *final(self)),
            final(self).cursor() >= off,
            final(self).lexer.at() >= old(self).lexer.at(),
    {
        let ghost s = self.input@;
        let ghost b0 = self.buf@;
        let ghost at0 = self.lexer.at();
        proof {
            self.lemma_cursor();
        }
        self.lexer.skip_to(off);
        let ghost at1 = self.lexer.at();
        let mut rest: Vec<Token> = Vec::new();
        std::mem::swap(&mut rest, &mut self.buf);
        let mut kept: Vec<Token> = Vec::new();
        let ghost mut taken: int = 0;
        let ghost mut idx: Seq<int> = Seq::empty();
        while rest.len() > 0
            invariant
                self.input@ == s,
                self.lexer.src() == s,
                self.lexer.at() == at1,
                at0 <= at1 <= s.len(),
                off <= at1,
                0 <= taken <= b0.len(),
                rest@ == b0.subrange(taken, b0.len() as int),
                forall|k: int| 0 <= k < b0.len() ==> token_fits(s, #[trigger] b0[k], at0),
                tokens_ordered(b0),
                idx.len() == kept@.len(),
                forall|k: int| 0 <= k < kept@.len() ==> 0 <= #[trigger] idx[k] < taken && kept@[k] == b0[idx[k]],
                forall|k: int, l: int| 0 <= k < l < kept@.len() ==> #[trigger] idx[k] < #[trigger] idx[l],
                forall|k: int| 0 <= k < kept@.len() ==> match token_span(#[trigger] kept@[k]) {
                    Some(sp) => sp.start >= off,
                    None => true,
                },
            decreases rest@.len(),
        {
            let t = rest.remove(0);
            let keep = match t.span() {
                Some(sp) => sp.start >= off,
                None => true,
            };
            proof {
                assert(t == b0[taken]);
            }
            if keep {
                kept.push(t);
                proof {
                    idx = idx.push(taken);
                }
            }
            proof {
                taken = taken + 1;
            }
        }
        self.buf = kept;
        proof {
            assert forall|k: int| 0 <= k < self.buf@.len() implies token_fits(
                s,
                #[trigger] self.buf@[k],
                at1,
            ) by {
                assert(self.buf@[k] == b0[idx[k]]);
                assert(token_fits(s, b0[idx[k]], at0));
            }
            assert forall|k: int, l: int| 0 <= k < l < self.buf@.len() implies match (
                #[trigger] token_span(self.buf@[k]),
                #[trigger] token_span(self.buf@[l]),
            ) {
                (Some(a), Some(b)) => a.end <= b.start,
                (None, Some(_)) => false,
                _ => true,
            } by {
                assert(idx[k] < idx[l]);
                assert(self.buf@[k] == b0[idx[k]]);
                assert(self.buf@[l] == b0[idx[l]]);
                assert(match (token_span(b0[idx[k]]), token_span(b0[idx[l]])) {
                    (Some(a), Some(b)) => a.end <= b.start,
                    (None, Some(_)) => false,
                    _ => true,
                });
            }
            if self.buf@.len() > 0 && !(self.buf@[0] is Eof) {
                assert(self.buf@[0] == b0[idx[0]]);
                assert(token_span(self.buf@[0]).unwrap().start >= off);
                if b0.len() > 0 && !(b0[0] is Eof) {
                    if idx[0] > 0 {
                        assert(match (token_span(b0[0]), token_span(b0[idx[0]])) {
                            (Some(a), Some(b)) => a.end <= b.start,
                            (None, Some(_)) => false,
                            _ => true,
                        });
                        assert(token_fits(s, b0[0], at0));
                    }
                }
            }
        }
    }

    /// Skip newline tokens.
    fn skip_newlines(&mut self) -> (r: Result<(), ParseError>)
        requires
            old(self).wf(),
        ensures
            Self::evolves(*old(self), *final(self)),
            r is Ok ==> final(self).buf@.len() > 0 && !(final(self).buf@[0] is Newline),
            r matches Err(e) ==> error_offset(e) matches Some(o) && o <= final(self).input@.len(),
            old(self).blank_state() ==> r is Ok && final(self).blank_state(),
            r is Ok && final(self).blank_state() ==> old(self).blank_state(),
            lexable(old(self).input@) ==> r is Ok,
            old(self).buf@.len() == 0 && word_first(old(self).input@, old(self).lexer.at()) ==> r is Ok
                && final(self).buf@.len() == 1 && crate::lexer::token_ok(
                old(self).input@,
                token_start(old(self).input@, old(self).lexer.at()),
                final(self).buf@[0],
                final(self).lexer.at(),
            ),
    {
        loop
            invariant
                old(self).buf@.len() == 0 && word_first(old(self).input@, old(self).lexer.at()) ==> self.buf@.len()
                    == 0 && self.lexer.at() == old(self).lexer.at(),
                old(self).blank_state() ==> self.blank_state(),
                self.blank_state() ==> old(self).blank_state(),
                Self::evolves(*old(self), *self),
            decreases self.input@.len() - self.cursor(),
        {
            proof {
                self.lemma_cursor();
            }
            let ghost c0 = self.cursor();
            let t = self.peek(0)?;
            match t {
                Token::Newline(_) => {
                    proof {
                        assert(self.cursor() == token_span(self.buf@[0]).unwrap().start);
                    }
                    self.next()?;
                    proof {
                        self.lemma_cursor();
                    }
                },
                _ => {
                    return Ok(());
                },
            }
        }
    }

    /// Start offset of the lookahead token (input length at the end).
    fn peek_offset(&mut self) -> (r: Result<usize, ParseError>)
        requires
            old(self).wf(),
        ensures
            Self::evolves(*old(self), *final(self)),
            final(self).buf@.len() >= old(self).buf@.len(),
            final(self).buf@.subrange(0, old(self).buf@.len() as int) == old(self).buf@,
            r matches Ok(o) ==> o == final(self).cursor() && o <= final(self).lexer.at() && final(self).buf@.len() > 0,
            r matches Err(e) ==> error_offset(e) matches Some(o) && o <= final(self).input@.len(),
            lexable(old(self).input@) || old(self).buf@.len() > 0 ==> r is Ok,
    {
        let t = self.peek(0)?;
        proof {
            self.lemma_cursor();
            assert(token_fits(self.input@, self.buf@[0], self.lexer.at()));
        }
        match t.span() {
            Some(sp) => Ok(sp.start),
            None => Ok(self.input.len()),
        }
    }

    /// Describe a token for error messages.
    fn token_desc(tok: &Token) -> (r: String)
        ensures
            r@ == token_text(*tok),
    {
        match tok {
            Token::Word(w) => {
                let mut d = "word ".to_owned();
                let q = debug_quoted(w.cooked.as_str());
                push_str(&mut d, q.as_str());
                d
            },
            Token::Newline(_) => "newline".to_owned(),
            Token::Op(k, _) => {
                let mut d = "operator ".to_owned();
                let q = debug_quoted(k.text());
                push_str(&mut d, q.as_str());
                d
            },
            Token::Eof => "end of input".to_owned(),
        }
    }

    /// Operator text from the input bytes.
    fn op_text(&self, span: &Span) -> (r: String)
        requires
            span.start <= span.end <= self.input@.len(),
        ensures
            r@ == crate::text::utf8_lossy(self.input@.subrange(span.start as int, span.end as int)),
    {
        lossy_string(&self.input[span.start..span.end])
    }
}

/// The node lies inside the input of length `len`.
pub open spec fn node_in(n: AstNode, len: int) -> bool {
    spans_within(node_view(n), 0, len)
}

/// A word as read from `s`: its span is not empty and ends where the word
/// read from its start ends (`word_end`: quotes, `$` constructs, backquotes
/// and substitutions are read whole, so a nested or quoted `)` or one in a
/// heredoc body does not end it) and its text is the word's text read from
/// there (`word_text`); where the source from the word's start reads as a word with
/// no expansion, the word's text is that word with its quotes removed, its
/// span ends where that word does, and it counts as quoted exactly when a
/// quote or escape occurs in it; and its children are expansion nodes.
pub open spec fn word_read(s: Seq<u8>, w: WordView) -> bool {
    &&& w.span.start < w.span.end
    &&& word_stops_at(s, w.span.end as int)
    &&& cook(s, w.span.start as int, true, true) matches Some(x) ==> w.text == x
    &&& cook(s, w.span.start as int, true, true) is Some ==> cook_end(s, w.span.start as int, true, true)
        == w.span.end
    &&& crate::lexer::word_end(s, w.span.start as int, true, true) == Some(w.span.end as int)
    &&& w.text == crate::lexer::word_text(s, w.span.start as int, true, true)
    &&& cook(s, w.span.start as int, true, true) is Some ==> (w.quoted <==> quote_in(
        s,
        w.span.start as int,
        w.span.end as int,
    ))
    &&& leaf_parts(w)
}

/// The predicate `word_read` over `s`.
pub open spec fn read_pred(s: Seq<u8>) -> spec_fn(WordView) -> bool {
    |w: WordView| word_read(s, w)
}

/// Every word of the tree is as read from `s` (see `all_words`).
pub open spec fn node_read(n: AstNode, s: Seq<u8>) -> bool {
    all_words(node_view(n), read_pred(s))
}

/// Every word of the trees is as read from `s`.
pub open spec fn nodes_read(ns: Seq<AstNode>, s: Seq<u8>) -> bool {
    all_words_seq(nodes_view(ns), read_pred(s))
}

/// Each tree ends before the next one starts: the trees come in source
/// order and do not overlap.
pub open spec fn nodes_apart(s: Seq<AstNode>) -> bool {
    forall|i: int, j: int|
        0 <= i < j < s.len() ==> max_end(node_view(#[trigger] s[i])) <= span_of(
            node_view(#[trigger] s[j]),
        ).start
}

/// `ast` has the shape of what parsing `src` gives: top-level nodes that
/// lie inside the input in source order without overlapping, each a list,
/// a pipeline or a command as the grammar builds them, whose words are as
/// read from the source.
pub open spec fn parse_shaped(ast: Seq<AstNode>, src: Seq<u8>) -> bool {
    &&& nodes_in(ast, src.len() as int)
    &&& nodes_read(ast, src)
    &&& forall|i: int| 0 <= i < ast.len() ==> sequence_node(#[trigger] ast[i])
    &&& nodes_apart(ast)
}

proof fn lemma_apart_push(s: Seq<AstNode>, x: AstNode)
    requires
        nodes_apart(s),
        forall|k: int| 0 <= k < s.len() ==> max_end(node_view(#[trigger] s[k])) <= span_of(node_view(x)).start,
    ensures
        nodes_apart(s.push(x)),
{
    let t = s.push(x);
    assert forall|i: int, j: int| 0 <= i < j < t.len() implies max_end(node_view(#[trigger] t[i]))
        <= span_of(node_view(#[trigger] t[j])).start by {
        assert(t[i] == s[i]);
        if j < s.len() {
            assert(t[j] == s[j]);
        }
    }
}

proof fn lemma_leaf_push(parts: Seq<AstNode>, n: AstNode)
    requires
        forall|k: int| 0 <= k < parts.len() ==> expansion_leaf(#[trigger] node_view(parts[k])),
        expansion_leaf(node_view(n)),
    ensures
        forall|k: int|
            0 <= k < parts.push(n).len() ==> expansion_leaf(#[trigger] node_view(parts.push(n)[k])),
{
    assert forall|k: int| 0 <= k < parts.push(n).len() implies expansion_leaf(
        #[trigger] node_view(parts.push(n)[k]),
    ) by {
        if k < parts.len() {
            assert(parts.push(n)[k] == parts[k]);
        }
    }
}

/// Appending a node that lies in the input and keeps its words' text.
proof fn lemma_push_fits(parts: Seq<AstNode>, n: AstNode, len: int, s: Seq<u8>)
    requires
        seq_within(nodes_view(parts), 0, len),
        spans_within(node_view(n), 0, len),
        nodes_read(parts, s),
        node_read(n, s),
    ensures
        seq_within(nodes_view(parts.push(n)), 0, len),
        nodes_view(parts.push(n)) == nodes_view(parts).push(node_view(n)),
        nodes_read(parts.push(n), s),
{
    lemma_nodes_push_within(parts, n, 0, len);
    lemma_words_push(parts, n, read_pred(s));
}

/// Every node lies inside the input of length `len`.
pub open spec fn nodes_in(ns: Seq<AstNode>, len: int) -> bool {
    seq_within(nodes_view(ns), 0, len)
}

/// The error's offset, when it has one, lies inside the input `s`; an
/// empty command can only come from a substitution, so `s` has a byte
/// that opens one.
pub open spec fn error_in(e: ParseError, s: Seq<u8>) -> bool {
    match error_offset(e) {
        Some(o) => o <= s.len(),
        None => e is EmptyInput ==> subst_opener(s),
    }
}

/// The byte can open a command or process substitution.
pub open spec fn opens_subst(b: u8) -> bool {
    b == crate::lexer::DOLLAR || b == crate::lexer::BACKQUOTE || b == crate::lexer::LT || b
        == crate::lexer::GT
}

/// Some byte of `s` can open a substitution.
pub open spec fn subst_opener(s: Seq<u8>) -> bool {
    exists|i: int| 0 <= i < s.len() && #[trigger] opens_subst(s[i])
}

/// Redirect operators.
pub open spec fn redirect_op(k: OpKind) -> bool {
    match k {
        OpKind::Less | OpKind::Greater | OpKind::GreaterGreater | OpKind::LessLess
        | OpKind::LessLessMinus | OpKind::LessLessLess | OpKind::LessAnd | OpKind::GreaterAnd
        | OpKind::AndGreater | OpKind::AndGreaterGreater | OpKind::LessGreater
        | OpKind::GreaterBar => true,
        _ => false,
    }
}

/// True for redirect operators.
fn is_redirect_op(kind: OpKind) -> (r: bool)
    ensures
        r == redirect_op(kind),
{
    match kind {
        OpKind::Less | OpKind::Greater | OpKind::GreaterGreater | OpKind::LessLess
        | OpKind::LessLessMinus | OpKind::LessLessLess | OpKind::LessAnd | OpKind::GreaterAnd
        | OpKind::AndGreater | OpKind::AndGreaterGreater | OpKind::LessGreater
        | OpKind::GreaterBar => true,
        _ => false,
    }
}

/// A non-empty string of ASCII digits (UTF-8 bytes).
pub open spec fn all_digits(b: Seq<u8>) -> bool {
    b.len() > 0 && forall|i: int| 0 <= i < b.len() ==> crate::lexer::is_digit(#[trigger] b[i])
}

/// True for non-empty all-digit words (fd numbers).
fn is_all_digits(s: &str) -> (r: bool)
    ensures
        r == all_digits(s.spec_bytes()),
{
    let b = s.as_bytes();
    if b.len() == 0 {
        return false;
    }
    let mut i: usize = 0;
    while i < b.len()
        invariant
            i <= b@.len(),
            b@ == s.spec_bytes(),
            b@.len() > 0,
            forall|k: int| 0 <= k < i ==> crate::lexer::is_digit(#[trigger] b@[k]),
        decreases b@.len() - i,
    {
        if !(b[i] >= crate::lexer::DIGIT_0 && b[i] <= crate::lexer::DIGIT_9) {
            return false;
        }
        i += 1;
    }
    true
}

/// A `{name}`-shaped word: longer than two bytes, braced.
pub open spec fn redir_var(b: Seq<u8>) -> bool {
    b.len() > 2 && b[0] == crate::lexer::LBRACE && b[b.len() - 1] == crate::lexer::RBRACE
}

/// A word that can name a descriptor: all digits, or `{name}`-shaped.
pub open spec fn fd_word(cooked: Seq<char>) -> bool {
    all_digits(vstd::utf8::encode_utf8(cooked)) || redir_var(vstd::utf8::encode_utf8(cooked))
}

/// The word `w` names a descriptor and the token after it in `buf` is a
/// redirect operator that starts right where `w` ends.
pub open spec fn fd_word_before_redirect(w: RawWord, buf: Seq<Token>) -> bool {
    &&& fd_word(w.cooked@)
    &&& buf.len() >= 2
    &&& buf[1] matches Token::Op(k, sp) && redirect_op(k) && w.span.end == sp.start
}

/// True for `{name}`-shaped words (fd redirections).
fn is_redir_var(s: &str) -> (r: bool)
    ensures
        r == redir_var(s.spec_bytes()),
{
    let b = s.as_bytes();
    b.len() > 2 && b[0] == crate::lexer::LBRACE && b[b.len() - 1] == crate::lexer::RBRACE
}

/// A shell variable name: a letter or `_` first, then letters, digits or
/// `_`.
pub open spec fn name_bytes(n: Seq<u8>) -> bool {
    &&& n.len() > 0
    &&& forall|i: int|
        0 <= i < n.len() ==> (#[trigger] n[i] == crate::lexer::UNDERSCORE || crate::lexer::is_alpha(
            n[i],
        ) || (i > 0 && crate::lexer::is_digit(n[i])))
}

/// The cooked bytes `b` read `NAME=...` or `NAME+=...`, and the raw source
/// `raw` of the word starts with the same `NAME` directly followed by `=`
/// (so nothing in the name was quoted or escaped).
pub open spec fn assignment_word(b: Seq<u8>, raw: Seq<u8>) -> bool {
    let eq = first_byte(b, crate::lexer::EQ, 0);
    let name_len = if eq > 0 && b[eq - 1] == crate::lexer::PLUS {
        eq - 1
    } else {
        eq
    };
    &&& eq < b.len()
    &&& name_bytes(b.take(name_len))
    &&& first_byte(raw, crate::lexer::EQ, 0) == name_len
    &&& name_len < raw.len()
    &&& raw.take(name_len) == b.take(name_len)
}

/// The word with text `cooked`, spanning `[start, end)` of `s` (cut at the
/// end of `s`), is an assignment.
pub open spec fn assignment_at(cooked: Seq<char>, s: Seq<u8>, start: int, end: int) -> bool {
    let e = if end < s.len() {
        end
    } else {
        s.len() as int
    };
    start <= e && assignment_word(vstd::utf8::encode_utf8(cooked), s.subrange(start, e))
}

/// True when a command-head word is an assignment (`NAME=value`,
/// `NAME+=value`) with nothing quoted before the `=`.
fn is_assignment(word: &RawWord, input: &[u8]) -> (r: bool)
    ensures
        r == assignment_at(word.cooked@, input@, word.span.start as int, word.span.end as int),
{
    let b = word.cooked.as_str().as_bytes();
    let ghost eb = b@;
    proof {
        assert(eb == vstd::utf8::encode_utf8(word.cooked@));
    }
    // First `=` in the cooked text.
    let mut eq: usize = 0;
    let mut found = false;
    while eq < b.len()
        invariant_except_break
            !found,
        invariant
            eq <= b@.len(),
            first_byte(b@, crate::lexer::EQ, eq as int) == first_byte(b@, crate::lexer::EQ, 0),
        ensures
            eq <= b@.len(),
            found ==> eq < b@.len() && first_byte(b@, crate::lexer::EQ, 0) == eq,
            !found ==> first_byte(b@, crate::lexer::EQ, 0) == b@.len(),
        decreases b@.len() - eq,
    {
        if b[eq] == crate::lexer::EQ {
            found = true;
            break;
        }
        eq += 1;
    }
    if !found || eq == 0 {
        return false;
    }
    let mut name_len = eq;
    if b[name_len - 1] == crate::lexer::PLUS {
        name_len = name_len - 1;
    }
    if name_len == 0 {
        return false;
    }
    let mut i: usize = 0;
    while i < name_len
        invariant
            i <= name_len,
            name_len <= b@.len(),
            eb == b@,
            eb == vstd::utf8::encode_utf8(word.cooked@),
            eq < b@.len(),
            first_byte(b@, crate::lexer::EQ, 0) == eq,
            name_len == if eq > 0 && b@[eq - 1] == crate::lexer::PLUS {
                eq - 1
            } else {
                eq as int
            },
            forall|k: int|
                0 <= k < i ==> (#[trigger] b@[k] == crate::lexer::UNDERSCORE || crate::lexer::is_alpha(
                    b@[k],
                ) || (k > 0 && crate::lexer::is_digit(b@[k]))),
        decreases name_len - i,
    {
        let c = b[i];
        let ok = c == crate::lexer::UNDERSCORE || crate::lexer::is_alpha_byte(c) || (i > 0 && c
            >= crate::lexer::DIGIT_0 && c <= crate::lexer::DIGIT_9);
        if !ok {
            proof {
                assert(b@.take(name_len as int)[i as int] == c);
            }
            return false;
        }
        i += 1;
    }
    proof {
        assert forall|k: int| 0 <= k < name_len implies (#[trigger] b@.take(name_len as int)[k]
            == crate::lexer::UNDERSCORE || crate::lexer::is_alpha(b@.take(name_len as int)[k]) || (k
            > 0 && crate::lexer::is_digit(b@.take(name_len as int)[k]))) by {
            assert(b@.take(name_len as int)[k] == b@[k]);
        }
    }
    // The raw prefix must match byte for byte (no quotes or escapes).
    let end = if word.span.end < input.len() {
        word.span.end
    } else {
        input.len()
    };
    if word.span.start > end {
        return false;
    }
    let start = word.span.start;
    let ghost raw = input@.subrange(start as int, end as int);
    let mut k = word.span.start;
    while k < end
        invariant
            eb == b@,
            eb == vstd::utf8::encode_utf8(word.cooked@),
            start <= k <= end,
            end <= input@.len(),
            raw == input@.subrange(start as int, end as int),
            first_byte(raw, crate::lexer::EQ, k - start) == first_byte(raw, crate::lexer::EQ, 0),
        ensures
            start <= k <= end,
            k < end ==> input@[k as int] == crate::lexer::EQ,
            first_byte(raw, crate::lexer::EQ, k - start) == first_byte(raw, crate::lexer::EQ, 0),
        decreases end - k,
    {
        if input[k] == crate::lexer::EQ {
            break;
        }
        proof {
            assert(raw[k - start] == input@[k as int]);
        }
        k += 1;
    }
    proof {
        if k < end {
            assert(raw[k - start] == input@[k as int]);
        }
    }
    if k >= end {
        return false;
    }
    let raw_len = k - word.span.start;
    if raw_len != name_len {
        return false;
    }
    let mut j: usize = 0;
    while j < raw_len
        invariant
            eb == b@,
            eb == vstd::utf8::encode_utf8(word.cooked@),
            eq < b@.len(),
            first_byte(b@, crate::lexer::EQ, 0) == eq,
            name_len == if eq > 0 && b@[eq - 1] == crate::lexer::PLUS {
                eq - 1
            } else {
                eq as int
            },
            name_bytes(b@.take(name_len as int)),
            first_byte(raw, crate::lexer::EQ, 0) == name_len,
            end == (if word.span.end < input@.len() {
                word.span.end
            } else {
                input@.len() as usize
            }),
            j <= raw_len,
            raw_len == name_len,
            name_len <= b@.len(),
            raw_len < raw.len(),
            word.span.start == start,
            start <= end <= input@.len(),
            raw == input@.subrange(start as int, end as int),
            start + raw_len <= input.len(),
            forall|m: int| 0 <= m < j ==> raw[m] == b@[m],
        decreases raw_len - j,
    {
        if input[word.span.start + j] != b[j] {
            proof {
                assert(raw[j as int] == input@[start + j]);
                assert(raw.take(name_len as int)[j as int] != b@.take(name_len as int)[j as int]);
            }
            return false;
        }
        proof {
            assert(raw[j as int] == input@[start + j]);
        }
        j += 1;
    }
    proof {
        assert(raw.take(name_len as int) =~= b@.take(name_len as int));
    }
    true
}

/// `sp` is the smallest span that covers the spans of `parts`.
pub open spec fn covers(sp: Span, parts: Seq<AstNode>) -> bool {
    &&& forall|i: int|
        #![trigger parts[i]]
        0 <= i < parts.len() ==> sp.start <= span_of(node_view(parts[i])).start && span_of(
            node_view(parts[i]),
        ).end <= sp.end
    &&& exists|i: int|
        #![trigger parts[i]]
        0 <= i < parts.len() && sp.start == span_of(node_view(parts[i])).start
    &&& exists|i: int|
        #![trigger parts[i]]
        0 <= i < parts.len() && sp.end == span_of(node_view(parts[i])).end
}

/// A part of a simple command: a word, an assignment or a redirect.
pub open spec fn simple_part(n: AstNode) -> bool {
    n is Word || n is Assignment || redirect_node(n)
}

/// A redirect node: its operator is a redirect operator; a `-` or a file
/// descriptor as target only after `<&` or `>&`; a heredoc body only after
/// `<<` or `<<-`, with a word as delimiter.
pub open spec fn redirect_node(n: AstNode) -> bool {
    match n {
        AstNode::Redirect { op, output, heredoc, .. } => {
            &&& exists|k: OpKind| redirect_op(k) && op@ == #[trigger] op_text(k)
            &&& (output is Dash || output is Fd) ==> (op@ == "<&"@ || op@ == ">&"@)
            &&& heredoc matches Some(h) ==> (op@ == "<<"@ || op@ == "<<-"@) && output is Word
                && *h is Heredoc
        },
        _ => false,
    }
}

/// The nodes start at strictly increasing offsets: they come in source
/// order.
pub open spec fn starts_increasing(s: Seq<AstNode>) -> bool {
    forall|i: int, j: int|
        0 <= i < j < s.len() ==> span_of(node_view(#[trigger] s[i])).start < span_of(
            node_view(#[trigger] s[j]),
        ).start
}

/// Where a node starts.
pub open spec fn start_of(n: AstNode) -> int {
    span_of(node_view(n)).start as int
}

/// The nodes come in source order and the last starts before `hi`.
pub open spec fn ordered_before(s: Seq<AstNode>, hi: int) -> bool {
    &&& starts_increasing(s)
    &&& s.len() > 0 ==> start_of(s[s.len() - 1]) < hi
}

/// The nodes come in source order, the first starting at or after `lo`
/// and the last before `hi`.
pub open spec fn starts_between(s: Seq<AstNode>, lo: int, hi: int) -> bool {
    &&& ordered_before(s, hi)
    &&& s.len() > 0 ==> lo <= start_of(s[0])
}

proof fn lemma_starts_push(s: Seq<AstNode>, x: AstNode, lo: int, hi: int)
    requires
        starts_between(s, lo, start_of(x)),
        lo <= start_of(x) < hi,
    ensures
        starts_between(s.push(x), lo, hi),
{
    let t = s.push(x);
    assert forall|i: int, j: int| 0 <= i < j < t.len() implies span_of(node_view(#[trigger] t[i])).start
        < span_of(node_view(#[trigger] t[j])).start by {
        assert(t[i] == s[i]);
        if j < s.len() {
            assert(t[j] == s[j]);
        } else if i < s.len() - 1 {
            assert(span_of(node_view(s[i])).start < span_of(node_view(s[s.len() - 1])).start);
        }
    }
    if s.len() > 0 {
        assert(t[0] == s[0]);
    }
}

proof fn lemma_order_push(s: Seq<AstNode>, x: AstNode, hi: int)
    requires
        ordered_before(s, start_of(x)),
        start_of(x) < hi,
    ensures
        ordered_before(s.push(x), hi),
        s.len() > 0 ==> s.push(x)[0] == s[0],
{
    let t = s.push(x);
    assert forall|i: int, j: int| 0 <= i < j < t.len() implies span_of(node_view(#[trigger] t[i])).start
        < span_of(node_view(#[trigger] t[j])).start by {
        assert(t[i] == s[i]);
        if j < s.len() {
            assert(t[j] == s[j]);
        } else if i < s.len() - 1 {
            assert(span_of(node_view(s[i])).start < span_of(node_view(s[s.len() - 1])).start);
        }
    }
    if s.len() > 0 {
        assert(t[0] == s[0]);
    }
}

/// A span covering nodes in source order starts where the first does.
proof fn lemma_cover_start(sp: Span, s: Seq<AstNode>, lo: int, hi: int)
    requires
        s.len() > 0,
        covers(sp, s),
        starts_between(s, lo, hi),
    ensures
        lo <= sp.start < hi,
{
    let i = choose|i: int| #![trigger s[i]] 0 <= i < s.len() && sp.start == span_of(node_view(s[i])).start;
    if i > 0 {
        assert(span_of(node_view(s[0])).start < span_of(node_view(s[i])).start);
    }
    assert(sp.start <= span_of(node_view(s[0])).start);
    if i < s.len() - 1 {
        assert(span_of(node_view(s[i])).start < span_of(node_view(s[s.len() - 1])).start);
    }
}

/// The parts of a simple command: words, assignments and redirects in
/// source order, at least one, with no assignment after a word.
pub open spec fn simple_parts(s: Seq<AstNode>) -> bool {
    &&& s.len() >= 1
    &&& forall|i: int| 0 <= i < s.len() ==> simple_part(#[trigger] s[i])
    &&& forall|i: int, j: int|
        0 <= i < j < s.len() && #[trigger] s[i] is Word ==> !(#[trigger] s[j] is Assignment)
    &&& starts_increasing(s)
}

/// A reserved-word node for `w`.
pub open spec fn reserved_is(n: AstNode, w: Seq<char>) -> bool {
    n matches AstNode::ReservedWord { word, .. } && word@ == w
}

/// Every node is a redirect.
pub open spec fn all_redirects(s: Seq<AstNode>) -> bool {
    forall|i: int| 0 <= i < s.len() ==> redirect_node(#[trigger] s[i])
}

/// A node that one command makes: a simple command (made of words,
/// assignments and redirects), a subshell or group, a keyword command
/// (`if`, `for`, `while`, `until`, `case`) or a function definition, each
/// with the parts the grammar gives it, or an unimplemented construct.
pub open spec fn command_unit_node(n: AstNode) -> bool
    decreases n, 2int,
{
    match n {
        AstNode::Command { span, parts } => simple_parts(parts@) && covers(span, parts@),
        AstNode::Compound { list, redirects, .. } => compound_list(list@) && all_redirects(
            redirects@,
        ),
        AstNode::Keyword { kind, parts, .. } => starts_increasing(parts@) && match kind {
            KeywordKind::If => if_parts(parts@),
            KeywordKind::For => for_parts(parts@),
            KeywordKind::While => loop_parts(parts@, "while"@),
            KeywordKind::Until => loop_parts(parts@, "until"@),
            KeywordKind::Case => case_parts(parts@),
            KeywordKind::Pattern => false,
        },
        AstNode::Function { name, body, parts, .. } => function_parts(parts@) && compound_node(*body),
        AstNode::Unimplemented { .. } => true,
        _ => false,
    }
}

/// A subshell or group: `(` or `{`, a list, and the matching closer, with
/// trailing redirects.
pub open spec fn compound_node(n: AstNode) -> bool
    decreases n, 1int,
{
    match n {
        AstNode::Compound { list, redirects, .. } => compound_list(list@) && all_redirects(
            redirects@,
        ),
        _ => false,
    }
}

/// `( list )` or `{ list }`.
pub open spec fn compound_list(s: Seq<AstNode>) -> bool
    decreases s, 1int,
{
    &&& s.len() == 3
    &&& (reserved_is(s[0], "("@) && reserved_is(s[2], ")"@)) || (reserved_is(s[0], "{"@)
        && reserved_is(s[2], "}"@))
    &&& sequence_node(s[1])
}

/// `if list` followed by `then`, `elif` or `else` each with its list, and
/// `fi`.
pub open spec fn if_parts(s: Seq<AstNode>) -> bool
    decreases s, 1int,
{
    &&& s.len() >= 3
    &&& s.len() % 2 == 1
    &&& reserved_is(s[0], "if"@)
    &&& reserved_is(s[s.len() - 1], "fi"@)
    &&& forall|i: int|
        0 < i < s.len() - 1 ==> if i % 2 == 1 {
            sequence_node(#[trigger] s[i])
        } else {
            reserved_is(s[i], "then"@) || reserved_is(s[i], "elif"@) || reserved_is(s[i], "else"@)
        }
}

/// `while list do list done` (or `until`).
pub open spec fn loop_parts(s: Seq<AstNode>, w: Seq<char>) -> bool
    decreases s, 1int,
{
    &&& s.len() == 5
    &&& reserved_is(s[0], w)
    &&& sequence_node(s[1])
    &&& reserved_is(s[2], "do"@)
    &&& sequence_node(s[3])
    &&& reserved_is(s[4], "done"@)
}

/// `for name`, then words, `;` and `in` reserved words, then `do list done`
/// or `{ list }` (`select` alike).
pub open spec fn for_parts(s: Seq<AstNode>) -> bool
    decreases s, 1int,
{
    &&& s.len() >= 5
    &&& reserved_is(s[0], "for"@) || reserved_is(s[0], "select"@)
    &&& s[1] is Word
    &&& forall|i: int|
        2 <= i < s.len() - 3 ==> (#[trigger] s[i] is Word || reserved_is(s[i], ";"@)
            || reserved_is(s[i], "in"@))
    &&& (reserved_is(s[s.len() - 3], "do"@) && reserved_is(s[s.len() - 1], "done"@)) || (
    reserved_is(s[s.len() - 3], "{"@) && reserved_is(s[s.len() - 1], "}"@))
    &&& sequence_node(s[s.len() - 2])
}

/// `case word in`, clauses, `esac`.
pub open spec fn case_parts(s: Seq<AstNode>) -> bool
    decreases s, 1int,
{
    &&& s.len() >= 4
    &&& reserved_is(s[0], "case"@)
    &&& s[1] is Word
    &&& reserved_is(s[2], "in"@)
    &&& reserved_is(s[s.len() - 1], "esac"@)
    &&& forall|i: int| 3 <= i < s.len() - 1 ==> case_clause_node(#[trigger] s[i])
}

/// A case clause: reserved words (`(`, `|`, `)`, the terminator), one or
/// more pattern nodes of words, and at most a list as body.
pub open spec fn case_clause_node(n: AstNode) -> bool
    decreases n, 1int,
{
    match n {
        AstNode::Compound { list, redirects, .. } => redirects@.len() == 0 && clause_list(list@),
        _ => false,
    }
}

/// The elements of a case clause.
pub open spec fn clause_list(s: Seq<AstNode>) -> bool
    decreases s, 0int,
{
    &&& exists|i: int| 0 <= i < s.len() && #[trigger] s[i] is Keyword
    &&& forall|i: int|
        0 <= i < s.len() ==> (#[trigger] s[i] is ReservedWord || pattern_node(s[i])
            || sequence_node(s[i]))
}

/// A pattern node: the alternative words of a case pattern.
pub open spec fn pattern_node(n: AstNode) -> bool {
    match n {
        AstNode::Keyword { kind: KeywordKind::Pattern, parts, .. } => parts@.len() >= 1 && forall|
            i: int,
        |
            0 <= i < parts@.len() ==> #[trigger] parts@[i] is Word,
        _ => false,
    }
}

/// `[function] name [( )]` and a copy of the body (a compound node that
/// also holds the redirects after it).
pub open spec fn function_parts(s: Seq<AstNode>) -> bool
    decreases s, 1int,
{
    let o: int = if s.len() > 0 && reserved_is(s[0], "function"@) {
        1
    } else {
        0
    };
    &&& s.len() == o + 2 || (s.len() == o + 4 && reserved_is(s[o + 1], "("@) && reserved_is(
        s[o + 2],
        ")"@,
    ))
    &&& s[o] is Word
    &&& s[s.len() - 1] is Compound
}

/// Where the commands among pipeline parts begin: after a leading `!`.
pub open spec fn pipe_offset(s: Seq<AstNode>) -> int {
    if s.len() > 0 && s[0] is ReservedWord {
        1
    } else {
        0
    }
}

/// Pipeline parts: an optional leading `!`, then commands separated by
/// pipes.
pub open spec fn pipeline_parts(s: Seq<AstNode>) -> bool
    decreases s, 3int,
{
    let o = pipe_offset(s);
    &&& o < s.len()
    &&& (s.len() - o) % 2 == 1
    &&& forall|i: int|
        o <= i < s.len() ==> if (i - o) % 2 == 0 {
            command_unit_node(#[trigger] s[i])
        } else {
            s[i] is Pipe
        }
}

/// A pipeline node (two or more parts) or a single command.
pub open spec fn pipeline_node(n: AstNode) -> bool
    decreases n, 4int,
{
    match n {
        AstNode::Pipeline { span, parts } => parts@.len() >= 2 && pipeline_parts(parts@) && covers(
            span,
            parts@,
        ) && starts_increasing(parts@),
        _ => command_unit_node(n),
    }
}

/// List parts: pipelines separated by operators, perhaps ending in one.
pub open spec fn list_parts(s: Seq<AstNode>) -> bool
    decreases s, 5int,
{
    forall|i: int|
        0 <= i < s.len() ==> if i % 2 == 0 {
            pipeline_node(#[trigger] s[i])
        } else {
            s[i] is Operator
        }
}

/// A list node (two or more parts), a pipeline or a single command.
pub open spec fn sequence_node(n: AstNode) -> bool
    decreases n, 6int,
{
    match n {
        AstNode::List { span, parts } => parts@.len() >= 2 && list_parts(parts@) && covers(
            span,
            parts@,
        ) && starts_increasing(parts@),
        _ => pipeline_node(n),
    }
}

/// The parts of an `if` read so far: `if`, a list, then pairs of a
/// `then`, `elif` or `else` and a list.
pub open spec fn if_prefix(s: Seq<AstNode>) -> bool {
    &&& s.len() >= 2
    &&& s.len() % 2 == 0
    &&& reserved_is(s[0], "if"@)
    &&& forall|i: int|
        0 < i < s.len() ==> if i % 2 == 1 {
            sequence_node(#[trigger] s[i])
        } else {
            reserved_is(s[i], "then"@) || reserved_is(s[i], "elif"@) || reserved_is(s[i], "else"@)
        }
}

proof fn lemma_if_push(s: Seq<AstNode>, kw: AstNode, body: AstNode)
    requires
        if_prefix(s),
        reserved_is(kw, "then"@) || reserved_is(kw, "elif"@) || reserved_is(kw, "else"@),
        sequence_node(body),
    ensures
        if_prefix(s.push(kw).push(body)),
{
    let t = s.push(kw).push(body);
    assert(t[0] == s[0]);
    assert forall|i: int| 0 < i < t.len() implies if i % 2 == 1 {
        sequence_node(#[trigger] t[i])
    } else {
        reserved_is(t[i], "then"@) || reserved_is(t[i], "elif"@) || reserved_is(t[i], "else"@)
    } by {
        if i < s.len() {
            assert(t[i] == s[i]);
        }
    }
}

proof fn lemma_if_close(s: Seq<AstNode>, fi: AstNode)
    requires
        if_prefix(s),
        reserved_is(fi, "fi"@),
    ensures
        if_parts(s.push(fi)),
{
    let t = s.push(fi);
    assert(t[0] == s[0]);
    assert forall|i: int| 0 < i < t.len() - 1 implies if i % 2 == 1 {
        sequence_node(#[trigger] t[i])
    } else {
        reserved_is(t[i], "then"@) || reserved_is(t[i], "elif"@) || reserved_is(t[i], "else"@)
    } by {
        assert(t[i] == s[i]);
    }
}

/// The parts of a `case` read so far: `case word in` and clauses.
pub open spec fn case_prefix(s: Seq<AstNode>) -> bool {
    &&& s.len() >= 3
    &&& reserved_is(s[0], "case"@)
    &&& s[1] is Word
    &&& reserved_is(s[2], "in"@)
    &&& forall|i: int| 3 <= i < s.len() ==> case_clause_node(#[trigger] s[i])
}

proof fn lemma_case_push(s: Seq<AstNode>, c: AstNode)
    requires
        case_prefix(s),
        case_clause_node(c),
    ensures
        case_prefix(s.push(c)),
{
    let t = s.push(c);
    assert(t[0] == s[0] && t[1] == s[1] && t[2] == s[2]);
    assert forall|i: int| 3 <= i < t.len() implies case_clause_node(#[trigger] t[i]) by {
        if i < s.len() {
            assert(t[i] == s[i]);
        }
    }
}

proof fn lemma_case_close(s: Seq<AstNode>, e: AstNode)
    requires
        case_prefix(s),
        reserved_is(e, "esac"@),
    ensures
        case_parts(s.push(e)),
{
    let t = s.push(e);
    assert(t[0] == s[0] && t[1] == s[1] && t[2] == s[2]);
    assert forall|i: int| 3 <= i < t.len() - 1 implies case_clause_node(#[trigger] t[i]) by {
        assert(t[i] == s[i]);
    }
}

/// Each node is a reserved word, a pattern node or a list.
pub open spec fn clause_elems(s: Seq<AstNode>) -> bool {
    forall|i: int|
        0 <= i < s.len() ==> (#[trigger] s[i] is ReservedWord || pattern_node(s[i]) || sequence_node(
            s[i],
        ))
}

proof fn lemma_clause_push(s: Seq<AstNode>, n: AstNode)
    requires
        clause_elems(s),
        n is ReservedWord || pattern_node(n) || sequence_node(n),
    ensures
        clause_elems(s.push(n)),
{
    let t = s.push(n);
    assert forall|i: int| 0 <= i < t.len() implies (#[trigger] t[i] is ReservedWord || pattern_node(
        t[i],
    ) || sequence_node(t[i])) by {
        if i < s.len() {
            assert(t[i] == s[i]);
        }
    }
}

/// Each node is a word.
pub open spec fn all_word_nodes(s: Seq<AstNode>) -> bool {
    forall|i: int| 0 <= i < s.len() ==> #[trigger] s[i] is Word
}

proof fn lemma_words_node_push(s: Seq<AstNode>, n: AstNode)
    requires
        all_word_nodes(s),
        n is Word,
    ensures
        all_word_nodes(s.push(n)),
{
    let t = s.push(n);
    assert forall|i: int| 0 <= i < t.len() implies #[trigger] t[i] is Word by {
        if i < s.len() {
            assert(t[i] == s[i]);
        }
    }
}

/// An element between a `for` variable and its body: an item word, `;` or
/// `in`.
pub open spec fn for_item(n: AstNode) -> bool {
    n is Word || reserved_is(n, ";"@) || reserved_is(n, "in"@)
}

/// `after` is `before` with for items appended.
pub open spec fn items_appended(before: Seq<AstNode>, after: Seq<AstNode>) -> bool {
    &&& before.len() <= after.len()
    &&& after.subrange(0, before.len() as int) == before
    &&& forall|i: int| before.len() <= i < after.len() ==> for_item(#[trigger] after[i])
}

/// The last three parts are a `for` body: `do list done` or `{ list }`.
pub open spec fn for_body_tail(s: Seq<AstNode>) -> bool {
    &&& s.len() >= 3
    &&& (reserved_is(s[s.len() - 3], "do"@) && reserved_is(s[s.len() - 1], "done"@)) || (
    reserved_is(s[s.len() - 3], "{"@) && reserved_is(s[s.len() - 1], "}"@))
    &&& sequence_node(s[s.len() - 2])
}

proof fn lemma_items_push(before: Seq<AstNode>, s: Seq<AstNode>, n: AstNode)
    requires
        items_appended(before, s),
        for_item(n),
    ensures
        items_appended(before, s.push(n)),
{
    let t = s.push(n);
    assert(t.subrange(0, before.len() as int) =~= s.subrange(0, before.len() as int));
    assert forall|i: int| before.len() <= i < t.len() implies for_item(#[trigger] t[i]) by {
        if i < s.len() {
            assert(t[i] == s[i]);
        }
    }
}

proof fn lemma_list_push(s: Seq<AstNode>, x: AstNode)
    requires
        list_parts(s),
        s.len() % 2 == 0 ==> pipeline_node(x),
        s.len() % 2 == 1 ==> x is Operator,
    ensures
        list_parts(s.push(x)),
{
    assert forall|i: int| 0 <= i < s.push(x).len() implies if i % 2 == 0 {
        pipeline_node(#[trigger] s.push(x)[i])
    } else {
        s.push(x)[i] is Operator
    } by {
        if i < s.len() {
            assert(s.push(x)[i] == s[i]);
        }
    }
}

proof fn lemma_pipeline_push(s: Seq<AstNode>, p: AstNode, u: AstNode)
    requires
        pipeline_parts(s),
        p is Pipe,
        command_unit_node(u),
    ensures
        pipeline_parts(s.push(p).push(u)),
        pipe_offset(s.push(p).push(u)) == pipe_offset(s),
{
    let t = s.push(p).push(u);
    let o = pipe_offset(s);
    assert(t[0] == s[0]);
    assert forall|i: int| o <= i < t.len() implies if (i - o) % 2 == 0 {
        command_unit_node(#[trigger] t[i])
    } else {
        t[i] is Pipe
    } by {
        if i < s.len() {
            assert(t[i] == s[i]);
        }
    }
}

proof fn lemma_simple_push(s: Seq<AstNode>, x: AstNode, at_start: bool)
    requires
        s.len() == 0 || simple_parts(s),
        forall|k: int| 0 <= k < s.len() ==> span_of(node_view(#[trigger] s[k])).start < span_of(
            node_view(x),
        ).start,
        simple_part(x),
        at_start ==> forall|k: int| 0 <= k < s.len() ==> !(#[trigger] s[k] is Word),
        x is Assignment ==> at_start,
    ensures
        simple_parts(s.push(x)),
        (at_start && !(x is Word)) ==> forall|k: int|
            0 <= k < s.push(x).len() ==> !(#[trigger] s.push(x)[k] is Word),
{
    let t = s.push(x);
    assert forall|i: int| 0 <= i < t.len() implies simple_part(#[trigger] t[i]) by {
        if i < s.len() {
            assert(t[i] == s[i]);
        }
    }
    assert forall|i: int, j: int|
        0 <= i < j < t.len() && #[trigger] t[i] is Word implies !(#[trigger] t[j] is Assignment) by {
        assert(t[i] == s[i]);
        if j < s.len() {
            assert(t[j] == s[j]);
        }
    }
    assert forall|i: int, j: int| 0 <= i < j < t.len() implies span_of(node_view(#[trigger] t[i])).start
        < span_of(node_view(#[trigger] t[j])).start by {
        assert(t[i] == s[i]);
        if j < s.len() {
            assert(t[j] == s[j]);
        }
    }
    if at_start && !(x is Word) {
        assert forall|k: int| 0 <= k < t.len() implies !(#[trigger] t[k] is Word) by {
            if k < s.len() {
                assert(t[k] == s[k]);
            }
        }
    }
}

/// Tokens that can start a command.
pub open spec fn command_start_token(t: Token) -> bool {
    match t {
        Token::Word(_) => true,
        Token::Op(k, _) => match k {
            OpKind::LParen | OpKind::LBrace | OpKind::Bang => true,
            _ => redirect_op(k),
        },
        _ => false,
    }
}

/// Covering span of the parts' spans, or `default` when there are none.
fn cover_or(parts: &Vec<AstNode>, default: Span) -> (r: Span)
    ensures
        forall|hi: int|
            nodes_in(parts@, hi) && span_within(default, 0, hi) ==> #[trigger] span_within(r, 0, hi),
        parts@.len() > 0 ==> covers(r, parts@),
{
    let mut spans: Vec<Span> = Vec::new();
    let mut i: usize = 0;
    while i < parts.len()
        invariant
            i <= parts@.len(),
            spans@.len() == i,
            forall|k: int| 0 <= k < i ==> #[trigger] spans@[k] == span_of(node_view(parts@[k])),
        decreases parts@.len() - i,
    {
        spans.push(parts[i].span());
        i += 1;
    }
    let c = Span::covering(spans.as_slice());
    let r = match c {
        Some(sp) => sp,
        None => default,
    };
    proof {
        lemma_nodes_view(parts@);
        assert forall|hi: int| nodes_in(parts@, hi) && span_within(default, 0, hi) implies #[trigger] span_within(r, 0, hi) by {
            if c is Some {
                lemma_all_spans_seq(nodes_view(parts@), within_pred(0, hi));
                let sp = c.unwrap();
                let a = choose|k: int| 0 <= k < spans@.len() && sp.start == #[trigger] spans@[k].start;
                let b = choose|k: int| 0 <= k < spans@.len() && sp.end == #[trigger] spans@[k].end;
                assert(all_spans(nodes_view(parts@)[a], within_pred(0, hi)));
                assert(all_spans(nodes_view(parts@)[b], within_pred(0, hi)));
                lemma_span_in(nodes_view(parts@)[a], 0, hi);
                lemma_span_in(nodes_view(parts@)[b], 0, hi);
                assert(sp.start <= spans@[a].start);
            }
        }
        if c is Some {
            let sp = c.unwrap();
            assert forall|i: int| #![trigger parts@[i]] 0 <= i < parts@.len() implies sp.start <= span_of(
                node_view(parts@[i]),
            ).start && span_of(node_view(parts@[i])).end <= sp.end by {
                assert(spans@[i] == span_of(node_view(parts@[i])));
            }
            let a = choose|k: int| 0 <= k < spans@.len() && sp.start == #[trigger] spans@[k].start;
            let b = choose|k: int| 0 <= k < spans@.len() && sp.end == #[trigger] spans@[k].end;
            assert(spans@[a] == span_of(node_view(parts@[a])));
            assert(spans@[b] == span_of(node_view(parts@[b])));
        }
    }
    r
}

/// A subtree inside `[lo, hi]` lies inside any wider range.
proof fn lemma_within_widen(v: AstView, lo: int, hi: int, lo2: int, hi2: int)
    requires
        spans_within(v, lo, hi),
        lo2 <= lo,
        hi <= hi2,
    ensures
        spans_within(v, lo2, hi2),
{
    assert forall|x: Span| #[trigger] within_pred(lo, hi)(x) implies within_pred(lo2, hi2)(x) by {}
    lemma_all_spans_mono(v, within_pred(lo, hi), within_pred(lo2, hi2));
}

/// A node inside `[lo, hi]` has its own span there.
proof fn lemma_span_in(v: AstView, lo: int, hi: int)
    requires
        spans_within(v, lo, hi),
    ensures
        span_within(span_of(v), lo, hi),
{
    reveal_with_fuel(all_spans, 2);
    reveal_with_fuel(crate::ast::all_spans_word, 2);
}

impl<'a> Parser<'a> {
    /// True when the lookahead can start a command.
    fn at_command_start(&mut self) -> (r: Result<bool, ParseError>)
        requires
            old(self).wf(),
        ensures
            Self::evolves(*old(self), *final(self)),
            final(self).buf@.len() >= old(self).buf@.len(),
            final(self).buf@.subrange(0, old(self).buf@.len() as int) == old(self).buf@,
            r matches Ok(b) ==> final(self).buf@.len() > 0 && b == command_start_token(final(self).buf@[0]),
            r matches Err(e) ==> error_in(e, final(self).input@),
    {
        let t = self.peek(0)?;
        Ok(match t {
            Token::Word(_) => true,
            Token::Op(k, _) => match k {
                OpKind::LParen | OpKind::LBrace | OpKind::Bang => true,
                _ => is_redirect_op(k),
            },
            _ => false,
        })
    }

    /// True when the lookahead ends the current sequence.
    fn at_end(&mut self, end: &EndSet) -> (r: Result<bool, ParseError>)
        requires
            old(self).wf(),
        ensures
            Self::evolves(*old(self), *final(self)),
            final(self).buf@.len() >= old(self).buf@.len(),
            final(self).buf@.subrange(0, old(self).buf@.len() as int) == old(self).buf@,
            r is Ok ==> final(self).buf@.len() > 0,
            r matches Ok(b) ==> (final(self).buf@[0] is Eof ==> b),
            r matches Err(e) ==> error_in(e, final(self).input@),
            old(self).blank_state() ==> r is Ok && final(self).blank_state(),
    {
        let t = self.peek(0)?;
        Ok(match t {
            Token::Eof => true,
            Token::Newline(_) => true,
            Token::Op(OpKind::RParen, _) => end.stop_rparen,
            Token::Op(OpKind::RBrace, _) => end.stop_rbrace,
            Token::Op(OpKind::SemiSemi, _) => true,
            Token::Op(OpKind::SemiAnd, _) => true,
            Token::Op(OpKind::SemiSemiAnd, _) => true,
            Token::Word(w) => is_stop_word(end.stop_words, &w.cooked),
            _ => false,
        })
    }

    /// True when the lookahead is a stop word of the end set.
    fn at_stop_word(&mut self, end: &EndSet) -> (r: Result<bool, ParseError>)
        requires
            old(self).wf(),
        ensures
            Self::evolves(*old(self), *final(self)),
            final(self).buf@.len() >= old(self).buf@.len(),
            final(self).buf@.subrange(0, old(self).buf@.len() as int) == old(self).buf@,
            r matches Ok(b) ==> final(self).buf@.len() > 0 && (b ==> final(self).buf@[0] is Word),
            r matches Err(e) ==> error_in(e, final(self).input@),
    {
        let t = self.peek(0)?;
        Ok(match t {
            Token::Word(w) => is_stop_word(end.stop_words, &w.cooked),
            _ => false,
        })
    }

    /// True when `WORD (` follows (function definition).
    fn peek_is_function_def(&mut self) -> (r: Result<bool, ParseError>)
        requires
            old(self).wf(),
        ensures
            Self::evolves(*old(self), *final(self)),
            final(self).buf@.len() >= old(self).buf@.len(),
            final(self).buf@.subrange(0, old(self).buf@.len() as int) == old(self).buf@,
            r is Ok ==> final(self).buf@.len() >= 2,
            r matches Err(e) ==> error_in(e, final(self).input@),
            old(self).tail_blank() && old(self).buf@.len() >= 1 ==> r == Ok::<bool, ParseError>(false)
                && final(self).tail_blank(),
    {
        let ghost b0 = self.buf@;
        let first = self.peek(0)?;
        let ghost b1 = self.buf@;
        let second = self.peek(1)?;
        proof {
            assert(self.buf@.subrange(0, b0.len() as int) =~= b1.subrange(0, b0.len() as int));
        }
        Ok(match (first, second) {
            (Token::Word(_), Token::Op(OpKind::LParen, _)) => true,
            _ => false,
        })
    }

    /// True when a word prefixes a redirect (`2>`, `{fd}>`).
    fn peek_is_redirect_input(&mut self, w: &RawWord) -> (r: Result<bool, ParseError>)
        requires
            old(self).wf(),
            old(self).buf@.len() >= 1,
        ensures
            Self::evolves(*old(self), *final(self)),
            final(self).buf@.len() >= old(self).buf@.len(),
            final(self).buf@.subrange(0, old(self).buf@.len() as int) == old(self).buf@,
            r matches Ok(b) ==> (b ==> final(self).buf@.len() >= 2 && (final(self).buf@[1] matches Token::Op(k, _) && redirect_op(k))),
            r matches Ok(b) ==> b == fd_word_before_redirect(*w, final(self).buf@),
            r is Ok && fd_word(w.cooked@) ==> final(self).buf@.len() >= 2,
            !fd_word(w.cooked@) ==> r == Ok::<bool, ParseError>(false) && *final(self) == *old(self),
            r matches Err(e) ==> error_in(e, final(self).input@),
    {
        if !(is_all_digits(w.cooked.as_str()) || is_redir_var(w.cooked.as_str())) {
            return Ok(false);
        }
        let t = self.peek(1)?;
        Ok(match t {
            Token::Op(kind, span) => is_redirect_op(kind) && w.span.end == span.start,
            _ => false,
        })
    }

    /// Consume a reserved word token (`if`, `then`, ...).
    fn reserved(&mut self, word: &str) -> (r: Result<AstNode, ParseError>)
        requires
            old(self).wf(),
        ensures
            Self::evolves(*old(self), *final(self)),
            r matches Ok(n) ==> node_in(n, final(self).input@.len() as int) && final(self).cursor() > old(self).cursor(),
            r matches Ok(n) ==> node_read(n, final(self).input@),
            r matches Ok(n) ==> n matches AstNode::ReservedWord { word: w, .. } && w@ == word@,
            r matches Ok(n) ==> old(self).cursor() <= span_of(node_view(n)).start && span_of(node_view(n)).end <= final(self).cursor(),
            r matches Ok(n) ==> span_of(node_view(n)).start < span_of(node_view(n)).end,
            r matches Err(e) ==> error_in(e, final(self).input@),
    {
        let t = self.next()?;
        match t {
            Token::Word(w) => {
                if word_is(&w, word) {
                    let n = AstNode::ReservedWord { span: w.span, word: w.cooked.clone() };
                    proof {
                        self.lemma_cursor();
                    }
                    return Ok(n);
                }
                let found = Self::token_desc(&Token::Word(w));
                let offset = self.peek_offset()?;
                Err(ParseError::Unexpected { found, offset })
            },
            other => {
                let found = Self::token_desc(&other);
                let offset = self.peek_offset()?;
                Err(ParseError::Unexpected { found, offset })
            },
        }
    }

    /// Consume one of two reserved words.
    fn reserved_either(&mut self, a: &str, b: &str) -> (r: Result<AstNode, ParseError>)
        requires
            old(self).wf(),
        ensures
            Self::evolves(*old(self), *final(self)),
            r matches Ok(n) ==> node_in(n, final(self).input@.len() as int) && final(self).cursor() > old(self).cursor(),
            r matches Ok(n) ==> node_read(n, final(self).input@),
            r matches Ok(n) ==> n matches AstNode::ReservedWord { word: w, .. } && (w@ == a@ || w@ == b@),
            r matches Ok(n) ==> old(self).cursor() <= span_of(node_view(n)).start && span_of(node_view(n)).end <= final(self).cursor(),
            r matches Ok(n) ==> span_of(node_view(n)).start < span_of(node_view(n)).end,
            r matches Err(e) ==> error_in(e, final(self).input@),
    {
        let t = self.peek(0)?;
        match t {
            Token::Word(w) => {
                if word_is(&w, a) || word_is(&w, b) {
                    proof {
                        self.lemma_cursor();
                    }
                    self.next()?;
                    return Ok(AstNode::ReservedWord { span: w.span, word: w.cooked.clone() });
                }
                let found = Self::token_desc(&Token::Word(w));
                let offset = self.peek_offset()?;
                Err(ParseError::Unexpected { found, offset })
            },
            other => {
                let found = Self::token_desc(&other);
                let offset = self.peek_offset()?;
                Err(ParseError::Unexpected { found, offset })
            },
        }
    }

    /// Consume the next word token.
    fn expect_word(&mut self) -> (r: Result<RawWord, ParseError>)
        requires
            old(self).wf(),
        ensures
            Self::evolves(*old(self), *final(self)),
            r matches Ok(w) ==> word_ok(final(self).input@, w) && final(self).cursor() > old(self).cursor(),
            r matches Ok(w) ==> old(self).cursor() <= w.span.start && w.span.end <= final(self).cursor(),
            r matches Err(e) ==> error_in(e, final(self).input@),
    {
        let t = self.next()?;
        match t {
            Token::Word(w) => Ok(w),
            other => {
                let found = Self::token_desc(&other);
                let offset = self.peek_offset()?;
                Err(ParseError::Unexpected { found, offset })
            },
        }
    }

    /// Build a Keyword node spanning its parts.
    fn keyword(&self, kind: KeywordKind, start: usize, end: usize, parts: Vec<AstNode>) -> (r: AstNode)
        requires
            nodes_in(parts@, self.input@.len() as int),
            nodes_read(parts@, self.input@),
            start <= end <= self.input@.len(),
        ensures
            node_in(r, self.input@.len() as int),
            node_read(r, self.input@),
            r matches AstNode::Keyword { kind: k, parts: ps, .. } && k == kind && ps@ == parts@,
            parts@.len() > 0 ==> covers(span_of(node_view(r)), parts@),
    {
        let span = cover_or(&parts, Span { start, end });
        proof {
            assert(span_within(span, 0, self.input@.len() as int));
        }
        AstNode::Keyword { kind, span, parts }
    }

    /// Slice the input as UTF-8.
    fn slice_str(&self, span: &Span) -> (r: Result<&'a str, ParseError>)
        requires
            span.start <= span.end <= self.input@.len(),
        ensures
            r matches Ok(t) ==> t.spec_bytes() == self.input@.subrange(span.start as int, span.end as int),
            r matches Err(e) ==> e matches ParseError::Unexpected { offset, .. } && offset == span.start,
    {
        match utf8_slice(&self.input[span.start..span.end]) {
            Some(t) => Ok(t),
            None => Err(ParseError::Unexpected { found: "non-utf8 input".to_owned(), offset: span.start }),
        }
    }
}

/// A redirect's heredoc body, where it has one, is a body gathered right
/// after its target word with that word's text as the delimiter.
pub open spec fn heredoc_read(s: Seq<u8>, n: AstNode) -> bool {
    match n {
        AstNode::Redirect { op, output, heredoc, .. } => match heredoc {
            Some(h) => match output {
                RedirectTarget::Word(w) => exists|strip: bool, e: usize|
                    #[trigger] gathered(s, w.span.end as int, w.text@, strip, *h, e),
                _ => false,
            },
            None => true,
        },
        _ => true,
    }
}

/// `node` is the heredoc gathered for the delimiter `delim` ending at `off`,
/// and lexing resumes at `resume`, the end of the delimiter line.
pub open spec fn gathered(
    s: Seq<u8>,
    off: int,
    delim: Seq<char>,
    strip: bool,
    node: AstNode,
    resume: usize,
) -> bool {
    match heredoc_gather(s, off, vstd::utf8::encode_utf8(delim), strip) {
        Some((b, q, eol)) => {
            &&& resume == eol
            &&& node_view(node) == (AstView::Heredoc {
                span: Span { start: b as usize, end: eol as usize },
                value: crate::text::utf8_lossy(s.subrange(b, q)),
            })
        },
        None => false,
    }
}

/// No expansion of the list is a command or process substitution.
pub open spec fn no_substitution(exps: Seq<RawExpansion>) -> bool {
    forall|k: int| 0 <= k < exps.len() ==> !(#[trigger] exps[k] is CmdSubst || exps[k] is ProcSubst)
}

/// The node built for one scanned expansion: the same kind at the same
/// span, with a parameter's or tilde's value read from its bytes.
pub open spec fn part_from(s: Seq<u8>, e: RawExpansion, n: AstNode) -> bool {
    match e {
        RawExpansion::CmdSubst { span, .. } => n matches AstNode::CommandSubstitution { span: sp, .. } && sp == span,
        RawExpansion::ProcSubst { span, .. } => n matches AstNode::ProcessSubstitution { span: sp, .. } && sp == span,
        RawExpansion::Param { span } => n matches AstNode::Parameter { span: sp, value } && sp == span
            && value@ == crate::text::utf8_lossy(s.subrange(span.start as int, span.end as int)),
        RawExpansion::Tilde { span } => n matches AstNode::Tilde { span: sp, value } && sp == span
            && value@ == crate::text::utf8_lossy(s.subrange(span.start as int, span.end as int)),
    }
}

/// One node per scanned expansion, in order.
pub open spec fn parts_from(s: Seq<u8>, exps: Seq<RawExpansion>, parts: Seq<AstNode>) -> bool {
    &&& parts.len() == exps.len()
    &&& forall|k: int| 0 <= k < exps.len() ==> part_from(s, exps[k], #[trigger] parts[k])
}

/// The next two buffered tokens are a redirect operator that takes a word
/// target (no heredoc, no descriptor duplication) and a word whose
/// substitutions, if any, lie past the expansion limit.
spec fn word_redirect_ahead(p: Parser) -> bool {
    &&& p.buf@.len() >= 2
    &&& p.buf@[0] matches Token::Op(k, _) && redirect_op(k) && !(k is LessLess || k is LessLessMinus
        || k is LessAnd || k is GreaterAnd)
    &&& p.buf@[1] matches Token::Word(w) && (p.depth >= p.limit || no_substitution(w.expansions@))
}

/// `n` is the redirect that operator token `o` makes with word token `w`:
/// no source descriptor, the operator's text, the word as target, no
/// heredoc, spanning from the operator to the end of the word.
pub open spec fn redirect_of(n: AstNode, o: Token, w: Token) -> bool {
    match (n, o, w) {
        (AstNode::Redirect { span, input, op, output, heredoc }, Token::Op(k, ospan), Token::Word(raw)) => {
            &&& input is None
            &&& op@ == op_text(k)
            &&& heredoc is None
            &&& span == Span { start: ospan.start, end: raw.span.end }
            &&& output matches RedirectTarget::Word(t) && t.span == raw.span && t.text@ == raw.cooked@
        },
        _ => false,
    }
}

impl<'a> Parser<'a> {
    /// Gather a heredoc body starting at `off` (right after the delimiter
    /// word). Returns the body node and the offset to resume lexing at.
    fn gather_heredoc(&self, delim: &str, strip_tabs: bool, off: usize) -> (r: Result<
        Option<(AstNode, usize)>,
        ParseError,
    >)
        requires
            off <= self.input@.len(),
        ensures
            r matches Ok(Some(p)) ==> node_in(p.0, self.input@.len() as int) && off < p.1 <= self.input@.len()
                && p.0 is Heredoc,
            r matches Ok(None) ==> !self.strict,
            r matches Err(e) ==> e is UnexpectedEof && self.strict,
            r matches Ok(Some(p)) ==> gathered(self.input@, off as int, delim@, strip_tabs, p.0, p.1),
            r matches Ok(Some(_)) <==> heredoc_gather(
                self.input@,
                off as int,
                delim.spec_bytes(),
                strip_tabs,
            ) is Some,
    {
        proof {
            self.lemma_len();
        }
        let bytes = self.input;
        // Skip to the end of the delimiter line.
        let mut line_end = off;
        while line_end < bytes.len() && bytes[line_end] != crate::lexer::NL
            invariant
                off <= line_end <= bytes@.len(),
                bytes@ == self.input@,
                crate::lexer::line_end_from(bytes@, line_end as int) == crate::lexer::line_end_from(
                    bytes@,
                    off as int,
                ),
            decreases bytes@.len() - line_end,
        {
            line_end = line_end + 1;
        }
        if line_end >= bytes.len() {
            if self.strict {
                return Err(ParseError::UnexpectedEof);
            }
            return Ok(None);
        }
        let body_start = line_end + 1;
        let mut pos = body_start;
        let delim_bytes = delim.as_bytes();
        let ghost goal = heredoc_lines(bytes@, body_start as int, delim.spec_bytes(), strip_tabs);
        loop
            invariant
                off < body_start <= pos <= bytes@.len(),
                bytes@ == self.input@,
                bytes@.len() <= usize::MAX,
                delim_bytes@ == delim.spec_bytes(),
                body_start == crate::lexer::line_end_from(bytes@, off as int) + 1,
                goal == heredoc_lines(bytes@, body_start as int, delim.spec_bytes(), strip_tabs),
                heredoc_lines(bytes@, pos as int, delim.spec_bytes(), strip_tabs) == goal,
            decreases bytes@.len() - pos,
        {
            if pos >= bytes.len() {
                if self.strict {
                    return Err(ParseError::UnexpectedEof);
                }
                return Ok(None);
            }
            let mut eol = pos;
            while eol < bytes.len() && bytes[eol] != crate::lexer::NL
                invariant
                    pos <= eol <= bytes@.len(),
                    crate::lexer::line_end_from(bytes@, eol as int) == crate::lexer::line_end_from(
                        bytes@,
                        pos as int,
                    ),
                decreases bytes@.len() - eol,
            {
                eol = eol + 1;
            }
            let mut a = pos;
            if strip_tabs {
                while a < eol && bytes[a] == crate::lexer::TAB
                    invariant
                        pos <= a <= eol <= bytes@.len(),
                        crate::lexer::skip_tabs(bytes@, a as int, eol as int) == crate::lexer::skip_tabs(
                            bytes@,
                            pos as int,
                            eol as int,
                        ),
                    decreases eol - a,
                {
                    a = a + 1;
                }
            }
            if bytes_equal(&bytes[a..eol], delim_bytes) {
                let node = AstNode::Heredoc {
                    span: Span { start: body_start, end: eol },
                    value: lossy_string(&bytes[body_start..pos]),
                };
                return Ok(Some((node, eol)));
            }
            pos = if eol < bytes.len() {
                eol + 1
            } else {
                eol
            };
        }
    }
}


/// From the line starting at `pos`, the first line that reads `delim`
/// (after its leading tabs when `strip`): where that line starts and
/// ends; `None` when no line before the end of input does.
pub open spec fn heredoc_lines(
    s: Seq<u8>,
    pos: int,
    delim: Seq<u8>,
    strip: bool,
) -> Option<(int, int)>
    decreases s.len() - pos,
{
    if !(0 <= pos < s.len()) {
        None
    } else {
        let eol = crate::lexer::line_end_from(s, pos);
        let a = if strip {
            crate::lexer::skip_tabs(s, pos, eol)
        } else {
            pos
        };
        if pos <= a <= eol <= s.len() && s.subrange(a, eol) == delim {
            Some((pos, eol))
        } else {
            let next = if eol < s.len() {
                eol + 1
            } else {
                eol
            };
            if pos < next <= s.len() {
                heredoc_lines(s, next, delim, strip)
            } else {
                None
            }
        }
    }
}

/// The heredoc for a delimiter ending at `off`: its body starts on the next
/// line and runs up to the line that reads `delim`; the body's start, its
/// end (where the delimiter line starts) and the delimiter line's end.
pub open spec fn heredoc_gather(
    s: Seq<u8>,
    off: int,
    delim: Seq<u8>,
    strip: bool,
) -> Option<(int, int, int)> {
    let le = crate::lexer::line_end_from(s, off);
    if le >= s.len() {
        None
    } else {
        match heredoc_lines(s, le + 1, delim, strip) {
            Some((p, eol)) => Some((le + 1, p, eol)),
            None => None,
        }
    }
}

impl<'a> Parser<'a> {
    /// Convert a raw word to an AST word, parsing substitution children
    /// while the nesting depth allows (bashlex expansionlimit semantics).
    fn build_word(&self, raw: &RawWord) -> (r: Result<WordNode, ParseError>)
        requires
            self.wf(),
            word_ok(self.input@, *raw),
        ensures
            r matches Ok(w) ==> word_read(self.input@, w@),
            r matches Ok(w) ==> word_within(w@, 0, self.input@.len() as int) && w.span == raw.span
                && w.text@ == raw.cooked@ && w.quoted == raw.quoted,
            r matches Err(e) ==> error_in(e, self.input@),
            self.depth >= self.limit || no_substitution(raw.expansions@) ==> r is Ok,
            self.depth < self.limit ==> (r matches Ok(w) ==> parts_from(self.input@, raw.expansions@, w.parts@)),
            self.depth >= self.limit ==> (r matches Ok(w) ==> forall|k: int|
                0 <= k < w.parts@.len() ==> (#[trigger] w.parts@[k] is Parameter || w.parts@[k] is Tilde)),
        decreases self.input@.len(), self.input@.len() - self.cursor(), 1nat,
    {
        proof {
            self.lemma_cursor();
            self.lemma_len();
        }
        let ghost len = self.input@.len() as int;
        let mut parts: Vec<AstNode> = Vec::new();
        let mut i: usize = 0;
        while i < raw.expansions.len()
            invariant
                self.wf(),
                len == self.input@.len(),
                len <= usize::MAX,
                word_ok(self.input@, *raw),
                i <= raw.expansions@.len(),
                nodes_in(parts@, len),
                nodes_read(parts@, self.input@),
                forall|k: int| 0 <= k < parts@.len() ==> expansion_leaf(#[trigger] node_view(parts@[k])),
                self.depth < self.limit ==> parts@.len() == i && forall|k: int|
                    0 <= k < i ==> part_from(self.input@, raw.expansions@[k], #[trigger] parts@[k]),
                self.depth >= self.limit ==> forall|k: int|
                    0 <= k < parts@.len() ==> (#[trigger] parts@[k] is Parameter || parts@[k] is Tilde),
            decreases raw.expansions@.len() - i,
        {
            let exp = raw.expansions[i];
            proof {
                assert(expansion_ok(self.input@, raw.expansions@[i as int], raw.span.start as int, raw.span.end as int));
            }
            match exp {
                RawExpansion::CmdSubst { span, inner } => {
                    if self.depth < self.limit {
                        let text = self.slice_str(&inner)?;
                        proof {
                            assert(opens_subst(self.input@[span.start as int]));
                        }
                        let command = self.parse_inner(text, inner.start)?;
                        proof {
                            lemma_within_widen(
                                node_view(command),
                                inner.start as int,
                                inner.start + text.spec_bytes().len(),
                                0,
                                len,
                            );
                        }
                        let n = AstNode::CommandSubstitution { span, command: Box::new(command) };
                        proof {
                            reveal_with_fuel(crate::ast::node_view, 2);
                            lemma_push_fits(parts@, n, len, self.input@);
                            lemma_leaf_push(parts@, n);
                        }
                        parts.push(n);
                    }
                },
                RawExpansion::ProcSubst { span, inner } => {
                    if self.depth < self.limit {
                        let text = self.slice_str(&inner)?;
                        proof {
                            assert(opens_subst(self.input@[span.start as int]));
                        }
                        let command = self.parse_inner(text, inner.start)?;
                        proof {
                            lemma_within_widen(
                                node_view(command),
                                inner.start as int,
                                inner.start + text.spec_bytes().len(),
                                0,
                                len,
                            );
                        }
                        let n = AstNode::ProcessSubstitution { span, command: Box::new(command) };
                        proof {
                            reveal_with_fuel(crate::ast::node_view, 2);
                            lemma_push_fits(parts@, n, len, self.input@);
                            lemma_leaf_push(parts@, n);
                        }
                        parts.push(n);
                    }
                },
                RawExpansion::Param { span } => {
                    let n = AstNode::Parameter {
                        span,
                        value: lossy_string(&self.input[span.start..span.end]),
                    };
                    proof {
                        lemma_push_fits(parts@, n, len, self.input@);
                        lemma_leaf_push(parts@, n);
                    }
                    parts.push(n);
                },
                RawExpansion::Tilde { span } => {
                    let n = AstNode::Tilde {
                        span,
                        value: lossy_string(&self.input[span.start..span.end]),
                    };
                    proof {
                        lemma_push_fits(parts@, n, len, self.input@);
                        lemma_leaf_push(parts@, n);
                    }
                    parts.push(n);
                },
            }
            i += 1;
        }
        proof {
            lemma_nodes_view(parts@);
        }
        Ok(WordNode { span: raw.span, text: raw.cooked.clone(), parts, quoted: raw.quoted })
    }

    /// Parse substitution content; positions move back to the outer input.
    fn parse_inner(&self, text: &str, base: usize) -> (r: Result<AstNode, ParseError>)
        requires
            self.wf(),
            text.spec_bytes().len() < self.input@.len(),
            base + text.spec_bytes().len() <= self.input@.len(),
            self.depth < self.limit,
            subst_opener(self.input@),
        ensures
            r matches Ok(n) ==> spans_within(node_view(n), base as int, base + text.spec_bytes().len()),
            r matches Err(e) ==> error_in(e, self.input@),
        decreases self.input@.len(), self.input@.len() - self.cursor(), 0nat,
    {
        proof {
            self.lemma_len();
        }
        let ghost tl = text.spec_bytes().len() as int;
        let mut sub = Parser::new(text, self.strict, Some(self.limit), self.depth + 1);
        sub.skip_newlines()?;
        let t = sub.peek(0)?;
        if t.is_eof() {
            return Err(ParseError::EmptyInput);
        }
        let node = sub.parse_command_sequence(&EndSet::top())?;
        proof {
            let lim = (usize::MAX - base) as int;
            assert forall|x: Span| #[trigger] within_pred(0, tl)(x) implies (|s: Span| s.start <= lim && s.end <= lim)(x) by {}
            lemma_all_spans_mono(node_view(node), within_pred(0, tl), |s: Span| s.start <= lim && s.end <= lim);
            lemma_shift_within(node_view(node), base as int, 0, tl);
        }
        Ok(node.shifted(base))
    }

    /// Parse `[fd|{var}] op target`, gathering heredocs inline.
    fn parse_redirect(&mut self) -> (r: Result<AstNode, ParseError>)
        requires
            old(self).wf(),
        ensures
            Self::evolves(*old(self), *final(self)),
            r matches Ok(n) ==> node_in(n, final(self).input@.len() as int),
            r matches Ok(n) ==> node_read(n, final(self).input@),
            r matches Err(e) ==> error_in(e, final(self).input@),
            r is Ok ==> final(self).cursor() > old(self).cursor(),
            r matches Ok(n) ==> n is Redirect && redirect_node(n),
            r matches Ok(n) ==> heredoc_read(final(self).input@, n),
            lexable(old(self).input@) && word_redirect_ahead(*old(self)) ==> (r matches Ok(n)
                && redirect_of(n, old(self).buf@[0], old(self).buf@[1])),
            r matches Ok(n) ==> old(self).cursor() <= span_of(node_view(n)).start < final(self).cursor(),
        decreases old(self).input@.len(), old(self).input@.len() - old(self).cursor(), 2nat,
    {
        proof {
            self.lemma_cursor();
        }
        let ghost c0 = self.cursor();
        let ghost len = self.input@.len() as int;
        let mut start = self.peek_offset()?;
        let t0 = self.peek(0)?;
        let t1 = self.peek(1)?;
        let mut input: Option<RedirectSource> = None;
        match (t0, t1) {
            (Token::Word(w), Token::Op(kind, ospan)) => {
                if is_redirect_op(kind) && w.span.end == ospan.start && (is_all_digits(w.cooked.as_str()) || is_redir_var(w.cooked.as_str())) {
                    start = w.span.start;
                    self.next()?;
                    if is_all_digits(w.cooked.as_str()) {
                        input = Some(RedirectSource::Fd(parse_i64(w.cooked.as_str()).unwrap_or(0)));
                    } else {
                        input = Some(RedirectSource::Word(w.cooked.clone()));
                    }
                }
            },
            _ => {},
        }
        proof {
            assert(start <= self.cursor());
        }
        let ghost c1 = self.cursor();
        let (opkind, opspan) = match self.next()? {
            Token::Op(kind, span) => {
                if is_redirect_op(kind) {
                    (kind, span)
                } else {
                    let found = Self::token_desc(&Token::Op(kind, span));
                    let offset = self.peek_offset()?;
                    return Err(ParseError::Unexpected { found, offset });
                }
            },
            other => {
                let found = Self::token_desc(&other);
                let offset = self.peek_offset()?;
                return Err(ParseError::Unexpected { found, offset });
            },
        };
        proof {
            self.lemma_cursor();
        }
        let op = opkind.text().to_owned();
        let dup = match opkind {
            OpKind::LessAnd | OpKind::GreaterAnd => true,
            _ => false,
        };
        // `>&-` / `<&-`: closing dash.
        if dup {
            let t = self.peek(0)?;
            match t {
                Token::Word(w) => {
                    if word_is(&w, "-") && opspan.end == w.span.start {
                        proof {
                            assert(token_fits(self.input@, self.buf@[0], self.lexer.at()));
                        }
                        self.next()?;
                        proof {
                            self.lemma_cursor();
                            reveal_with_fuel(crate::ast::node_view, 2);
                            reveal_with_fuel(crate::ast::target_view, 2);
                        }
                        return Ok(AstNode::Redirect {
                            span: Span { start, end: w.span.end },
                            input,
                            op,
                            output: RedirectTarget::Dash,
                            heredoc: None,
                        });
                    }
                },
                _ => {},
            }
        }
        let target = match self.next()? {
            Token::Word(w) => {
                if dup && is_all_digits(w.cooked.as_str()) {
                    RedirectTarget::Fd(parse_i64(w.cooked.as_str()).unwrap_or(0))
                } else {
                    let word = self.build_word(&w)?;
                    proof {
                        assert(word_read(self.input@, word@));
                    }
                    RedirectTarget::Word(word)
                }
            },
            other => {
                let found = Self::token_desc(&other);
                let offset = self.peek_offset()?;
                return Err(ParseError::Unexpected { found, offset });
            },
        };
        proof {
            self.lemma_cursor();
        }
        let mut end = match &target {
            RedirectTarget::Word(w) => w.span.end,
            _ => opspan.end,
        };
        // Fd targets end at their own span; recover it from the lexer offset.
        let is_word_target = match &target {
            RedirectTarget::Word(_) => true,
            _ => false,
        };
        if !is_word_target {
            end = self.lexer_offset();
        }
        let mut heredoc: Option<Box<AstNode>> = None;
        let is_heredoc = match opkind {
            OpKind::LessLess | OpKind::LessLessMinus => true,
            _ => false,
        };
        if is_heredoc {
            match &target {
                RedirectTarget::Word(w) => {
                    let strip = match opkind {
                        OpKind::LessLessMinus => true,
                        _ => false,
                    };
                    let off = w.span.end;
                    match self.gather_heredoc(w.text.as_str(), strip, off)? {
                        Some((node, resume)) => {
                            proof {
                                assert(node_read(node, self.input@));
                                assert(gathered(self.input@, off as int, w.text@, strip, node, resume));
                            }
                            heredoc = Some(Box::new(node));
                            self.skip_to(resume);
                        },
                        None => {},
                    }
                },
                _ => {},
            }
        }
        proof {
            self.lemma_cursor();
            reveal_with_fuel(crate::ast::node_view, 2);
            reveal_with_fuel(crate::ast::target_view, 2);
        }
        let node = AstNode::Redirect { span: Span { start, end }, input, op, output: target, heredoc };
        proof {
            assert(node matches AstNode::Redirect { output: RedirectTarget::Word(w), .. } ==> read_pred(
                self.input@,
            )(w@));
            assert(node matches AstNode::Redirect { heredoc: Some(h), .. } ==> node_read(
                *h,
                self.input@,
            ));
            assert(node_read(node, self.input@));
        }
        Ok(node)
    }
}


impl<'a> Parser<'a> {
    /// Parse `pipeline [(&& | || | & | ;) pipeline]*` with bashlex list
    /// semantics.
    #[verifier::rlimit(40)]
    fn parse_command_sequence(&mut self, end: &EndSet) -> (r: Result<AstNode, ParseError>)
        requires
            old(self).wf(),
        ensures
            Self::evolves(*old(self), *final(self)),
            r matches Ok(n) ==> node_in(n, final(self).input@.len() as int),
            r matches Ok(n) ==> node_read(n, final(self).input@),
            r matches Err(e) ==> error_in(e, final(self).input@),
            r matches Ok(n) ==> sequence_node(n),
            r matches Ok(n) ==> old(self).cursor() <= span_of(node_view(n)).start < final(self).cursor(),
            old(self).lone_command_state(*end) ==> (r matches Ok(AstNode::Command { parts, .. })
                && parts@.len() == 1) && final(self).blank_state(),
        decreases old(self).input@.len(), old(self).input@.len() - old(self).cursor(), 7nat,
    {
        proof {
            self.lemma_cursor();
        }
        let ghost c0 = self.cursor();
        let ghost len = self.input@.len() as int;
        let first = self.parse_pipeline(end)?;
        let mut parts: Vec<AstNode> = Vec::new();
        proof {
            lemma_push_fits(parts@, first, len, self.input@);
            lemma_starts_push(parts@, first, c0, self.cursor());
            lemma_list_push(parts@, first);
        }
        parts.push(first);
        loop
            invariant_except_break
                parts@.len() % 2 == 1,
            invariant
                Self::evolves(*old(self), *self),
                c0 == old(self).cursor(),
                len == self.input@.len(),
                nodes_in(parts@, len),
                nodes_read(parts@, self.input@),
                starts_between(parts@, c0, self.cursor()),
                parts@.len() >= 1,
                list_parts(parts@),
                old(self).lone_command_state(*end) ==> parts@.len() == 1 && (parts@[0] matches AstNode::Command {
                    parts: cp,
                    ..
                } && cp@.len() == 1) && self.blank_state(),
            decreases self.input@.len() - self.cursor(),
        {
            proof {
                self.lemma_cursor();
            }
            self.skip_newlines()?;
            if self.at_end(end)? {
                break;
            }
            let t = self.peek(0)?;
            proof {
                self.lemma_cursor();
            }
            match t {
                Token::Op(k, span) => {
                    match k {
                        OpKind::AndAnd | OpKind::OrOr => {
                            self.next()?;
                            self.skip_newlines()?;
                            if !self.at_command_start()? {
                                return Err(ParseError::Unexpected {
                                    found: "end of input after operator".to_owned(),
                                    offset: span.end,
                                });
                            }
                            let n = AstNode::Operator { span, op: self.op_text(&span) };
                            proof {
                                lemma_push_fits(parts@, n, len, self.input@);
                                lemma_starts_push(parts@, n, c0, self.cursor());
                                lemma_list_push(parts@, n);
                            }
                            parts.push(n);
                            let p = self.parse_pipeline(end)?;
                            proof {
                                lemma_push_fits(parts@, p, len, self.input@);
                                lemma_starts_push(parts@, p, c0, self.cursor());
                                lemma_list_push(parts@, p);
                            }
                            parts.push(p);
                        },
                        OpKind::Amp | OpKind::Semi => {
                            self.next()?;
                            self.skip_newlines()?;
                            if self.at_stop_word(end)? {
                                break;
                            }
                            let n = AstNode::Operator { span, op: self.op_text(&span) };
                            proof {
                                lemma_push_fits(parts@, n, len, self.input@);
                                lemma_starts_push(parts@, n, c0, self.cursor());
                                lemma_list_push(parts@, n);
                            }
                            parts.push(n);
                            if !self.at_end(end)? && self.at_command_start()? {
                                let p = self.parse_pipeline(end)?;
                                proof {
                                    lemma_push_fits(parts@, p, len, self.input@);
                                    lemma_starts_push(parts@, p, c0, self.cursor());
                                    lemma_list_push(parts@, p);
                                }
                                parts.push(p);
                            } else {
                                break;
                            }
                        },
                        _ => break,
                    }
                },
                _ => break,
            }
        }
        if parts.len() == 1 {
            proof {
                lemma_nodes_view(parts@);
                lemma_all_spans_seq(nodes_view(parts@), within_pred(0, len));
                assert(pipeline_node(parts@[0]));
            }
            match parts.pop() {
                Some(n) => Ok(n),
                None => unreached(),
            }
        } else {
            let span = cover_or(&parts, Span { start: 0, end: 0 });
            proof {
                lemma_cover_start(span, parts@, c0, self.cursor());
            }
            Ok(AstNode::List { span, parts })
        }
    }

    /// Parse `[!] command (| command)*`.
    fn parse_pipeline(&mut self, end: &EndSet) -> (r: Result<AstNode, ParseError>)
        requires
            old(self).wf(),
        ensures
            Self::evolves(*old(self), *final(self)),
            r matches Ok(n) ==> node_in(n, final(self).input@.len() as int),
            r matches Ok(n) ==> node_read(n, final(self).input@),
            r matches Err(e) ==> error_in(e, final(self).input@),
            r matches Ok(n) ==> pipeline_node(n),
            r matches Ok(n) ==> old(self).cursor() <= span_of(node_view(n)).start < final(self).cursor(),
            old(self).lone_command_state(*end) ==> (r matches Ok(AstNode::Command { parts, .. })
                && parts@.len() == 1) && final(self).blank_state(),
        decreases old(self).input@.len(), old(self).input@.len() - old(self).cursor(), 6nat,
    {
        proof {
            self.lemma_cursor();
        }
        let ghost c0 = self.cursor();
        let ghost len = self.input@.len() as int;
        let mut parts: Vec<AstNode> = Vec::new();
        let t = self.peek(0)?;
        match t {
            Token::Op(OpKind::Bang, span) => {
                self.next()?;
                let n = AstNode::ReservedWord { span, word: "!".to_owned() };
                proof {
                    lemma_push_fits(parts@, n, len, self.input@);
                    lemma_starts_push(parts@, n, c0, self.cursor());
                }
                parts.push(n);
            },
            _ => {},
        }
        let ghost bang = parts@.len() == 1;
        proof {
            if bang {
                assert(parts@[0] is ReservedWord);
            }
        }
        let u = self.parse_command_unit(end)?;
        proof {
            lemma_push_fits(parts@, u, len, self.input@);
            lemma_starts_push(parts@, u, c0, self.cursor());
        }
        parts.push(u);
        proof {
            if !bang {
                assert(parts@.len() == 1 && parts@[0] == u);
            } else {
                assert(parts@.len() == 2 && parts@[1] == u && parts@[0] is ReservedWord);
            }
            assert(pipeline_parts(parts@));
        }
        loop
            invariant
                Self::evolves(*old(self), *self),
                c0 == old(self).cursor(),
                len == self.input@.len(),
                nodes_in(parts@, len),
                nodes_read(parts@, self.input@),
                starts_between(parts@, c0, self.cursor()),
                parts@.len() >= 1,
                pipeline_parts(parts@),
                old(self).lone_command_state(*end) ==> parts@.len() == 1 && (parts@[0] matches AstNode::Command {
                    parts: cp,
                    ..
                } && cp@.len() == 1) && self.blank_state(),
            decreases self.input@.len() - self.cursor(),
        {
            proof {
                self.lemma_cursor();
            }
            let t = self.peek(0)?;
            match t {
                Token::Op(k, span) => {
                    match k {
                        OpKind::Pipe | OpKind::PipeAmp => {
                            self.next()?;
                            let n = AstNode::Pipe { span, pipe: self.op_text(&span) };
                            let ghost before = parts@;
                            proof {
                                lemma_push_fits(parts@, n, len, self.input@);
                                lemma_starts_push(parts@, n, c0, self.cursor());
                            }
                            parts.push(n);
                            let u = self.parse_command_unit(end)?;
                            proof {
                                lemma_push_fits(parts@, u, len, self.input@);
                                lemma_starts_push(parts@, u, c0, self.cursor());
                                lemma_pipeline_push(before, n, u);
                            }
                            parts.push(u);
                        },
                        _ => break,
                    }
                },
                _ => break,
            }
        }
        if parts.len() == 1 {
            proof {
                lemma_nodes_view(parts@);
                lemma_all_spans_seq(nodes_view(parts@), within_pred(0, len));
                assert(pipe_offset(parts@) == 0);
                assert(command_unit_node(parts@[0]));
            }
            match parts.pop() {
                Some(n) => Ok(n),
                None => unreached(),
            }
        } else {
            let span = cover_or(&parts, Span { start: 0, end: 0 });
            proof {
                lemma_cover_start(span, parts@, c0, self.cursor());
            }
            Ok(AstNode::Pipeline { span, parts })
        }
    }

    /// Parse one command: compound, function, subshell, group or simple.
    fn parse_command_unit(&mut self, end: &EndSet) -> (r: Result<AstNode, ParseError>)
        requires
            old(self).wf(),
        ensures
            Self::evolves(*old(self), *final(self)),
            r matches Ok(n) ==> node_in(n, final(self).input@.len() as int),
            r matches Ok(n) ==> node_read(n, final(self).input@),
            r matches Err(e) ==> error_in(e, final(self).input@),
            r matches Ok(n) ==> command_unit_node(n),
            r matches Ok(n) ==> old(self).cursor() <= span_of(node_view(n)).start < final(self).cursor(),
            old(self).lone_command_state(*end) ==> (r matches Ok(AstNode::Command { parts, .. })
                && parts@.len() == 1) && final(self).blank_state(),
        decreases old(self).input@.len(), old(self).input@.len() - old(self).cursor(), 5nat,
    {
        proof {
            self.lemma_cursor();
        }
        let ghost c0 = self.cursor();
        let ghost len = self.input@.len() as int;
        // Stop words and closers never start a unit.
        let t = self.peek(0)?;
        match t {
            Token::Word(w) => {
                if is_stop_word(end.stop_words, &w.cooked) {
                    let offset = w.span.start;
                    let found = Self::token_desc(&Token::Word(w));
                    return Err(ParseError::Unexpected { found, offset });
                }
            },
            Token::Op(OpKind::RParen, _) => {
                if end.stop_rparen {
                    let offset = self.peek_offset()?;
                    return Err(ParseError::Unexpected { found: "operator \")\"".to_owned(), offset });
                }
            },
            Token::Op(OpKind::RBrace, _) => {
                if end.stop_rbrace {
                    let offset = self.peek_offset()?;
                    return Err(ParseError::Unexpected { found: "operator \"}\"".to_owned(), offset });
                }
            },
            _ => {},
        }
        let t = self.peek(0)?;
        match t {
            Token::Word(w) => {
                if word_is(&w, "if") {
                    self.parse_if()
                } else if word_is(&w, "for") || word_is(&w, "select") {
                    self.parse_for()
                } else if word_is(&w, "while") {
                    self.parse_loop(KeywordKind::While, "while")
                } else if word_is(&w, "until") {
                    self.parse_loop(KeywordKind::Until, "until")
                } else if word_is(&w, "case") {
                    self.parse_case()
                } else if word_is(&w, "function") {
                    self.parse_function()
                } else if word_is(&w, "time") || word_is(&w, "coproc") {
                    self.parse_unimplemented_prefix()
                } else if self.peek_is_function_def()? {
                    self.parse_function()
                } else {
                    self.parse_simple_command()
                }
            },
            Token::Op(OpKind::LParen, _) => self.parse_subshell(),
            Token::Op(OpKind::LBrace, _) => self.parse_group(),
            other => {
                let found = Self::token_desc(&other);
                let offset = self.peek_offset()?;
                Err(ParseError::Unexpected { found, offset })
            },
        }
    }

    /// Parse a simple command: words, assignments and redirects.
    fn parse_simple_command(&mut self) -> (r: Result<AstNode, ParseError>)
        requires
            old(self).wf(),
        ensures
            Self::evolves(*old(self), *final(self)),
            r matches Ok(n) ==> node_in(n, final(self).input@.len() as int),
            r matches Ok(n) ==> node_read(n, final(self).input@),
            r matches Err(e) ==> error_in(e, final(self).input@),
            r matches Ok(n) ==> n is Command && command_unit_node(n),
            r matches Ok(n) ==> old(self).cursor() <= span_of(node_view(n)).start < final(self).cursor(),
            old(self).lone_word_state() ==> (r matches Ok(AstNode::Command { parts, .. }) && parts@.len() == 1)
                && final(self).blank_state(),
        decreases old(self).input@.len(), old(self).input@.len() - old(self).cursor(), 4nat,
    {
        proof {
            self.lemma_cursor();
        }
        let ghost c0 = self.cursor();
        let ghost len = self.input@.len() as int;
        let mut parts: Vec<AstNode> = Vec::new();
        let mut at_start = true;
        loop
            invariant
                old(self).lone_word_state() ==> (parts@.len() == 0 && *self == *old(self)) || (parts@.len() == 1
                    && self.blank_state()),
                Self::evolves(*old(self), *self),
                c0 == old(self).cursor(),
                len == self.input@.len(),
                nodes_in(parts@, len),
                nodes_read(parts@, self.input@),
                parts@.len() == 0 || simple_parts(parts@),
                at_start ==> forall|k: int| 0 <= k < parts@.len() ==> !(#[trigger] parts@[k] is Word),
                forall|k: int| 0 <= k < parts@.len() ==> span_of(node_view(#[trigger] parts@[k])).start
                    < self.cursor(),
                parts@.len() > 0 ==> c0 <= start_of(parts@[0]),
            ensures
                old(self).lone_word_state() ==> parts@.len() == 1 && self.blank_state(),
            decreases self.input@.len() - self.cursor(),
        {
            proof {
                self.lemma_cursor();
            }
            let ghost ci = self.cursor();
            let ghost was_start = at_start;
            let t = self.peek(0)?;
            proof {
                assert(token_fits(self.input@, self.buf@[0], self.lexer.at()));
            }
            match t {
                Token::Word(w) => {
                    if self.peek_is_redirect_input(&w)? {
                        let n = self.parse_redirect()?;
                        proof {
                            lemma_push_fits(parts@, n, len, self.input@);
                            lemma_simple_push(parts@, n, was_start);
                        }
                        parts.push(n);
                    } else {
                        let assign = at_start && is_assignment(&w, self.input);
                        let word = self.build_word(&w)?;
                        let n = if assign {
                            AstNode::Assignment(word)
                        } else {
                            at_start = false;
                            AstNode::Word(word)
                        };
                        proof {
                            reveal_with_fuel(crate::ast::node_view, 2);
                            lemma_push_fits(parts@, n, len, self.input@);
                            lemma_simple_push(parts@, n, was_start);
                        }
                        parts.push(n);
                        self.next()?;
                    }
                },
                Token::Op(kind, _) => {
                    if is_redirect_op(kind) {
                        let n = self.parse_redirect()?;
                        proof {
                            lemma_push_fits(parts@, n, len, self.input@);
                            lemma_simple_push(parts@, n, was_start);
                        }
                        parts.push(n);
                    } else {
                        break;
                    }
                },
                _ => break,
            }
        }
        if parts.len() == 0 {
            let t = self.peek(0)?;
            let found = Self::token_desc(&t);
            let offset = self.peek_offset()?;
            return Err(ParseError::Unexpected { found, offset });
        }
        let span = cover_or(&parts, Span { start: 0, end: 0 });
        proof {
            assert(starts_between(parts@, c0, self.cursor()));
            lemma_cover_start(span, parts@, c0, self.cursor());
        }
        Ok(AstNode::Command { span, parts })
    }

    /// Parse `if ...; then ...; [elif ...; then ...;] [else ...;] fi`.
    fn parse_if(&mut self) -> (r: Result<AstNode, ParseError>)
        requires
            old(self).wf(),
        ensures
            Self::evolves(*old(self), *final(self)),
            r matches Ok(n) ==> node_in(n, final(self).input@.len() as int),
            r matches Ok(n) ==> node_read(n, final(self).input@),
            r matches Err(e) ==> error_in(e, final(self).input@),
            r matches Ok(n) ==> (n matches AstNode::Keyword { kind, .. } && kind == KeywordKind::If),
            r matches Ok(n) ==> command_unit_node(n),
            r matches Ok(n) ==> old(self).cursor() <= span_of(node_view(n)).start < final(self).cursor(),
        decreases old(self).input@.len(), old(self).input@.len() - old(self).cursor(), 4nat,
    {
        proof {
            self.lemma_cursor();
        }
        let ghost c0 = self.cursor();
        let ghost len = self.input@.len() as int;
        let start = self.peek_offset()?;
        let mut parts: Vec<AstNode> = Vec::new();
        let kw = self.reserved("if")?;
        proof {
            lemma_push_fits(parts@, kw, len, self.input@);
            lemma_starts_push(parts@, kw, c0, self.cursor());
        }
        parts.push(kw);
        self.skip_newlines()?;
        let cond = self.parse_command_sequence(&EndSet::words(StopWords::Then))?;
        proof {
            lemma_push_fits(parts@, cond, len, self.input@);
            lemma_starts_push(parts@, cond, c0, self.cursor());
        }
        parts.push(cond);
        proof {
            assert(if_prefix(parts@));
        }
        loop
            invariant_except_break
                if_prefix(parts@),
            invariant
                Self::evolves(*old(self), *self),
                c0 == old(self).cursor(),
                len == self.input@.len(),
                nodes_in(parts@, len),
                nodes_read(parts@, self.input@),
                starts_between(parts@, c0, self.cursor()),
                self.cursor() > c0,
                start <= self.cursor(),
            ensures
                if_parts(parts@),
            decreases self.input@.len() - self.cursor(),
        {
            let ghost before = parts@;
            proof {
                self.lemma_cursor();
            }
            self.skip_newlines()?;
            let t = self.peek(0)?;
            match t {
                Token::Word(w) => {
                    if word_is(&w, "then") {
                        let kw = self.reserved("then")?;
                        proof {
                            lemma_push_fits(parts@, kw, len, self.input@);
                            lemma_starts_push(parts@, kw, c0, self.cursor());
                        }
                        parts.push(kw);
                        self.skip_newlines()?;
                        let body = self.parse_command_sequence(&EndSet::words(StopWords::ElifElseFi))?;
                        proof {
                            lemma_push_fits(parts@, body, len, self.input@);
                            lemma_starts_push(parts@, body, c0, self.cursor());
                            lemma_if_push(before, kw, body);
                        }
                        parts.push(body);
                    } else if word_is(&w, "elif") {
                        let kw = self.reserved("elif")?;
                        proof {
                            lemma_push_fits(parts@, kw, len, self.input@);
                            lemma_starts_push(parts@, kw, c0, self.cursor());
                        }
                        parts.push(kw);
                        self.skip_newlines()?;
                        let cond = self.parse_command_sequence(&EndSet::words(StopWords::Then))?;
                        proof {
                            lemma_push_fits(parts@, cond, len, self.input@);
                            lemma_starts_push(parts@, cond, c0, self.cursor());
                            lemma_if_push(before, kw, cond);
                        }
                        parts.push(cond);
                    } else if word_is(&w, "else") {
                        let kw = self.reserved("else")?;
                        proof {
                            lemma_push_fits(parts@, kw, len, self.input@);
                            lemma_starts_push(parts@, kw, c0, self.cursor());
                        }
                        parts.push(kw);
                        self.skip_newlines()?;
                        let body = self.parse_command_sequence(&EndSet::words(StopWords::Fi))?;
                        proof {
                            lemma_push_fits(parts@, body, len, self.input@);
                            lemma_starts_push(parts@, body, c0, self.cursor());
                            lemma_if_push(before, kw, body);
                        }
                        parts.push(body);
                    } else if word_is(&w, "fi") {
                        let kw = self.reserved("fi")?;
                        proof {
                            lemma_push_fits(parts@, kw, len, self.input@);
                            lemma_starts_push(parts@, kw, c0, self.cursor());
                            lemma_if_close(before, kw);
                        }
                        parts.push(kw);
                        break;
                    } else {
                        let found = Self::token_desc(&Token::Word(w));
                        let offset = self.peek_offset()?;
                        return Err(ParseError::Unexpected { found, offset });
                    }
                },
                other => {
                    let found = Self::token_desc(&other);
                    let offset = self.peek_offset()?;
                    return Err(ParseError::Unexpected { found, offset });
                },
            }
        }
        proof {
            self.lemma_cursor();
        }
        let end = self.lexer_offset();
        let ghost ps = parts@;
        let node = self.keyword(KeywordKind::If, start, end, parts);
        proof {
            lemma_cover_start(span_of(node_view(node)), ps, c0, self.cursor());
        }
        Ok(node)
    }

    /// Parse `for name [;] [in items ...] <terminator> do ... done`;
    /// `select` shares this shape.
    #[verifier::spinoff_prover]
    #[verifier::rlimit(40)]
    fn parse_for(&mut self) -> (r: Result<AstNode, ParseError>)
        requires
            old(self).wf(),
        ensures
            Self::evolves(*old(self), *final(self)),
            r matches Ok(n) ==> node_in(n, final(self).input@.len() as int),
            r matches Ok(n) ==> node_read(n, final(self).input@),
            r matches Err(e) ==> error_in(e, final(self).input@),
            r matches Ok(n) ==> ((n matches AstNode::Keyword { kind, .. } && kind == KeywordKind::For) || n is Unimplemented),
            r matches Ok(n) ==> command_unit_node(n),
            r matches Ok(n) ==> old(self).cursor() <= span_of(node_view(n)).start < final(self).cursor(),
        decreases old(self).input@.len(), old(self).input@.len() - old(self).cursor(), 4nat,
    {
        proof {
            self.lemma_cursor();
        }
        let ghost c0 = self.cursor();
        let ghost len = self.input@.len() as int;
        let start = self.peek_offset()?;
        let keyword = self.reserved_either("for", "select")?;
        self.skip_newlines()?;
        // Arithmetic for: `for ((...))` degrades to an unimplemented node.
        let t = self.peek(0)?;
        match t {
            Token::Op(OpKind::LParen, _) => {
                proof {
                    self.lemma_cursor();
                    lemma_span_in(node_view(keyword), 0, len);
                }
                return self.parse_unimplemented_balanced(&keyword, "arithmetic for");
            },
            _ => {},
        }
        let name = match self.next()? {
            Token::Word(w) => AstNode::Word(self.build_word(&w)?),
            other => {
                let found = Self::token_desc(&other);
                let offset = self.peek_offset()?;
                return Err(ParseError::Unexpected { found, offset });
            },
        };
        let mut parts: Vec<AstNode> = Vec::new();
        proof {
            reveal_with_fuel(crate::ast::node_view, 2);
            lemma_push_fits(parts@, keyword, len, self.input@);
            lemma_starts_push(parts@, keyword, c0, self.cursor());
        }
        parts.push(keyword);
        proof {
            lemma_push_fits(parts@, name, len, self.input@);
            lemma_starts_push(parts@, name, c0, self.cursor());
        }
        parts.push(name);
        // A `;` directly after the variable is a reserved word.
        let t = self.peek(0)?;
        match t {
            Token::Op(OpKind::Semi, span) => {
                self.next()?;
                let n = AstNode::ReservedWord { span, word: ";".to_owned() };
                proof {
                    lemma_push_fits(parts@, n, len, self.input@);
                    lemma_starts_push(parts@, n, c0, self.cursor());
                }
                parts.push(n);
            },
            _ => {},
        }
        let ghost p1 = parts@;
        self.skip_newlines()?;
        self.parse_for_items(&mut parts)?;
        let ghost p2 = parts@;
        self.skip_newlines()?;
        self.parse_for_body(&mut parts)?;
        proof {
            self.lemma_cursor();
            assert(p2.subrange(0, p1.len() as int) == p1);
            assert forall|i: int| 2 <= i < parts@.len() - 3 implies (#[trigger] parts@[i] is Word
                || reserved_is(parts@[i], ";"@) || reserved_is(parts@[i], "in"@)) by {
                assert(parts@[i] == parts@.subrange(0, p2.len() as int)[i]);
                assert(parts@[i] == p2[i]);
                if i < p1.len() {
                    assert(p2[i] == p2.subrange(0, p1.len() as int)[i]);
                } else {
                    assert(for_item(p2[i]));
                }
            }
            assert(parts@[0] == p1[0] && parts@[1] == p1[1]);
            assert(for_parts(parts@));
        }
        let end = self.lexer_offset();
        let ghost ps = parts@;
        let node = self.keyword(KeywordKind::For, start, end, parts);
        proof {
            lemma_cover_start(span_of(node_view(node)), ps, c0, self.cursor());
        }
        Ok(node)
    }

    /// Parse the optional `in` item list of a `for`; every word is an item,
    /// and a `;` terminator is a reserved word.
    fn parse_for_items(&mut self, parts: &mut Vec<AstNode>) -> (r: Result<(), ParseError>)
        requires
            old(self).wf(),
            nodes_in(old(parts)@, old(self).input@.len() as int),
            nodes_read(old(parts)@, old(self).input@),
            ordered_before(old(parts)@, old(self).cursor()),
        ensures
            Self::evolves(*old(self), *final(self)),
            nodes_in(final(parts)@, final(self).input@.len() as int),
            nodes_read(final(parts)@, final(self).input@),
            r is Ok ==> ordered_before(final(parts)@, final(self).cursor()),
            r matches Err(e) ==> error_in(e, final(self).input@),
            r is Ok ==> items_appended(old(parts)@, final(parts)@),
        decreases old(self).input@.len(), old(self).input@.len() - old(self).cursor(), 3nat,
    {
        proof {
            self.lemma_cursor();
        }
        let ghost c0 = self.cursor();
        let ghost len = self.input@.len() as int;
        let ghost p0 = parts@;
        proof {
            assert(p0.subrange(0, p0.len() as int) =~= p0);
        }
        let t = self.peek(0)?;
        let is_in = match &t {
            Token::Word(w) => word_is(w, "in"),
            _ => false,
        };
        if !is_in {
            return Ok(());
        }
        let kw = self.reserved("in")?;
        proof {
            lemma_push_fits(parts@, kw, len, self.input@);
                lemma_order_push(parts@, kw, self.cursor());
                lemma_items_push(p0, parts@, kw);
        }
        parts.push(kw);
        loop
            invariant
                Self::evolves(*old(self), *self),
                c0 == old(self).cursor(),
                len == self.input@.len(),
                nodes_in(parts@, len),
                nodes_read(parts@, self.input@),
                ordered_before(parts@, self.cursor()),
                items_appended(p0, parts@),
                p0 == old(parts)@,
            decreases self.input@.len() - self.cursor(),
        {
            proof {
                self.lemma_cursor();
            }
            let t = self.peek(0)?;
            proof {
                assert(token_fits(self.input@, self.buf@[0], self.lexer.at()));
            }
            match t {
                Token::Word(w) => {
                    let n = AstNode::Word(self.build_word(&w)?);
                    proof {
                        reveal_with_fuel(crate::ast::node_view, 2);
                        lemma_push_fits(parts@, n, len, self.input@);
                        lemma_items_push(p0, parts@, n);
                    }
                    self.next()?;
                    proof {
                        lemma_order_push(parts@, n, self.cursor());
                    }
                    parts.push(n);
                },
                Token::Op(OpKind::Semi, span) => {
                    self.next()?;
                    let n = AstNode::ReservedWord { span, word: ";".to_owned() };
                    proof {
                        lemma_push_fits(parts@, n, len, self.input@);
                        lemma_order_push(parts@, n, self.cursor());
                        lemma_items_push(p0, parts@, n);
                    }
                    parts.push(n);
                    return Ok(());
                },
                _ => {
                    return Ok(());
                },
            }
        }
    }

    /// Parse the `do ... done` or `{ ... }` body of a `for`.
    fn parse_for_body(&mut self, parts: &mut Vec<AstNode>) -> (r: Result<(), ParseError>)
        requires
            old(self).wf(),
            nodes_in(old(parts)@, old(self).input@.len() as int),
            nodes_read(old(parts)@, old(self).input@),
            ordered_before(old(parts)@, old(self).cursor()),
        ensures
            Self::evolves(*old(self), *final(self)),
            nodes_in(final(parts)@, final(self).input@.len() as int),
            nodes_read(final(parts)@, final(self).input@),
            r is Ok ==> ordered_before(final(parts)@, final(self).cursor()),
            r matches Err(e) ==> error_in(e, final(self).input@),
            r is Ok ==> final(parts)@.len() == old(parts)@.len() + 3 && final(parts)@.subrange(
                0,
                old(parts)@.len() as int,
            ) == old(parts)@ && for_body_tail(final(parts)@),
        decreases old(self).input@.len(), old(self).input@.len() - old(self).cursor(), 3nat,
    {
        let ghost len = self.input@.len() as int;
        let ghost p0 = parts@;
        let opener = self.reserved_either("do", "{")?;
        let brace = match &opener {
            AstNode::ReservedWord { word, .. } => str_eq(word.as_str(), "{"),
            _ => false,
        };
        proof {
            lemma_push_fits(parts@, opener, len, self.input@);
                lemma_order_push(parts@, opener, self.cursor());
        }
        parts.push(opener);
        self.skip_newlines()?;
        if brace {
            let body = self.parse_command_sequence(
                &EndSet { stop_rparen: false, stop_rbrace: true, stop_words: StopWords::NoWords },
            )?;
            proof {
                lemma_push_fits(parts@, body, len, self.input@);
                lemma_order_push(parts@, body, self.cursor());
            }
            parts.push(body);
            self.skip_newlines()?;
            let close = self.reserved("}")?;
            proof {
                lemma_push_fits(parts@, close, len, self.input@);
                lemma_order_push(parts@, close, self.cursor());
            }
            parts.push(close);
            proof {
                assert(parts@.subrange(0, p0.len() as int) =~= p0);
            }
        } else {
            let body = self.parse_command_sequence(&EndSet::words(StopWords::Done))?;
            proof {
                lemma_push_fits(parts@, body, len, self.input@);
                lemma_order_push(parts@, body, self.cursor());
            }
            parts.push(body);
            self.skip_newlines()?;
            let close = self.reserved("done")?;
            proof {
                lemma_push_fits(parts@, close, len, self.input@);
                lemma_order_push(parts@, close, self.cursor());
            }
            parts.push(close);
            proof {
                assert(parts@.subrange(0, p0.len() as int) =~= p0);
            }
        }
        Ok(())
    }

    /// Parse `while ...; do ...; done` / `until ...`.
    fn parse_loop(&mut self, kind: KeywordKind, word: &str) -> (r: Result<AstNode, ParseError>)
        requires
            old(self).wf(),
            (kind == KeywordKind::While && word@ == "while"@) || (kind == KeywordKind::Until
                && word@ == "until"@),
        ensures
            Self::evolves(*old(self), *final(self)),
            r matches Ok(n) ==> node_in(n, final(self).input@.len() as int),
            r matches Ok(n) ==> node_read(n, final(self).input@),
            r matches Err(e) ==> error_in(e, final(self).input@),
            r matches Ok(n) ==> (n matches AstNode::Keyword { kind: k, .. } && k == kind),
            r matches Ok(n) ==> command_unit_node(n),
            r matches Ok(n) ==> old(self).cursor() <= span_of(node_view(n)).start < final(self).cursor(),
        decreases old(self).input@.len(), old(self).input@.len() - old(self).cursor(), 4nat,
    {
        proof {
            self.lemma_cursor();
        }
        let ghost c0 = self.cursor();
        let ghost len = self.input@.len() as int;
        let start = self.peek_offset()?;
        let mut parts: Vec<AstNode> = Vec::new();
        let kw = self.reserved(word)?;
        proof {
            lemma_push_fits(parts@, kw, len, self.input@);
            lemma_starts_push(parts@, kw, c0, self.cursor());
        }
        parts.push(kw);
        self.skip_newlines()?;
        let cond = self.parse_command_sequence(&EndSet::words(StopWords::Do))?;
        proof {
            lemma_push_fits(parts@, cond, len, self.input@);
            lemma_starts_push(parts@, cond, c0, self.cursor());
        }
        parts.push(cond);
        self.skip_newlines()?;
        let d = self.reserved("do")?;
        proof {
            lemma_push_fits(parts@, d, len, self.input@);
            lemma_starts_push(parts@, d, c0, self.cursor());
        }
        parts.push(d);
        self.skip_newlines()?;
        let body = self.parse_command_sequence(&EndSet::words(StopWords::Done))?;
        proof {
            lemma_push_fits(parts@, body, len, self.input@);
            lemma_starts_push(parts@, body, c0, self.cursor());
        }
        parts.push(body);
        self.skip_newlines()?;
        let dn = self.reserved("done")?;
        proof {
            lemma_push_fits(parts@, dn, len, self.input@);
            lemma_starts_push(parts@, dn, c0, self.cursor());
        }
        parts.push(dn);
        proof {
            self.lemma_cursor();
            assert(loop_parts(parts@, word@));
        }
        let end = self.lexer_offset();
        Ok(self.keyword(kind, start, end, parts))
    }

    /// Parse `case word in [(]pattern) body ;; ... esac`.
    fn parse_case(&mut self) -> (r: Result<AstNode, ParseError>)
        requires
            old(self).wf(),
        ensures
            Self::evolves(*old(self), *final(self)),
            r matches Ok(n) ==> node_in(n, final(self).input@.len() as int),
            r matches Ok(n) ==> node_read(n, final(self).input@),
            r matches Err(e) ==> error_in(e, final(self).input@),
            r matches Ok(n) ==> (n matches AstNode::Keyword { kind, .. } && kind == KeywordKind::Case),
            r matches Ok(n) ==> command_unit_node(n),
            r matches Ok(n) ==> old(self).cursor() <= span_of(node_view(n)).start < final(self).cursor(),
        decreases old(self).input@.len(), old(self).input@.len() - old(self).cursor(), 4nat,
    {
        proof {
            self.lemma_cursor();
        }
        let ghost c0 = self.cursor();
        let ghost len = self.input@.len() as int;
        let start = self.peek_offset()?;
        let mut parts: Vec<AstNode> = Vec::new();
        let kw = self.reserved("case")?;
        proof {
            lemma_push_fits(parts@, kw, len, self.input@);
            lemma_starts_push(parts@, kw, c0, self.cursor());
        }
        parts.push(kw);
        self.skip_newlines()?;
        let subject = self.expect_word()?;
        let sw = AstNode::Word(self.build_word(&subject)?);
        proof {
            reveal_with_fuel(crate::ast::node_view, 2);
            lemma_push_fits(parts@, sw, len, self.input@);
            lemma_starts_push(parts@, sw, c0, self.cursor());
        }
        parts.push(sw);
        self.skip_newlines()?;
        let kin = self.reserved("in")?;
        proof {
            lemma_push_fits(parts@, kin, len, self.input@);
            lemma_starts_push(parts@, kin, c0, self.cursor());
        }
        parts.push(kin);
        proof {
            assert(case_prefix(parts@));
        }
        loop
            invariant_except_break
                case_prefix(parts@),
            invariant
                Self::evolves(*old(self), *self),
                c0 == old(self).cursor(),
                len == self.input@.len(),
                nodes_in(parts@, len),
                nodes_read(parts@, self.input@),
                starts_between(parts@, c0, self.cursor()),
                self.cursor() > c0,
                start <= self.cursor(),
            ensures
                case_parts(parts@),
            decreases self.input@.len() - self.cursor(),
        {
            proof {
                self.lemma_cursor();
            }
            let ghost before = parts@;
            self.skip_newlines()?;
            let t = self.peek(0)?;
            match t {
                Token::Word(w) => {
                    if word_is(&w, "esac") {
                        let kw = self.reserved("esac")?;
                        proof {
                            lemma_push_fits(parts@, kw, len, self.input@);
                            lemma_starts_push(parts@, kw, c0, self.cursor());
                            lemma_case_close(before, kw);
                        }
                        parts.push(kw);
                        break;
                    }
                    let c = self.parse_case_clause()?;
                    proof {
                        lemma_push_fits(parts@, c, len, self.input@);
                        lemma_starts_push(parts@, c, c0, self.cursor());
                        lemma_case_push(before, c);
                    }
                    parts.push(c);
                },
                Token::Eof => {
                    return Err(ParseError::UnexpectedEof);
                },
                _ => {
                    let c = self.parse_case_clause()?;
                    proof {
                        lemma_push_fits(parts@, c, len, self.input@);
                        lemma_starts_push(parts@, c, c0, self.cursor());
                        lemma_case_push(before, c);
                    }
                    parts.push(c);
                },
            }
        }
        proof {
            self.lemma_cursor();
        }
        let end = self.lexer_offset();
        let ghost ps = parts@;
        let node = self.keyword(KeywordKind::Case, start, end, parts);
        proof {
            lemma_cover_start(span_of(node_view(node)), ps, c0, self.cursor());
        }
        Ok(node)
    }

    /// True when the lookahead ends a case clause body.
    fn at_clause_end(&mut self) -> (r: Result<bool, ParseError>)
        requires
            old(self).wf(),
        ensures
            Self::evolves(*old(self), *final(self)),
            r matches Ok(b) ==> final(self).buf@.len() > 0 && b == clause_end_token(final(self).buf@[0]),
            r matches Err(e) ==> error_in(e, final(self).input@),
    {
        let t = self.peek(0)?;
        Ok(match t {
            Token::Op(OpKind::SemiSemi, _) => true,
            Token::Op(OpKind::SemiAnd, _) => true,
            Token::Op(OpKind::SemiSemiAnd, _) => true,
            Token::Word(w) => word_is(&w, "esac"),
            _ => false,
        })
    }

    /// Parse one `[(]pattern) body [;; | ;& | ;;&]` clause.
    fn parse_case_clause(&mut self) -> (r: Result<AstNode, ParseError>)
        requires
            old(self).wf(),
        ensures
            Self::evolves(*old(self), *final(self)),
            r matches Ok(n) ==> node_in(n, final(self).input@.len() as int),
            r matches Ok(n) ==> node_read(n, final(self).input@),
            r matches Err(e) ==> error_in(e, final(self).input@),
            r is Ok ==> final(self).cursor() > old(self).cursor(),
            r matches Ok(n) ==> n is Compound,
            r matches Ok(n) ==> case_clause_node(n),
            r matches Ok(n) ==> old(self).cursor() <= span_of(node_view(n)).start < final(self).cursor(),
        decreases old(self).input@.len(), old(self).input@.len() - old(self).cursor(), 3nat,
    {
        proof {
            self.lemma_cursor();
        }
        let ghost c0 = self.cursor();
        let ghost len = self.input@.len() as int;
        let start = self.peek_offset()?;
        let mut inner: Vec<AstNode> = Vec::new();
        let t = self.peek(0)?;
        match t {
            Token::Op(OpKind::LParen, span) => {
                self.next()?;
                let n = AstNode::ReservedWord { span, word: "(".to_owned() };
                proof {
                    lemma_push_fits(inner@, n, len, self.input@);
                    lemma_clause_push(inner@, n);
                }
                inner.push(n);
            },
            _ => {},
        }
        // Pattern alternatives: words joined by `|` reserved words.
        let mut pats: Vec<AstNode> = Vec::new();
        loop
            invariant
                Self::evolves(*old(self), *self),
                c0 == old(self).cursor(),
                len == self.input@.len(),
                nodes_in(inner@, len),
                nodes_read(inner@, self.input@),
                nodes_in(pats@, len),
                nodes_read(pats@, self.input@),
                clause_elems(inner@),
                all_word_nodes(pats@),
                start <= self.cursor(),
            decreases self.input@.len() - self.cursor(),
        {
            proof {
                self.lemma_cursor();
            }
            let tok = self.peek(0)?;
            proof {
                assert(token_fits(self.input@, self.buf@[0], self.lexer.at()));
            }
            match tok {
                Token::Word(w) => {
                    let node = AstNode::Word(self.build_word(&w)?);
                    proof {
                        reveal_with_fuel(crate::ast::node_view, 2);
                        lemma_push_fits(pats@, node, len, self.input@);
                        lemma_words_node_push(pats@, node);
                    }
                    self.next()?;
                    pats.push(node);
                },
                Token::Op(OpKind::Pipe, span) => {
                    self.next()?;
                    let n = AstNode::ReservedWord { span, word: "|".to_owned() };
                    proof {
                        lemma_push_fits(inner@, n, len, self.input@);
                        lemma_clause_push(inner@, n);
                    }
                    inner.push(n);
                },
                _ => break,
            }
            let t = self.peek(0)?;
            match t {
                Token::Op(OpKind::Pipe, _) => {},
                _ => break,
            }
        }
        if pats.len() == 0 {
            let t = self.peek(0)?;
            let found = Self::token_desc(&t);
            let offset = self.peek_offset()?;
            return Err(ParseError::Unexpected { found, offset });
        }
        proof {
            self.lemma_cursor();
        }
        let pat_span = cover_or(&pats, Span { start, end: start });
        let pn = AstNode::Keyword { kind: KeywordKind::Pattern, span: pat_span, parts: pats };
        let ghost pidx = inner@.len() as int;
        proof {
            lemma_push_fits(inner@, pn, len, self.input@);
            assert(pattern_node(pn));
            lemma_clause_push(inner@, pn);
        }
        inner.push(pn);
        proof {
            assert(inner@[pidx] is Keyword);
        }
        let t = self.peek(0)?;
        match t {
            Token::Op(OpKind::RParen, span) => {
                proof {
                    self.lemma_cursor();
                }
                self.next()?;
                let n = AstNode::ReservedWord { span, word: ")".to_owned() };
                proof {
                    lemma_push_fits(inner@, n, len, self.input@);
                    lemma_clause_push(inner@, n);
                    assert(inner@.push(n)[pidx] is Keyword);
                }
                inner.push(n);
            },
            other => {
                let found = Self::token_desc(&other);
                let offset = self.peek_offset()?;
                return Err(ParseError::Unexpected { found, offset });
            },
        }
        let ghost c_paren = self.cursor();
        // Body up to the terminator or `esac`.
        if !self.at_clause_end()? {
            self.skip_newlines()?;
            if !self.at_clause_end()? {
                let body = self.parse_command_sequence(&EndSet::top())?;
                proof {
                    lemma_push_fits(inner@, body, len, self.input@);
                    lemma_clause_push(inner@, body);
                    assert(inner@.push(body)[pidx] is Keyword);
                }
                inner.push(body);
            }
        }
        let t = self.peek(0)?;
        match t {
            Token::Op(k, span) => {
                match k {
                    OpKind::SemiSemi | OpKind::SemiAnd | OpKind::SemiSemiAnd => {
                        proof {
                            self.lemma_cursor();
                            assert(token_fits(self.input@, self.buf@[0], self.lexer.at()));
                        }
                        let text = self.op_text(&span);
                        self.next()?;
                        let n = AstNode::ReservedWord { span, word: text };
                        proof {
                            lemma_push_fits(inner@, n, len, self.input@);
                            lemma_clause_push(inner@, n);
                            assert(inner@.push(n)[pidx] is Keyword);
                        }
                        inner.push(n);
                    },
                    _ => {
                        let found = Self::token_desc(&Token::Op(k, span));
                        let offset = self.peek_offset()?;
                        return Err(ParseError::Unexpected { found, offset });
                    },
                }
            },
            _ => {},
        }
        proof {
            self.lemma_cursor();
        }
        let end = self.lexer_offset();
        let redirects: Vec<AstNode> = Vec::new();
        proof {
            assert(start <= end);
            assert(end <= len);
            assert(nodes_view(redirects@) =~= Seq::<AstView>::empty());
            assert(nodes_in(inner@, len));
            assert(nodes_in(redirects@, len));
            assert(nodes_read(inner@, self.input@));
            assert(nodes_read(redirects@, self.input@));
            assert(inner@[pidx] is Keyword);
            assert(clause_list(inner@));
        }
        Ok(AstNode::Compound { span: Span { start, end }, list: inner, redirects })
    }

    /// Parse `name() body`, `function name body`, `function name() body`.
    #[verifier::spinoff_prover]
    #[verifier::rlimit(40)]
    fn parse_function(&mut self) -> (r: Result<AstNode, ParseError>)
        requires
            old(self).wf(),
        ensures
            Self::evolves(*old(self), *final(self)),
            r matches Ok(n) ==> node_in(n, final(self).input@.len() as int),
            r matches Ok(n) ==> node_read(n, final(self).input@),
            r matches Err(e) ==> error_in(e, final(self).input@),
            r matches Ok(n) ==> n is Function,
            r matches Ok(n) ==> command_unit_node(n),
            r matches Ok(AstNode::Function { body, name, .. }) ==> *body is Compound
                && old(self).cursor() <= name.span.start,
            r matches Ok(n) ==> old(self).cursor() <= span_of(node_view(n)).start < final(self).cursor(),
        decreases old(self).input@.len(), old(self).input@.len() - old(self).cursor(), 4nat,
    {
        proof {
            self.lemma_cursor();
        }
        let ghost c0 = self.cursor();
        let ghost len = self.input@.len() as int;
        let start = self.peek_offset()?;
        let mut parts: Vec<AstNode> = Vec::new();
        let t = self.peek(0)?;
        match t {
            Token::Word(w) => {
                if word_is(&w, "function") {
                    let kw = self.reserved("function")?;
                    proof {
                        lemma_push_fits(parts@, kw, len, self.input@);
                    }
                    parts.push(kw);
                }
            },
            _ => {},
        }
        let name = match self.next()? {
            Token::Word(w) => {
                let node = self.build_word(&w)?;
                proof {
                    assert(read_pred(self.input@)(node@));
                }
                let copy = AstNode::Word(node.clone());
                proof {
                    reveal_with_fuel(crate::ast::node_view, 2);
                    lemma_push_fits(parts@, copy, len, self.input@);
                }
                parts.push(copy);
                node
            },
            other => {
                let found = Self::token_desc(&other);
                let offset = self.peek_offset()?;
                return Err(ParseError::Unexpected { found, offset });
            },
        };
        let t = self.peek(0)?;
        match t {
            Token::Op(OpKind::LParen, span) => {
                self.next()?;
                let n = AstNode::ReservedWord { span, word: "(".to_owned() };
                proof {
                    lemma_push_fits(parts@, n, len, self.input@);
                }
                parts.push(n);
                let t2 = self.peek(0)?;
                match t2 {
                    Token::Op(OpKind::RParen, span2) => {
                        self.next()?;
                        let n2 = AstNode::ReservedWord { span: span2, word: ")".to_owned() };
                        proof {
                            lemma_push_fits(parts@, n2, len, self.input@);
                        }
                        parts.push(n2);
                    },
                    other => {
                        let found = Self::token_desc(&other);
                        let offset = self.peek_offset()?;
                        return Err(ParseError::Unexpected { found, offset });
                    },
                }
            },
            _ => {},
        }
        self.skip_newlines()?;
        let body = self.parse_command_unit(&EndSet::top())?;
        let is_compound = match &body {
            AstNode::Compound { .. } => true,
            _ => false,
        };
        if !is_compound {
            let mut found = body.kind().to_owned();
            push_str(&mut found, " (function body must be a compound command)");
            let offset = self.peek_offset()?;
            return Err(ParseError::Unexpected { found, offset });
        }
        // Trailing redirects attach to the body copy in `parts`.
        let mut redirects = self.parse_trailing_redirects()?;
        let body_copy = match body.clone() {
            AstNode::Compound { span, list, redirects: mut own } => {
                proof {
                    reveal_with_fuel(crate::ast::node_view, 2);
                    crate::ast::lemma_nodes_view_concat(own@, redirects@);
                    crate::ast::lemma_all_spans_seq_concat(nodes_view(own@), nodes_view(redirects@), within_pred(0, len));
                    crate::ast::lemma_words_seq_concat(nodes_view(own@), nodes_view(redirects@), read_pred(self.input@));
                }
                own.append(&mut redirects);
                AstNode::Compound { span, list, redirects: own }
            },
            other => other,
        };
        proof {
            reveal_with_fuel(crate::ast::node_view, 2);
            lemma_push_fits(parts@, body_copy, len, self.input@);
        }
        parts.push(body_copy);
        proof {
            self.lemma_cursor();
        }
        let end = self.lexer_offset();
        Ok(AstNode::Function { span: Span { start, end }, name, body: Box::new(body), parts })
    }

    /// Parse `( ... )` with optional trailing redirects.
    fn parse_subshell(&mut self) -> (r: Result<AstNode, ParseError>)
        requires
            old(self).wf(),
            old(self).buf@.len() > 0,
            old(self).buf@[0] matches Token::Op(k, _) && k == OpKind::LParen,
        ensures
            Self::evolves(*old(self), *final(self)),
            r matches Ok(n) ==> node_in(n, final(self).input@.len() as int),
            r matches Ok(n) ==> node_read(n, final(self).input@),
            r matches Err(e) ==> error_in(e, final(self).input@),
            r matches Ok(n) ==> n is Compound,
            r matches Ok(n) ==> command_unit_node(n),
            r matches Ok(n) ==> old(self).cursor() <= span_of(node_view(n)).start < final(self).cursor(),
        decreases old(self).input@.len(), old(self).input@.len() - old(self).cursor(), 4nat,
    {
        proof {
            self.lemma_cursor();
        }
        let ghost c0 = self.cursor();
        let ghost len = self.input@.len() as int;
        let start = self.peek_offset()?;
        let t = self.peek(0)?;
        let lspan = match t.span() {
            Some(sp) => sp,
            None => Span { start, end: start },
        };
        proof {
            self.lemma_cursor();
            assert(token_fits(self.input@, self.buf@[0], self.lexer.at()));
        }
        let opener = self.next()?;
        proof {
            assert(token_fits(self.input@, opener, self.lexer.at()));
        }
        let mut list: Vec<AstNode> = Vec::new();
        let open = AstNode::ReservedWord { span: lspan, word: "(".to_owned() };
        proof {
            lemma_push_fits(list@, open, len, self.input@);
        }
        list.push(open);
        self.skip_newlines()?;
        let body = self.parse_command_sequence(
            &EndSet { stop_rparen: true, stop_rbrace: false, stop_words: StopWords::NoWords },
        )?;
        proof {
            lemma_push_fits(list@, body, len, self.input@);
        }
        list.push(body);
        self.skip_newlines()?;
        let t = self.peek(0)?;
        match t {
            Token::Op(OpKind::RParen, span) => {
                proof {
                    self.lemma_cursor();
                }
                self.next()?;
                let n = AstNode::ReservedWord { span, word: ")".to_owned() };
                proof {
                    lemma_push_fits(list@, n, len, self.input@);
                }
                list.push(n);
            },
            other => {
                let found = Self::token_desc(&other);
                let offset = self.peek_offset()?;
                return Err(ParseError::Unexpected { found, offset });
            },
        }
        let redirects = self.parse_trailing_redirects()?;
        proof {
            self.lemma_cursor();
            assert(compound_list(list@));
        }
        let end = self.lexer_offset();
        Ok(AstNode::Compound { span: Span { start, end }, list, redirects })
    }

    /// Parse `{ ...; }` with optional trailing redirects.
    fn parse_group(&mut self) -> (r: Result<AstNode, ParseError>)
        requires
            old(self).wf(),
            old(self).buf@.len() > 0,
            old(self).buf@[0] matches Token::Op(k, _) && k == OpKind::LBrace,
        ensures
            Self::evolves(*old(self), *final(self)),
            r matches Ok(n) ==> node_in(n, final(self).input@.len() as int),
            r matches Ok(n) ==> node_read(n, final(self).input@),
            r matches Err(e) ==> error_in(e, final(self).input@),
            r matches Ok(n) ==> n is Compound,
            r matches Ok(n) ==> command_unit_node(n),
            r matches Ok(n) ==> old(self).cursor() <= span_of(node_view(n)).start < final(self).cursor(),
        decreases old(self).input@.len(), old(self).input@.len() - old(self).cursor(), 4nat,
    {
        proof {
            self.lemma_cursor();
        }
        let ghost c0 = self.cursor();
        let ghost len = self.input@.len() as int;
        let start = self.peek_offset()?;
        let t = self.peek(0)?;
        let lspan = match t.span() {
            Some(sp) => sp,
            None => Span { start, end: start },
        };
        proof {
            self.lemma_cursor();
            assert(token_fits(self.input@, self.buf@[0], self.lexer.at()));
        }
        let opener = self.next()?;
        proof {
            assert(token_fits(self.input@, opener, self.lexer.at()));
        }
        let mut list: Vec<AstNode> = Vec::new();
        let open = AstNode::ReservedWord { span: lspan, word: "{".to_owned() };
        proof {
            lemma_push_fits(list@, open, len, self.input@);
        }
        list.push(open);
        self.skip_newlines()?;
        let body = self.parse_command_sequence(
            &EndSet { stop_rparen: false, stop_rbrace: true, stop_words: StopWords::NoWords },
        )?;
        proof {
            lemma_push_fits(list@, body, len, self.input@);
        }
        list.push(body);
        self.skip_newlines()?;
        let t = self.peek(0)?;
        match t {
            Token::Op(OpKind::RBrace, span) => {
                proof {
                    self.lemma_cursor();
                }
                self.next()?;
                let n = AstNode::ReservedWord { span, word: "}".to_owned() };
                proof {
                    lemma_push_fits(list@, n, len, self.input@);
                }
                list.push(n);
            },
            other => {
                let found = Self::token_desc(&other);
                let offset = self.peek_offset()?;
                return Err(ParseError::Unexpected { found, offset });
            },
        }
        let redirects = self.parse_trailing_redirects()?;
        proof {
            self.lemma_cursor();
            assert(compound_list(list@));
        }
        let end = self.lexer_offset();
        Ok(AstNode::Compound { span: Span { start, end }, list, redirects })
    }

    /// Parse redirects following a compound command or function body.
    fn parse_trailing_redirects(&mut self) -> (r: Result<Vec<AstNode>, ParseError>)
        requires
            old(self).wf(),
        ensures
            Self::evolves(*old(self), *final(self)),
            r matches Ok(v) ==> nodes_in(v@, final(self).input@.len() as int),
            r matches Ok(v) ==> nodes_read(v@, final(self).input@),
            r matches Ok(v) ==> all_redirects(v@),
            r is Ok ==> final(self).buf@.len() > 0 && !redirect_ahead(final(self).buf@),
            r matches Err(e) ==> error_in(e, final(self).input@),
        decreases old(self).input@.len(), old(self).input@.len() - old(self).cursor(), 3nat,
    {
        proof {
            self.lemma_cursor();
        }
        let ghost c0 = self.cursor();
        let ghost len = self.input@.len() as int;
        let mut redirects: Vec<AstNode> = Vec::new();
        loop
            invariant
                Self::evolves(*old(self), *self),
                c0 == old(self).cursor(),
                len == self.input@.len(),
                nodes_in(redirects@, len),
                nodes_read(redirects@, self.input@),
                all_redirects(redirects@),
            ensures
                Self::evolves(*old(self), *self),
                nodes_in(redirects@, len),
                nodes_read(redirects@, self.input@),
                all_redirects(redirects@),
                self.buf@.len() > 0 && !redirect_ahead(self.buf@),
            decreases self.input@.len() - self.cursor(),
        {
            proof {
                self.lemma_cursor();
            }
            let tok = self.peek(0)?;
            let is_redir = match &tok {
                Token::Op(kind, _) => is_redirect_op(*kind),
                Token::Word(w) => self.peek_is_redirect_input(w)?,
                _ => false,
            };
            if !is_redir {
                break;
            }
            let n = self.parse_redirect()?;
            proof {
                lemma_push_fits(redirects@, n, len, self.input@);
                assert forall|i: int| 0 <= i < redirects@.push(n).len() implies redirect_node(#[trigger] redirects@.push(
                    n,
                )[i]) by {
                    if i < redirects@.len() {
                        assert(redirects@.push(n)[i] == redirects@[i]);
                    }
                }
            }
            redirects.push(n);
        }
        Ok(redirects)
    }

    /// Parse `time` / `coproc` by wrapping the following pipeline in an
    /// Unimplemented node.
    fn parse_unimplemented_prefix(&mut self) -> (r: Result<AstNode, ParseError>)
        requires
            old(self).wf(),
        ensures
            Self::evolves(*old(self), *final(self)),
            r matches Ok(n) ==> node_in(n, final(self).input@.len() as int),
            r matches Ok(n) ==> node_read(n, final(self).input@),
            r matches Err(e) ==> error_in(e, final(self).input@),
            r matches Ok(n) ==> n is Unimplemented,
            r matches Ok(n) ==> command_unit_node(n),
            r matches Ok(n) ==> old(self).cursor() <= span_of(node_view(n)).start < final(self).cursor(),
        decreases old(self).input@.len(), old(self).input@.len() - old(self).cursor(), 4nat,
    {
        proof {
            self.lemma_cursor();
        }
        let ghost c0 = self.cursor();
        let ghost len = self.input@.len() as int;
        let start = self.peek_offset()?;
        let word = match self.next()? {
            Token::Word(w) => w,
            other => {
                let found = Self::token_desc(&other);
                let offset = self.peek_offset()?;
                return Err(ParseError::Unexpected { found, offset });
            },
        };
        let mut parts: Vec<AstNode> = Vec::new();
        let rw = AstNode::ReservedWord { span: word.span, word: word.cooked.clone() };
        proof {
            lemma_push_fits(parts@, rw, len, self.input@);
        }
        parts.push(rw);
        if self.at_command_start()? {
            let p = self.parse_pipeline(&EndSet::top())?;
            proof {
                lemma_push_fits(parts@, p, len, self.input@);
            }
            parts.push(p);
        }
        proof {
            self.lemma_cursor();
        }
        let end = self.lexer_offset();
        Ok(AstNode::Unimplemented { span: Span { start, end }, parts })
    }

    /// Gather a balanced `(...)` region into an Unimplemented node
    /// (arithmetic for).
    fn parse_unimplemented_balanced(&mut self, keyword: &AstNode, what: &str) -> (r: Result<
        AstNode,
        ParseError,
    >)
        requires
            old(self).wf(),
            node_in(*keyword, old(self).input@.len() as int),
            node_read(*keyword, old(self).input@),
            span_of(node_view(*keyword)).end <= old(self).cursor(),
            span_of(node_view(*keyword)).start < span_of(node_view(*keyword)).end,
            old(self).buf@.len() > 0,
            old(self).buf@[0] matches Token::Op(k, _) && k == OpKind::LParen,
        ensures
            Self::evolves(*old(self), *final(self)),
            r matches Ok(n) ==> node_in(n, final(self).input@.len() as int),
            r matches Ok(n) ==> node_read(n, final(self).input@),
            r matches Err(e) ==> error_in(e, final(self).input@),
            r matches Ok(n) ==> n is Unimplemented,
            r matches Ok(n) ==> command_unit_node(n),
            r matches Ok(n) ==> span_of(node_view(n)).start == span_of(node_view(*keyword)).start,
        decreases old(self).input@.len(), old(self).input@.len() - old(self).cursor(), 3nat,
    {
        proof {
            self.lemma_cursor();
        }
        let ghost c0 = self.cursor();
        let ghost len = self.input@.len() as int;
        let start = keyword.span().start;
        proof {
            lemma_span_in(node_view(*keyword), 0, len);
        }
        let mut parts: Vec<AstNode> = Vec::new();
        let kc = keyword.clone();
        proof {
            lemma_push_fits(parts@, kc, len, self.input@);
        }
        parts.push(kc);
        let mut depth: usize = 0;
        loop
            invariant_except_break
                depth == 0 ==> (self.buf@.len() > 0 && (self.buf@[0] matches Token::Op(k, _)
                    && k == OpKind::LParen)),
            invariant
                Self::evolves(*old(self), *self),
                c0 == old(self).cursor(),
                len == self.input@.len(),
                nodes_in(parts@, len),
                nodes_read(parts@, self.input@),
                start <= c0,
                depth <= self.cursor() - c0,
            decreases self.input@.len() - self.cursor(),
        {
            proof {
                self.lemma_cursor();
            }
            let ghost ci = self.cursor();
            let t = self.next()?;
            proof {
                self.lemma_cursor();
                if !(t is Eof) {
                    assert(token_fits(self.input@, t, self.lexer.at()));
                }
            }
            match t {
                Token::Op(OpKind::LParen, span) => {
                    depth = depth + 1;
                    let n = AstNode::ReservedWord { span, word: "(".to_owned() };
                    proof {
                        lemma_push_fits(parts@, n, len, self.input@);
                    }
                    parts.push(n);
                },
                Token::Op(OpKind::RParen, span) => {
                    let n = AstNode::ReservedWord { span, word: ")".to_owned() };
                    proof {
                        lemma_push_fits(parts@, n, len, self.input@);
                    }
                    parts.push(n);
                    depth = depth - 1;
                    if depth == 0 {
                        break;
                    }
                },
                Token::Eof => {
                    return Err(ParseError::Unimplemented { what: what.to_owned(), offset: start });
                },
                Token::Word(w) => {
                    let n = AstNode::Word(self.build_word(&w)?);
                    proof {
                        reveal_with_fuel(crate::ast::node_view, 2);
                        lemma_push_fits(parts@, n, len, self.input@);
                    }
                    parts.push(n);
                },
                Token::Newline(_) => {},
                Token::Op(kind, span) => {
                    let n = AstNode::ReservedWord { span, word: kind.text().to_owned() };
                    proof {
                        lemma_push_fits(parts@, n, len, self.input@);
                    }
                    parts.push(n);
                },
            }
        }
        proof {
            self.lemma_cursor();
        }
        let end = self.lexer_offset();
        Ok(AstNode::Unimplemented { span: Span { start, end }, parts })
    }
}

/// Parse a single top-level command, ignoring anything after the first
/// terminator (bashlex `parsesingle` semantics).
pub fn parsesingle(input: &str, strict: bool, expansion_limit: Option<i32>) -> (r: Result<
    AstNode,
    ParseError,
>)
    ensures
        r matches Ok(n) ==> node_in(n, input.spec_bytes().len() as int) && sequence_node(n),
        r matches Ok(n) ==> node_read(n, input.spec_bytes()),
        r matches Err(e) ==> e is EmptyInput || error_in(e, input.spec_bytes()),
        blank_from(input.spec_bytes(), 0) ==> r matches Err(ParseError::EmptyInput),
        r matches Err(ParseError::EmptyInput) ==> blank_from(input.spec_bytes(), 0) || subst_opener(
            input.spec_bytes(),
        ),
        lone_word_input(input.spec_bytes(), 0 < limit_value(expansion_limit)) ==> (r matches Ok(
            AstNode::Command { parts, .. },
        ) && parts@.len() == 1),
{
    let mut p = Parser::new(input, strict, expansion_limit, 0);
    proof {
        assert(p.lexer.at() == 0);
    }
    p.skip_newlines()?;
    let t = p.peek(0)?;
    if t.is_eof() {
        proof {
            p.lemma_eof_blank();
        }
        return Err(ParseError::EmptyInput);
    }
    p.parse_command_sequence(&EndSet::top())
}

/// Parse the whole input into top-level nodes (bashlex `parse`).
pub fn parse(input: &str, strict: bool, expansion_limit: Option<i32>) -> (r: Result<
    Vec<AstNode>,
    ParseError,
>)
    ensures
        r matches Ok(v) ==> parse_shaped(v@, input.spec_bytes()),
        r matches Err(e) ==> error_in(e, input.spec_bytes()),
        blank_from(input.spec_bytes(), 0) ==> (r matches Ok(v) && v@.len() == 0),
        r matches Ok(v) && v@.len() == 0 ==> blank_from(input.spec_bytes(), 0),
{
    let mut p = Parser::new(input, strict, expansion_limit, 0);
    let ghost len = input.spec_bytes().len() as int;
    let mut parts: Vec<AstNode> = Vec::new();
    loop
        invariant
            p.wf(),
            p.input@ == input.spec_bytes(),
            len == p.input@.len(),
            nodes_in(parts@, len),
            nodes_read(parts@, input.spec_bytes()),
            forall|i: int| 0 <= i < parts@.len() ==> sequence_node(#[trigger] parts@[i]),
            nodes_apart(parts@),
            forall|k: int| 0 <= k < parts@.len() ==> max_end(node_view(#[trigger] parts@[k])) <= p.cursor(),
            blank_from(input.spec_bytes(), 0) ==> p.blank_state() && parts@.len() == 0,
            parts@.len() == 0 ==> (p.blank_state() ==> blank_from(input.spec_bytes(), 0)),
        ensures
            parts@.len() == 0 ==> blank_from(input.spec_bytes(), 0),
        decreases len - p.lexer.at(),
    {
        proof {
            p.lemma_len();
        }
        let ghost at0 = p.lexer.at();
        p.skip_newlines()?;
        let t = p.peek(0)?;
        if t.is_eof() {
            proof {
                p.lemma_eof_blank();
            }
            break;
        }
        let before = p.lexer_offset();
        let node = p.parse_command_sequence(&EndSet::top())?;
        let own_end = node.span().end;
        let sub_end = node.subtree_end();
        let resume = if own_end < sub_end {
            sub_end
        } else {
            own_end
        };
        proof {
            lemma_span_in(node@, 0, len);
            lemma_max_end_within(node@, 0, len);
        }
        p.skip_to(resume);
        proof {
            lemma_push_fits(parts@, node, len, input.spec_bytes());
            lemma_apart_push(parts@, node);
            assert forall|k: int| 0 <= k < parts@.push(node).len() implies max_end(
                node_view(#[trigger] parts@.push(node)[k]),
            ) <= p.cursor() by {
                if k < parts@.len() {
                    assert(parts@.push(node)[k] == parts@[k]);
                }
            }
        }
        parts.push(node);
        let t = p.peek(0)?;
        if t.is_eof() {
            break;
        }
        // Progress guard: never spin on unconsumed input.
        if p.lexer_offset() <= before {
            return Err(ParseError::Unexpected { found: "unparsed input".to_owned(), offset: before });
        }
    }
    Ok(parts)
}

impl Token {
    /// True for the end-of-input token.
    pub fn is_eof(&self) -> (r: bool)
        ensures
            r == (*self is Eof),
    {
        match self {
            Token::Eof => true,
            _ => false,
        }
    }
}

} // verus!
