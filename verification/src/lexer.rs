//! Shell lexer: a byte scanner producing bashlex-shaped tokens.
//!
//! Words are scanned with quote removal and expansion-span recording in one
//! pass: the cooked text keeps expansions verbatim while `span` covers the
//! raw source. Positions are byte offsets.

use vstd::prelude::*;
use crate::ast::Span;
use vstd::string::StringSliceAdditionalSpecFns;
use crate::text::{lossy_string, push_char, push_str, utf8_lossy};

verus! {

// Byte values of the ASCII characters the scanner looks at.
pub const TAB: u8 = 9;
pub const NL: u8 = 10;
pub const SPACE: u8 = 32;
pub const BANG: u8 = 33;
pub const DQUOTE: u8 = 34;
pub const HASH: u8 = 35;
pub const DOLLAR: u8 = 36;
pub const AMP: u8 = 38;
pub const SQUOTE: u8 = 39;
pub const LPAREN: u8 = 40;
pub const RPAREN: u8 = 41;
pub const STAR: u8 = 42;
pub const PLUS: u8 = 43;
pub const MINUS: u8 = 45;
pub const DOT: u8 = 46;
pub const DIGIT_0: u8 = 48;
pub const DIGIT_9: u8 = 57;
pub const COLON: u8 = 58;
pub const SEMI: u8 = 59;
pub const LT: u8 = 60;
pub const EQ: u8 = 61;
pub const GT: u8 = 62;
pub const QUESTION: u8 = 63;
pub const AT: u8 = 64;
pub const UPPER_A: u8 = 65;
pub const UPPER_Z: u8 = 90;
pub const LBRACKET: u8 = 91;
pub const BACKSLASH: u8 = 92;
pub const RBRACKET: u8 = 93;
pub const UNDERSCORE: u8 = 95;
pub const BACKQUOTE: u8 = 96;
pub const LOWER_A: u8 = 97;
pub const LOWER_Z: u8 = 122;
pub const LBRACE: u8 = 123;
pub const PIPE: u8 = 124;
pub const RBRACE: u8 = 125;
pub const TILDE: u8 = 126;

/// Lexer failure with the byte offset where scanning stopped.
#[derive(Debug, PartialEq, Eq)]
pub struct LexError {
    /// Human-readable cause
    pub message: String,
    /// Byte offset of the failure
    pub offset: usize,
}

impl LexError {
    fn new(message: String, offset: usize) -> (r: LexError)
        ensures
            r.message@ == message@,
            r.offset == offset,
    {
        LexError { message, offset }
    }
}

/// How a lexer failure reads: its cause and where it happened.
pub open spec fn lex_error_text(e: LexError) -> Seq<char> {
    e.message@ + " at offset "@ + crate::text::decimal_text(e.offset as nat)
}

impl LexError {
    /// The failure as a sentence: its cause and offset.
    pub fn describe(&self) -> (r: String)
        ensures
            r@ == lex_error_text(*self),
    {
        let mut s = self.message.clone();
        push_str(&mut s, " at offset ");
        crate::text::push_decimal(&mut s, self.offset as u64);
        s
    }
}

impl Clone for LexError {
    fn clone(&self) -> (r: Self)
        ensures
            r.message@ == self.message@,
            r.offset == self.offset,
    {
        LexError { message: self.message.clone(), offset: self.offset }
    }
}

/// Raw expansion recorded while scanning a word.
#[derive(Debug, Clone, Copy, PartialEq, Eq, Structural)]
pub enum RawExpansion {
    /// `$(...)` or backquotes; `inner` excludes the delimiters
    CmdSubst { span: Span, inner: Span },
    /// `<(...)` / `>(...)`; `inner` excludes the delimiters
    ProcSubst { span: Span, inner: Span },
    /// `$name`, `${...}`, `$1`, `$*`, `$@`, `$?`, `$$`, ...
    Param { span: Span },
    /// `~`, `~/...`, `~user/...` (the `~user` prefix span)
    Tilde { span: Span },
}

/// A scanned word: cooked text plus expansion spans.
#[derive(Debug, PartialEq, Eq)]
pub struct RawWord {
    /// Raw source span (includes quotes)
    pub span: Span,
    /// Quote-removed text, expansions kept verbatim
    pub cooked: String,
    /// A quote or escape was processed
    pub quoted: bool,
    /// A `$` expansion was seen
    pub has_dollar: bool,
    /// Expansions in source order
    pub expansions: Vec<RawExpansion>,
}

/// Shell operators.
#[derive(Debug, Clone, Copy, PartialEq, Eq, Structural)]
pub enum OpKind {
    /// `;`
    Semi,
    /// `&`
    Amp,
    /// `&&`
    AndAnd,
    /// `||`
    OrOr,
    /// `|`
    Pipe,
    /// `|&`
    PipeAmp,
    /// `(`
    LParen,
    /// `)`
    RParen,
    /// `{`
    LBrace,
    /// `}`
    RBrace,
    /// `!`
    Bang,
    /// `<`
    Less,
    /// `>`
    Greater,
    /// `>>`
    GreaterGreater,
    /// `<<`
    LessLess,
    /// `<<-`
    LessLessMinus,
    /// `<<<`
    LessLessLess,
    /// `<&`
    LessAnd,
    /// `>&`
    GreaterAnd,
    /// `&>`
    AndGreater,
    /// `&>>`
    AndGreaterGreater,
    /// `<>`
    LessGreater,
    /// `>|`
    GreaterBar,
    /// `;;`
    SemiSemi,
    /// `;&`
    SemiAnd,
    /// `;;&`
    SemiSemiAnd,
    /// `-` (only after `<&` / `>&`)
    Dash,
}

/// The text of an operator.
pub open spec fn op_text(k: OpKind) -> Seq<char> {
    match k {
        OpKind::Semi => ";"@,
        OpKind::Amp => "&"@,
        OpKind::AndAnd => "&&"@,
        OpKind::OrOr => "||"@,
        OpKind::Pipe => "|"@,
        OpKind::PipeAmp => "|&"@,
        OpKind::LParen => "("@,
        OpKind::RParen => ")"@,
        OpKind::LBrace => "{"@,
        OpKind::RBrace => "}"@,
        OpKind::Bang => "!"@,
        OpKind::Less => "<"@,
        OpKind::Greater => ">"@,
        OpKind::GreaterGreater => ">>"@,
        OpKind::LessLess => "<<"@,
        OpKind::LessLessMinus => "<<-"@,
        OpKind::LessLessLess => "<<<"@,
        OpKind::LessAnd => "<&"@,
        OpKind::GreaterAnd => ">&"@,
        OpKind::AndGreater => "&>"@,
        OpKind::AndGreaterGreater => "&>>"@,
        OpKind::LessGreater => "<>"@,
        OpKind::GreaterBar => ">|"@,
        OpKind::SemiSemi => ";;"@,
        OpKind::SemiAnd => ";&"@,
        OpKind::SemiSemiAnd => ";;&"@,
        OpKind::Dash => "-"@,
    }
}

impl OpKind {
    /// Operator text.
    pub fn text(&self) -> (r: &'static str)
        ensures
            r@ == op_text(*self),
    {
        match self {
            OpKind::Semi => ";",
            OpKind::Amp => "&",
            OpKind::AndAnd => "&&",
            OpKind::OrOr => "||",
            OpKind::Pipe => "|",
            OpKind::PipeAmp => "|&",
            OpKind::LParen => "(",
            OpKind::RParen => ")",
            OpKind::LBrace => "{",
            OpKind::RBrace => "}",
            OpKind::Bang => "!",
            OpKind::Less => "<",
            OpKind::Greater => ">",
            OpKind::GreaterGreater => ">>",
            OpKind::LessLess => "<<",
            OpKind::LessLessMinus => "<<-",
            OpKind::LessLessLess => "<<<",
            OpKind::LessAnd => "<&",
            OpKind::GreaterAnd => ">&",
            OpKind::AndGreater => "&>",
            OpKind::AndGreaterGreater => "&>>",
            OpKind::LessGreater => "<>",
            OpKind::GreaterBar => ">|",
            OpKind::SemiSemi => ";;",
            OpKind::SemiAnd => ";&",
            OpKind::SemiSemiAnd => ";;&",
            OpKind::Dash => "-",
        }
    }
}

/// Lexer token.
#[derive(Debug, PartialEq, Eq)]
pub enum Token {
    /// Scanned word
    Word(RawWord),
    /// Newline (comments already stripped)
    Newline(Span),
    /// Operator
    Op(OpKind, Span),
    /// End of input
    Eof,
}

/// Source span of a token, if it has one.
pub open spec fn token_span(t: Token) -> Option<Span> {
    match t {
        Token::Word(w) => Some(w.span),
        Token::Newline(s) => Some(s),
        Token::Op(_, s) => Some(s),
        Token::Eof => None,
    }
}

impl Token {
    /// Source span of the token, if it has one.
    pub fn span(&self) -> (r: Option<Span>)
        ensures
            r == token_span(*self),
    {
        match self {
            Token::Word(w) => Some(w.span),
            Token::Newline(s) => Some(*s),
            Token::Op(_, s) => Some(*s),
            Token::Eof => None,
        }
    }
}

/// Two tokens carry the same information.
pub open spec fn same_token(a: Token, b: Token) -> bool {
    match (a, b) {
        (Token::Word(x), Token::Word(y)) => same_word(x, y),
        (Token::Newline(x), Token::Newline(y)) => x == y,
        (Token::Op(k, x), Token::Op(l, y)) => k == l && x == y,
        (Token::Eof, Token::Eof) => true,
        _ => false,
    }
}

/// Two raw words carry the same information.
pub open spec fn same_word(a: RawWord, b: RawWord) -> bool {
    &&& a.span == b.span
    &&& a.cooked@ == b.cooked@
    &&& a.quoted == b.quoted
    &&& a.has_dollar == b.has_dollar
    &&& a.expansions@ == b.expansions@
}

fn copy_expansions(v: &Vec<RawExpansion>) -> (r: Vec<RawExpansion>)
    ensures
        r@ == v@,
{
    let mut out: Vec<RawExpansion> = Vec::new();
    let mut i: usize = 0;
    while i < v.len()
        invariant
            i <= v@.len(),
            out@ == v@.subrange(0, i as int),
        decreases v@.len() - i,
    {
        out.push(v[i]);
        i += 1;
        proof {
            assert(out@ =~= v@.subrange(0, i as int));
        }
    }
    proof {
        assert(out@ =~= v@);
    }
    out
}

impl Clone for RawWord {
    fn clone(&self) -> (r: Self)
        ensures
            same_word(r, *self),
    {
        RawWord {
            span: self.span,
            cooked: self.cooked.clone(),
            quoted: self.quoted,
            has_dollar: self.has_dollar,
            expansions: copy_expansions(&self.expansions),
        }
    }
}

impl Clone for Token {
    fn clone(&self) -> (r: Self)
        ensures
            same_token(r, *self),
    {
        match self {
            Token::Word(w) => Token::Word(w.clone()),
            Token::Newline(s) => Token::Newline(*s),
            Token::Op(k, s) => Token::Op(*k, *s),
            Token::Eof => Token::Eof,
        }
    }
}

// ---------------------------------------------------------------------
// Byte classes
// ---------------------------------------------------------------------

pub open spec fn byte_at(s: Seq<u8>, i: int) -> Option<u8> {
    if 0 <= i < s.len() {
        Some(s[i])
    } else {
        None
    }
}

pub open spec fn operator_start(c: u8) -> bool {
    c == SEMI || c == AMP || c == PIPE || c == LT || c == GT || c == LPAREN || c == RPAREN
        || c == LBRACE || c == RBRACE || c == BANG
}

pub open spec fn word_break(c: u8) -> bool {
    c == SPACE || c == TAB || c == NL || c == SEMI || c == AMP || c == PIPE || c == LPAREN
        || c == RPAREN || c == LT || c == GT
}

pub open spec fn is_alpha(c: u8) -> bool {
    (UPPER_A <= c <= UPPER_Z) || (LOWER_A <= c <= LOWER_Z)
}

pub open spec fn is_digit(c: u8) -> bool {
    DIGIT_0 <= c <= DIGIT_9
}

pub open spec fn name_start(c: u8) -> bool {
    is_alpha(c) || c == UNDERSCORE
}

pub open spec fn name_char(c: u8) -> bool {
    is_alpha(c) || is_digit(c) || c == UNDERSCORE
}

/// True for bytes that start an operator token
/// (`;` `&` `|` `<` `>` `(` `)` `{` `}` `!`).
pub fn is_operator_start(c: u8) -> (r: bool)
    ensures
        r == operator_start(c),
{
    c == SEMI || c == AMP || c == PIPE || c == LT || c == GT || c == LPAREN || c == RPAREN || c
        == LBRACE || c == RBRACE || c == BANG
}

/// True for bytes that end an unquoted word
/// (blank, tab, newline, `;` `&` `|` `(` `)` `<` `>`).
pub fn is_word_break(c: u8) -> (r: bool)
    ensures
        r == word_break(c),
{
    c == SPACE || c == TAB || c == NL || c == SEMI || c == AMP || c == PIPE || c == LPAREN
        || c == RPAREN || c == LT || c == GT
}

/// True for `[A-Za-z]`.
pub fn is_alpha_byte(c: u8) -> (r: bool)
    ensures
        r == is_alpha(c),
{
    (c >= UPPER_A && c <= UPPER_Z) || (c >= LOWER_A && c <= LOWER_Z)
}

/// True for `[A-Za-z_]`.
pub fn is_name_start(c: u8) -> (r: bool)
    ensures
        r == name_start(c),
{
    (c >= UPPER_A && c <= UPPER_Z) || (c >= LOWER_A && c <= LOWER_Z) || c == UNDERSCORE
}

/// True for `[A-Za-z0-9_]`.
pub fn is_name_char(c: u8) -> (r: bool)
    ensures
        r == name_char(c),
{
    (c >= UPPER_A && c <= UPPER_Z) || (c >= LOWER_A && c <= LOWER_Z) || (c >= DIGIT_0 && c <= DIGIT_9) || c == UNDERSCORE
}

// ---------------------------------------------------------------------
// Token-level specification
// ---------------------------------------------------------------------

/// Position after blanks and line continuations starting at `i`.
pub open spec fn skip_blanks_from(s: Seq<u8>, i: int) -> int
    decreases s.len() - i,
{
    if 0 <= i < s.len() && (s[i] == SPACE || s[i] == TAB) {
        skip_blanks_from(s, i + 1)
    } else if 0 <= i && i + 1 < s.len() && s[i] == BACKSLASH && s[i + 1] == NL {
        skip_blanks_from(s, i + 2)
    } else {
        i
    }
}

/// First position at or after `i` holding a newline, or the input end.
pub open spec fn line_end_from(s: Seq<u8>, i: int) -> int
    decreases s.len() - i,
{
    if 0 <= i < s.len() && s[i] != NL {
        line_end_from(s, i + 1)
    } else {
        i
    }
}

/// Where the next token starts: after blanks, continuations and a comment.
pub open spec fn token_start(s: Seq<u8>, i: int) -> int {
    let j = skip_blanks_from(s, i);
    if 0 <= j < s.len() && s[j] == HASH {
        line_end_from(s, j)
    } else {
        j
    }
}

/// No word or operator starts at `t`: the input ends there or a newline
/// does.
pub open spec fn blank_token_at(s: Seq<u8>, t: int) -> bool {
    t >= s.len() || (0 <= t < s.len() && s[t] == NL)
}

/// A process substitution (`<(` or `>(`) opens at `i`.
pub open spec fn procsubst_at(s: Seq<u8>, i: int) -> bool {
    0 <= i && i + 1 < s.len() && (s[i] == LT || s[i] == GT) && s[i + 1] == LPAREN
}

/// A word can be read at `i`.
pub open spec fn word_can_start(s: Seq<u8>, i: int) -> bool {
    0 <= i < s.len() && (!word_break(s[i]) || procsubst_at(s, i))
}

/// A word read from `[start, end)` stops exactly there.
pub open spec fn word_stops_at(s: Seq<u8>, end: int) -> bool {
    end == s.len() || (0 <= end < s.len() && word_break(s[end]))
}

/// The operator (kind and end) at `i`, by longest match.
pub open spec fn operator_at(s: Seq<u8>, i: int) -> (OpKind, int) {
    let c = s[i];
    let p = byte_at(s, i + 1);
    let q = byte_at(s, i + 2);
    if c == SEMI {
        if p == Some(SEMI) {
            if q == Some(AMP) { (OpKind::SemiSemiAnd, i + 3) } else { (OpKind::SemiSemi, i + 2) }
        } else if p == Some(AMP) {
            (OpKind::SemiAnd, i + 2)
        } else {
            (OpKind::Semi, i + 1)
        }
    } else if c == AMP {
        if p == Some(AMP) {
            (OpKind::AndAnd, i + 2)
        } else if p == Some(GT) {
            if q == Some(GT) {
                (OpKind::AndGreaterGreater, i + 3)
            } else {
                (OpKind::AndGreater, i + 2)
            }
        } else {
            (OpKind::Amp, i + 1)
        }
    } else if c == PIPE {
        if p == Some(PIPE) {
            (OpKind::OrOr, i + 2)
        } else if p == Some(AMP) {
            (OpKind::PipeAmp, i + 2)
        } else {
            (OpKind::Pipe, i + 1)
        }
    } else if c == LT {
        if p == Some(LT) {
            if q == Some(MINUS) {
                (OpKind::LessLessMinus, i + 3)
            } else if q == Some(LT) {
                (OpKind::LessLessLess, i + 3)
            } else {
                (OpKind::LessLess, i + 2)
            }
        } else if p == Some(AMP) {
            (OpKind::LessAnd, i + 2)
        } else if p == Some(GT) {
            (OpKind::LessGreater, i + 2)
        } else {
            (OpKind::Less, i + 1)
        }
    } else if c == GT {
        if p == Some(GT) {
            (OpKind::GreaterGreater, i + 2)
        } else if p == Some(AMP) {
            (OpKind::GreaterAnd, i + 2)
        } else if p == Some(PIPE) {
            (OpKind::GreaterBar, i + 2)
        } else {
            (OpKind::Greater, i + 1)
        }
    } else if c == LPAREN {
        (OpKind::LParen, i + 1)
    } else if c == RPAREN {
        (OpKind::RParen, i + 1)
    } else if c == LBRACE {
        (OpKind::LBrace, i + 1)
    } else if c == RBRACE {
        (OpKind::RBrace, i + 1)
    } else {
        (OpKind::Bang, i + 1)
    }
}

/// The characters that the bytes stand for one by one (`byte as char`).
pub open spec fn byte_chars(s: Seq<u8>) -> Seq<char> {
    s.map_values(|b: u8| b as char)
}

/// An expansion recorded for a word spanning `[lo, hi)` of `s`.
pub open spec fn expansion_ok(s: Seq<u8>, e: RawExpansion, lo: int, hi: int) -> bool {
    match e {
        RawExpansion::CmdSubst { span, inner } => {
            &&& lo <= span.start < inner.start <= inner.end < span.end <= hi
            &&& (s[span.start as int] == DOLLAR || s[span.start as int] == BACKQUOTE)
            &&& s[span.start as int] == DOLLAR ==> {
                &&& byte_at(s, span.start + 1) == Some(LPAREN)
                &&& inner.start == span.start + 2
                &&& inner.end + 1 == span.end
                &&& s[inner.end as int] == RPAREN
            }
        },
        RawExpansion::ProcSubst { span, inner } => {
            &&& lo <= span.start && span.start + 2 == inner.start && inner.start <= inner.end
                && inner.end + 1 == span.end && span.end <= hi
            &&& (s[span.start as int] == LT || s[span.start as int] == GT)
            &&& s[span.start + 1] == LPAREN
            &&& s[inner.end as int] == RPAREN
        },
        RawExpansion::Param { span } => lo <= span.start < span.end <= hi && s[span.start as int]
            == DOLLAR && param_shape(s, span.start as int, span.end as int),
        RawExpansion::Tilde { span } => lo <= span.start < span.end <= hi && s[span.start as int]
            == TILDE,
    }
}

/// The source span of an expansion.
pub open spec fn exp_span(e: RawExpansion) -> Span {
    match e {
        RawExpansion::CmdSubst { span, .. } => span,
        RawExpansion::ProcSubst { span, .. } => span,
        RawExpansion::Param { span } => span,
        RawExpansion::Tilde { span } => span,
    }
}

/// The expansions come in source order, none overlapping the next.
pub open spec fn expansions_ordered(es: Seq<RawExpansion>) -> bool {
    forall|i: int, j: int|
        0 <= i < j < es.len() ==> exp_span(#[trigger] es[i]).end <= exp_span(#[trigger] es[j]).start
}

/// Every recorded expansion lies in `[lo, hi)`.
pub open spec fn expansions_ok(s: Seq<u8>, es: Seq<RawExpansion>, lo: int, hi: int) -> bool {
    forall|i: int| 0 <= i < es.len() ==> #[trigger] expansion_ok(s, es[i], lo, hi)
}

/// A `$` at `i` opens nothing: the byte after it (if any) starts no
/// substitution, parameter or quoted string, so the `$` stands for itself.
pub open spec fn lone_dollar(s: Seq<u8>, i: int) -> bool {
    match byte_at(s, i + 1) {
        None => true,
        Some(c) => !(c == LPAREN || c == LBRACE || c == LBRACKET || c == SQUOTE || c == DQUOTE
            || c == DOLLAR || c == QUESTION || c == HASH || c == STAR || c == AT || c == BANG
            || c == MINUS || is_digit(c) || name_start(c)),
    }
}

proof fn lemma_squote_end_at(s: Seq<u8>, k: int)
    requires
        0 <= k,
        squote_end(s, k) is Some,
    ensures
        k <= squote_end(s, k)->0 < s.len(),
        s[squote_end(s, k)->0] == SQUOTE,
    decreases s.len() - k,
{
    if k < s.len() && s[k] != SQUOTE {
        lemma_squote_end_at(s, k + 1);
    }
}

/// Just past the `quote` that closes a quoted span whose text starts at
/// `k` (a backslash escapes the next byte inside single quotes); `None` when
/// the input ends first.
pub open spec fn quoted_end(s: Seq<u8>, k: int, quote: u8) -> Option<int>
    decreases s.len() - k,
{
    if !(0 <= k < s.len()) {
        None
    } else if s[k] == BACKSLASH && quote == SQUOTE {
        if k + 1 < s.len() {
            quoted_end(s, k + 2, quote)
        } else {
            quoted_end(s, k + 1, quote)
        }
    } else if s[k] == quote {
        Some(k + 1)
    } else {
        quoted_end(s, k + 1, quote)
    }
}

/// Just past the backquote that closes a backquoted command whose text
/// starts at `k`, `depth` counting the `$(` opened inside it; a backslash
/// escapes the next byte.
pub open spec fn bq_end(s: Seq<u8>, k: int, depth: nat) -> Option<int>
    decreases s.len() - k,
{
    if !(0 <= k < s.len()) {
        None
    } else {
        let c = s[k];
        if c == BACKSLASH {
            if k + 1 < s.len() {
                bq_end(s, k + 2, depth)
            } else {
                bq_end(s, k + 1, depth)
            }
        } else if c == DOLLAR && byte_at(s, k + 1) == Some(LPAREN) {
            bq_end(s, k + 2, depth + 1)
        } else if c == LPAREN && depth > 0 {
            bq_end(s, k + 1, depth + 1)
        } else if c == RPAREN && depth > 0 {
            bq_end(s, k + 1, (depth - 1) as nat)
        } else if c == BACKQUOTE && depth == 0 {
            Some(k + 1)
        } else {
            bq_end(s, k + 1, depth)
        }
    }
}

/// Just past the `"` that closes a double-quoted span whose text starts at
/// `k`: escapes skip a byte, and `$(...)`, `${...}` and backquotes inside
/// are scanned whole.
pub open spec fn dq_end(s: Seq<u8>, k: int) -> Option<int>
    decreases s.len() - k,
{
    if !(0 <= k < s.len()) {
        None
    } else {
        let c = s[k];
        if c == DQUOTE {
            Some(k + 1)
        } else if c == BACKSLASH {
            if k + 1 < s.len() {
                dq_end(s, k + 2)
            } else {
                dq_end(s, k + 1)
            }
        } else if c == DOLLAR && byte_at(s, k + 1) == Some(LPAREN) {
            match bal_end(s, k + 2, LPAREN, RPAREN, 1) {
                Some(e) => if k < e <= s.len() {
                    dq_end(s, e)
                } else {
                    None
                },
                None => None,
            }
        } else if c == DOLLAR && byte_at(s, k + 1) == Some(LBRACE) {
            match bal_end(s, k + 2, LBRACE, RBRACE, 1) {
                Some(e) => if k < e <= s.len() {
                    dq_end(s, e)
                } else {
                    None
                },
                None => None,
            }
        } else if c == BACKQUOTE {
            match bq_end(s, k + 1, 0) {
                Some(e) => if k < e <= s.len() {
                    dq_end(s, e)
                } else {
                    None
                },
                None => None,
            }
        } else {
            dq_end(s, k + 1)
        }
    }
}

/// Just past the `close` that balances a region starting at `k` with
/// `depth` openers pending: nested `open`s and `$(`, `${` are balanced,
/// quotes, backquotes, escapes, `#` comments and heredoc bodies are
/// skipped whole; `None` when the input ends first.
pub open spec fn bal_end(s: Seq<u8>, k: int, open: u8, close: u8, depth: nat) -> Option<int>
    decreases s.len() - k,
{
    if !(0 <= k < s.len()) {
        None
    } else {
        let c = s[k];
        if c == BACKSLASH {
            if k + 1 < s.len() {
                bal_end(s, k + 2, open, close, depth)
            } else {
                bal_end(s, k + 1, open, close, depth)
            }
        } else if c == SQUOTE {
            match quoted_end(s, k + 1, SQUOTE) {
                Some(e) => if k < e <= s.len() {
                    bal_end(s, e, open, close, depth)
                } else {
                    None
                },
                None => None,
            }
        } else if c == DQUOTE {
            match dq_end(s, k + 1) {
                Some(e) => if k < e <= s.len() {
                    bal_end(s, e, open, close, depth)
                } else {
                    None
                },
                None => None,
            }
        } else if c == BACKQUOTE {
            match bq_end(s, k + 1, 0) {
                Some(e) => if k < e <= s.len() {
                    bal_end(s, e, open, close, depth)
                } else {
                    None
                },
                None => None,
            }
        } else if c == DOLLAR {
            if byte_at(s, k + 1) == Some(LPAREN) {
                if open == LPAREN {
                    bal_end(s, k + 2, open, close, depth + 1)
                } else {
                    match bal_end(s, k + 2, LPAREN, RPAREN, 1) {
                        Some(e) => if k < e <= s.len() {
                            bal_end(s, e, open, close, depth)
                        } else {
                            None
                        },
                        None => None,
                    }
                }
            } else if byte_at(s, k + 1) == Some(LBRACE) {
                match bal_end(s, k + 2, LBRACE, RBRACE, 1) {
                    Some(e) => if k < e <= s.len() {
                        bal_end(s, e, open, close, depth)
                    } else {
                        None
                    },
                    None => None,
                }
            } else {
                bal_end(s, k + 1, open, close, depth)
            }
        } else if c == HASH {
            let e = line_end_from(s, k + 1);
            if k < e <= s.len() {
                bal_end(s, e, open, close, depth)
            } else {
                None
            }
        } else if c == LT && byte_at(s, k + 1) == Some(LT) {
            match heredoc_skip(s, k + 1) {
                Some(e) => if k < e <= s.len() {
                    bal_end(s, e, open, close, depth)
                } else {
                    None
                },
                None => bal_end(s, k + 2, open, close, depth),
            }
        } else if c == open && open != close {
            bal_end(s, k + 1, open, close, depth + 1)
        } else if c == close {
            if depth <= 1 {
                Some(k + 1)
            } else {
                bal_end(s, k + 1, open, close, (depth - 1) as nat)
            }
        } else {
            bal_end(s, k + 1, open, close, depth)
        }
    }
}

/// Where a word's double-quoted part whose text starts at `k` ends (just
/// past the closing `"`), and whether it gives the word any text
/// (`nonempty` says whether it has so far); `None` when it is not closed.
pub open spec fn word_dq_end(s: Seq<u8>, k: int, nonempty: bool) -> Option<(int, bool)>
    decreases s.len() - k,
{
    if !(0 <= k < s.len()) {
        None
    } else {
        let c = s[k];
        if c == DQUOTE {
            Some((k + 1, nonempty))
        } else if c == BACKSLASH {
            match byte_at(s, k + 1) {
                Some(n) => if n == NL {
                    word_dq_end(s, k + 2, nonempty)
                } else if n == DOLLAR || n == BACKQUOTE || n == DQUOTE || n == BACKSLASH {
                    word_dq_end(s, k + 2, true)
                } else {
                    word_dq_end(s, k + 1, true)
                },
                None => word_dq_end(s, k + 1, true),
            }
        } else if c == DOLLAR {
            match dollar_end(s, k) {
                Some(e) => if k < e <= s.len() {
                    word_dq_end(s, e, true)
                } else {
                    None
                },
                None => None,
            }
        } else if c == BACKQUOTE {
            match bq_end(s, k + 1, 0) {
                Some(e) => if k < e <= s.len() {
                    word_dq_end(s, e, true)
                } else {
                    None
                },
                None => None,
            }
        } else {
            word_dq_end(s, k + 1, true)
        }
    }
}

/// Where the rest of a word from `i` ends, `tilde` saying a `~` would open a
/// tilde prefix there and `empty` that the word has no text yet: quotes,
/// `$` constructs, backquotes, tilde prefixes and a leading process
/// substitution are read whole; `None` when one of them is not closed.
#[verifier::opaque]
pub open spec fn word_end(s: Seq<u8>, i: int, tilde: bool, empty: bool) -> Option<int>
    decreases s.len() - i,
{
    if !(0 <= i < s.len()) {
        Some(i)
    } else {
        let c = s[i];
        if c == NL || c == SPACE || c == TAB {
            Some(i)
        } else if word_break(c) && !(empty && procsubst_at(s, i)) {
            Some(i)
        } else if c == SQUOTE {
            match squote_end(s, i + 1) {
                Some(j) => if i < j < s.len() {
                    word_end(s, j + 1, false, empty && j == i + 1)
                } else {
                    None
                },
                None => None,
            }
        } else if c == DQUOTE {
            match word_dq_end(s, i + 1, false) {
                Some((e, ne)) => if i < e <= s.len() {
                    word_end(s, e, false, empty && !ne)
                } else {
                    None
                },
                None => None,
            }
        } else if c == BACKSLASH {
            match byte_at(s, i + 1) {
                Some(n) => if n == NL {
                    word_end(s, i + 2, false, empty)
                } else {
                    word_end(s, i + 2, false, false)
                },
                None => word_end(s, i + 1, false, false),
            }
        } else if c == DOLLAR {
            match dollar_end(s, i) {
                Some(e) => if i < e <= s.len() {
                    word_end(s, e, false, false)
                } else {
                    None
                },
                None => None,
            }
        } else if c == BACKQUOTE {
            match bq_end(s, i + 1, 0) {
                Some(e) => if i < e <= s.len() {
                    word_end(s, e, false, false)
                } else {
                    None
                },
                None => None,
            }
        } else if c == TILDE && tilde {
            let e = tilde_end(s, i + 1);
            if i < e <= s.len() {
                word_end(s, e, false, false)
            } else {
                None
            }
        } else if (c == LT || c == GT) && empty && byte_at(s, i + 1) == Some(LPAREN) {
            match bal_end(s, i + 2, LPAREN, RPAREN, 1) {
                Some(e) => if i < e <= s.len() {
                    word_end(s, e, false, false)
                } else {
                    None
                },
                None => None,
            }
        } else {
            word_end(s, i + 1, c == EQ || c == COLON, false)
        }
    }
}

/// The expansion a `$` construct at `k` ending at `e` records, as a
/// sequence of at most one.
pub open spec fn dollar_exps(s: Seq<u8>, k: int, e: int) -> Seq<RawExpansion> {
    match dollar_expansion(s, k, e) {
        Some(x) => seq![x],
        None => Seq::empty(),
    }
}

/// The command substitution a backquoted command `[k, e)` records.
pub open spec fn backquote_exp(k: int, e: int) -> RawExpansion {
    RawExpansion::CmdSubst {
        span: Span { start: k as usize, end: e as usize },
        inner: Span { start: (k + 1) as usize, end: (e - 1) as usize },
    }
}

/// The expansions a word's double-quoted part whose text starts at `k`
/// records, in order (as `word_dq_end` reads it).
pub open spec fn word_dq_exps(s: Seq<u8>, k: int) -> Seq<RawExpansion>
    decreases s.len() - k,
{
    if !(0 <= k < s.len()) {
        Seq::empty()
    } else {
        let c = s[k];
        if c == DQUOTE {
            Seq::empty()
        } else if c == BACKSLASH {
            match byte_at(s, k + 1) {
                Some(n) => if n == NL || n == DOLLAR || n == BACKQUOTE || n == DQUOTE || n
                    == BACKSLASH {
                    word_dq_exps(s, k + 2)
                } else {
                    word_dq_exps(s, k + 1)
                },
                None => word_dq_exps(s, k + 1),
            }
        } else if c == DOLLAR {
            match dollar_end(s, k) {
                Some(e) => if k < e <= s.len() {
                    dollar_exps(s, k, e) + word_dq_exps(s, e)
                } else {
                    Seq::empty()
                },
                None => Seq::empty(),
            }
        } else if c == BACKQUOTE {
            match bq_end(s, k + 1, 0) {
                Some(e) => if k < e <= s.len() {
                    seq![backquote_exp(k, e)] + word_dq_exps(s, e)
                } else {
                    Seq::empty()
                },
                None => Seq::empty(),
            }
        } else {
            word_dq_exps(s, k + 1)
        }
    }
}

/// The expansions the rest of a word from `i` records, in order (as
/// `word_end` reads it): command and process substitutions, parameters and
/// tilde prefixes.
#[verifier::opaque]
pub open spec fn word_exps(s: Seq<u8>, i: int, tilde: bool, empty: bool) -> Seq<RawExpansion>
    decreases s.len() - i,
{
    if !(0 <= i < s.len()) {
        Seq::empty()
    } else {
        let c = s[i];
        if c == NL || c == SPACE || c == TAB {
            Seq::empty()
        } else if word_break(c) && !(empty && procsubst_at(s, i)) {
            Seq::empty()
        } else if c == SQUOTE {
            match squote_end(s, i + 1) {
                Some(j) => if i < j < s.len() {
                    word_exps(s, j + 1, false, empty && j == i + 1)
                } else {
                    Seq::empty()
                },
                None => Seq::empty(),
            }
        } else if c == DQUOTE {
            match word_dq_end(s, i + 1, false) {
                Some((e, ne)) => if i < e <= s.len() {
                    word_dq_exps(s, i + 1) + word_exps(s, e, false, empty && !ne)
                } else {
                    Seq::empty()
                },
                None => Seq::empty(),
            }
        } else if c == BACKSLASH {
            match byte_at(s, i + 1) {
                Some(n) => if n == NL {
                    word_exps(s, i + 2, false, empty)
                } else {
                    word_exps(s, i + 2, false, false)
                },
                None => word_exps(s, i + 1, false, false),
            }
        } else if c == DOLLAR {
            match dollar_end(s, i) {
                Some(e) => if i < e <= s.len() {
                    dollar_exps(s, i, e) + word_exps(s, e, false, false)
                } else {
                    Seq::empty()
                },
                None => Seq::empty(),
            }
        } else if c == BACKQUOTE {
            match bq_end(s, i + 1, 0) {
                Some(e) => if i < e <= s.len() {
                    seq![backquote_exp(i, e)] + word_exps(s, e, false, false)
                } else {
                    Seq::empty()
                },
                None => Seq::empty(),
            }
        } else if c == TILDE && tilde {
            let e = tilde_end(s, i + 1);
            if i < e <= s.len() {
                seq![RawExpansion::Tilde { span: Span { start: i as usize, end: e as usize } }]
                    + word_exps(s, e, false, false)
            } else {
                Seq::empty()
            }
        } else if (c == LT || c == GT) && empty && byte_at(s, i + 1) == Some(LPAREN) {
            match bal_end(s, i + 2, LPAREN, RPAREN, 1) {
                Some(e) => if i < e <= s.len() {
                    seq![
                        RawExpansion::ProcSubst {
                            span: Span { start: i as usize, end: e as usize },
                            inner: Span { start: (i + 2) as usize, end: (e - 1) as usize },
                        },
                    ] + word_exps(s, e, false, false)
                } else {
                    Seq::empty()
                },
                None => Seq::empty(),
            }
        } else {
            word_exps(s, i + 1, c == EQ || c == COLON, false)
        }
    }
}

/// The text a `$` construct `[k, e)` adds to a word: `$` for a lone `$`,
/// else its source.
pub open spec fn dollar_text(s: Seq<u8>, k: int, e: int) -> Seq<char> {
    if lone_dollar(s, k) {
        seq![DOLLAR as char]
    } else {
        utf8_lossy(s.subrange(k, e))
    }
}

/// The text a word's double-quoted part whose text starts at `k` adds (as
/// `word_dq_end` reads it): escapes of `$`, backquote, `"` and `\` give the
/// escaped byte, a line continuation gives nothing, `$` constructs and
/// backquoted commands keep their source.
pub open spec fn word_dq_text(s: Seq<u8>, k: int) -> Seq<char>
    decreases s.len() - k,
{
    if !(0 <= k < s.len()) {
        Seq::empty()
    } else {
        let c = s[k];
        if c == DQUOTE {
            Seq::empty()
        } else if c == BACKSLASH {
            match byte_at(s, k + 1) {
                Some(n) => if n == NL {
                    word_dq_text(s, k + 2)
                } else if n == DOLLAR || n == BACKQUOTE || n == DQUOTE || n == BACKSLASH {
                    seq![n as char] + word_dq_text(s, k + 2)
                } else {
                    seq![BACKSLASH as char] + word_dq_text(s, k + 1)
                },
                None => seq![BACKSLASH as char] + word_dq_text(s, k + 1),
            }
        } else if c == DOLLAR {
            match dollar_end(s, k) {
                Some(e) => if k < e <= s.len() {
                    dollar_text(s, k, e) + word_dq_text(s, e)
                } else {
                    Seq::empty()
                },
                None => Seq::empty(),
            }
        } else if c == BACKQUOTE {
            match bq_end(s, k + 1, 0) {
                Some(e) => if k < e <= s.len() {
                    utf8_lossy(s.subrange(k, e)) + word_dq_text(s, e)
                } else {
                    Seq::empty()
                },
                None => Seq::empty(),
            }
        } else {
            seq![c as char] + word_dq_text(s, k + 1)
        }
    }
}

/// The text (`cooked`) of the rest of a word from `i` (as `word_end` reads
/// it): quotes removed, escapes resolved, and `$` constructs, backquoted
/// commands, tilde prefixes and process substitutions kept as source.
#[verifier::opaque]
pub open spec fn word_text(s: Seq<u8>, i: int, tilde: bool, empty: bool) -> Seq<char>
    decreases s.len() - i,
{
    if !(0 <= i < s.len()) {
        Seq::empty()
    } else {
        let c = s[i];
        if c == NL || c == SPACE || c == TAB {
            Seq::empty()
        } else if word_break(c) && !(empty && procsubst_at(s, i)) {
            Seq::empty()
        } else if c == SQUOTE {
            match squote_end(s, i + 1) {
                Some(j) => if i < j < s.len() {
                    byte_chars(s.subrange(i + 1, j)) + word_text(s, j + 1, false, empty && j == i + 1)
                } else {
                    Seq::empty()
                },
                None => Seq::empty(),
            }
        } else if c == DQUOTE {
            match word_dq_end(s, i + 1, false) {
                Some((e, ne)) => if i < e <= s.len() {
                    word_dq_text(s, i + 1) + word_text(s, e, false, empty && !ne)
                } else {
                    Seq::empty()
                },
                None => Seq::empty(),
            }
        } else if c == BACKSLASH {
            match byte_at(s, i + 1) {
                Some(n) => if n == NL {
                    word_text(s, i + 2, false, empty)
                } else {
                    seq![n as char] + word_text(s, i + 2, false, false)
                },
                None => seq![BACKSLASH as char] + word_text(s, i + 1, false, false),
            }
        } else if c == DOLLAR {
            match dollar_end(s, i) {
                Some(e) => if i < e <= s.len() {
                    dollar_text(s, i, e) + word_text(s, e, false, false)
                } else {
                    Seq::empty()
                },
                None => Seq::empty(),
            }
        } else if c == BACKQUOTE {
            match bq_end(s, i + 1, 0) {
                Some(e) => if i < e <= s.len() {
                    utf8_lossy(s.subrange(i, e)) + word_text(s, e, false, false)
                } else {
                    Seq::empty()
                },
                None => Seq::empty(),
            }
        } else if c == TILDE && tilde {
            let e = tilde_end(s, i + 1);
            if i < e <= s.len() {
                utf8_lossy(s.subrange(i, e)) + word_text(s, e, false, false)
            } else {
                Seq::empty()
            }
        } else if (c == LT || c == GT) && empty && byte_at(s, i + 1) == Some(LPAREN) {
            match bal_end(s, i + 2, LPAREN, RPAREN, 1) {
                Some(e) => if i < e <= s.len() {
                    utf8_lossy(s.subrange(i, e)) + word_text(s, e, false, false)
                } else {
                    Seq::empty()
                },
                None => Seq::empty(),
            }
        } else {
            seq![c as char] + word_text(s, i + 1, c == EQ || c == COLON, false)
        }
    }
}

/// One step of the word scan at `i`, as `word_end`, `word_exps` and
/// `word_text` define it.
proof fn lemma_word_unfold(s: Seq<u8>, i: int, tilde: bool, empty: bool)
    ensures
        word_end(s, i, tilde, empty) == {
            if !(0 <= i < s.len()) {
                Some(i)
            } else {
                let c = s[i];
                if c == NL || c == SPACE || c == TAB {
                    Some(i)
                } else if word_break(c) && !(empty && procsubst_at(s, i)) {
                    Some(i)
                } else if c == SQUOTE {
                    match squote_end(s, i + 1) {
                        Some(j) => if i < j < s.len() {
                            word_end(s, j + 1, false, empty && j == i + 1)
                        } else {
                            None
                        },
                        None => None,
                    }
                } else if c == DQUOTE {
                    match word_dq_end(s, i + 1, false) {
                        Some((e, ne)) => if i < e <= s.len() {
                            word_end(s, e, false, empty && !ne)
                        } else {
                            None
                        },
                        None => None,
                    }
                } else if c == BACKSLASH {
                    match byte_at(s, i + 1) {
                        Some(n) => if n == NL {
                            word_end(s, i + 2, false, empty)
                        } else {
                            word_end(s, i + 2, false, false)
                        },
                        None => word_end(s, i + 1, false, false),
                    }
                } else if c == DOLLAR {
                    match dollar_end(s, i) {
                        Some(e) => if i < e <= s.len() {
                            word_end(s, e, false, false)
                        } else {
                            None
                        },
                        None => None,
                    }
                } else if c == BACKQUOTE {
                    match bq_end(s, i + 1, 0) {
                        Some(e) => if i < e <= s.len() {
                            word_end(s, e, false, false)
                        } else {
                            None
                        },
                        None => None,
                    }
                } else if c == TILDE && tilde {
                    let e = tilde_end(s, i + 1);
                    if i < e <= s.len() {
                        word_end(s, e, false, false)
                    } else {
                        None
                    }
                } else if (c == LT || c == GT) && empty && byte_at(s, i + 1) == Some(LPAREN) {
                    match bal_end(s, i + 2, LPAREN, RPAREN, 1) {
                        Some(e) => if i < e <= s.len() {
                            word_end(s, e, false, false)
                        } else {
                            None
                        },
                        None => None,
                    }
                } else {
                    word_end(s, i + 1, c == EQ || c == COLON, false)
                }
            }
        },
        word_exps(s, i, tilde, empty) == {
            if !(0 <= i < s.len()) {
                Seq::empty()
            } else {
                let c = s[i];
                if c == NL || c == SPACE || c == TAB {
                    Seq::empty()
                } else if word_break(c) && !(empty && procsubst_at(s, i)) {
                    Seq::empty()
                } else if c == SQUOTE {
                    match squote_end(s, i + 1) {
                        Some(j) => if i < j < s.len() {
                            word_exps(s, j + 1, false, empty && j == i + 1)
                        } else {
                            Seq::empty()
                        },
                        None => Seq::empty(),
                    }
                } else if c == DQUOTE {
                    match word_dq_end(s, i + 1, false) {
                        Some((e, ne)) => if i < e <= s.len() {
                            word_dq_exps(s, i + 1) + word_exps(s, e, false, empty && !ne)
                        } else {
                            Seq::empty()
                        },
                        None => Seq::empty(),
                    }
                } else if c == BACKSLASH {
                    match byte_at(s, i + 1) {
                        Some(n) => if n == NL {
                            word_exps(s, i + 2, false, empty)
                        } else {
                            word_exps(s, i + 2, false, false)
                        },
                        None => word_exps(s, i + 1, false, false),
                    }
                } else if c == DOLLAR {
                    match dollar_end(s, i) {
                        Some(e) => if i < e <= s.len() {
                            dollar_exps(s, i, e) + word_exps(s, e, false, false)
                        } else {
                            Seq::empty()
                        },
                        None => Seq::empty(),
                    }
                } else if c == BACKQUOTE {
                    match bq_end(s, i + 1, 0) {
                        Some(e) => if i < e <= s.len() {
                            seq![backquote_exp(i, e)] + word_exps(s, e, false, false)
                        } else {
                            Seq::empty()
                        },
                        None => Seq::empty(),
                    }
                } else if c == TILDE && tilde {
                    let e = tilde_end(s, i + 1);
                    if i < e <= s.len() {
                        seq![RawExpansion::Tilde { span: Span { start: i as usize, end: e as usize } }]
                            + word_exps(s, e, false, false)
                    } else {
                        Seq::empty()
                    }
                } else if (c == LT || c == GT) && empty && byte_at(s, i + 1) == Some(LPAREN) {
                    match bal_end(s, i + 2, LPAREN, RPAREN, 1) {
                        Some(e) => if i < e <= s.len() {
                            seq![
                                RawExpansion::ProcSubst {
                                    span: Span { start: i as usize, end: e as usize },
                                    inner: Span { start: (i + 2) as usize, end: (e - 1) as usize },
                                },
                            ] + word_exps(s, e, false, false)
                        } else {
                            Seq::empty()
                        },
                        None => Seq::empty(),
                    }
                } else {
                    word_exps(s, i + 1, c == EQ || c == COLON, false)
                }
            }
        },
        word_text(s, i, tilde, empty) == {
            if !(0 <= i < s.len()) {
                Seq::empty()
            } else {
                let c = s[i];
                if c == NL || c == SPACE || c == TAB {
                    Seq::empty()
                } else if word_break(c) && !(empty && procsubst_at(s, i)) {
                    Seq::empty()
                } else if c == SQUOTE {
                    match squote_end(s, i + 1) {
                        Some(j) => if i < j < s.len() {
                            byte_chars(s.subrange(i + 1, j)) + word_text(s, j + 1, false, empty && j == i + 1)
                        } else {
                            Seq::empty()
                        },
                        None => Seq::empty(),
                    }
                } else if c == DQUOTE {
                    match word_dq_end(s, i + 1, false) {
                        Some((e, ne)) => if i < e <= s.len() {
                            word_dq_text(s, i + 1) + word_text(s, e, false, empty && !ne)
                        } else {
                            Seq::empty()
                        },
                        None => Seq::empty(),
                    }
                } else if c == BACKSLASH {
                    match byte_at(s, i + 1) {
                        Some(n) => if n == NL {
                            word_text(s, i + 2, false, empty)
                        } else {
                            seq![n as char] + word_text(s, i + 2, false, false)
                        },
                        None => seq![BACKSLASH as char] + word_text(s, i + 1, false, false),
                    }
                } else if c == DOLLAR {
                    match dollar_end(s, i) {
                        Some(e) => if i < e <= s.len() {
                            dollar_text(s, i, e) + word_text(s, e, false, false)
                        } else {
                            Seq::empty()
                        },
                        None => Seq::empty(),
                    }
                } else if c == BACKQUOTE {
                    match bq_end(s, i + 1, 0) {
                        Some(e) => if i < e <= s.len() {
                            utf8_lossy(s.subrange(i, e)) + word_text(s, e, false, false)
                        } else {
                            Seq::empty()
                        },
                        None => Seq::empty(),
                    }
                } else if c == TILDE && tilde {
                    let e = tilde_end(s, i + 1);
                    if i < e <= s.len() {
                        utf8_lossy(s.subrange(i, e)) + word_text(s, e, false, false)
                    } else {
                        Seq::empty()
                    }
                } else if (c == LT || c == GT) && empty && byte_at(s, i + 1) == Some(LPAREN) {
                    match bal_end(s, i + 2, LPAREN, RPAREN, 1) {
                        Some(e) => if i < e <= s.len() {
                            utf8_lossy(s.subrange(i, e)) + word_text(s, e, false, false)
                        } else {
                            Seq::empty()
                        },
                        None => Seq::empty(),
                    }
                } else {
                    seq![c as char] + word_text(s, i + 1, c == EQ || c == COLON, false)
                }
            }
        },
{
    reveal(word_end);
    reveal(word_exps);
    reveal(word_text);
}

/// The token starting at `t` can be read: the end of input, a newline or
/// an operator always can, a word exactly when `word_end` reads it whole.
pub open spec fn word_token_ok(s: Seq<u8>, t: int) -> bool {
    if t >= s.len() || s[t] == NL || (operator_start(s[t]) && !procsubst_at(s, t)) {
        true
    } else {
        word_end(s, t, true, true) is Some
    }
}

/// No byte `c` occurs in `s` at or after `i`.
pub open spec fn no_byte_from(s: Seq<u8>, i: int, c: u8) -> bool {
    forall|k: int| i <= k < s.len() ==> #[trigger] s[k] != c
}

/// The construct opening at `t` is never closed: a single quote or a
/// backquote with no closing byte after it, a double quote with no later
/// `"`, `$` or backquote, or a `$(` with no later `)`, `"` or backquote.
pub open spec fn unterminated_start(s: Seq<u8>, t: int) -> bool {
    &&& 0 <= t < s.len()
    &&& {
        ||| s[t] == SQUOTE && no_byte_from(s, t + 1, SQUOTE)
        ||| s[t] == BACKQUOTE && no_byte_from(s, t + 1, BACKQUOTE)
        ||| s[t] == DQUOTE && no_byte_from(s, t + 1, DQUOTE) && no_byte_from(s, t + 1, DOLLAR)
            && no_byte_from(s, t + 1, BACKQUOTE)
        ||| s[t] == DOLLAR && byte_at(s, t + 1) == Some(LPAREN) && no_byte_from(s, t + 2, RPAREN)
            && no_byte_from(s, t + 2, DQUOTE) && no_byte_from(s, t + 2, BACKQUOTE)
    }
}

/// A byte that names a special parameter after `$`.
pub open spec fn special_param(c: u8) -> bool {
    c == DOLLAR || c == QUESTION || c == HASH || c == STAR || c == AT || c == BANG || c == MINUS
}

/// Where a parameter name that continues at `i` ends.
pub open spec fn name_end(s: Seq<u8>, i: int) -> int
    decreases s.len() - i,
{
    if 0 <= i < s.len() && name_char(s[i]) {
        name_end(s, i + 1)
    } else {
        i
    }
}

/// Where the `$` construct at `d` ends: balanced for `$(...)`, `${...}`
/// and `$[...]`, at the closing quote for `$'...'` and `$"..."`, after the
/// name or the one special byte for parameters, right after a lone `$`;
/// `None` when a balanced or quoted construct is not closed.
pub open spec fn dollar_end(s: Seq<u8>, d: int) -> Option<int> {
    match byte_at(s, d + 1) {
        Some(c) => if c == LPAREN {
            bal_end(s, d + 2, LPAREN, RPAREN, 1)
        } else if c == LBRACE {
            bal_end(s, d + 2, LBRACE, RBRACE, 1)
        } else if c == LBRACKET {
            bal_end(s, d + 2, LBRACKET, RBRACKET, 1)
        } else if c == SQUOTE || c == DQUOTE {
            quoted_end(s, d + 2, c)
        } else if special_param(c) || is_digit(c) {
            Some(d + 2)
        } else if name_start(c) {
            Some(name_end(s, d + 2))
        } else {
            Some(d + 1)
        },
        None => Some(d + 1),
    }
}

/// Where a tilde prefix whose name continues at `i` ends.
pub open spec fn tilde_end(s: Seq<u8>, i: int) -> int
    decreases s.len() - i,
{
    if 0 <= i < s.len() && (name_char(s[i]) || s[i] == DOT || s[i] == MINUS) {
        tilde_end(s, i + 1)
    } else {
        i
    }
}

/// `[d, end)` reads as a parameter: `${...}`, `$NAME` to the end of the
/// name, or `$` with one special or digit byte.
pub open spec fn param_shape(s: Seq<u8>, d: int, end: int) -> bool {
    match byte_at(s, d + 1) {
        Some(c) => if c == LBRACE {
            d + 2 < end && s[end - 1] == RBRACE
        } else if special_param(c) || is_digit(c) {
            end == d + 2
        } else if name_start(c) {
            end == name_end(s, d + 2)
        } else {
            false
        },
        None => false,
    }
}

/// What the `$` construct at `d`, read up to `end`, records: a command
/// substitution for `$(...)`, a parameter for `${...}`, `$NAME`, `$1` and
/// the special parameters; nothing for `$[...]`, `$'...'`, `$"..."` and a
/// lone `$`.
pub open spec fn dollar_expansion(s: Seq<u8>, d: int, end: int) -> Option<RawExpansion> {
    match byte_at(s, d + 1) {
        Some(c) => if c == LPAREN {
            Some(
                RawExpansion::CmdSubst {
                    span: Span { start: d as usize, end: end as usize },
                    inner: Span { start: (d + 2) as usize, end: (end - 1) as usize },
                },
            )
        } else if c == LBRACE || special_param(c) || is_digit(c) || name_start(c) {
            Some(RawExpansion::Param { span: Span { start: d as usize, end: end as usize } })
        } else {
            None
        },
        None => None,
    }
}

/// Where the `$` construct at `d` ends, for the constructs whose end does
/// not depend on balancing: two bytes for special and digit parameters, the
/// name for `$NAME`, one byte for a lone `$`.
pub open spec fn dollar_simple_end(s: Seq<u8>, d: int) -> Option<int> {
    match byte_at(s, d + 1) {
        Some(c) => if special_param(c) || is_digit(c) {
            Some(d + 2)
        } else if name_start(c) {
            Some(name_end(s, d + 2))
        } else if lone_dollar(s, d) {
            Some(d + 1)
        } else {
            None
        },
        None => Some(d + 1),
    }
}

/// The first single quote at or after `k`.
pub open spec fn squote_end(s: Seq<u8>, k: int) -> Option<int>
    decreases s.len() - k,
{
    if !(0 <= k < s.len()) {
        None
    } else if s[k] == SQUOTE {
        Some(k)
    } else {
        squote_end(s, k + 1)
    }
}

/// `p` put in front of a cooked rest, if there is one.
pub open spec fn prepend(p: Seq<char>, o: Option<Seq<char>>) -> Option<Seq<char>> {
    match o {
        Some(x) => Some(p + x),
        None => None,
    }
}

/// `p` put in front of the text of a double-quoted rest, if there is one.
pub open spec fn prepend_dq(p: Seq<char>, o: Option<(Seq<char>, int)>) -> Option<(Seq<char>, int)> {
    match o {
        Some((x, j)) => Some((p + x, j)),
        None => None,
    }
}

/// The text of a double-quoted string whose content starts at `k`, with
/// the position just past its closing quote; `None` where it does not
/// close or holds a substitution or parameter.
pub open spec fn dquote(s: Seq<u8>, k: int) -> Option<(Seq<char>, int)>
    decreases s.len() - k,
{
    if !(0 <= k < s.len()) {
        None
    } else {
        let ch = s[k];
        if ch == DQUOTE {
            Some((Seq::empty(), k + 1))
        } else if ch == BACKSLASH {
            match byte_at(s, k + 1) {
                Some(n) => if n == NL {
                    dquote(s, k + 2)
                } else if n == DOLLAR || n == BACKQUOTE || n == DQUOTE || n == BACKSLASH {
                    prepend_dq(seq![n as char], dquote(s, k + 2))
                } else {
                    prepend_dq(seq![BACKSLASH as char], dquote(s, k + 1))
                },
                None => prepend_dq(seq![BACKSLASH as char], dquote(s, k + 1)),
            }
        } else if ch == DOLLAR {
            if lone_dollar(s, k) {
                prepend_dq(seq![DOLLAR as char], dquote(s, k + 1))
            } else {
                None
            }
        } else if ch == BACKQUOTE {
            None
        } else {
            prepend_dq(seq![ch as char], dquote(s, k + 1))
        }
    }
}

/// The quote-removed text of the rest of a word from `i`, where `tilde`
/// says a `~` would open a tilde prefix there and `empty` that no text has
/// been produced yet; `None` where the rest records an expansion, holds a
/// `$` construct other than a lone `$`, or leaves a quote open.
pub open spec fn cook(s: Seq<u8>, i: int, tilde: bool, empty: bool) -> Option<Seq<char>>
    decreases s.len() - i,
{
    if !(0 <= i < s.len()) {
        Some(Seq::empty())
    } else {
        let c = s[i];
        if c == NL || c == SPACE || c == TAB {
            Some(Seq::empty())
        } else if word_break(c) && !(empty && procsubst_at(s, i)) {
            Some(Seq::empty())
        } else if c == SQUOTE {
            match squote_end(s, i + 1) {
                Some(j) => if i < j < s.len() {
                    let piece = byte_chars(s.subrange(i + 1, j));
                    prepend(piece, cook(s, j + 1, false, empty && piece.len() == 0))
                } else {
                    None
                },
                None => None,
            }
        } else if c == DQUOTE {
            match dquote(s, i + 1) {
                Some((piece, j)) => if i < j <= s.len() {
                    prepend(piece, cook(s, j, false, empty && piece.len() == 0))
                } else {
                    None
                },
                None => None,
            }
        } else if c == BACKSLASH {
            match byte_at(s, i + 1) {
                Some(n) => if n == NL {
                    cook(s, i + 2, false, empty)
                } else {
                    prepend(seq![n as char], cook(s, i + 2, false, false))
                },
                None => prepend(seq![BACKSLASH as char], cook(s, i + 1, false, false)),
            }
        } else if c == DOLLAR {
            if lone_dollar(s, i) {
                prepend(seq![DOLLAR as char], cook(s, i + 1, false, false))
            } else {
                None
            }
        } else if c == BACKQUOTE || (c == TILDE && tilde) || word_break(c) {
            None
        } else {
            prepend(seq![c as char], cook(s, i + 1, c == EQ || c == COLON, false))
        }
    }
}

/// Where the word scanned by `cook` from `i` stops, whenever `cook` gives
/// its text.
pub open spec fn cook_end(s: Seq<u8>, i: int, tilde: bool, empty: bool) -> int
    decreases s.len() - i,
{
    if !(0 <= i < s.len()) {
        i
    } else {
        let c = s[i];
        if c == NL || c == SPACE || c == TAB {
            i
        } else if word_break(c) && !(empty && procsubst_at(s, i)) {
            i
        } else if c == SQUOTE {
            match squote_end(s, i + 1) {
                Some(j) => if i < j < s.len() {
                    cook_end(s, j + 1, false, empty && byte_chars(s.subrange(i + 1, j)).len() == 0)
                } else {
                    i
                },
                None => i,
            }
        } else if c == DQUOTE {
            match dquote(s, i + 1) {
                Some((piece, j)) => if i < j <= s.len() {
                    cook_end(s, j, false, empty && piece.len() == 0)
                } else {
                    i
                },
                None => i,
            }
        } else if c == BACKSLASH {
            match byte_at(s, i + 1) {
                Some(n) => if n == NL {
                    cook_end(s, i + 2, false, empty)
                } else {
                    cook_end(s, i + 2, false, false)
                },
                None => cook_end(s, i + 1, false, false),
            }
        } else if c == DOLLAR {
            if lone_dollar(s, i) {
                cook_end(s, i + 1, false, false)
            } else {
                i
            }
        } else if c == BACKQUOTE || (c == TILDE && tilde) || word_break(c) {
            i
        } else {
            cook_end(s, i + 1, c == EQ || c == COLON, false)
        }
    }
}

proof fn lemma_prepend_nil(p: Seq<char>)
    ensures
        prepend(p, Some(Seq::empty())) == Some(p),
        prepend(Seq::empty(), Some(p)) == Some(p),
{
    assert(p + Seq::<char>::empty() =~= p);
    assert(Seq::<char>::empty() + p =~= p);
}

proof fn lemma_prepend_empty(o: Option<Seq<char>>)
    ensures
        prepend(Seq::empty(), o) == o,
{
    if let Some(x) = o {
        assert(Seq::<char>::empty() + x =~= x);
    }
}

proof fn lemma_prepend_dq_empty(o: Option<(Seq<char>, int)>)
    ensures
        prepend_dq(Seq::empty(), o) == o,
{
    if let Some((x, j)) = o {
        assert(Seq::<char>::empty() + x =~= x);
    }
}

/// One step of the word scan adds `piece` to the text read so far.
proof fn lemma_cook_step(
    s: Seq<u8>,
    start: int,
    here: int,
    tilde_before: bool,
    c_before: Seq<char>,
    piece: Seq<char>,
    at: int,
    tilde: bool,
    cooked: Seq<char>,
)
    requires
        cook(s, start, true, true) == prepend(c_before, cook(s, here, tilde_before, c_before.len() == 0)),
        cook(s, here, tilde_before, c_before.len() == 0) == prepend(
            piece,
            cook(s, at, tilde, c_before.len() == 0 && piece.len() == 0),
        ),
        cooked == c_before + piece,
        cook_end(s, start, true, true) == cook_end(s, here, tilde_before, c_before.len() == 0),
        cook_end(s, here, tilde_before, c_before.len() == 0) == cook_end(
            s,
            at,
            tilde,
            c_before.len() == 0 && piece.len() == 0,
        ),
    ensures
        cook(s, start, true, true) == prepend(cooked, cook(s, at, tilde, cooked.len() == 0)),
        cook_end(s, start, true, true) == cook_end(s, at, tilde, cooked.len() == 0),
{
    lemma_prepend_assoc(c_before, piece, cook(s, at, tilde, cooked.len() == 0));
}

proof fn lemma_prepend_assoc(a: Seq<char>, b: Seq<char>, o: Option<Seq<char>>)
    ensures
        prepend(a, prepend(b, o)) == prepend(a + b, o),
{
    if let Some(x) = o {
        assert(a + (b + x) =~= (a + b) + x);
    }
}

proof fn lemma_prepend_dq_assoc(a: Seq<char>, b: Seq<char>, o: Option<(Seq<char>, int)>)
    ensures
        prepend_dq(a, prepend_dq(b, o)) == prepend_dq(a + b, o),
{
    if let Some((x, j)) = o {
        assert(a + (b + x) =~= (a + b) + x);
    }
}

/// The byte quotes what follows it.
pub open spec fn quote_byte(b: u8) -> bool {
    b == SQUOTE || b == DQUOTE || b == BACKSLASH
}

/// Some byte of `s` in `[a, b)` is a quote or an escape.
pub open spec fn quote_in(s: Seq<u8>, a: int, b: int) -> bool {
    exists|i: int| a <= i < b && #[trigger] quote_byte(s[i])
}

proof fn lemma_quote_in_step(s: Seq<u8>, a: int, b: int)
    requires
        a <= b < s.len(),
    ensures
        quote_in(s, a, b + 1) == (quote_in(s, a, b) || quote_byte(s[b])),
{
    if quote_in(s, a, b + 1) && !quote_byte(s[b]) {
        let i = choose|i: int| a <= i < b + 1 && #[trigger] quote_byte(s[i]);
        assert(i < b);
    }
    if quote_in(s, a, b) {
        let i = choose|i: int| a <= i < b && #[trigger] quote_byte(s[i]);
        assert(a <= i < b + 1);
    }
}

/// A raw word read from `[start, end)` of `s`.
pub open spec fn word_ok(s: Seq<u8>, w: RawWord) -> bool {
    &&& w.span.start < w.span.end <= s.len()
    &&& word_stops_at(s, w.span.end as int)
    &&& expansions_ok(s, w.expansions@, w.span.start as int, w.span.end as int)
    &&& expansions_ordered(w.expansions@)
    &&& (!w.quoted && !w.has_dollar && w.expansions@.len() == 0) ==> w.cooked@ == byte_chars(
        s.subrange(w.span.start as int, w.span.end as int),
    )
    &&& cook(s, w.span.start as int, true, true) == if !w.has_dollar && w.expansions@.len() == 0 {
        Some(w.cooked@)
    } else {
        None
    }
    &&& (!w.has_dollar && w.expansions@.len() == 0) ==> cook_end(s, w.span.start as int, true, true)
        == w.span.end
    &&& word_end(s, w.span.start as int, true, true) == Some(w.span.end as int)
    &&& w.expansions@ == word_exps(s, w.span.start as int, true, true)
    &&& w.cooked@ == word_text(s, w.span.start as int, true, true)
    &&& (!w.has_dollar && w.expansions@.len() == 0) ==> (w.quoted <==> quote_in(
        s,
        w.span.start as int,
        w.span.end as int,
    ))
}

/// What `next_token` yields when the next token starts at `t`.
pub open spec fn token_ok(s: Seq<u8>, t: int, tok: Token, end: int) -> bool {
    if t >= s.len() {
        tok is Eof && end == t
    } else if s[t] == NL {
        tok == Token::Newline(Span { start: t as usize, end: (t + 1) as usize }) && end == t + 1
    } else if operator_start(s[t]) && !procsubst_at(s, t) {
        tok == Token::Op(operator_at(s, t).0, Span { start: t as usize, end: end as usize })
            && end == operator_at(s, t).1
    } else {
        tok matches Token::Word(w) && w.span.start == t && w.span.end == end && word_ok(s, w)
    }
}


// ---------------------------------------------------------------------
// The scanner
// ---------------------------------------------------------------------

/// Byte-oriented shell scanner.
pub struct Lexer<'a> {
    input: &'a [u8],
    pos: usize,
}

impl<'a> Lexer<'a> {
    /// The bytes being scanned.
    pub closed spec fn src(&self) -> Seq<u8> {
        self.input@
    }

    /// The current byte offset.
    pub closed spec fn at(&self) -> int {
        self.pos as int
    }

    /// The input length fits in a `usize`.
    pub proof fn lemma_src_len(&self)
        ensures
            self.src().len() <= usize::MAX,
    {
        assert(self.input.len() == self.input@.len());
    }

    /// Create a scanner over the UTF-8 bytes of the input text.
    pub fn new(input: &'a str) -> (r: Lexer<'a>)
        ensures
            r.src() == input.spec_bytes(),
            r.at() == 0,
    {
        Lexer { input: input.as_bytes(), pos: 0 }
    }

    /// Current byte offset.
    pub fn offset(&self) -> (r: usize)
        ensures
            r == self.at(),
    {
        self.pos
    }

    /// Jump forward to at least `off`; never moves backwards.
    pub fn skip_to(&mut self, off: usize)
        ensures
            final(self).src() == old(self).src(),
            final(self).at() == if off > old(self).at() { off as int } else { old(self).at() },
    {
        if off > self.pos {
            self.pos = off;
        }
    }

    /// The current byte, if any.
    fn peek(&self) -> (r: Option<u8>)
        ensures
            r == byte_at(self.src(), self.at()),
    {
        if self.pos < self.input.len() {
            Some(self.input[self.pos])
        } else {
            None
        }
    }

    /// The byte after the current one, if any.
    fn peek2(&self) -> (r: Option<u8>)
        ensures
            r == byte_at(self.src(), self.at() + 1),
    {
        if self.pos < self.input.len() && self.pos + 1 < self.input.len() {
            Some(self.input[self.pos + 1])
        } else {
            None
        }
    }

    /// Consume and return the current byte.
    fn next(&mut self) -> (r: Option<u8>)
        ensures
            final(self).src() == old(self).src(),
            r == byte_at(old(self).src(), old(self).at()),
            final(self).at() == if r is Some { old(self).at() + 1 } else { old(self).at() },
    {
        if self.pos < self.input.len() {
            let c = self.input[self.pos];
            self.pos = self.pos + 1;
            Some(c)
        } else {
            None
        }
    }

    /// True at end of input.
    fn at_end(&self) -> (r: bool)
        ensures
            r == (self.at() >= self.src().len()),
    {
        self.pos >= self.input.len()
    }

    /// Skip blanks and line continuations.
    fn skip_blanks(&mut self)
        requires
            old(self).at() <= old(self).src().len(),
        ensures
            final(self).src() == old(self).src(),
            final(self).at() == skip_blanks_from(old(self).src(), old(self).at()),
    {
        loop
            invariant
                self.src() == old(self).src(),
                old(self).at() <= self.at() <= self.src().len(),
                skip_blanks_from(self.src(), self.at()) == skip_blanks_from(
                    old(self).src(),
                    old(self).at(),
                ),
            ensures
                self.src() == old(self).src(),
                self.at() == skip_blanks_from(old(self).src(), old(self).at()),
            decreases self.src().len() - self.at(),
        {
            proof {
                self.lemma_src_len();
            }
            let c = self.peek();
            if c == Some(SPACE) || c == Some(TAB) {
                self.pos = self.pos + 1;
            } else if c == Some(BACKSLASH) && self.peek2() == Some(NL) {
                self.pos = self.pos + 2;
            } else {
                break;
            }
        }
    }
}


impl<'a> Lexer<'a> {
    /// Read an operator by longest match.
    fn read_operator(&mut self) -> (r: Result<Token, LexError>)
        requires
            old(self).at() < old(self).src().len(),
            operator_start(old(self).src()[old(self).at()]),
        ensures
            final(self).src() == old(self).src(),
            final(self).at() == operator_at(old(self).src(), old(self).at()).1,
            r == Ok::<Token, LexError>(
                Token::Op(
                    operator_at(old(self).src(), old(self).at()).0,
                    Span { start: old(self).at() as usize, end: final(self).at() as usize },
                ),
            ),
    {
        proof {
            self.lemma_src_len();
        }
        let start = self.pos;
        let c = match self.next() {
            Some(c) => c,
            None => unreached(),
        };
        let p = self.peek();
        let kind = if c == SEMI {
            if p == Some(SEMI) {
                self.pos = self.pos + 1;
                if self.peek() == Some(AMP) {
                    self.pos = self.pos + 1;
                    OpKind::SemiSemiAnd
                } else {
                    OpKind::SemiSemi
                }
            } else if p == Some(AMP) {
                self.pos = self.pos + 1;
                OpKind::SemiAnd
            } else {
                OpKind::Semi
            }
        } else if c == AMP {
            if p == Some(AMP) {
                self.pos = self.pos + 1;
                OpKind::AndAnd
            } else if p == Some(GT) {
                self.pos = self.pos + 1;
                if self.peek() == Some(GT) {
                    self.pos = self.pos + 1;
                    OpKind::AndGreaterGreater
                } else {
                    OpKind::AndGreater
                }
            } else {
                OpKind::Amp
            }
        } else if c == PIPE {
            if p == Some(PIPE) {
                self.pos = self.pos + 1;
                OpKind::OrOr
            } else if p == Some(AMP) {
                self.pos = self.pos + 1;
                OpKind::PipeAmp
            } else {
                OpKind::Pipe
            }
        } else if c == LT {
            if p == Some(LT) {
                self.pos = self.pos + 1;
                let q = self.peek();
                if q == Some(MINUS) {
                    self.pos = self.pos + 1;
                    OpKind::LessLessMinus
                } else if q == Some(LT) {
                    self.pos = self.pos + 1;
                    OpKind::LessLessLess
                } else {
                    OpKind::LessLess
                }
            } else if p == Some(AMP) {
                self.pos = self.pos + 1;
                OpKind::LessAnd
            } else if p == Some(GT) {
                self.pos = self.pos + 1;
                OpKind::LessGreater
            } else {
                OpKind::Less
            }
        } else if c == GT {
            if p == Some(GT) {
                self.pos = self.pos + 1;
                OpKind::GreaterGreater
            } else if p == Some(AMP) {
                self.pos = self.pos + 1;
                OpKind::GreaterAnd
            } else if p == Some(PIPE) {
                self.pos = self.pos + 1;
                OpKind::GreaterBar
            } else {
                OpKind::Greater
            }
        } else if c == LPAREN {
            OpKind::LParen
        } else if c == RPAREN {
            OpKind::RParen
        } else if c == LBRACE {
            OpKind::LBrace
        } else if c == RBRACE {
            OpKind::RBrace
        } else if c == BANG {
            OpKind::Bang
        } else {
            unreached()
        };
        Ok(Token::Op(kind, Span { start, end: self.pos }))
    }
}


pub proof fn lemma_skip_blanks_bounds(s: Seq<u8>, i: int)
    requires
        0 <= i <= s.len(),
    ensures
        i <= skip_blanks_from(s, i) <= s.len(),
        skip_blanks_from(s, i) < s.len() ==> s[skip_blanks_from(s, i)] != SPACE && s[skip_blanks_from(s, i)] != TAB,
    decreases s.len() - i,
{
    if 0 <= i < s.len() && (s[i] == SPACE || s[i] == TAB) {
        lemma_skip_blanks_bounds(s, i + 1);
    } else if 0 <= i && i + 1 < s.len() && s[i] == BACKSLASH && s[i + 1] == NL {
        lemma_skip_blanks_bounds(s, i + 2);
    }
}

pub proof fn lemma_line_end_bounds(s: Seq<u8>, i: int)
    requires
        0 <= i <= s.len(),
    ensures
        i <= line_end_from(s, i) <= s.len(),
        line_end_from(s, i) == s.len() || s[line_end_from(s, i)] == NL,
    decreases s.len() - i,
{
    if 0 <= i < s.len() && s[i] != NL {
        lemma_line_end_bounds(s, i + 1);
    }
}

/// An operator at `i` ends after `i` and inside the input.
pub proof fn lemma_operator_at_bounds(s: Seq<u8>, i: int)
    requires
        0 <= i < s.len(),
    ensures
        i < operator_at(s, i).1 <= s.len(),
{
}

/// The bytes of `s` from `i` spell `t`, one byte per character.
pub open spec fn text_at(s: Seq<u8>, i: int, t: Seq<char>) -> bool {
    &&& 0 <= i
    &&& i + t.len() <= s.len()
    &&& forall|j: int| 0 <= j < t.len() ==> #[trigger] t[j] == (s[i + j] as char)
}

/// Law: the operator read at `i` is spelled there, and it is the longest
/// operator spelled there.
pub proof fn lemma_operator_longest(s: Seq<u8>, i: int, k: OpKind)
    requires
        0 <= i < s.len(),
        operator_start(s[i]),
        k != OpKind::Dash,
        text_at(s, i, op_text(k)),
    ensures
        text_at(s, i, op_text(operator_at(s, i).0)),
        operator_at(s, i).1 - i == op_text(operator_at(s, i).0).len(),
        op_text(k).len() <= operator_at(s, i).1 - i,
{
    reveal_strlit(";");
    reveal_strlit("&");
    reveal_strlit("&&");
    reveal_strlit("||");
    reveal_strlit("|");
    reveal_strlit("|&");
    reveal_strlit("(");
    reveal_strlit(")");
    reveal_strlit("{");
    reveal_strlit("}");
    reveal_strlit("!");
    reveal_strlit("<");
    reveal_strlit(">");
    reveal_strlit(">>");
    reveal_strlit("<<");
    reveal_strlit("<<-");
    reveal_strlit("<<<");
    reveal_strlit("<&");
    reveal_strlit(">&");
    reveal_strlit("&>");
    reveal_strlit("&>>");
    reveal_strlit("<>");
    reveal_strlit(">|");
    reveal_strlit(";;");
    reveal_strlit(";&");
    reveal_strlit(";;&");
    let t = op_text(k);
    assert(t[0] == (s[i] as char));
    if t.len() > 1 {
        assert(t[1] == (s[i + 1] as char));
    }
    if t.len() > 2 {
        assert(t[2] == (s[i + 2] as char));
    }
    let r = operator_at(s, i);
    let u = op_text(r.0);
    assert forall|j: int| 0 <= j < u.len() implies #[trigger] u[j] == (s[i + j] as char) by {}
}

/// The next token starts at or after `i`, inside the input.
pub proof fn lemma_token_start_bounds(s: Seq<u8>, i: int)
    requires
        0 <= i <= s.len(),
    ensures
        i <= token_start(s, i) <= s.len(),
{
    lemma_skip_blanks_bounds(s, i);
    let j = skip_blanks_from(s, i);
    if 0 <= j < s.len() && s[j] == HASH {
        lemma_line_end_bounds(s, j);
    }
}

/// Appending the next byte's character.
pub proof fn lemma_byte_chars_step(s: Seq<u8>, a: int, b: int)
    requires
        0 <= a <= b < s.len(),
    ensures
        byte_chars(s.subrange(a, b + 1)) == byte_chars(s.subrange(a, b)).push(s[b] as char),
{
    assert(byte_chars(s.subrange(a, b + 1)) =~= byte_chars(s.subrange(a, b)).push(s[b] as char));
}

/// Expansions recorded inside `[lo, hi)` stay inside any wider range.
pub proof fn lemma_expansions_widen(s: Seq<u8>, es: Seq<RawExpansion>, lo: int, hi: int, hi2: int)
    requires
        expansions_ok(s, es, lo, hi),
        hi <= hi2,
    ensures
        expansions_ok(s, es, lo, hi2),
{
    assert forall|i: int| 0 <= i < es.len() implies #[trigger] expansion_ok(s, es[i], lo, hi2) by {
        assert(expansion_ok(s, es[i], lo, hi));
    }
}

/// Recording one more expansion.
pub proof fn lemma_expansions_push(
    s: Seq<u8>,
    es: Seq<RawExpansion>,
    e: RawExpansion,
    lo: int,
    hi: int,
)
    requires
        expansions_ok(s, es, lo, hi),
        expansion_ok(s, e, lo, hi),
    ensures
        expansions_ok(s, es.push(e), lo, hi),
{
    assert forall|i: int| 0 <= i < es.push(e).len() implies #[trigger] expansion_ok(
        s,
        es.push(e)[i],
        lo,
        hi,
    ) by {
        if i < es.len() {
            assert(es.push(e)[i] == es[i]);
        }
    }
}

/// Recording an expansion that starts at or after `mid`, behind expansions
/// that end by `mid`, keeps them inside the word and in order.
pub proof fn lemma_expansions_step(
    s: Seq<u8>,
    es: Seq<RawExpansion>,
    e: RawExpansion,
    lo: int,
    mid: int,
    hi: int,
)
    requires
        lo <= mid <= hi,
        expansions_ok(s, es, lo, mid),
        expansions_ordered(es),
        expansion_ok(s, e, mid, hi),
    ensures
        expansions_ok(s, es.push(e), lo, hi),
        expansions_ordered(es.push(e)),
{
    lemma_expansions_widen(s, es, lo, mid, hi);
    lemma_expansions_push(s, es, e, lo, hi);
    let t = es.push(e);
    assert forall|i: int, j: int| 0 <= i < j < t.len() implies exp_span(#[trigger] t[i]).end
        <= exp_span(#[trigger] t[j]).start by {
        assert(t[i] == es[i]);
        assert(expansion_ok(s, es[i], lo, mid));
        if j < es.len() {
            assert(t[j] == es[j]);
        }
    }
}

impl<'a> Lexer<'a> {
    /// Scan a quoted span starting at the quote; returns the offset just
    /// past the closing quote. In `$'...'` a backslash escapes the next byte.
    fn scan_quoted(&mut self, quote: u8, start: usize) -> (r: Result<usize, LexError>)
        requires
            old(self).at() < old(self).src().len(),
            old(self).src()[old(self).at()] == quote,
        ensures
            final(self).src() == old(self).src(),
            old(self).at() < final(self).at() <= old(self).src().len(),
            r matches Ok(p) ==> p == final(self).at() && old(self).at() + 2 <= p && old(
                self,
            ).src()[p - 1] == quote,
            r matches Err(e) ==> e.offset == start,
            r matches Ok(p) ==> quoted_end(old(self).src(), old(self).at() + 1, quote) == Some(p as int),
            r is Err ==> quoted_end(old(self).src(), old(self).at() + 1, quote) is None,
    {
        proof {
            self.lemma_src_len();
        }
        let ghost first = self.pos;
        self.pos = self.pos + 1;
        loop
            invariant
                self.src() == old(self).src(),
                first == old(self).at(),
                first < self.at() <= self.src().len(),
                self.src()[first as int] == quote,
                quoted_end(self.src(), self.at() as int, quote) == quoted_end(
                    self.src(),
                    first + 1,
                    quote,
                ),
            ensures
                self.src() == old(self).src(),
                first < self.at() <= self.src().len(),
            decreases self.src().len() - self.at(),
        {
            proof {
                self.lemma_src_len();
            }
            match self.next() {
                None => {
                    return Err(LexError::new("unterminated quote".to_owned(), start));
                },
                Some(c) => {
                    if c == BACKSLASH && quote == SQUOTE {
                        if self.peek().is_some() {
                            self.pos = self.pos + 1;
                        }
                    } else if c == quote {
                        return Ok(self.pos);
                    }
                },
            }
        }
    }

    /// Scan a backquote substitution; the leading backquote is current.
    fn scan_backquote(&mut self, cooked: &mut String, expansions: &mut Vec<RawExpansion>) -> (r:
        Result<(), LexError>)
        requires
            old(self).at() < old(self).src().len(),
            old(self).src()[old(self).at()] == BACKQUOTE,
        ensures
            final(self).src() == old(self).src(),
            old(self).at() < final(self).at() <= old(self).src().len(),
            r is Ok ==> {
                &&& old(self).src()[final(self).at() - 1] == BACKQUOTE
                &&& old(self).at() + 2 <= final(self).at()
                &&& final(expansions)@ == old(expansions)@.push(
                    RawExpansion::CmdSubst {
                        span: Span { start: old(self).at() as usize, end: final(self).at() as usize },
                        inner: Span {
                            start: (old(self).at() + 1) as usize,
                            end: (final(self).at() - 1) as usize,
                        },
                    },
                )
                &&& final(cooked)@ == old(cooked)@ + utf8_lossy(
                    old(self).src().subrange(old(self).at(), final(self).at()),
                )
            },
            r matches Err(e) ==> e.offset == old(self).at(),
            r is Ok ==> bq_end(old(self).src(), old(self).at() + 1, 0) == Some(final(self).at()),
            r is Ok ==> final(cooked)@.len() > old(cooked)@.len(),
            r is Err ==> bq_end(old(self).src(), old(self).at() + 1, 0) is None,
    {
        proof {
            self.lemma_src_len();
        }
        let start = self.pos;
        self.pos = self.pos + 1;
        let inner_start = self.pos;
        let mut depth: usize = 0;
        loop
            invariant_except_break
                bq_end(self.src(), self.at(), depth as nat) == bq_end(self.src(), inner_start as int, 0),
            invariant
                self.src() == old(self).src(),
                start == old(self).at(),
                inner_start == start + 1,
                inner_start <= self.at() <= self.src().len(),
                depth <= self.at() - inner_start,
                self.src()[start as int] == BACKQUOTE,
                cooked == old(cooked),
                expansions == old(expansions),
            ensures
                self.src() == old(self).src(),
                inner_start < self.at() <= self.src().len(),
                self.src()[self.at() - 1] == BACKQUOTE,
                bq_end(self.src(), inner_start as int, 0) == Some(self.at()),
                cooked == old(cooked),
                expansions == old(expansions),
            decreases self.src().len() - self.at(),
        {
            proof {
                self.lemma_src_len();
            }
            match self.next() {
                None => return Err(LexError::new("unterminated backquote".to_owned(), start)),
                Some(c) => {
                    if c == BACKSLASH {
                        if self.peek().is_some() {
                            self.pos = self.pos + 1;
                        }
                    } else if c == DOLLAR && self.peek() == Some(LPAREN) {
                        depth = depth + 1;
                        self.pos = self.pos + 1;
                    } else if c == LPAREN && depth > 0 {
                        depth = depth + 1;
                    } else if c == RPAREN && depth > 0 {
                        depth = depth - 1;
                    } else if c == BACKQUOTE && depth == 0 {
                        break;
                    }
                },
            }
        }
        let close = self.pos;
        expansions.push(
            RawExpansion::CmdSubst {
                span: Span { start, end: close },
                inner: Span { start: inner_start, end: close - 1 },
            },
        );
        let piece = lossy_string(&self.input[start..close]);
        push_str(cooked, piece.as_str());
        Ok(())
    }

    /// Scan a `~` / `~user` prefix; the `~` is current.
    fn scan_tilde(&mut self, cooked: &mut String, expansions: &mut Vec<RawExpansion>) -> (r: Result<
        (),
        LexError,
    >)
        requires
            old(self).at() < old(self).src().len(),
            old(self).src()[old(self).at()] == TILDE,
        ensures
            final(self).src() == old(self).src(),
            old(self).at() < final(self).at() <= old(self).src().len(),
            r is Ok,
            final(expansions)@ == old(expansions)@.push(
                RawExpansion::Tilde {
                    span: Span { start: old(self).at() as usize, end: final(self).at() as usize },
                },
            ),
            final(cooked)@ == old(cooked)@ + utf8_lossy(
                old(self).src().subrange(old(self).at(), final(self).at()),
            ),
            final(self).at() == tilde_end(old(self).src(), old(self).at() + 1),
            final(cooked)@.len() > old(cooked)@.len(),
    {
        proof {
            self.lemma_src_len();
        }
        let start = self.pos;
        self.pos = self.pos + 1;
        loop
            invariant
                self.src() == old(self).src(),
                start == old(self).at(),
                start < self.at() <= self.src().len(),
                tilde_end(self.src(), self.at() as int) == tilde_end(self.src(), start + 1),
            ensures
                self.src() == old(self).src(),
                start < self.at() <= self.src().len(),
                self.at() == tilde_end(self.src(), start + 1),
            decreases self.src().len() - self.at(),
        {
            proof {
                self.lemma_src_len();
            }
            match self.peek() {
                Some(c) => {
                    if is_name_char(c) || c == DOT || c == MINUS {
                        self.pos = self.pos + 1;
                    } else {
                        break;
                    }
                },
                None => break,
            }
        }
        expansions.push(RawExpansion::Tilde { span: Span { start, end: self.pos } });
        let piece = lossy_string(&self.input[start..self.pos]);
        push_str(cooked, piece.as_str());
        Ok(())
    }
}


/// Byte-wise equality of two slices.
pub(crate) fn bytes_equal(a: &[u8], b: &[u8]) -> (r: bool)
    ensures
        r == (a@ == b@),
{
    if a.len() != b.len() {
        return false;
    }
    let mut i: usize = 0;
    while i < a.len()
        invariant
            a@.len() == b@.len(),
            i <= a@.len(),
            forall|k: int| 0 <= k < i ==> a@[k] == b@[k],
        decreases a@.len() - i,
    {
        if a[i] != b[i] {
            return false;
        }
        i += 1;
    }
    proof {
        assert(a@ =~= b@);
    }
    true
}

/// Index of the first `c` in `b` at or after `i`; the length when none.
pub open spec fn first_byte(b: Seq<u8>, c: u8, i: int) -> int
    decreases b.len() - i,
{
    if !(0 <= i < b.len()) {
        b.len() as int
    } else if b[i] == c {
        i
    } else {
        first_byte(b, c, i + 1)
    }
}

/// Past spaces and tabs from `i`.
pub open spec fn skip_spaces(s: Seq<u8>, i: int) -> int
    decreases s.len() - i,
{
    if 0 <= i < s.len() && (s[i] == SPACE || s[i] == TAB) {
        skip_spaces(s, i + 1)
    } else {
        i
    }
}

/// Where an unquoted heredoc delimiter starting at `i` ends.
pub open spec fn bare_delim_end(s: Seq<u8>, i: int) -> int
    decreases s.len() - i,
{
    if 0 <= i < s.len() && !(s[i] == NL || s[i] == SPACE || s[i] == TAB || s[i] == SEMI || s[i]
        == AMP || s[i] == PIPE) {
        bare_delim_end(s, i + 1)
    } else {
        i
    }
}

/// The heredoc operator whose second `<` is at `p` is `<<-`.
pub open spec fn heredoc_dash(s: Seq<u8>, p: int) -> bool {
    byte_at(s, p + 1) == Some(MINUS)
}

/// Just past the heredoc operator whose second `<` is at `p`.
pub open spec fn heredoc_op_end(s: Seq<u8>, p: int) -> int {
    if heredoc_dash(s, p) {
        p + 2
    } else {
        p + 1
    }
}

/// The raw delimiter of the heredoc at `p` (without its quotes), and
/// where the delimiter word ends.
pub open spec fn heredoc_delim(s: Seq<u8>, p: int) -> (Seq<u8>, int) {
    let d = skip_spaces(s, heredoc_op_end(s, p));
    if 0 <= d < s.len() && (s[d] == SQUOTE || s[d] == DQUOTE) {
        let e = first_byte(s, s[d], d + 1);
        (s.subrange(d + 1, e), if e < s.len() {
            e + 1
        } else {
            e
        })
    } else {
        let e = bare_delim_end(s, d);
        (s.subrange(d, e), e)
    }
}

/// Past the tabs that start `[i, hi)`.
pub open spec fn skip_tabs(s: Seq<u8>, i: int, hi: int) -> int
    decreases hi - i,
{
    if i < hi && 0 <= i < s.len() && s[i] == TAB {
        skip_tabs(s, i + 1, hi)
    } else {
        i
    }
}

/// From the line end `e`, the end of the first following line that reads
/// `delim` (after its leading tabs when `strip`), or the end of the input.
pub open spec fn heredoc_body_end(s: Seq<u8>, e: int, delim: Seq<u8>, strip: bool) -> int
    decreases s.len() - e,
{
    if !(0 <= e < s.len()) {
        e
    } else {
        let le = line_end_from(s, e + 1);
        let a = if strip {
            skip_tabs(s, e + 1, le)
        } else {
            e + 1
        };
        proof {
            lemma_line_end_bounds(s, e + 1);
        }
        if s.subrange(a, le) == delim {
            le
        } else {
            heredoc_body_end(s, le, delim, strip)
        }
    }
}

/// Where skipping the heredoc whose operator's second `<` is at `p` ends:
/// `None` for a here-string `<<<` or an empty delimiter; otherwise the end
/// of the line holding the delimiter, or of the input.
pub open spec fn heredoc_skip(s: Seq<u8>, p: int) -> Option<int> {
    if byte_at(s, heredoc_op_end(s, p)) == Some(LT) {
        None
    } else {
        let (raw, after) = heredoc_delim(s, p);
        if raw.len() == 0 {
            None
        } else {
            Some(
                heredoc_body_end(
                    s,
                    line_end_from(s, after),
                    vstd::utf8::encode_utf8(byte_chars(raw)),
                    heredoc_dash(s, p),
                ),
            )
        }
    }
}

proof fn lemma_first_byte_bounds(s: Seq<u8>, c: u8, i: int)
    requires
        0 <= i <= s.len(),
    ensures
        i <= first_byte(s, c, i) <= s.len(),
        first_byte(s, c, i) < s.len() ==> s[first_byte(s, c, i)] == c,
    decreases s.len() - i,
{
    if i < s.len() && s[i] != c {
        lemma_first_byte_bounds(s, c, i + 1);
    }
}

proof fn lemma_bare_delim_bounds(s: Seq<u8>, i: int)
    requires
        0 <= i <= s.len(),
    ensures
        i <= bare_delim_end(s, i) <= s.len(),
    decreases s.len() - i,
{
    if i < s.len() && !(s[i] == NL || s[i] == SPACE || s[i] == TAB || s[i] == SEMI || s[i] == AMP
        || s[i] == PIPE) {
        lemma_bare_delim_bounds(s, i + 1);
    }
}

impl<'a> Lexer<'a> {
    /// After `<<` inside a substitution (positioned at the second `<`),
    /// skip a heredoc body when one follows. True when a body was skipped.
    fn skip_heredoc_body(&mut self) -> (r: bool)
        requires
            old(self).at() < old(self).src().len(),
        ensures
            final(self).src() == old(self).src(),
            r ==> old(self).at() < final(self).at() <= old(self).src().len(),
            !r ==> final(self).at() == old(self).at(),
            r == heredoc_skip(old(self).src(), old(self).at()) is Some,
            r ==> final(self).at() == heredoc_skip(old(self).src(), old(self).at())->0,
    {
        proof {
            self.lemma_src_len();
        }
        let ghost s = self.src();
        let save = self.pos;
        self.pos = self.pos + 1;
        let strip_tabs = if self.peek() == Some(MINUS) {
            self.pos = self.pos + 1;
            true
        } else {
            false
        };
        assert(self.at() == heredoc_op_end(s, save as int));
        assert(strip_tabs == heredoc_dash(s, save as int));
        if self.peek() == Some(LT) {
            // `<<<` herestring: no body follows.
            self.pos = save;
            return false;
        }
        let ghost d = skip_spaces(s, heredoc_op_end(s, save as int));
        loop
            invariant
                self.src() == old(self).src(),
                s == self.src(),
                save == old(self).at(),
                save < self.at() <= self.src().len(),
                skip_spaces(s, self.at()) == d,
            ensures
                self.src() == old(self).src(),
                save < self.at() <= self.src().len(),
                self.at() == d,
            decreases self.src().len() - self.at(),
        {
            proof {
                self.lemma_src_len();
            }
            let c = self.peek();
            if c == Some(SPACE) || c == Some(TAB) {
                self.pos = self.pos + 1;
            } else {
                break;
            }
        }
        let ghost raw = heredoc_delim(s, save as int).0;
        let ghost after = heredoc_delim(s, save as int).1;
        let mut delim = String::new();
        let mut quoted = false;
        let first = self.peek();
        if first == Some(SQUOTE) || first == Some(DQUOTE) {
            quoted = true;
            let q = match self.next() {
                Some(q) => q,
                None => 0,
            };
            let ghost e = first_byte(s, q, d + 1);
            proof {
                lemma_first_byte_bounds(s, q, d + 1);
                assert(s.subrange(d + 1, d + 1) =~= Seq::<u8>::empty());
                assert(delim@ =~= byte_chars(s.subrange(d + 1, d + 1)));
            }
            loop
                invariant_except_break
                    first_byte(s, q, self.at()) == e,
                    delim@ == byte_chars(s.subrange(d + 1, self.at())),
                invariant
                    self.src() == old(self).src(),
                    s == self.src(),
                    save == old(self).at(),
                    save < d,
                    d + 1 <= self.at() <= self.src().len(),
                    save < self.at(),
                    e == first_byte(s, q, d + 1),
                ensures
                    self.src() == old(self).src(),
                    save < self.at() <= self.src().len(),
                    delim@ == byte_chars(s.subrange(d + 1, e)),
                    self.at() == if e < s.len() {
                        e + 1
                    } else {
                        e
                    },
                decreases self.src().len() - self.at(),
            {
                proof {
                    self.lemma_src_len();
                }
                let ghost k = self.at();
                match self.next() {
                    Some(c) => {
                        if c == q {
                            break;
                        }
                        push_char(&mut delim, c as char);
                        proof {
                            lemma_byte_chars_step(s, d + 1, k);
                        }
                    },
                    None => break,
                }
            }
        } else {
            let ghost e = bare_delim_end(s, d);
            proof {
                assert(delim@ =~= byte_chars(s.subrange(d, d)));
            }
            loop
                invariant
                    self.src() == old(self).src(),
                    s == self.src(),
                    save == old(self).at(),
                    d <= self.at() <= self.src().len(),
                    save < d,
                    save < self.at(),
                    e == bare_delim_end(s, d),
                    bare_delim_end(s, self.at()) == e,
                    delim@ == byte_chars(s.subrange(d, self.at())),
                ensures
                    self.src() == old(self).src(),
                    save < self.at() <= self.src().len(),
                    delim@ == byte_chars(s.subrange(d, e)),
                    self.at() == e,
                decreases self.src().len() - self.at(),
            {
                proof {
                    self.lemma_src_len();
                }
                match self.peek() {
                    Some(c) => {
                        if c == NL || c == SPACE || c == TAB || c == SEMI || c == AMP || c == PIPE {
                            break;
                        }
                        push_char(&mut delim, c as char);
                        proof {
                            lemma_byte_chars_step(s, d, self.at());
                        }
                        self.pos = self.pos + 1;
                    },
                    None => break,
                }
            }
        }
        assert(delim@ == byte_chars(raw) && self.at() == after);
        if delim.as_str().is_empty() {
            self.pos = save;
            return false;
        }
        let _ = (quoted, strip_tabs);
        let ghost e0 = line_end_from(s, after);
        // Skip to the end of the current line, then lines until the delimiter.
        loop
            invariant
                self.src() == old(self).src(),
                s == self.src(),
                save == old(self).at(),
                save < self.at() <= self.src().len(),
                line_end_from(s, self.at()) == e0,
            ensures
                self.src() == old(self).src(),
                save < self.at() <= self.src().len(),
                self.at() == self.src().len() || self.src()[self.at()] == NL,
                self.at() == e0,
            decreases self.src().len() - self.at(),
        {
            proof {
                self.lemma_src_len();
            }
            match self.peek() {
                Some(c) => {
                    if c == NL {
                        break;
                    }
                    self.pos = self.pos + 1;
                },
                None => break,
            }
        }
        let delim_bytes = delim.as_str().as_bytes();
        let ghost dv = delim_bytes@;
        assert(dv == vstd::utf8::encode_utf8(byte_chars(raw)));
        let ghost goal = heredoc_body_end(s, e0, dv, strip_tabs);
        assert(heredoc_skip(s, save as int) == Some(goal));
        loop
            invariant
                heredoc_skip(s, save as int) == Some(goal),
                self.src() == old(self).src(),
                s == self.src(),
                save == old(self).at(),
                save < self.at() <= self.src().len(),
                self.at() == self.src().len() || self.src()[self.at()] == NL,
                dv == delim_bytes@,
                heredoc_body_end(s, self.at(), dv, strip_tabs) == goal,
            decreases self.src().len() - self.at(),
        {
            proof {
                self.lemma_src_len();
            }
            if self.at_end() {
                return true;
            }
            let ghost e = self.at();
            // Consume the newline ending the previous line.
            if self.peek() == Some(NL) {
                self.pos = self.pos + 1;
            }
            let line_start = self.pos;
            loop
                invariant
                    self.src() == old(self).src(),
                    s == self.src(),
                    save < line_start <= self.at() <= self.src().len(),
                    line_end_from(s, self.at()) == line_end_from(s, line_start as int),
                ensures
                    self.src() == old(self).src(),
                    save < line_start <= self.at() <= self.src().len(),
                    self.at() == self.src().len() || self.src()[self.at()] == NL,
                    self.at() == line_end_from(s, line_start as int),
                decreases self.src().len() - self.at(),
            {
                proof {
                    self.lemma_src_len();
                }
                match self.peek() {
                    Some(c) => {
                        if c == NL {
                            break;
                        }
                        self.pos = self.pos + 1;
                    },
                    None => break,
                }
            }
            let mut a = line_start;
            if strip_tabs {
                while a < self.pos && self.input[a] == TAB
                    invariant
                        line_start <= a <= self.at() <= self.src().len(),
                        self.src() == old(self).src(),
                        s == self.src(),
                        skip_tabs(s, a as int, self.at()) == skip_tabs(s, line_start as int, self.at()),
                    decreases self.at() - a,
                {
                    a = a + 1;
                }
            }
            if bytes_equal(&self.input[a..self.pos], delim_bytes) {
                return true;
            }
        }
    }

    /// Scan a double-quoted span starting at the quote.
    fn scan_quoted_double(&mut self) -> (r: Result<(), LexError>)
        requires
            old(self).at() < old(self).src().len(),
            old(self).src()[old(self).at()] == DQUOTE,
        ensures
            final(self).src() == old(self).src(),
            old(self).at() < final(self).at() <= old(self).src().len(),
            r matches Err(e) ==> old(self).at() <= e.offset < old(self).src().len(),
            r is Ok ==> dq_end(old(self).src(), old(self).at() + 1) == Some(final(self).at()),
            r is Err ==> dq_end(old(self).src(), old(self).at() + 1) is None,
        decreases old(self).src().len() - old(self).at(), 0nat,
    {
        proof {
            self.lemma_src_len();
        }
        let start = self.pos;
        self.pos = self.pos + 1;
        loop
            invariant
                self.src() == old(self).src(),
                start == old(self).at(),
                start < self.at() <= self.src().len(),
                dq_end(self.src(), self.at()) == dq_end(self.src(), start + 1),
            decreases self.src().len() - self.at(),
        {
            proof {
                self.lemma_src_len();
            }
            match self.next() {
                None => return Err(LexError::new("unterminated double quote".to_owned(), start)),
                Some(c) => {
                    if c == DQUOTE {
                        return Ok(());
                    } else if c == BACKSLASH {
                        if self.peek().is_some() {
                            self.pos = self.pos + 1;
                        }
                    } else if c == DOLLAR {
                        let p = self.peek();
                        if p == Some(LPAREN) {
                            self.pos = self.pos + 1;
                            let _ = self.scan_balanced(LPAREN, RPAREN, start)?;
                        } else if p == Some(LBRACE) {
                            self.pos = self.pos + 1;
                            let _ = self.scan_balanced(LBRACE, RBRACE, start)?;
                        }
                    } else if c == BACKQUOTE {
                        let mut cooked = String::new();
                        let mut exps: Vec<RawExpansion> = Vec::new();
                        self.pos = self.pos - 1;
                        self.scan_backquote(&mut cooked, &mut exps)?;
                    }
                },
            }
        }
    }

    /// Scan a balanced `open...close` region starting just past `open`,
    /// with nesting, quotes, escapes, `#` comments and heredocs. Returns
    /// the offset just past the closing delimiter.
    fn scan_balanced(&mut self, open: u8, close: u8, start: usize) -> (r: Result<usize, LexError>)
        requires
            1 <= old(self).at() <= old(self).src().len(),
            start < old(self).at(),
        ensures
            final(self).src() == old(self).src(),
            old(self).at() <= final(self).at() <= old(self).src().len(),
            r matches Ok(p) ==> p == final(self).at() && old(self).at() < p && old(self).src()[p
                - 1] == close,
            r matches Err(e) ==> start <= e.offset < old(self).src().len(),
            no_byte_from(old(self).src(), old(self).at(), DQUOTE) && no_byte_from(
                old(self).src(),
                old(self).at(),
                BACKQUOTE,
            ) ==> (r matches Err(e) ==> e.offset == start),
            r matches Ok(p) ==> bal_end(old(self).src(), old(self).at(), open, close, 1) == Some(
                p as int,
            ),
            r is Err ==> bal_end(old(self).src(), old(self).at(), open, close, 1) is None,
        decreases old(self).src().len() - old(self).at(), 1nat,
    {
        proof {
            self.lemma_src_len();
        }
        let ghost entry = self.pos;
        let ghost goal = bal_end(self.src(), entry as int, open, close, 1);
        let ghost plain = no_byte_from(self.src(), entry as int, DQUOTE) && no_byte_from(
            self.src(),
            entry as int,
            BACKQUOTE,
        );
        let mut depth: usize = 1;
        while depth > 0
            invariant
                plain == (no_byte_from(old(self).src(), old(self).at(), DQUOTE) && no_byte_from(
                    old(self).src(),
                    old(self).at(),
                    BACKQUOTE,
                )),
                self.src() == old(self).src(),
                entry == old(self).at(),
                1 <= entry <= self.at() <= self.src().len(),
                start < entry,
                depth <= self.at() - entry + 1,
                depth == 0 ==> entry < self.at() && self.src()[self.at() - 1] == close,
                goal == bal_end(old(self).src(), old(self).at(), open, close, 1),
                depth > 0 ==> bal_end(self.src(), self.at(), open, close, depth as nat) == goal,
                depth == 0 ==> goal == Some(self.at()),
            decreases self.src().len() - self.at(), depth,
        {
            proof {
                self.lemma_src_len();
            }
            let ghost head = self.at();
            let ghost src = old(self).src();
            let ghost d0 = depth as nat;
            assert(bal_end(src, head, open, close, d0) == goal);
            match self.next() {
                None => {
                    let mut msg = "unterminated ".to_owned();
                    push_char(&mut msg, open as char);
                    return Err(LexError::new(msg, start));
                },
                Some(c) => {
                    if c == BACKSLASH {
                        if self.peek().is_some() {
                            self.pos = self.pos + 1;
                        }
                        proof { assert(bal_end(src, self.at(), open, close, depth as nat) == bal_end(src, head, open, close, d0)); }
                    } else if c == SQUOTE || c == DQUOTE {
                        // Step back so the quote scanners start on the quote.
                        self.pos = self.pos - 1;
                        if c == SQUOTE {
                            self.scan_quoted(SQUOTE, start)?;
                            proof { assert(bal_end(src, self.at(), open, close, depth as nat) == bal_end(src, head, open, close, d0)); }
                        } else {
                            proof {
                                assert(self.src()[head] == DQUOTE);
                            }
                            self.scan_quoted_double()?;
                            proof { assert(bal_end(src, self.at(), open, close, depth as nat) == bal_end(src, head, open, close, d0)); }
                        }
                    } else if c == BACKQUOTE {
                        // Nested backquotes: scan to the match (no nesting level).
                        let save = self.pos - 1;
                        self.pos = save;
                        let mut cooked = String::new();
                        let mut exps: Vec<RawExpansion> = Vec::new();
                        proof {
                            assert(self.src()[head] == BACKQUOTE);
                        }
                        self.scan_backquote(&mut cooked, &mut exps)?;
                        proof { assert(bal_end(src, self.at(), open, close, depth as nat) == bal_end(src, head, open, close, d0)); }
                    } else if c == DOLLAR {
                        let p = self.peek();
                        if p == Some(LPAREN) {
                            self.pos = self.pos + 1;
                            if open == LPAREN {
                                depth = depth + 1;
                                proof { assert(bal_end(src, self.at(), open, close, depth as nat) == bal_end(src, head, open, close, d0)); }
                            } else {
                                // A command substitution nested in another
                                // construct closes at its own `)`.
                                let _ = self.scan_balanced(LPAREN, RPAREN, start)?;
                                proof { assert(bal_end(src, self.at(), open, close, depth as nat) == bal_end(src, head, open, close, d0)); }
                            }
                        } else if p == Some(LBRACE) {
                            self.pos = self.pos + 1;
                            let _ = self.scan_balanced(LBRACE, RBRACE, start)?;
                            proof { assert(bal_end(src, self.at(), open, close, depth as nat) == bal_end(src, head, open, close, d0)); }
                        } else {
                            proof { assert(bal_end(src, self.at(), open, close, depth as nat) == bal_end(src, head, open, close, d0)); }
                        }
                    } else if c == HASH {
                        // Comment inside substitution: skip to newline.
                        loop
                            invariant
                                self.src() == old(self).src(),
                                1 <= entry < self.at() <= self.src().len(),
                                depth <= self.at() - entry,
                                depth >= 1,
                                head < self.at(),
                                line_end_from(self.src(), self.at() as int) == line_end_from(
                                    self.src(),
                                    head + 1,
                                ),
                            ensures
                                self.src() == old(self).src(),
                                1 <= entry < self.at() <= self.src().len(),
                                depth <= self.at() - entry,
                                depth >= 1,
                                head < self.at(),
                                self.at() == line_end_from(self.src(), head + 1),
                            decreases self.src().len() - self.at(),
                        {
                            proof {
                                self.lemma_src_len();
                            }
                            match self.peek() {
                                Some(d) => {
                                    if d == NL {
                                        break;
                                    }
                                    self.pos = self.pos + 1;
                                },
                                None => break,
                            }
                        }
                        proof { assert(bal_end(src, self.at(), open, close, depth as nat) == bal_end(src, head, open, close, d0)); }
                    } else if c == LT && self.peek() == Some(LT) {
                        // Possible heredoc: skip its body so parens inside
                        // cannot unbalance the scan.
                        if !self.skip_heredoc_body() {
                            self.pos = self.pos + 1;
                        }
                        proof { assert(bal_end(src, self.at(), open, close, depth as nat) == bal_end(src, head, open, close, d0)); }
                    } else if c == open && open != close {
                        depth = depth + 1;
                        proof { assert(bal_end(src, self.at(), open, close, depth as nat) == bal_end(src, head, open, close, d0)); }
                    } else if c == close {
                        depth = depth - 1;
                    } else {
                        proof { assert(bal_end(src, self.at(), open, close, depth as nat) == bal_end(src, head, open, close, d0)); }
                    }
                    proof {
                        if depth > 0 {
                            assert(bal_end(src, self.at(), open, close, depth as nat) == bal_end(
                                src,
                                head,
                                open,
                                close,
                                d0,
                            ));
                        }
                    }
                },
            }
        }
        Ok(self.pos)
    }
}


impl<'a> Lexer<'a> {
    /// Scan a `$...` expansion; the leading `$` is current.
    fn scan_dollar(
        &mut self,
        cooked: &mut String,
        expansions: &mut Vec<RawExpansion>,
        has_dollar: &mut bool,
        quoted: &mut bool,
    ) -> (r: Result<(), LexError>)
        requires
            old(self).at() < old(self).src().len(),
            old(self).src()[old(self).at()] == DOLLAR,
        ensures
            final(self).src() == old(self).src(),
            old(self).at() < final(self).at() <= old(self).src().len(),
            *old(has_dollar) ==> *final(has_dollar),
            *old(quoted) ==> *final(quoted),
            r is Ok ==> {
                ||| final(expansions)@ == old(expansions)@
                ||| exists|e: RawExpansion|
                    final(expansions)@ == old(expansions)@.push(e) && expansion_ok(
                        old(self).src(),
                        e,
                        old(self).at(),
                        final(self).at(),
                    )
            },
            r is Ok && !lone_dollar(old(self).src(), old(self).at()) ==> *final(has_dollar),
            r is Ok && lone_dollar(old(self).src(), old(self).at()) ==> *final(has_dollar)
                == *old(has_dollar) && final(expansions)@ == old(expansions)@,
            r is Ok && !*final(has_dollar) ==> {
                &&& final(self).at() == old(self).at() + 1
                &&& final(cooked)@ == old(cooked)@.push(DOLLAR as char)
                &&& final(expansions)@ == old(expansions)@
                &&& *final(quoted) == *old(quoted)
            },
            r matches Err(e) ==> old(self).at() <= e.offset < old(self).src().len(),
            lone_dollar(old(self).src(), old(self).at()) ==> r is Ok,
            r is Ok ==> final(expansions)@ == match dollar_expansion(
                old(self).src(),
                old(self).at(),
                final(self).at(),
            ) {
                Some(e) => old(expansions)@.push(e),
                None => old(expansions)@,
            },
            r is Ok && !lone_dollar(old(self).src(), old(self).at()) ==> final(cooked)@ == old(
                cooked,
            )@ + utf8_lossy(old(self).src().subrange(old(self).at(), final(self).at())),
            r is Ok ==> (dollar_simple_end(old(self).src(), old(self).at()) matches Some(e) ==> e
                == final(self).at()),
            r is Ok ==> dollar_end(old(self).src(), old(self).at()) == Some(final(self).at()),
            r is Ok ==> final(cooked)@.len() > old(cooked)@.len(),
            r is Ok ==> final(cooked)@ == old(cooked)@ + dollar_text(
                old(self).src(),
                old(self).at(),
                final(self).at(),
            ),
            r is Err ==> dollar_end(old(self).src(), old(self).at()) is None,
            r is Ok && byte_at(old(self).src(), old(self).at() + 1) == Some(LPAREN) ==> old(
                self,
            ).src()[final(self).at() - 1] == RPAREN && final(self).at() >= old(self).at() + 3,
            byte_at(old(self).src(), old(self).at() + 1) == Some(LPAREN) && no_byte_from(
                old(self).src(),
                old(self).at() + 2,
                DQUOTE,
            ) && no_byte_from(old(self).src(), old(self).at() + 2, BACKQUOTE) ==> (r matches Err(e)
                ==> e.offset == old(self).at()),
            r is Ok && byte_at(old(self).src(), old(self).at() + 1) == Some(LBRACE) ==> old(
                self,
            ).src()[final(self).at() - 1] == RBRACE,
    {
        proof {
            self.lemma_src_len();
        }
        let dollar = self.pos;
        self.pos = self.pos + 1;
        let p = self.peek();
        if p == Some(LPAREN) {
            self.pos = self.pos + 1;
            let inner_start = self.pos;
            let close = self.scan_balanced(LPAREN, RPAREN, dollar)?;
            let e = RawExpansion::CmdSubst {
                span: Span { start: dollar, end: close },
                inner: Span { start: inner_start, end: close - 1 },
            };
            expansions.push(e);
            let piece = lossy_string(&self.input[dollar..close]);
            push_str(cooked, piece.as_str());
            *has_dollar = true;
        } else if p == Some(LBRACE) {
            self.pos = self.pos + 1;
            let close = self.scan_balanced(LBRACE, RBRACE, dollar)?;
            expansions.push(RawExpansion::Param { span: Span { start: dollar, end: close } });
            let piece = lossy_string(&self.input[dollar..close]);
            push_str(cooked, piece.as_str());
            *has_dollar = true;
        } else if p == Some(LBRACKET) {
            // Old `$[...]` arithmetic: keep the span, no expansion node.
            self.pos = self.pos + 1;
            let close = self.scan_balanced(LBRACKET, RBRACKET, dollar)?;
            let piece = lossy_string(&self.input[dollar..close]);
            push_str(cooked, piece.as_str());
            *has_dollar = true;
        } else if p == Some(SQUOTE) || p == Some(DQUOTE) {
            // `$'...'` / `$"..."`: kept verbatim.
            let quote = match p {
                Some(q) => q,
                None => 0,
            };
            *quoted = true;
            let end = self.scan_quoted(quote, dollar)?;
            let piece = lossy_string(&self.input[dollar..end]);
            push_str(cooked, piece.as_str());
            *has_dollar = true;
        } else if p == Some(DOLLAR) || p == Some(QUESTION) || p == Some(HASH) || p == Some(STAR)
            || p == Some(AT) || p == Some(BANG) || p == Some(MINUS) {
            self.pos = self.pos + 1;
            expansions.push(RawExpansion::Param { span: Span { start: dollar, end: self.pos } });
            let piece = lossy_string(&self.input[dollar..self.pos]);
            push_str(cooked, piece.as_str());
            *has_dollar = true;
        } else if p.is_some() && DIGIT_0 <= p.unwrap() && p.unwrap() <= DIGIT_9 {
            self.pos = self.pos + 1;
            expansions.push(RawExpansion::Param { span: Span { start: dollar, end: self.pos } });
            let piece = lossy_string(&self.input[dollar..self.pos]);
            push_str(cooked, piece.as_str());
            *has_dollar = true;
        } else if p.is_some() && is_name_start(p.unwrap()) {
            self.pos = self.pos + 1;
            loop
                invariant
                    self.src() == old(self).src(),
                    dollar == old(self).at(),
                    dollar + 2 <= self.at() <= self.src().len(),
                    name_end(self.src(), self.at() as int) == name_end(self.src(), dollar + 2),
                ensures
                    self.src() == old(self).src(),
                    dollar + 2 <= self.at() <= self.src().len(),
                    self.at() == name_end(self.src(), dollar + 2),
                decreases self.src().len() - self.at(),
            {
                proof {
                    self.lemma_src_len();
                }
                match self.peek() {
                    Some(c) => {
                        if is_name_char(c) {
                            self.pos = self.pos + 1;
                        } else {
                            break;
                        }
                    },
                    None => break,
                }
            }
            expansions.push(RawExpansion::Param { span: Span { start: dollar, end: self.pos } });
            let piece = lossy_string(&self.input[dollar..self.pos]);
            push_str(cooked, piece.as_str());
            *has_dollar = true;
        } else {
            // Lone `$` before a break: literal.
            push_char(cooked, DOLLAR as char);
        }
        Ok(())
    }
}


impl<'a> Lexer<'a> {
    /// Read one word with quote removal and expansion recording; a word
    /// that `cook` reads in full is always read.
    #[verifier::spinoff_prover]
    #[verifier::rlimit(100)]
    pub fn read_word(&mut self) -> (r: Result<RawWord, LexError>)
        requires
            word_can_start(old(self).src(), old(self).at()),
        ensures
            final(self).src() == old(self).src(),
            old(self).at() <= final(self).at() <= old(self).src().len(),
            r matches Ok(w) ==> w.span.start == old(self).at() && w.span.end == final(self).at()
                && word_ok(old(self).src(), w),
            r matches Err(e) ==> old(self).at() <= e.offset < old(self).src().len(),
            cook(old(self).src(), old(self).at(), true, true) is Some ==> r is Ok,
            unterminated_start(old(self).src(), old(self).at()) ==> (r matches Err(e) && e.offset
                == old(self).at()),
            old(self).src()[old(self).at()] == SQUOTE && no_byte_from(
                old(self).src(),
                old(self).at() + 1,
                SQUOTE,
            ) ==> (r matches Err(e) && e.message@ == "unterminated single quote"@),
            r is Ok ==> word_end(old(self).src(), old(self).at(), true, true) == Some(final(self).at()),
            r matches Ok(w) ==> w.expansions@ == word_exps(old(self).src(), old(self).at(), true, true),
            r matches Ok(w) ==> w.cooked@ == word_text(old(self).src(), old(self).at(), true, true),
            r is Err ==> word_end(old(self).src(), old(self).at(), true, true) is None,
    {
        proof {
            self.lemma_src_len();
        }
        let start = self.pos;
        let mut cooked = String::new();
        let mut quoted = false;
        let mut has_dollar = false;
        let mut expansions: Vec<RawExpansion> = Vec::new();
        // Tilde expands at word start or right after `=` / `:`.
        let mut tilde_ok = true;
        proof {
            lemma_prepend_empty(cook(self.src(), start as int, true, true));
        }
        loop
            invariant
                self.src() == old(self).src(),
                start == old(self).at(),
                word_can_start(self.src(), start as int),
                start <= self.at() <= self.src().len(),
                self.at() == start ==> cooked@.len() == 0,
                expansions_ok(self.src(), expansions@, start as int, self.at()),
                expansions_ordered(expansions@),
                (!quoted && !has_dollar && expansions@.len() == 0) ==> cooked@ == byte_chars(
                    self.src().subrange(start as int, self.at()),
                ),
                (!has_dollar && expansions@.len() == 0) ==> cook(self.src(), start as int, true, true)
                    == prepend(cooked@, cook(self.src(), self.at(), tilde_ok, cooked@.len() == 0)),
                !(!has_dollar && expansions@.len() == 0) ==> cook(self.src(), start as int, true, true)
                    is None,
                (!has_dollar && expansions@.len() == 0) ==> cook_end(self.src(), start as int, true, true)
                    == cook_end(self.src(), self.at(), tilde_ok, cooked@.len() == 0),
                (!has_dollar && expansions@.len() == 0) ==> (quoted <==> quote_in(
                    self.src(),
                    start as int,
                    self.at(),
                )),
                self.at() > start ==> !unterminated_start(self.src(), start as int),
                word_end(self.src(), start as int, true, true) == word_end(
                    self.src(),
                    self.at() as int,
                    tilde_ok,
                    cooked@.len() == 0,
                ),
                word_exps(self.src(), start as int, true, true) == expansions@ + word_exps(
                    self.src(),
                    self.at() as int,
                    tilde_ok,
                    cooked@.len() == 0,
                ),
                word_text(self.src(), start as int, true, true) == cooked@ + word_text(
                    self.src(),
                    self.at() as int,
                    tilde_ok,
                    cooked@.len() == 0,
                ),
            ensures
                word_exps(self.src(), start as int, true, true) == expansions@,
                word_text(self.src(), start as int, true, true) == cooked@,
                !unterminated_start(self.src(), start as int),
                word_end(self.src(), start as int, true, true) == Some(self.at()),
                self.src() == old(self).src(),
                start < self.at() <= self.src().len(),
                word_stops_at(self.src(), self.at()),
                expansions_ok(self.src(), expansions@, start as int, self.at()),
                expansions_ordered(expansions@),
                (!quoted && !has_dollar && expansions@.len() == 0) ==> cooked@ == byte_chars(
                    self.src().subrange(start as int, self.at()),
                ),
                (!has_dollar && expansions@.len() == 0) ==> cook(self.src(), start as int, true, true)
                    == Some(cooked@),
                !(!has_dollar && expansions@.len() == 0) ==> cook(self.src(), start as int, true, true)
                    is None,
                (!has_dollar && expansions@.len() == 0) ==> cook_end(self.src(), start as int, true, true)
                    == self.at(),
                (!has_dollar && expansions@.len() == 0) ==> (quoted <==> quote_in(
                    self.src(),
                    start as int,
                    self.at(),
                )),
            decreases self.src().len() - self.at(),
        {
            proof {
                self.lemma_src_len();
                lemma_prepend_nil(cooked@);
            }
            let ghost here = self.at();
            let ghost c_before = cooked@;
            let ghost tilde_before = tilde_ok;
            let ghost hd0 = has_dollar;
            let ghost el0 = expansions@.len();
            let ghost q0 = quoted;
            let ghost eb0 = expansions@;
            proof {
                lemma_word_unfold(self.src(), here, tilde_before, c_before.len() == 0);
            }
            // `<(` / `>(` at word start open a process substitution rather
            // than ending the word.
            let c0 = self.peek();
            let at_procsubst = cooked.as_str().is_empty() && (c0 == Some(LT) || c0 == Some(GT))
                && self.peek2() == Some(LPAREN);
            let c = match c0 {
                None => break,
                Some(c) => c,
            };
            if c == NL || c == SPACE || c == TAB {
                break;
            }
            if is_word_break(c) && !at_procsubst {
                break;
            }
            if c == SQUOTE {
                quoted = true;
                tilde_ok = false;
                self.pos = self.pos + 1;
                proof {
                    assert(self.src().subrange(here + 1, self.at()) =~= Seq::<u8>::empty());
                    assert(c_before + byte_chars(self.src().subrange(here + 1, self.at())) =~= c_before);
                }
                loop
                    invariant_except_break
                        cooked@ == c_before + byte_chars(self.src().subrange(here + 1, self.at())),
                        squote_end(self.src(), here + 1) == squote_end(self.src(), self.at()),
                    invariant
                        self.src() == old(self).src(),
                        here < self.at() <= self.src().len(),
                        start <= here,
                        start == old(self).at(),
                        self.src()[here] == SQUOTE,
                        word_exps(self.src(), start as int, true, true) == eb0 + word_exps(self.src(), here, tilde_before, c_before.len() == 0),
                        expansions@ == eb0,
                        word_text(self.src(), start as int, true, true) == c_before + word_text(self.src(), here, tilde_before, c_before.len() == 0),
                        word_end(self.src(), start as int, true, true) == word_end(self.src(), here, tilde_before, c_before.len() == 0),
                        (!hd0 && el0 == 0) ==> cook(self.src(), start as int, true, true) == prepend(
                            c_before,
                            cook(self.src(), here, tilde_before, c_before.len() == 0),
                        ),
                        !(!hd0 && el0 == 0) ==> cook(self.src(), start as int, true, true) is None,
                    ensures
                        here + 1 < self.at() <= self.src().len(),
                        cooked@ == c_before + byte_chars(self.src().subrange(here + 1, self.at() - 1)),
                        squote_end(self.src(), here + 1) == Some(self.at() - 1),
                    decreases self.src().len() - self.at(),
                {
                    proof {
                        self.lemma_src_len();
                    }
                    let ghost q = self.at();
                    match self.next() {
                        None => {
                            proof {
                                lemma_word_unfold(self.src(), here, tilde_before, c_before.len() == 0);
                                assert(squote_end(self.src(), here + 1) is None);
                                assert(cook(self.src(), here, tilde_before, c_before.len() == 0) is None);
                            }
                            return Err(
                                LexError::new("unterminated single quote".to_owned(), start),
                            );
                        },
                        Some(ch) => {
                            if ch == SQUOTE {
                                break;
                            }
                            push_char(&mut cooked, ch as char);
                            proof {
                                lemma_byte_chars_step(self.src(), here + 1, q);
                                assert(cooked@ =~= c_before + byte_chars(
                                    self.src().subrange(here + 1, self.at()),
                                ));
                            }
                        },
                    }
                }
                proof {
                    lemma_squote_end_at(self.src(), here + 1);
                    assert(self.src()[self.at() - 1] == SQUOTE);
                    lemma_expansions_widen(self.src(), expansions@, start as int, here, self.at());
                    let rest = cook(self.src(), self.at(), tilde_ok, cooked@.len() == 0);
                    let piece = byte_chars(self.src().subrange(here + 1, self.at() - 1));
                    assert(cook(self.src(), here, tilde_before, c_before.len() == 0) == prepend(piece, rest));
                    lemma_prepend_assoc(c_before, piece, rest);
                }
            } else if c == DQUOTE {
                quoted = true;
                tilde_ok = false;
                self.pos = self.pos + 1;
                proof {
                    lemma_expansions_widen(self.src(), expansions@, start as int, here, self.at());
                    lemma_prepend_dq_empty(dquote(self.src(), here + 1));
                    assert(c_before + Seq::<char>::empty() =~= c_before);
                }
                let ghost mut piece: Seq<char> = Seq::empty();
                loop
                    invariant_except_break
                        (!has_dollar && expansions@.len() == 0) ==> dquote(self.src(), here + 1)
                            == prepend_dq(piece, dquote(self.src(), self.at())),
                        word_dq_end(self.src(), here + 1, false) == word_dq_end(
                            self.src(),
                            self.at() as int,
                            cooked@.len() > c_before.len(),
                        ),
                        eb0 + word_dq_exps(self.src(), here + 1) == expansions@ + word_dq_exps(
                            self.src(),
                            self.at() as int,
                        ),
                        c_before + word_dq_text(self.src(), here + 1) == cooked@ + word_dq_text(
                            self.src(),
                            self.at() as int,
                        ),
                    invariant
                        word_text(self.src(), start as int, true, true) == c_before + word_text(self.src(), here, tilde_before, c_before.len() == 0),
                        word_exps(self.src(), start as int, true, true) == eb0 + word_exps(self.src(), here, tilde_before, c_before.len() == 0),
                        word_end(self.src(), start as int, true, true) == word_end(self.src(), here, tilde_before, c_before.len() == 0),
                        cooked@.len() >= c_before.len(),
                        self.src() == old(self).src(),
                        here < self.at() <= self.src().len(),
                        start <= here,
                        start == old(self).at(),
                        self.src()[here] == DQUOTE,
                        here > start ==> !unterminated_start(self.src(), start as int),
                        (!hd0 && el0 == 0) ==> cook(self.src(), start as int, true, true) == prepend(
                            c_before,
                            cook(self.src(), here, tilde_before, c_before.len() == 0),
                        ),
                        !(!hd0 && el0 == 0) ==> cook(self.src(), start as int, true, true) is None,
                        quoted,
                        expansions_ok(self.src(), expansions@, start as int, self.at()),
                        expansions_ordered(expansions@),
                        (!has_dollar && expansions@.len() == 0) ==> cooked@ == c_before + piece,
                        hd0 ==> has_dollar,
                        el0 <= expansions@.len(),
                        (!hd0 && el0 == 0 && !(!has_dollar && expansions@.len() == 0)) ==> dquote(
                            self.src(),
                            here + 1,
                        ) is None,
                    ensures
                        self.src() == old(self).src(),
                        here < self.at() <= self.src().len(),
                        here + 1 < self.at(),
                        self.src()[self.at() - 1] == DQUOTE,
                        word_dq_end(self.src(), here + 1, false) == Some(
                            (self.at() as int, cooked@.len() > c_before.len()),
                        ),
                        expansions@ == eb0 + word_dq_exps(self.src(), here + 1),
                        cooked@ == c_before + word_dq_text(self.src(), here + 1),
                        cooked@.len() >= c_before.len(),
                        quoted,
                        hd0 ==> has_dollar,
                        el0 <= expansions@.len(),
                        expansions_ok(self.src(), expansions@, start as int, self.at()),
                        expansions_ordered(expansions@),
                        (!has_dollar && expansions@.len() == 0) ==> cooked@ == c_before + piece
                            && dquote(self.src(), here + 1) == Some((piece, self.at())),
                        (!hd0 && el0 == 0 && !(!has_dollar && expansions@.len() == 0)) ==> dquote(
                            self.src(),
                            here + 1,
                        ) is None,
                    decreases self.src().len() - self.at(),
                {
                    proof {
                        self.lemma_src_len();
                    }
                    let ghost inner_here = self.at();
                    let ghost cooked_here = cooked@;
                    let ghost cond_i = !has_dollar && expansions@.len() == 0;
                    match self.next() {
                        None => {
                                proof {
                                lemma_word_unfold(self.src(), here, tilde_before, c_before.len() == 0);
                                if !hd0 && el0 == 0 {
                                    assert(dquote(self.src(), self.at()) is None);
                                    assert(dquote(self.src(), here + 1) is None);
                                    assert(cook(self.src(), here, tilde_before, c_before.len() == 0) is None);
                                }
                            }
                            return Err(
                                LexError::new("unterminated double quote".to_owned(), start),
                            );
                        },
                        Some(ch) => {
                            if ch == DQUOTE {
                                proof {
                                    lemma_expansions_widen(
                                        self.src(),
                                        expansions@,
                                        start as int,
                                        inner_here,
                                        self.at(),
                                    );
                                    assert(piece + Seq::<char>::empty() =~= piece);
                                }
                                break;
                            } else if ch == BACKSLASH {
                                let n = self.peek();
                                if n == Some(DOLLAR) || n == Some(BACKQUOTE) || n == Some(DQUOTE)
                                    || n == Some(BACKSLASH) || n == Some(NL) {
                                    self.pos = self.pos + 1;
                                    // Line continuation inside quotes vanishes.
                                    if n != Some(NL) {
                                        push_char(&mut cooked, n.unwrap() as char);
                                        proof {
                                            lemma_prepend_dq_assoc(
                                                piece,
                                                seq![n.unwrap() as char],
                                                dquote(self.src(), self.at()),
                                            );
                                            piece = piece + seq![n.unwrap() as char];
                                        }
                                    }
                                } else {
                                    push_char(&mut cooked, BACKSLASH as char);
                                    proof {
                                        lemma_prepend_dq_assoc(
                                            piece,
                                            seq![BACKSLASH as char],
                                            dquote(self.src(), self.at()),
                                        );
                                        piece = piece + seq![BACKSLASH as char];
                                    }
                                }
                                proof {
                                    if !has_dollar && expansions@.len() == 0 {
                                        assert(cooked@ =~= c_before + piece);
                                    }
                                    lemma_expansions_widen(
                                        self.src(),
                                        expansions@,
                                        start as int,
                                        inner_here,
                                        self.at(),
                                    );
                                }
                            } else if ch == DOLLAR {
                                self.pos = self.pos - 1;
                                let ghost before = expansions@;
                                match self.scan_dollar(
                                    &mut cooked,
                                    &mut expansions,
                                    &mut has_dollar,
                                    &mut quoted,
                                ) {
                                    Ok(()) => {},
                                    Err(e) => {
                                        proof {
                                            lemma_word_unfold(self.src(), here, tilde_before, c_before.len() == 0);
                                            if !hd0 && el0 == 0 {
                                                assert(dquote(self.src(), inner_here) is None);
                                                assert(dquote(self.src(), here + 1) is None);
                                                assert(cook(self.src(), here, tilde_before, c_before.len() == 0)
                                                    is None);
                                            }
                                        }
                                        return Err(e);
                                    },
                                }
                                proof {
                                    lemma_expansions_widen(
                                        self.src(),
                                        before,
                                        start as int,
                                        inner_here,
                                        self.at(),
                                    );
                                    if expansions@ != before {
                                        let e = choose|e: RawExpansion|
                                            expansions@ == before.push(e) && expansion_ok(
                                                self.src(),
                                                e,
                                                inner_here,
                                                self.at(),
                                            );
                                        lemma_expansions_step(
                                            self.src(),
                                            before,
                                            e,
                                            start as int,
                                            inner_here,
                                            self.at(),
                                        );
                                    }
                                    if cond_i && !(!has_dollar && expansions@.len() == 0) {
                                        assert(dquote(self.src(), inner_here) is None);
                                    }
                                    if !has_dollar && expansions@.len() == 0 {
                                        lemma_prepend_dq_assoc(
                                            piece,
                                            seq![DOLLAR as char],
                                            dquote(self.src(), self.at()),
                                        );
                                        piece = piece + seq![DOLLAR as char];
                                        assert(cooked@ =~= c_before + piece);
                                    }
                                }
                            } else if ch == BACKQUOTE {
                                self.pos = self.pos - 1;
                                let ghost before = expansions@;
                                let ghost bq = self.at();
                                match self.scan_backquote(&mut cooked, &mut expansions) {
                                    Ok(()) => {},
                                    Err(e) => {
                                        proof {
                                            lemma_word_unfold(self.src(), here, tilde_before, c_before.len() == 0);
                                            if !hd0 && el0 == 0 {
                                                assert(dquote(self.src(), inner_here) is None);
                                                assert(dquote(self.src(), here + 1) is None);
                                                assert(cook(self.src(), here, tilde_before, c_before.len() == 0)
                                                    is None);
                                            }
                                        }
                                        return Err(e);
                                    },
                                }
                                has_dollar = true;
                                proof {
                                    lemma_expansions_widen(
                                        self.src(),
                                        before,
                                        start as int,
                                        inner_here,
                                        self.at(),
                                    );
                                    lemma_expansions_step(
                                        self.src(),
                                        before,
                                        expansions@.last(),
                                        start as int,
                                        inner_here,
                                        self.at(),
                                    );
                                    assert(expansions@ == before.push(expansions@.last()));
                                    if cond_i {
                                        assert(dquote(self.src(), inner_here) is None);
                                    }
                                }
                            } else {
                                push_char(&mut cooked, ch as char);
                                proof {
                                    lemma_expansions_widen(
                                        self.src(),
                                        expansions@,
                                        start as int,
                                        inner_here,
                                        self.at(),
                                    );
                                    lemma_prepend_dq_assoc(
                                        piece,
                                        seq![ch as char],
                                        dquote(self.src(), self.at()),
                                    );
                                    piece = piece + seq![ch as char];
                                    if !has_dollar && expansions@.len() == 0 {
                                        assert(cooked@ =~= c_before + piece);
                                    }
                                }
                            }
                        },
                    }
                }
                proof {
                    if !has_dollar && expansions@.len() == 0 {
                        lemma_cook_step(
                            self.src(),
                            start as int,
                            here,
                            tilde_before,
                            c_before,
                            piece,
                            self.at(),
                            tilde_ok,
                            cooked@,
                        );
                    } else if !hd0 && el0 == 0 {
                        assert(cook(self.src(), here, tilde_before, c_before.len() == 0) is None);
                    }
                }
            } else if c == BACKSLASH {
                quoted = true;
                tilde_ok = false;
                self.pos = self.pos + 1;
                match self.next() {
                    None => {
                        push_char(&mut cooked, BACKSLASH as char);
                        proof {
                            if !has_dollar && expansions@.len() == 0 {
                                lemma_cook_step(
                                    self.src(),
                                    start as int,
                                    here,
                                    tilde_before,
                                    c_before,
                                    seq![BACKSLASH as char],
                                    self.at(),
                                    tilde_ok,
                                    cooked@,
                                );
                            }
                        }
                    },
                    Some(ch) => {
                        if ch != NL {
                            push_char(&mut cooked, ch as char);
                            proof {
                                if !has_dollar && expansions@.len() == 0 {
                                    lemma_cook_step(
                                        self.src(),
                                        start as int,
                                        here,
                                        tilde_before,
                                        c_before,
                                        seq![ch as char],
                                        self.at(),
                                        tilde_ok,
                                        cooked@,
                                    );
                                }
                            }
                        } else {
                            proof {
                                if !has_dollar && expansions@.len() == 0 {
                                    assert(c_before + Seq::<char>::empty() =~= c_before);
                                    lemma_prepend_empty(
                                        cook(self.src(), self.at(), tilde_ok, c_before.len() == 0),
                                    );
                                    lemma_cook_step(
                                        self.src(),
                                        start as int,
                                        here,
                                        tilde_before,
                                        c_before,
                                        Seq::empty(),
                                        self.at(),
                                        tilde_ok,
                                        cooked@,
                                    );
                                }
                            }
                        }
                    },
                }
                proof {
                    lemma_expansions_widen(self.src(), expansions@, start as int, here, self.at());
                }
            } else if c == DOLLAR {
                tilde_ok = false;
                let ghost before = expansions@;
                let ghost cooked_before = cooked@;
                self.scan_dollar(&mut cooked, &mut expansions, &mut has_dollar, &mut quoted)?;
                proof {
                    if byte_at(self.src(), here + 1) == Some(LPAREN) {
                        assert(self.src()[self.at() - 1] == RPAREN);
                    }
                    lemma_expansions_widen(self.src(), before, start as int, here, self.at());
                    if expansions@ != before {
                        let e = choose|e: RawExpansion|
                            expansions@ == before.push(e) && expansion_ok(
                                self.src(),
                                e,
                                here,
                                self.at(),
                            );
                        lemma_expansions_step(self.src(), before, e, start as int, here, self.at());
                    }
                    if !quoted && !has_dollar && expansions@.len() == 0 {
                        lemma_byte_chars_step(self.src(), start as int, here);
                    }
                    if !has_dollar && expansions@.len() == 0 {
                        lemma_cook_step(
                            self.src(),
                            start as int,
                            here,
                            tilde_before,
                            c_before,
                            seq![DOLLAR as char],
                            self.at(),
                            tilde_ok,
                            cooked@,
                        );
                    } else if !hd0 && el0 == 0 {
                        assert(cook(self.src(), here, tilde_before, c_before.len() == 0) is None);
                    }
                }
            } else if c == BACKQUOTE {
                tilde_ok = false;
                let ghost before = expansions@;
                self.scan_backquote(&mut cooked, &mut expansions)?;
                has_dollar = true;
                proof {
                    assert(self.src()[self.at() - 1] == BACKQUOTE);
                    lemma_expansions_widen(self.src(), before, start as int, here, self.at());
                    lemma_expansions_step(
                        self.src(),
                        before,
                        expansions@.last(),
                        start as int,
                        here,
                        self.at(),
                    );
                    assert(expansions@ == before.push(expansions@.last()));
                    if !hd0 && el0 == 0 {
                        assert(cook(self.src(), here, tilde_before, c_before.len() == 0) is None);
                    }
                }
            } else if c == TILDE && tilde_ok {
                tilde_ok = false;
                let ghost before = expansions@;
                let _ = self.scan_tilde(&mut cooked, &mut expansions);
                proof {
                    lemma_expansions_widen(self.src(), before, start as int, here, self.at());
                    lemma_expansions_step(
                        self.src(),
                        before,
                        expansions@.last(),
                        start as int,
                        here,
                        self.at(),
                    );
                    assert(expansions@ == before.push(expansions@.last()));
                    if !hd0 && el0 == 0 {
                        assert(cook(self.src(), here, tilde_before, c_before.len() == 0) is None);
                    }
                }
            } else if (c == LT || c == GT) && cooked.as_str().is_empty() && self.peek2() == Some(
                LPAREN,
            ) {
                // Process substitution at word start: `<(...)` / `>(...)`.
                let ps = self.pos;
                self.pos = self.pos + 2;
                let inner_start = self.pos;
                let close = self.scan_balanced(LPAREN, RPAREN, ps)?;
                let ghost before = expansions@;
                expansions.push(
                    RawExpansion::ProcSubst {
                        span: Span { start: ps, end: close },
                        inner: Span { start: inner_start, end: close - 1 },
                    },
                );
                let piece = lossy_string(&self.input[ps..close]);
                push_str(&mut cooked, piece.as_str());
                has_dollar = true;
                tilde_ok = false;
                proof {
                    lemma_expansions_widen(self.src(), before, start as int, here, self.at());
                    lemma_expansions_step(
                        self.src(),
                        before,
                        expansions@.last(),
                        start as int,
                        here,
                        self.at(),
                    );
                    assert(expansions@ == before.push(expansions@.last()));
                    if !hd0 && el0 == 0 {
                        assert(cook(self.src(), here, tilde_before, c_before.len() == 0) is None);
                    }
                }
            } else {
                push_char(&mut cooked, c as char);
                tilde_ok = c == EQ || c == COLON;
                self.pos = self.pos + 1;
                proof {
                    lemma_expansions_widen(self.src(), expansions@, start as int, here, self.at());
                    if !quoted && !has_dollar && expansions@.len() == 0 {
                        lemma_byte_chars_step(self.src(), start as int, here);
                    }
                    if !has_dollar && expansions@.len() == 0 {
                        lemma_cook_step(
                            self.src(),
                            start as int,
                            here,
                            tilde_before,
                            c_before,
                            seq![c as char],
                            self.at(),
                            tilde_ok,
                            cooked@,
                        );
                    }
                }
            }
            proof {
                if !has_dollar && expansions@.len() == 0 {
                    lemma_quote_in_step(self.src(), start as int, here);
                    if quote_byte(self.src()[here]) {
                        assert(quote_in(self.src(), start as int, self.at())) by {
                            assert(start <= here < self.at());
                        }
                    }
                }
            }
        }
        Ok(
            RawWord {
                span: Span { start, end: self.pos },
                cooked,
                quoted,
                has_dollar,
                expansions,
            },
        )
    }

    /// Read the next token. Only a word whose quote removal `cook` cannot
    /// give (an open quote, an expansion, a `$` construct) can fail.
    pub fn next_token(&mut self) -> (r: Result<Token, LexError>)
        ensures
            final(self).src() == old(self).src(),
            final(self).at() >= old(self).at(),
            old(self).at() <= old(self).src().len() ==> final(self).at() <= old(self).src().len(),
            r matches Ok(tok) ==> token_ok(
                old(self).src(),
                token_start(old(self).src(), old(self).at()),
                tok,
                final(self).at(),
            ),
            r matches Err(e) ==> token_start(old(self).src(), old(self).at()) <= e.offset
                < old(self).src().len(),
            blank_token_at(old(self).src(), token_start(old(self).src(), old(self).at())) ==> r is Ok,
            cook(old(self).src(), token_start(old(self).src(), old(self).at()), true, true) is Some
                ==> r is Ok,
            unterminated_start(old(self).src(), token_start(old(self).src(), old(self).at())) ==> (
            r matches Err(e) && e.offset == token_start(old(self).src(), old(self).at())),
            r is Ok <==> word_token_ok(old(self).src(), token_start(old(self).src(), old(self).at())),
        decreases old(self).src().len() - old(self).at(),
    {
        proof {
            self.lemma_src_len();
        }
        if self.pos > self.input.len() {
            return Ok(Token::Eof);
        }
        proof {
            lemma_skip_blanks_bounds(self.src(), self.at());
        }
        self.skip_blanks();
        let start = self.pos;
        match self.peek() {
            None => Ok(Token::Eof),
            Some(c) => {
                if c == NL {
                    self.pos = self.pos + 1;
                    Ok(Token::Newline(Span { start, end: self.pos }))
                } else if c == HASH {
                    // Comment: only valid at a token boundary, which is
                    // exactly where next_token is called.
                    loop
                        invariant
                            self.src() == old(self).src(),
                            start < self.src().len(),
                            start <= self.at() <= self.src().len(),
                            line_end_from(self.src(), self.at()) == line_end_from(
                                self.src(),
                                start as int,
                            ),
                        ensures
                            self.src() == old(self).src(),
                            self.at() == line_end_from(self.src(), start as int),
                        decreases self.src().len() - self.at(),
                    {
                        proof {
                            self.lemma_src_len();
                        }
                        match self.peek() {
                            Some(d) => {
                                if d == NL {
                                    break;
                                }
                                self.pos = self.pos + 1;
                            },
                            None => break,
                        }
                    }
                    proof {
                        lemma_line_end_bounds(self.src(), start as int);
                        assert(skip_blanks_from(self.src(), self.at()) == self.at());
                        assert(token_start(self.src(), self.at()) == self.at());
                    }
                    self.next_token()
                } else if is_operator_start(c) {
                    // `<(` / `>(` open a process substitution word.
                    if (c == LT || c == GT) && self.peek2() == Some(LPAREN) {
                        let word = self.read_word()?;
                        Ok(Token::Word(word))
                    } else {
                        self.read_operator()
                    }
                } else {
                    let word = self.read_word()?;
                    Ok(Token::Word(word))
                }
            },
        }
    }
}

} // verus!
