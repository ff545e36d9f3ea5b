//! Shell command explanation: a bash lexer and parser producing a
//! bashlex-shaped AST, a manpage lookup index, and a matcher that explains
//! each token of a command from the manpage data.

pub mod text;
pub mod ast;
pub mod lexer;
pub mod parser;
pub mod model;
pub mod data;
pub mod matcher;
pub mod engine;

pub use ast::{
    AstNode, KeywordKind, RedirectSource, RedirectTarget, Span, WordNode, find_first_kind,
};
pub use lexer::{LexError, Lexer, OpKind, RawExpansion, RawWord, Token};
pub use parser::{ParseError, ParseOptions, parse, parsesingle};
pub use model::{
    CliOption, DebugInfo, Expansion, ExplainResult, ExtractionMeta, HasArgument, MatchGroup,
    MatchResult, NestedCmd, ParsedManpage, Positional,
};
pub use data::{BUNDLE_VERSION, DataBundle, DataError, ManpageData};
pub use matcher::{MatchError, explain_command, explain_nodes};
pub use engine::explain_ast_nodes;
