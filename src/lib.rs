//! Front end of a POSIX shell: the source model, the lexer with its quoting
//! and substitution forms, alias substitution, the parser of command lines,
//! and the delayed filling of here-document contents.

pub mod alias;
pub mod chars;
pub mod env;
pub mod expansion;
pub mod fill;
pub mod lex;
pub mod parser;
pub mod print;
pub mod pwd;
pub mod semantics;
pub mod source;
pub mod subshell;
pub mod syntax;
