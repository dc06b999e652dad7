//! An interpreter for a tiny line-oriented scripting language with two
//! statement forms, `$name = "literal"` and `print($name)`.
//!
//! The pipeline is lexer, then recursive-descent parser, then a tree-walking
//! interpreter. Each stage is specified by spec functions over the source text
//! (`Seq<char>`), and every executable function is proved against them.
pub mod backend;
pub mod error;
pub mod lexer;
pub mod parser;

pub use backend::Interpreter;
pub use error::Error;
pub use lexer::{Lexer, Token, TokenType};
pub use parser::{
    parse, parse_assignment, parse_ignore, parse_name, parse_print, parse_statement,
    parse_string, parse_variable, Assignment, Print, Statement, Variable,
};
