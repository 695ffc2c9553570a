//! Splits an SQL script into statements at every `;` that is neither quoted
//! nor commented, and classifies each statement's bytes into tokens.
pub mod laws;
pub mod model;
pub mod parser;
pub mod token;

pub use parser::{sql_script_parser, SqlScriptParser};
pub use token::{DefaultSqlScriptTokenizer, SqlScript, SqlScriptTokenizer, SqlToken, SqlTokenKind};
