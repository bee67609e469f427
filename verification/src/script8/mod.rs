//! script8: the console's small scripting language.

pub mod lexer;
pub mod parser;
pub mod context;
pub mod precedence;
