//! Verified core of the Pyco8 fantasy console: the script8 lexer and
//! expression converter, sprite sheets, shader bookkeeping and the
//! drawing-request state shared with the Python front end.

pub mod text;
pub mod script8;
pub mod engine;
pub mod pyapi;
