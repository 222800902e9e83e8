//! A single-table record store: fixed-width row codec, page store and table,
//! together with the small command lexer and parser that drive it.
pub mod row;
pub mod pager;
pub mod table;
pub mod lexer;
pub mod ast;
