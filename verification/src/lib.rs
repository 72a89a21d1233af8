//! A restricted SQL `SELECT` toolkit: byte-level parsers for the clauses of a
//! `SELECT` statement and the SQL text that the statement's parts render to.
pub mod lexeme;
pub mod text;
pub mod select;
pub mod create;
