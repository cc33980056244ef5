pub mod ast;
pub mod generator;
pub mod layout;
pub mod lexer;
pub mod parser;
pub mod semantics;
pub mod text;
