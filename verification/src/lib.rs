//! Fossil: the lexical layer and parser of the Fossil mapping language, and the
//! GraphAr sink planning that turns a decomposed graph into write plans and
//! manifests.

pub mod kind;
pub mod lexer;
pub mod text;
pub mod indent;
pub mod indent_laws;
pub mod strings;
pub mod order;
pub mod manifest;
pub mod decomp;
pub mod writer;
pub mod catalog;
pub mod diag;
pub mod retired;
pub mod parser;
pub mod expr;
pub mod items;
pub mod syntax;
pub mod tree;
pub mod ast;
