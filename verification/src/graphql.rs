//! The GraphQL example language: lexer, parser, schema model, facts and rules.

pub mod ast;
pub mod lexer;
pub mod parser;
pub mod model;
pub mod facts;
pub mod rules;
pub mod plugin;
