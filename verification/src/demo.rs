//! The demo guest modules' logic, run natively: the GraphQL AST module's
//! scanner, the GraphQL plugin module's scanner and workspace pass, and the
//! rule modules' rules.

pub mod graphql_ast;
pub mod graphql_plugin;
pub mod rules;
