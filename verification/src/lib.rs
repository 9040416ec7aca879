//! A language-tool core for the syslog-ng configuration language: a parser
//! that turns raw configuration text into a location-annotated object model,
//! a typed value grammar, a schema-driven option database, a snippet
//! resolver with cycle and depth protection, and a cursor-to-context
//! completion engine.

pub mod ast;
pub mod file_utilities;
pub mod grammar;
pub mod language_types;
pub mod parser;
pub mod protocol;
pub mod text;
