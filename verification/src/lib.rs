//! Conversion of credential documents between two JSON schemas, a badge
//! schema and a learning-credential schema, by an ordered list of
//! field-mapping rules.
//!
//! A rule reads a value from the document of one format, transforms it, and
//! writes it into the document of another at an address that need not exist
//! yet. The pieces, leaf first:
//!
//! - `json`: documents and their mathematical model;
//! - `text`: texts as sequences of characters;
//! - `pointer`: write-side addresses, their skeletons, the node an address reaches;
//! - `merge`: the merge of a skeleton into a document, and its laws;
//! - `markdown`: the codec between documents and indented text, and
//!   `markdown_laws`: what the parser makes of what the renderer wrote;
//! - `transformations`: rules and the transforms they name;
//! - `query`: which read-side queries the evaluator is handed;
//! - `repository`: the rule engine and its laws;
//! - `elm`, `elm_mapping_helper`, `base64_encode`: the fixed vocabulary of
//!   the learning-credential schema and the objects built from it;
//! - `mapping_data`, `state`, `server`: rule tables, job configuration, and
//!   where the service listens;
//! - `outside`: what is taken from other crates, behind contracts that are
//!   believed and not proved.

pub mod base64_encode;
pub mod elm;
pub mod elm_mapping_helper;
pub mod json;
pub mod mapping_data;
pub mod markdown;
pub mod markdown_laws;
pub mod merge;
pub mod outside;
pub mod pointer;
pub mod query;
pub mod repository;
pub mod server;
pub mod state;
pub mod text;
pub mod transformations;
