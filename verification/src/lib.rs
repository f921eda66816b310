//! Core of a dynamic HTTP stub server: a route catalogue drives a
//! template-and-script response engine.  Templates are JSON trees whose
//! string leaves may hold `{...}` placeholders; placeholders are resolved
//! against path parameters, generated variables, request payload fields
//! and an in-memory store of previously created objects.

pub mod text;
pub mod json;
pub mod maps;
pub mod pattern;
pub mod placeholder;
pub mod types;
pub mod crossref;
pub mod vars;
pub mod pipeline;
pub mod laws;
