//! Parser for the declarations section of a visual-novel script.
//!
//! A script file declares "actors" in a block of lines: a header line
//! `[id]` opens an actor, and the lines that follow assign its properties.
//! The `name` property is a scalar; the `sprites` property is a mapping
//! written as a brace-delimited, comma-separated list of `key:"value"`
//! pairs that may span several physical lines; it ends on the first line
//! whose trimmed text ends with the closing `}` — a line holding `}`
//! alone, or the assignment line itself when the literal fits on it.
//!
//! The crate turns such a line sequence into an [`actor::ActorPool`], a
//! table from actor id to [`actor::Actor`] record, or reports the first
//! violation as a typed [`actor::ParseError`]. The whole parse is
//! specified by a small state machine over sequences of characters
//! (module [`model`]); the executable parser is proved to return exactly
//! what the machine prescribes.

pub mod actor;
pub mod assoc;
pub mod encode;
pub mod laws;
pub mod model;
pub mod parser;
pub mod sections;
pub mod text;
