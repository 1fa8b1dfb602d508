//! Structured text extraction for a package repository's topic manifest:
//! a parser for control-file style package indexes and an extractor for the
//! description section of a pull-request body.

pub mod primitives;
pub mod section;
pub mod stanza;
pub mod topics;
