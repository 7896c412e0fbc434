//! Converts record documents, written one record per line in a native,
//! plain-text or JSON-lines encoding, to JSON lines; and checks a file path
//! (resolved, extension, size, read) before its content is converted.

pub mod decimal;
pub mod text;
pub mod document;
pub mod parser;
pub mod convert;
pub mod guard;
