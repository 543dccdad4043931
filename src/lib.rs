//! A streaming, pull-based XML 1.0 tokenizer, and the small tables used when
//! dictionary files decoded with it are mapped into records.
//!
//! The byte stream in [`read::Bytes`] normalizes newlines and supports
//! push-back; the [`read::Parser`] state machine turns it into a sequence of
//! public [`xml::Token`]s, checking tag balance along the way. [`mapping`]
//! builds character tables from lists, and [`jmdict`] holds the records of
//! the JMdict dictionary.
pub mod xml;
pub mod read;
pub mod mapping;
pub mod jmdict;
