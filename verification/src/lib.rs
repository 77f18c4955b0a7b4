//! A style formatter for assembly-language listings.
//!
//! The library reads a document as a sequence of text lines and rewrites it
//! under a [`config::Settings`] value: indentation (tabs or spaces), letter
//! casing of mnemonics, registers and identifiers, label placement, and
//! `section`-directive handling.  Every line produces some output; malformed
//! input degrades to a best-effort rendering plus a diagnostic appended to a
//! log buffer.
//!
//! The behaviour of each function is pinned down by the specification
//! functions in [`model`].  The laws the formatter obeys are proved in
//! [`props`] (blank-line preservation, header indentation, case invariance)
//! and in [`idem`] (idempotence).

pub mod config;
pub mod model;
pub mod formatter;
pub mod props;
pub mod idem;
