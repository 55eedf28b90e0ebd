//! Directive-driven toggling of annotated regions in plain-text
//! configuration files.
//!
//! A config file can hold several alternative settings, each tagged
//! with inline directive comments of the form
//! `<marker> CORPL section <text>`, `<marker> CORPL option <expr>` and
//! `<marker> CORPL end`, where `<marker>` is the file's own comment
//! marker. Given a set of enabled and disabled identifiers, the engine
//! in [`engine`] rewrites the lines inside each region between their
//! active (uncommented) and inactive (commented-out) forms, preserving
//! everything else byte for byte, including the file's line-ending
//! style.
//!
//! The engine works on raw bytes, not decoded text, and assumes only
//! an ASCII-compatible comment marker. Its full behaviour is stated as
//! specification functions next to the code; [`laws`] proves the
//! properties that relate whole runs, among them round-trip
//! idempotence and line-ending preservation.
//!
//! The remaining modules are byte and text utilities of independent
//! use: generic slice splitting ([`split`]), byte-level scanning
//! ([`bytes`]), integer ranges with a small parser ([`ranges`]) and
//! backslash escape decoding ([`escape`]).

pub mod args;
pub mod bytes;
pub mod engine;
pub mod escape;
pub mod laws;
pub mod ranges;
pub mod split;
