//! Streaming, zero-copy parsing and structural validation for ASC X12
//! interchanges.
//!
//! The crate is organised leaf-first:
//! * [`scan`] — the byte-level model: line-break runs, first occurrence of a
//!   delimiter byte, and separator-delimited splitting;
//! * [`parser`] — the two-state streaming segment parser that discovers the
//!   delimiters from the fixed-width ISA header and hands borrowed segment
//!   views to a handler;
//! * [`segment`] — an eager, one-segment-at-a-time parser whose segments carry
//!   their elements as an indexed collection;
//! * [`validation`] — composable validators that accumulate structural and
//!   inter-segment findings without stopping the parse;
//! * [`host`] — the buffer manager that pumps a byte source through the
//!   streaming parser, compacting and growing its working buffer as needed.

pub mod scan;

pub mod parser;

pub mod segment;

pub mod validation;

pub mod host;
