//! Formatted input and output in the style of FORTRAN-77.
//!
//! A format string such as `('label', 2X, I8.3/)` is a compact program: a
//! sequence of editing operations over one record stream. This crate
//! parses that mini-language into a tree ([`format`]), expands the tree on
//! demand into its sequence of leaf operations ([`iter`]), and drives that
//! sequence over supplied values, either emitting text ([`write`]) or
//! consuming it ([`read`]). Values are tagged with their editing kind
//! ([`types`]).
//!
//! Every function of the crate carries its contract. The parser is proved
//! equal to a specification-level parser over character sequences, the
//! printer to a specification-level print, and [`laws`] derives from the
//! two that re-parsing the canonical print of any parsed tree yields the
//! same tree back. The drivers' contracts state, leaf by leaf, what is
//! emitted or consumed, how the sticky option state moves, and when the
//! walk restarts from the top of the pattern (reversion).
//!
//! Sinks are plain strings and sources plain in-memory texts; adapters to
//! real byte streams stay outside the crate.

pub mod format;
pub mod iter;
pub mod laws;
pub mod read;
pub mod scan;
pub mod strutil;
pub mod types;
pub mod write;
