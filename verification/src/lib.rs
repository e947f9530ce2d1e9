//! A streaming, event-based JSON parser.
//!
//! Bytes come from a [`source::Source`] and pass through four stages, each
//! pulled by the next:
//!
//! - the [`lexer::Lexer`] reads them through a buffer of fixed size and
//!   yields lexemes;
//! - the [`parser::Parser`] drives the state machine of the grammar and
//!   yields structural events;
//! - a [`builder::Prefix`] follows the path of each event and lets those
//!   under a reference path through;
//! - [`builder::Items`] makes values of the events.
//!
//! The first error of a stream is its last item. A [`feed::Feeder`] takes
//! the input chunk by chunk instead, for callers that read it themselves.
//!
//! What each stage yields is stated against the grammar in [`grammar`] and
//! the state machine in [`parser`]; [`laws`] and [`guarantee`] hold what
//! follows for the stages together.

pub mod ascii;
pub mod builder;
pub mod errors;
pub mod feed;
pub mod grammar;
pub mod guarantee;
pub mod iter;
pub mod laws;
pub mod lexer;
pub mod parser;
pub mod source;
pub mod value;
