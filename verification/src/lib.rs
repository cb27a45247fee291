//! Stream framing for Cap'n Proto messages, verified with Verus.
//!
//! A message travels as a segment table followed by the words of its
//! segments. This crate holds the layout of that table, the decisions of a
//! reader and of a writer that move a message over a stream in pieces of any
//! size, and the same operations on streams held in memory.
//!
//! - [`segment_table`] lays out the table and checks one that was read.
//! - [`table_reader`] and [`segments_reader`] say what to ask of a source
//!   next and what the bytes that came amount to; [`message_writer`] says
//!   what to offer to a sink next. They do no reading or writing themselves,
//!   so they serve a source or sink of any kind.
//! - [`serialize`] reads and writes messages in memory.
//! - [`wire`] says, over sequences of bytes, what a message is written as and
//!   what a stream is read as; [`laws`] holds what follows of the two
//!   together.
//! - [`words`] holds what is taken from the `capnp` crate.

pub mod bytes;
pub mod error;
pub mod laws;
pub mod little_endian;
pub mod message_writer;
pub mod options;
pub mod segment_table;
pub mod segments_reader;
pub mod serialize;
pub mod table_reader;
pub mod wire;
pub mod word_buffer;
pub mod words;
