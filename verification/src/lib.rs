//! An append-only archive of chat sessions.
//!
//! Sessions live in numbered segments: a data file of length-prefixed
//! compressed blocks, and beside it an index file with one entry per block
//! (the ids in the block, its time range, and a Bloom filter over its words).
//! Streamed events wait in a pending log until their session is finalised.

/// Conversations of a ChatGPT export.
pub mod chatgpt;
/// What the command line tool decides and says.
pub mod cli;
/// Bytes of the stored records.
pub mod codec;
/// Division of 128-bit numbers.
pub mod division;
/// Length-prefixed frames.
pub mod frames;
/// Importing sessions from the formats in which they come.
pub mod import;
/// Indexing and search logic (Bloom filters, BlockIndex).
pub mod index;
/// What holds of the library as a whole.
pub mod laws;
/// Waiting for the lock of the archive.
pub mod lock;
/// Free-form metadata.
pub mod metadata;
/// Queries: plain text or regular expressions.
pub mod pattern;
/// Requests to the tool server and the replies to them.
pub mod rpc;
/// Data schemas (stored records, input forms, events).
pub mod schema;
/// Storage engine core (WAL, Append/Rotate, Compaction).
pub mod storage;
/// Strings as sequences of characters.
pub mod text;
