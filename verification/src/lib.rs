//! The storage core of an append-only store of rows that are found by
//! points in space: blocks of bytes with a record of which bytes are known,
//! a cache of such blocks in front of a byte store, the format of the blocks
//! of rows with its bitfield of live rows, and the bookkeeping of the data
//! store. Nothing here reads or writes a store: the functions say what to
//! read and write, and take the bytes that were read.

pub mod block;
pub mod block_cache;
pub mod cache;
pub mod coherence;
pub mod data;
pub mod format;
pub mod reader;
