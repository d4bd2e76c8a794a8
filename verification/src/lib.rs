//! A single-writer key-value store in the Bitcask family.
//!
//! The engine keeps, for every live key, the exact byte range that holds its
//! latest value inside an append-only segment file.  It never touches the
//! file system itself: every operation updates the in-memory index and hands
//! back the reads and writes that the embedding program has to carry out.
//!
//! Keys and values are byte strings; keys are ordered byte by byte.  A
//! program that wants a failed file operation to leave the handle as it was
//! asks `OnDisk::plan` for the effect of an operation, carries it out, and
//! calls `eval_op` only when that went well.
//!
//! `model` says what every operation does, `laws` what follows for the
//! store as a whole, and `engine` holds the code that is proved against
//! both.

pub mod assoc;
pub mod disk;
pub mod engine;
pub mod freeslots;
pub mod keydir;
pub mod laws;
pub mod model;
pub mod order;
pub mod packing;
pub mod path;
pub mod record;
pub mod tails;
pub mod types;

pub use engine::{eval_op, Db, OnDisk, ToDisk};
pub use freeslots::FreeSlots;
pub use keydir::KeyDir;
pub use order::{bytes_rank, Rank};
pub use record::encode_record;
pub use types::{Compaction, Effect, Entry, Error, Op, ReadOp, Slot, WriteOp};
