//! A crash-safe key-value storage engine built as a log-structured merge tree.

pub mod bytes;
pub mod compaction;
pub mod db;
pub mod encode;
pub mod error;
pub mod files;
pub mod keymap;
pub mod layers;
pub mod manifest;
pub mod memtable;
pub mod outcomes;
pub mod record;
pub mod recovery;
pub mod sstable;
pub mod text;
pub mod wal;
