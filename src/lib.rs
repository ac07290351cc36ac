//! A live segment relay: an arena-allocated byte-path trie that maps paths to
//! entries, and the append-only entry with its streaming reader protocol.
pub mod trie;
pub mod entry;
pub mod relay;
