//! Conversation archive: storage keys, import shaping and case-insensitive
//! search over an in-memory index, with contracts checked by Verus.
pub mod server;
