//! Persisted hash maps and the byte buffers that feed them.

pub mod align;
pub mod aligned;
pub mod batch;
pub mod bytes_buffer;
pub mod calls;
pub mod entries;
pub mod entry;
pub mod file;
pub mod key_types;
pub mod keys;
pub mod lookup;
pub mod native;
pub mod overlap;
pub mod phf;
pub mod plain;
pub mod reads;
pub mod record;
pub mod rounds;
pub mod scanner;
pub mod sparse;
pub mod state;
pub mod universal_hashmap;
pub mod values;
pub mod visit;
