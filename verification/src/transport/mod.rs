//! What goes over the wire between nodes.
pub mod chunk_assembler;
pub mod chunking;
pub mod crdt_batch;
pub mod packing;
pub mod sync_stream;
pub mod wire_laws;
