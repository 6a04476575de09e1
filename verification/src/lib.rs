pub mod annotations;
pub mod bundle_laws;
pub mod crdt_kv;
pub mod gossip_service;
pub mod inflight;
pub mod inventory;
pub mod key_table;
pub mod kv;
pub mod least_load;
pub mod reasoning_parser;
pub mod service_laws;
pub mod text;
pub mod text_laws;
pub mod time;
pub mod tokenizer_bundle;
pub mod tool_parser;
pub mod transport;
