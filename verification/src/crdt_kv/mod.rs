//! A replicated key-value store made of conflict-free data types.
pub mod change_laws;
pub mod count_laws;
pub mod crdt;
pub mod crdt_laws;
pub mod engine;
pub mod epoch_max_wins;
pub mod history_laws;
pub mod kv_store;
pub mod log_laws;
pub mod map_laws;
pub mod operation;
pub mod order_laws;
pub mod relay_laws;
pub mod replica;
pub mod watermark;
