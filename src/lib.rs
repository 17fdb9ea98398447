pub mod keys;
pub mod table;
pub mod num;
pub mod model;
pub mod storage;
pub mod commands;
pub mod laws;
pub mod raft_error;
pub mod message;
pub mod raft_state;
pub mod log_store;
pub mod consensus;
pub mod raft_laws;
pub mod text_order;
pub mod avl;
pub mod cache;
pub mod frame;
pub mod config;
pub mod local_config;
pub mod session;
pub mod node;
