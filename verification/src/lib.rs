//! Verified core logic of the RMQTT broker plugins: MQTT topic matching,
//! offline message storage, shared-subscription selection, session-info
//! bookkeeping, retained-message batching, topic rewriting and more.
pub mod text;
pub mod topic;
pub mod message;
pub mod ram_store;
pub mod shared_sub;
pub mod session_store;
pub mod http_api;
pub mod storage;
pub mod helloworld;
pub mod retainer;
pub mod value_cache;
pub mod rewrite;
pub mod p2p;
pub mod storage_msg;
pub mod sys_topic;
pub mod time_injector;
pub mod session_flags;
pub mod history;
pub mod history_cache;
