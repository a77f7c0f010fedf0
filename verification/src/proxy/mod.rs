pub mod forwarder;
pub mod key_pool;
pub mod retry;
