//! Verified core of an API-key-pooling reverse proxy: configuration, the
//! weighted round-robin key pool, retry policy, request authentication and
//! the small pure decisions made by the HTTP handlers.

pub mod config;
pub mod error;
pub mod handlers;
pub mod middleware;
pub mod proxy;
pub mod state;
pub mod storage;
pub mod text;
