pub mod auth;
pub mod basic_auth;
