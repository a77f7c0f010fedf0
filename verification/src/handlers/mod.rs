pub mod admin;
pub mod anthropic;
