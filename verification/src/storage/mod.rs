pub mod db;
pub mod models;
