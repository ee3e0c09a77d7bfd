pub mod cache;
pub mod compile_db;
pub mod config;
pub mod parser;
pub mod path;
pub mod shell;
pub mod text;
pub mod xcactivitylog;
pub mod sync;
pub mod connection;
pub mod server;
pub mod export;
pub mod bsp;
pub mod json;
