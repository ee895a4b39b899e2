//! The decisions of a reverse proxy that spreads requests over a ring of API keys.

pub mod config;
pub mod environment;
pub mod exchange;
pub mod expand;
pub mod headers;
pub mod laws;
pub mod pool;
pub mod proxy;
pub mod state;
pub mod text;
