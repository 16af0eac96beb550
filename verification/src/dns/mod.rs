//! The filtering resolver that answers the queries of the server's clients.

pub mod cache;
pub mod filter;
pub mod glob;
pub mod journal;
pub mod laws;
pub mod lists;
pub mod resolver;
pub mod services;
pub mod settings;
pub mod upstream;
pub mod wire;
