//! Network policy inputs: entry parsing, resolved records and the DNS cache.

pub mod cache;
pub mod grammar;
pub mod parser;
pub mod resolver;
pub mod text;
