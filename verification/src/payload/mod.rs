//! Payloads of the Bot API: how each method is classified for the queue,
//! and the source text that carries the classification.

pub mod hint;
pub mod laws;
pub mod policy;
pub mod render;
pub mod rendering;
pub mod schema;
pub mod table;
