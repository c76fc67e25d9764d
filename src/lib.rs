//! Range-aware video serving and room-scoped chat relaying.

pub mod range;
pub mod stream;
pub mod hub;
pub mod chat;
