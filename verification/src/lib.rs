//! Blocks and block headers of a MimbleWimble chain: their binary forms, how blocks are
//! built, made compact and hydrated, and how they are validated.

pub mod block;
pub mod compact;
pub mod consensus;
pub mod error;
pub mod filters;
pub mod hash;
pub mod header;
pub mod laws;
pub mod mining;
pub mod order;
pub mod secp;
pub mod ser;
pub mod totals;
pub mod transaction;
pub mod validate;
