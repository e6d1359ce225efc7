//! Proofs of work in the Hashcash scheme: reading the puzzle that a server poses
//! in a header, and searching for the nonce that solves it.

pub mod blocks;
pub mod encoding;
pub mod gencash;
pub mod header;
pub mod message;
pub mod search;
pub mod sha256;
pub mod sha_laws;
pub mod sha_model;
