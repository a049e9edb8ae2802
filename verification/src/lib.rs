//! A compressed, block-structured store for `u32` values that arrive in
//! non-decreasing order, with exact-membership lookup that unpacks one
//! block per query.

pub mod codec;
pub mod index;
pub mod store;
