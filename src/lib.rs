//! A trace-driven cache simulator: address decoding, cache geometry, set storage
//! with LRU/FIFO replacement, and a replay loop that gathers hit statistics.

pub mod address;
pub mod cache;
pub mod text;
pub mod user_input;
