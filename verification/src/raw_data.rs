//! The values that describe an observation and a search.
pub mod block;
pub mod block_type;
pub mod modes;
