//! Recovers the seed of a world from the bedrock pattern of its floor and roof.
//!
//! * `raw_data` and `progress`: blocks, modes and reports.
//! * `java`: the random number generator, forwards and backwards.
//! * `binary64`: the floating-point arithmetic of thresholds and estimates, on integers.
//! * `block_data`: from a block to a check on seeds, and how much the check filters.
//! * `plan`: which checks each surface gets, and which seeds each worker searches.
//! * `cross`: from a seed of one surface to structure seeds and world seeds.
//! * `gpu`, `gpu_search` and `shader`: what the graphics processor is handed, in which order it
//!   searches, and the arithmetic with which it does so.
//! * `tab`, `text` and `session`: what is typed in, what is read from files, and the account of a
//!   running search.
//! * `laws`: what holds across these modules.
pub mod arith;
pub mod binary64;
pub mod block_data;
pub mod cross;
pub mod gpu;
pub mod gpu_search;
pub mod java;
pub mod laws;
pub mod plan;
pub mod progress;
pub mod raw_data;
pub mod session;
pub mod shader;
pub mod tab;
pub mod text;

pub use crate::plan::estimate_result_amount;
pub use crate::progress::CrackProgress;
