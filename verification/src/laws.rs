//! Properties that span several functions, each stated and proved once.
pub mod blocks;
pub mod cross;
pub mod filters;
pub mod generator;
pub mod gpu;
pub mod search;
pub mod session;
pub mod tab;
pub mod text;
