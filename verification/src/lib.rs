//! The memory pool of a Narwhal node: batch certificates by round, and the
//! transmissions that they carry.

pub mod batch;
pub mod collection;
pub mod committee;
pub mod consistency;
pub mod context;
pub mod effects;
pub mod error;
pub mod ids;
mod index;
pub mod laws;
pub mod meaning;
pub mod model;
pub mod ordered;
pub mod signature;
pub mod storage;
pub mod transmission;
pub mod undo;
pub mod verdicts;
