//! Shape matching over precomputed road grids: a bounded cache of built
//! locations, windows of their distance buffers, and the ranking of match
//! scores.

pub mod cache;
pub mod config;
pub mod location;
pub mod lru;
pub mod matcher;
pub mod rank;
pub mod saved;
pub mod sort;
pub mod window;
