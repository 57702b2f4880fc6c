pub mod dfs;
pub mod dp;
pub mod graph;
pub mod misc;
pub mod seq;
pub mod ssp;
pub mod text;
