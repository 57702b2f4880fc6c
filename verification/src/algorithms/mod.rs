pub mod bmssp;
pub mod dfs;
pub mod divide_conquer;
pub mod dp;
pub mod matrix;
pub mod misc;
pub mod pagerank;
pub mod ssp;
pub mod textbook_1_2;
pub mod word_count;
