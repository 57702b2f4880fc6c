pub mod algorithms;
pub mod dataset;
pub mod ds;
pub mod utils;
