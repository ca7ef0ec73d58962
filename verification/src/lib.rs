pub mod board;
pub mod errors;
pub mod frontier;
pub mod laws;
pub mod search;
pub mod state;
