pub mod solution;
pub mod state;
