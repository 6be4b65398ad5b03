pub mod types;
pub mod logic;
pub mod mask;
pub mod laws;
