pub mod engine;
pub mod laws;
pub mod numeric;
pub mod text;
pub mod tool;
