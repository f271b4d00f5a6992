pub mod counts;
pub mod engine;
pub mod submit;
