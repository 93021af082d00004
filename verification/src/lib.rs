pub mod config;
pub mod engine;
pub mod errors;
pub mod input;
pub mod laws;
pub mod paths;
pub mod query;
pub mod tags;
pub mod text;
