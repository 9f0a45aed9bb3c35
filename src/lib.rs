pub mod engine;
pub mod models;
pub mod store;
