pub mod agent;
pub mod kernel;
pub mod memory;
pub mod models;
pub mod network;
pub mod text;
pub mod tokenizer;
