pub mod chunking;
pub mod event_queue;
pub mod evolution;
pub mod generator;
