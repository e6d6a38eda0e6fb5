pub mod task;
pub mod codec;
pub mod store;
pub mod service;
