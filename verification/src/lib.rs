pub mod core_manager;
pub mod text;
pub mod service;
pub mod stream_config;
pub mod market;
