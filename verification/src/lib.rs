pub mod capability;
pub mod config;
pub mod dictionary;
pub mod logs;
pub mod service;
pub mod text;
pub mod window;
