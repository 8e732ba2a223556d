pub mod config;
pub mod decode;
pub mod event;
pub mod laws;
pub mod value;
