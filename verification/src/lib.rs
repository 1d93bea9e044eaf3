pub mod config;
pub mod connection;
pub mod dict;
pub mod error;
pub mod frame;
pub mod fs;
pub mod json;
pub mod message;
pub mod roundtrip;
pub mod state;
pub mod text;
pub mod utils;

pub use error::DraduError;
