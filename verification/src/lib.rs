pub mod bencoding;
pub mod client;
pub mod common;
pub mod constants;
pub mod io;
pub mod math;
pub mod wire;
pub mod message;
pub mod hex;
