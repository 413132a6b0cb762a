pub mod read_buffer;

pub use read_buffer::ReadBuffer;
