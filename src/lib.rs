//! Input front-end of a streaming HTML parser: a queue of decoded text that
//! hides chunk boundaries, and a bounded prescan of raw bytes for a declared
//! character encoding.

pub mod buffer_queue;
pub mod prescan;
