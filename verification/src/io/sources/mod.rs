/// An in-memory character cursor over a decoded byte buffer.
pub mod buffer;
