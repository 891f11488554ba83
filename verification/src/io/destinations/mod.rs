/// An in-memory append-only text sink.
pub mod buffer;
