//! A small toolkit for semi-structured data: a unified value model (`Node`),
//! a recursive-descent parser for a JSON-like text format, and serializers
//! that re-emit a value tree as compact JSON, bencode, XML, YAML or TOML,
//! together with a pretty-printer and a whitespace stripper.
//!
//! Every conversion is specified against a mathematical model of the value
//! tree and of the character streams it reads and writes.

/// Unicode text-file format tags and byte-order-mark recognition.
pub mod file;
/// Character classes, decimal rendering and lexicographic order on text.
pub mod text;

/// The value model: `Node`, its numeric sub-union, and construction helpers.
pub mod nodes;
/// Input/output buffer abstractions: a character cursor and an append-only sink.
pub mod io;
/// The recursive-descent parser from text to `Node`.
pub mod parser;
/// Error messages shared by the parser.
pub mod error;
/// The serializers from `Node` to the supported text formats.
pub mod stringify;
/// Utilities: version string, pretty-printer, whitespace stripper.
pub mod misc;
/// The laws that relate parsing and the serializers, stated and proved.
pub mod laws;

pub use file::file::Format;
pub use misc::get_version as version;
pub use misc::strip as strip_whitespace;
pub use misc::print;
pub use nodes::node::Node;
pub use nodes::node::Numeric;
pub use io::sources::buffer::Buffer as BufferSource;
pub use io::destinations::buffer::Buffer as BufferDestination;
pub use nodes::node::make_node;
pub use parser::default::parse;
