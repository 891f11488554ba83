/// Shared rendering of numeric values.
pub mod numbers;
/// The compact JSON printer.
pub mod default;
/// The XML encoder.
pub mod xml;
/// The YAML encoder.
pub mod yaml;
/// The ascending key order that the sorting serializers share.
pub mod order;
/// The bencode encoder, with keys sorted by byte order.
pub mod bencode;
/// The TOML encoder, with table and array-of-tables flattening.
pub mod toml;
