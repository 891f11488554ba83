/// The recursive-descent parser and its specification.
pub mod default;
