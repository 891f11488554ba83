/// The error messages that the parser reports.
pub mod messages;
