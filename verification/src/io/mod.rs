/// Sources: cursors that hand out one character at a time.
pub mod sources;
/// Destinations: append-only sinks for serializer output.
pub mod destinations;
