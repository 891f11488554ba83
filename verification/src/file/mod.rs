/// Text-file encoding tags and recognition of their byte order marks.
pub mod file;
