//! Inlines `?raw` imports: resolves the imported file, and replaces the import
//! with a constant that holds the file's text.
pub mod error;
pub mod path;
pub mod resolve;
pub mod rewrite;
pub mod text;
