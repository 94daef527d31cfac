//! A remote collection of text documents, exposed as a directory tree.

pub mod attr;
pub mod client;
pub mod content;
pub mod error;
pub mod fs;
pub mod node;
pub mod ordered;
