//! Hierarchical key diff of two configuration documents.
//!
//! A document is flattened into a map from dotted paths to leaves, two such
//! maps are compared path by path, and the result is listed in an order of
//! paths that keeps a parent before its children. Each step has a
//! mathematical model and a contract that is proved against it:
//!
//! - [`value`]: the document, its view and deep structural equality;
//! - [`text`]: strings as character sequences and their lexical order;
//! - [`key`]: paths, their segments and the order of paths, with its laws;
//! - [`path_map`]: the map that keeps its entries in the order of paths;
//! - [`flatten`]: from a document to its leaves by path;
//! - [`diff`]: the added, removed and modified leaves;
//! - [`render`]: the text shown for a leaf;
//! - [`report`]: the report, piece by piece;
//! - [`error`]: why a document could not be loaded.
pub mod diff;
pub mod error;
pub mod flatten;
pub mod key;
pub mod path_map;
pub mod render;
pub mod report;
pub mod text;
pub mod value;
