//! Loading of the artifacts of a requirements-tracking project: the grammar
//! of name lists, the reading of the tables that declare artifacts, settings
//! and variables, the walk over a directory tree, and the load of a path with
//! the paths that its settings lead to.
//!
//! The library reads no file itself. A `session::Session` asks for listings
//! and texts and is handed the replies, so that every decision of a load is
//! made, and verified, here.

pub mod error;
pub mod text;
pub mod strset;
pub mod map;
pub mod name;
pub mod expand;
pub mod node;
pub mod outside;
pub mod document;
pub mod artifact;
pub mod load;
pub mod scan;
pub mod session;
