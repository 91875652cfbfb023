//! The generic values that a declaration file holds once its text is parsed.

use vstd::prelude::*;
use crate::map::StrMap;

verus! {

/// A node of a document: a scalar, an array of values, or a table.
#[derive(Debug)]
pub enum Node {
    String(String),
    Integer(i64),
    /// A floating-point number, held as the bits of its IEEE 754 double.
    Float(u64),
    Boolean(bool),
    Datetime(String),
    Array(Vec<Node>),
    Table(Table),
}

/// A table: keys with their values.
pub type Table = StrMap<Node>;

} // verus!
