//! The error value that every loading function returns on failure.

use vstd::prelude::*;

verus! {

/// What went wrong during a load.
#[derive(Clone, Copy, PartialEq, Eq, Debug, Structural)]
pub enum ErrorKind {
    /// The text is not a well-formed document of tables.
    Syntax,
    /// A group of names is opened by `[` and never closed.
    UnclosedBracket,
    /// A `[` stands where no prefix precedes it.
    EmptyPrefix,
    /// A string is not an artifact name.
    InvalidName,
    /// A recognized attribute holds a value of the wrong type.
    InvalidAttribute,
    /// An artifact carries attributes outside the accepted ones.
    UnknownAttributes,
    /// A value that must be a table is something else.
    NotATable,
    /// A global variable is not a string.
    InvalidGlobal,
    /// A global variable uses a reserved name.
    ReservedGlobal,
    /// An artifact name is declared twice.
    Overlap,
    /// A file or directory could not be read.
    Io,
    /// The path to load is neither a file nor a directory.
    InvalidPath,
    /// Some file or directory below a scanned directory failed to load.
    LoadFailed,
    /// Settings or variables could not be resolved.
    Resolve,
    /// A session was handed a reply to a request that it had not made.
    Unexpected,
}

/// An error with its kind and a message for people.
#[derive(Clone, Debug)]
pub struct LoadError {
    pub kind: ErrorKind,
    pub desc: String,
}

pub type LoadResult<T> = Result<T, LoadError>;

/// An error as contracts speak of it: its kind and the characters of its
/// message.
pub type Failure = (ErrorKind, Seq<char>);

impl View for LoadError {
    type V = Failure;

    open spec fn view(&self) -> Failure {
        (self.kind, self.desc@)
    }
}

impl LoadError {
    pub fn new(kind: ErrorKind, desc: String) -> (e: LoadError)
        ensures
            e@ == (kind, desc@),
    {
        LoadError { kind, desc }
    }

    /// The message of the error.
    pub fn to_string(&self) -> (s: String)
        ensures
            s@ == self.desc@,
    {
        self.desc.clone()
    }
}

} // verus!
