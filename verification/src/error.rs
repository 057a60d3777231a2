use vstd::prelude::*;

verus! {

/// Why an operation could not build a new version.
#[derive(Debug, Clone, Copy, PartialEq, Eq, Structural)]
pub enum Error {
    /// The collection holds no element to take out.
    Empty,
    /// The index is not below the length of the list.
    InvalidIndex,
}

impl Error {
    /// What the error says, in words.
    pub fn message(&self) -> (s: &'static str)
        ensures
            s@ == (match *self {
                Error::Empty => "empty"@,
                Error::InvalidIndex => "invalid index"@,
            }),
    {
        match self {
            Error::Empty => "empty",
            Error::InvalidIndex => "invalid index",
        }
    }
}

} // verus!
