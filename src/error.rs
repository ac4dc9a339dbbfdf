use vstd::prelude::*;

verus! {

/// The ways an operation of the store can fail.
#[derive(Clone, Copy, Debug, PartialEq, Eq, Structural)]
pub enum DbError {
    /// An empty table path, or empty content for a write.
    InvalidArgument,
    /// A table is created where something already stands.
    AlreadyExists,
    /// The table, row or field addressed is absent.
    NotFound,
    /// A field failed to encrypt, or failed to decrypt into text.
    CryptoError,
}

impl DbError {
    /// The status number that the store reports for this failure; success is 0.
    pub fn code(&self) -> (r: i8)
        ensures
            r == 1,
    {
        1
    }
}

/// The status number of an outcome: 0 for success, 1 for any failure.
pub fn status<T>(r: &Result<T, DbError>) -> (s: i8)
    ensures
        s == (if r is Ok { 0i8 } else { 1i8 }),
{
    match r {
        Ok(_) => 0,
        Err(e) => e.code(),
    }
}

} // verus!
