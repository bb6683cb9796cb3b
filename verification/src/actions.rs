use vstd::prelude::*;

verus! {

/// The error a backend reports when an input/output step fails.  The cause
/// is carried as plain text so that it can cross the backend boundary.
#[derive(Debug)]
pub enum Error {
    Io(String),
}

impl Error {
    /// The text of the wrapped cause.
    pub fn message(&self) -> (r: String)
        ensures
            self matches Error::Io(m) ==> r@ == m@,
    {
        match self {
            Error::Io(m) => m.clone(),
        }
    }
}

} // verus!
