use vstd::prelude::*;

verus! {

use crate::actions::Error;

/// What can go wrong around the object store: an object or format that is
/// not there, a failed backend step, or bytes that do not follow an
/// encoding.
#[derive(Debug)]
pub enum ObjectError {
    Inexistent(String),
    IoError(Error),
    InvalidData(String),
}

impl ObjectError {
    /// The text of the failure.
    pub fn message(&self) -> (r: String)
        ensures
            self matches ObjectError::Inexistent(m) ==> r@ == m@,
            self matches ObjectError::InvalidData(m) ==> r@ == m@,
    {
        match self {
            ObjectError::Inexistent(m) => m.clone(),
            ObjectError::IoError(e) => e.message(),
            ObjectError::InvalidData(m) => m.clone(),
        }
    }
}

} // verus!
