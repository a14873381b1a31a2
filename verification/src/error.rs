//! Error raised when a dataset cannot be used.

use vstd::prelude::*;

verus! {

/// A dataset is invalid, with a message saying why.
#[derive(Debug)]
pub struct InvalidDatasetError(pub String);

impl InvalidDatasetError {
    /// The rendered error message.
    pub fn message(&self) -> (r: String)
        ensures
            r@ == "InvalidDatasetError: "@ + self.0@,
    {
        let mut msg = String::from_str("InvalidDatasetError: ");
        msg.append(self.0.as_str());
        msg
    }
}

} // verus!
