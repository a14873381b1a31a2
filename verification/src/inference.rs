//! Shared pieces of the inference boundary: the error raised when a language
//! model yields no usable output, and the inference scheduling kinds.

use vstd::prelude::*;

verus! {

/// Error raised when no scored outputs are available from the language model.
#[derive(Debug)]
pub struct InferenceOutputError {
    pub message: String,
}

impl InferenceOutputError {
    pub fn new(message: String) -> (r: Self)
        ensures
            r.message@ == message@,
    {
        InferenceOutputError { message }
    }
}

/// How a batch of prompts is processed.
#[derive(Debug, Clone, Copy, PartialEq, Eq, Structural)]
pub enum InferenceType {
    Iterative,
    Multiprocess,
}

} // verus!
