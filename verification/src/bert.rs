//! The error categories of the classification pipeline.

use vstd::prelude::*;

verus! {

/// What can go wrong while a sentence is classified.
#[derive(Clone, Copy, Debug, PartialEq, Eq, Structural)]
pub enum BertErrors {
    /// The tokenizer failed on a sentence.
    TokenizerError,
    /// The model failed to load or to run.
    TorchError,
}

impl BertErrors {
    /// The message shown for the error.
    pub open spec fn spec_message(&self) -> Seq<char> {
        match self {
            BertErrors::TokenizerError => "Error in tokenization"@,
            BertErrors::TorchError => "Error in torch model"@,
        }
    }

    /// The message shown for the error.
    pub fn message(&self) -> (r: String)
        ensures
            r@ == self.spec_message(),
    {
        match self {
            BertErrors::TokenizerError => String::from_str("Error in tokenization"),
            BertErrors::TorchError => String::from_str("Error in torch model"),
        }
    }
}

} // verus!
