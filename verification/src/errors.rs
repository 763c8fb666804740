//! The error of the patch language.

use vstd::prelude::*;

verus! {

/// Why a patch, or a part of one, was refused.
#[derive(Debug)]
pub struct PatchError {
    pub message: String,
}

impl View for PatchError {
    type V = Seq<char>;

    open spec fn view(&self) -> Seq<char> {
        self.message@
    }
}

} // verus!
