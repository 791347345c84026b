//! The errors that the library reports.

use vstd::prelude::*;

use crate::ids::PageId;

verus! {

/// What can go wrong in a call that reports failure instead of ruling it out.
#[derive(Clone, Copy, Debug, PartialEq, Eq, Structural)]
pub enum CrustyError {
    /// Two fields have no sum: one of them is no number, or the sum does not fit.
    FieldAddition,
    /// The page lies (partly) behind the end of its heap file.
    PageRead(PageId),
    /// The slot holds no value.
    ValueNotFound,
    /// A failure of an operator outside this library, told apart by a code of its choosing.
    Operator(u32),
}

} // verus!
