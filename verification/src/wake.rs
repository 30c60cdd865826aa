//! The verifier's knowledge of `std::task::Waker`.
use std::task::Waker;
use vstd::prelude::*;

verus! {

/// Declares `std::task::Waker` to the verifier as an opaque value. The
/// library only stores wakers and hands them back; it never looks inside one
/// and never fires one.
#[verifier::external_type_specification]
#[verifier::external_body]
pub struct ExWaker(Waker);

} // verus!
