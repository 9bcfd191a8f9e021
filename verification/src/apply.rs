//! Calling functions as values, so that what a call gave back stays known as
//! what that function may give back for those arguments.
use vstd::prelude::*;

verus! {

/// `f` of one argument.
pub fn apply<A, R, F: Fn(A) -> R>(f: F, a: A) -> (r: R)
    requires
        call_requires(f, (a,)),
    ensures
        call_ensures(f, (a,), r),
{
    f(a)
}

/// `f` of two arguments.
pub fn apply_two<A, B, R, F: Fn(A, B) -> R>(f: F, a: A, b: B) -> (r: R)
    requires
        call_requires(f, (a, b)),
    ensures
        call_ensures(f, (a, b), r),
{
    f(a, b)
}

} // verus!
