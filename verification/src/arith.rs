//! Caller-supplied arithmetic on encoded numbers.
//!
//! The search works on numbers carried as opaque `u64` encodings and never
//! interprets them itself: every operation it needs is a closure handed in
//! by the caller.  For the search result to be a function of its inputs,
//! each closure must be callable on all arguments and must behave as a
//! function (equal arguments give equal results).  The spec functions here
//! name those conditions and extract, from such a closure, the
//! mathematical function it computes.

use vstd::prelude::*;

verus! {

/// The closure accepts every pair of arguments.
pub open spec fn total2<F: Fn(u64, u64) -> R, R>(f: F) -> bool {
    forall|a: u64, b: u64| #[trigger] call_requires(f, (a, b))
}

/// The closure behaves as a function: any two results it can return for
/// the same arguments are equal.
pub open spec fn deterministic2<F: Fn(u64, u64) -> R, R>(f: F) -> bool {
    forall|a: u64, b: u64, r1: R, r2: R|
        #![trigger call_ensures(f, (a, b), r1), call_ensures(f, (a, b), r2)]
        call_ensures(f, (a, b), r1) && call_ensures(f, (a, b), r2) ==> r1 == r2
}

/// Both conditions at once: the closure denotes a total function.
pub open spec fn functional2<F: Fn(u64, u64) -> R, R>(f: F) -> bool {
    total2(f) && deterministic2(f)
}

/// The mathematical function a deterministic closure computes.
pub open spec fn apply2<F: Fn(u64, u64) -> R, R>(f: F, a: u64, b: u64) -> R {
    choose|r: R| call_ensures(f, (a, b), r)
}

/// A result actually returned by a deterministic closure is the value of
/// the function it computes.
pub proof fn lemma_apply2<F: Fn(u64, u64) -> R, R>(f: F, a: u64, b: u64, r: R)
    requires
        deterministic2(f),
        call_ensures(f, (a, b), r),
    ensures
        apply2(f, a, b) == r,
{
    assert(call_ensures(f, (a, b), apply2(f, a, b)));
}

} // verus!
