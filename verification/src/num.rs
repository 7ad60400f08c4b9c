//! Integers that are known not to be zero.
use vstd::prelude::*;

verus! {

/// A `usize` that is never zero.
#[derive(Debug, Clone, Copy, PartialEq, Eq, Structural)]
pub struct NonZeroUsize {
    value: usize,
}

impl View for NonZeroUsize {
    type V = nat;

    closed spec fn view(&self) -> nat {
        self.value as nat
    }
}

impl DeepView for NonZeroUsize {
    type V = nat;

    open spec fn deep_view(&self) -> nat {
        self@
    }
}

impl NonZeroUsize {
    #[verifier::type_invariant]
    spec fn not_zero(self) -> bool {
        self.value != 0
    }

    /// Wraps `n`, unless it is zero.
    pub fn new(n: usize) -> (r: Option<Self>)
        ensures
            r is None <==> n == 0,
            r matches Some(v) ==> v@ == n,
    {
        if n == 0 {
            None
        } else {
            Some(NonZeroUsize { value: n })
        }
    }

    /// The number one.
    pub fn one() -> (r: Self)
        ensures
            r@ == 1,
    {
        NonZeroUsize { value: 1 }
    }

    /// The wrapped number.
    pub fn get(self) -> (r: usize)
        ensures
            r == self@,
            r > 0,
    {
        proof {
            use_type_invariant(&self);
        }
        self.value
    }
}

} // verus!
