//! An offset that is known not to be zero.

use vstd::prelude::*;

verus! {

/// A `usize` that is not zero.
#[derive(Debug, Clone, Copy, PartialEq, Eq, Structural)]
pub struct NonZeroUsize {
    value: usize,
}

impl View for NonZeroUsize {
    type V = int;

    closed spec fn view(&self) -> int {
        self.value as int
    }
}

impl NonZeroUsize {
    #[verifier::type_invariant]
    spec fn not_zero(self) -> bool {
        self.value != 0
    }

    /// The non-zero value `n`, or `None` when `n` is zero.
    pub fn new(n: usize) -> (r: Option<Self>)
        ensures
            r is Some <==> n != 0,
            r matches Some(v) ==> v@ == n,
    {
        if n == 0 {
            None
        } else {
            Some(NonZeroUsize { value: n })
        }
    }

    /// The value as a plain `usize`.
    pub fn get(self) -> (r: usize)
        ensures
            r == self@,
            r != 0,
    {
        proof {
            use_type_invariant(self);
        }
        self.value
    }
}

/// Two non-zero values with the same number are the same value.
pub proof fn lemma_value_determines(a: NonZeroUsize, b: NonZeroUsize)
    ensures
        a@ == b@ ==> a == b,
{
}

/// The number behind an optional offset.
pub open spec fn offset_view(offset: Option<NonZeroUsize>) -> Option<int> {
    match offset {
        Some(v) => Some(v@),
        None => None,
    }
}

} // verus!
