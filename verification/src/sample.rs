//! Per-sample reduction of raw entropy values to single bits: each sample
//! aggregates to the parity of its set bits, and silence is the zero
//! sample.

use vstd::prelude::*;

verus! {

/// The parity of the low `n` bits of `v`: true for an odd number of set
/// bits among them.
pub open spec fn bit_parity(v: u16, n: int) -> bool
    decreases n,
{
    if n <= 0 {
        false
    } else {
        bit_parity(v, n - 1) != ((v >> ((n - 1) as u16)) & 1 == 1)
    }
}

/// One raw entropy sample: reducible to a single bit, and testable for
/// silence.
pub trait Sample: Sized {
    /// The bit this sample aggregates to.
    spec fn aggregate_spec(self) -> bool;

    /// Whether this sample counts as silence.
    spec fn is_silent_spec(self) -> bool;

    /// Reduces this sample to a single entropy bit.
    fn aggregate_sample(self) -> (r: bool)
        ensures
            r == self.aggregate_spec(),
    ;

    /// True when this sample is silence.
    fn is_silent(self) -> (r: bool)
        ensures
            r == self.is_silent_spec(),
    ;
}

impl Sample for u16 {
    open spec fn aggregate_spec(self) -> bool {
        bit_parity(self, 16)
    }

    open spec fn is_silent_spec(self) -> bool {
        self == 0
    }

    fn aggregate_sample(self) -> (r: bool) {
        let mut acc = false;
        let mut k: u16 = 0;
        while k < 16
            invariant
                k <= 16,
                acc == bit_parity(self, k as int),
            decreases 16 - k,
        {
            acc = acc != (((self >> k) & 1) == 1);
            k = k + 1;
        }
        acc
    }

    fn is_silent(self) -> (r: bool) {
        self == 0
    }
}

impl Sample for i16 {
    open spec fn aggregate_spec(self) -> bool {
        bit_parity(self as u16, 16)
    }

    open spec fn is_silent_spec(self) -> bool {
        self == 0
    }

    fn aggregate_sample(self) -> (r: bool) {
        (self as u16).aggregate_sample()
    }

    fn is_silent(self) -> (r: bool) {
        self == 0
    }
}

} // verus!
