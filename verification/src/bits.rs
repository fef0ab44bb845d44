//! The pure part of the execution driver: extracting the requested
//! classical bits from a collapse outcome.  The outcome is an integer whose
//! bit `i` is qubit `i`'s measured value.

use vstd::prelude::*;

verus! {

/// Extracts, for each requested target qubit in the order given, the
/// corresponding bit of the measurement outcome, by shift and mask.
///
/// Each target must lie within the machine word; the language itself never
/// bounds targets by the declared qubit count, so the caller checks this.
pub fn extract_bits(outcome: usize, targets: &Vec<usize>) -> (r: Vec<usize>)
    requires
        forall|i: int| 0 <= i < targets@.len() ==> #[trigger] targets@[i] < usize::BITS,
    ensures
        r@.len() == targets@.len(),
        forall|i: int|
            0 <= i < targets@.len() ==> #[trigger] r@[i] == (outcome >> targets@[i]) & 1,
{
    let mut r: Vec<usize> = Vec::new();
    let n = targets.len();
    let mut i: usize = 0;
    while i < n
        invariant
            0 <= i <= n,
            n == targets@.len(),
            forall|j: int| 0 <= j < targets@.len() ==> #[trigger] targets@[j] < usize::BITS,
            r@.len() == i,
            forall|j: int|
                0 <= j < i ==> #[trigger] r@[j] == (outcome >> targets@[j]) & 1,
        decreases n - i,
    {
        let t = targets[i];
        let bit = (outcome >> t) & 1;
        r.push(bit);
        i = i + 1;
    }
    r
}

} // verus!
