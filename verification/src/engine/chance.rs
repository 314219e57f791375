//! The one source of chance that the engine draws on.

use rand::Rng;
use vstd::prelude::*;

verus! {

/// Draws a boolean from the thread's random generator with
/// `rand::Rng::gen_ratio`: true with a chance of `numerator` in
/// `denominator`. Nothing is claimed of the outcome but what holds of every
/// draw: it is true where the two numbers are equal and false where the
/// numerator is zero.
#[verifier::external_body]
pub(crate) fn random_ratio(numerator: u32, denominator: u32) -> (hit: bool)
    requires
        denominator > 0,
        numerator <= denominator,
    ensures
        numerator == denominator ==> hit,
        numerator == 0 ==> !hit,
{
    rand::thread_rng().gen_ratio(numerator, denominator)
}

/// Draws a number from the thread's random generator with
/// `rand::Rng::gen_range`, which gives a number that is at least `low` and
/// less than `high`. Nothing more is claimed of the outcome.
#[verifier::external_body]
pub(crate) fn random_below(low: u64, high: u64) -> (n: u64)
    requires
        low < high,
    ensures
        low <= n < high,
{
    rand::thread_rng().gen_range(low, high)
}

/// The flip at `i` hit, and no flip before it did.
pub open spec fn is_first_hit(flips: Seq<bool>, i: int) -> bool {
    0 <= i < flips.len() && flips[i] && forall|j: int| 0 <= j < i ==> !flips[j]
}

/// The index of the first flip that hit, or 0 where none did.
pub open spec fn first_hit(flips: Seq<bool>) -> int {
    if exists|i: int| is_first_hit(flips, i) {
        choose|i: int| is_first_hit(flips, i)
    } else {
        0
    }
}

/// Finds the index at which a scan stops: the index of the first flip that
/// hit, or 0 where none did.
pub fn stop_of(flips: &[bool]) -> (i: usize)
    ensures
        i == first_hit(flips@),
        flips.len() > 0 ==> i < flips.len(),
{
    let mut i: usize = 0;
    while i < flips.len()
        invariant
            i <= flips.len(),
            forall|j: int| 0 <= j < i ==> !flips@[j],
        decreases flips.len() - i,
    {
        if flips[i] {
            proof {
                assert(is_first_hit(flips@, i as int));
                let k = first_hit(flips@);
                assert(is_first_hit(flips@, k));
                if k < i {
                    assert(!flips@[k]);
                } else if i < k {
                    assert(!flips@[i as int]);
                }
            }
            return i;
        }
        i += 1;
    }
    0
}

/// Scans the indices below `n` in turn and stops at each with one chance in
/// four; where the scan runs out, the index is 0. One flip is drawn for each
/// index, and the index is that of the first flip that hit.
pub fn scan_index(n: usize) -> (i: usize)
    ensures
        exists|flips: Seq<bool>| flips.len() == n && i == #[trigger] first_hit(flips),
        n > 0 ==> i < n,
        n == 0 ==> i == 0,
{
    let mut flips: Vec<bool> = Vec::new();
    while flips.len() < n
        invariant
            flips.len() <= n,
        decreases n - flips.len(),
    {
        flips.push(random_ratio(1, 4));
    }
    stop_of(flips.as_slice())
}

} // verus!
