//! Which of a series of equal events are worth a line in the log.
use vstd::arithmetic::power2::pow2;
use vstd::prelude::*;

verus! {

pub open spec fn power_of_two(n: nat) -> bool {
    exists|k: nat| n == #[trigger] pow2(k)
}

/// `u64::is_power_of_two` tells the powers of two apart.
pub assume_specification[ u64::is_power_of_two ](n: u64) -> (r: bool)
    ensures
        r == power_of_two(n as nat),
;

/// The event numbered `n`, from 0 on, is loud if it is the first or its number
/// is a power of two.
pub fn nth_is_loud(n: u64) -> (r: bool)
    ensures
        r == (n == 0 || power_of_two(n as nat)),
{
    n == 0 || n.is_power_of_two()
}

} // verus!
