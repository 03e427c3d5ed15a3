use vstd::prelude::*;

verus! {

/// `a + b`, capped at `usize::MAX`.
pub open spec fn sat_add(a: int, b: int) -> int {
    if a + b > usize::MAX { usize::MAX as int } else { a + b }
}

/// `a * b`, capped at `usize::MAX`.
pub open spec fn sat_mul(a: int, b: int) -> int {
    if a * b > usize::MAX { usize::MAX as int } else { a * b }
}

pub open spec fn max2(a: int, b: int) -> int {
    if a >= b { a } else { b }
}

/// Sum of two lengths; a sum past `usize::MAX` stays at `usize::MAX`.
pub fn cap_add(a: usize, b: usize) -> (r: usize)
    ensures
        r == sat_add(a as int, b as int),
{
    a.saturating_add(b)
}

/// Product of two quantities; a product past `usize::MAX` stays at `usize::MAX`.
pub fn cap_mul(a: usize, b: usize) -> (r: usize)
    ensures
        r == sat_mul(a as int, b as int),
{
    match a.checked_mul(b) {
        Some(p) => p,
        None => usize::MAX,
    }
}

pub fn max(a: usize, b: usize) -> (r: usize)
    ensures
        r == max2(a as int, b as int),
{
    if a >= b { a } else { b }
}

/// Capping is associative: adding three lengths gives the capped total,
/// whichever pair is added first.
pub proof fn lemma_sat_add_assoc(a: nat, b: nat, c: nat)
    ensures
        sat_add(sat_add(a as int, b as int), c as int) == sat_add(a as int, sat_add(b as int, c as int)),
        sat_add(sat_add(a as int, b as int), c as int) == sat_add((a + b + c) as int, 0),
{
}

} // verus!
