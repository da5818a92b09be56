use vstd::prelude::*;

verus! {

/// `value` brought into the range from `min` to `max`.
pub open spec fn spec_clamp(value: u32, min: u32, max: u32) -> u32 {
    if value < min {
        min
    } else if value > max {
        max
    } else {
        value
    }
}

/// Brings `value` into the range from `min` to `max`.
pub fn clamp(value: u32, min: u32, max: u32) -> (r: u32)
    ensures
        r == spec_clamp(value, min, max),
{
    if value < min {
        min
    } else if value > max {
        max
    } else {
        value
    }
}

} // verus!
