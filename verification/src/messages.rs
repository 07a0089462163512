//! What the numbers of window messages hold.

use vstd::prelude::*;

verus! {

/// The low half of a number.
pub fn lo_word(x: u32) -> (r: u32)
    ensures
        r == x % 0x1_0000,
{
    x % 0x1_0000
}

/// The high half of a number.
pub fn hi_word(x: u32) -> (r: u32)
    ensures
        r == x / 0x1_0000,
        r < 0x1_0000,
{
    x / 0x1_0000
}

/// Half a number as a number with a sign.
pub open spec fn signed(half: int) -> int {
    if half < 0x8000 {
        half
    } else {
        half - 0x1_0000
    }
}

/// The low half of a number, with its sign.
pub fn signed_lo(x: u32) -> (r: i32)
    ensures
        r == signed(x as int % 0x1_0000),
        -0x8000 <= r < 0x8000,
{
    let h: u32 = lo_word(x);
    if h < 0x8000 {
        h as i32
    } else {
        h as i32 - 0x1_0000
    }
}

/// The high half of a number, with its sign.
pub fn signed_hi(x: u32) -> (r: i32)
    ensures
        r == signed(x as int / 0x1_0000),
        -0x8000 <= r < 0x8000,
{
    let h: u32 = hi_word(x);
    if h < 0x8000 {
        h as i32
    } else {
        h as i32 - 0x1_0000
    }
}

/// Half a number with a sign is the half itself or less than it by the number of
/// halves there are.
pub proof fn law_sign_of_a_half(half: int)
    requires
        0 <= half < 65536,
    ensures
        -32768 <= signed(half) < 32768,
        signed(half) == half || signed(half) == half - 65536,
{
}

} // verus!
