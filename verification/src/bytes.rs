//! Numbers in network order.

use vstd::prelude::*;

verus! {

/// The number that two bytes write, most significant first.
pub open spec fn be16(hi: u8, lo: u8) -> u16 {
    (hi * 256 + lo) as u16
}

/// The number that two bytes of a sequence write.
pub open spec fn be16_at(s: Seq<u8>, at: int) -> u16 {
    be16(s[at], s[at + 1])
}

/// The number that three bytes write, most significant first.
pub open spec fn be24(hi: u8, mid: u8, lo: u8) -> int {
    hi * 65536 + mid * 256 + lo
}

/// Two bytes that write a number, most significant first.
pub open spec fn be16_bytes(n: int) -> Seq<u8> {
    seq![(n / 256) as u8, (n % 256) as u8]
}

/// Reads two bytes as a number.
pub fn join16(hi: u8, lo: u8) -> (r: u16)
    ensures
        r == be16(hi, lo),
        r == hi * 256 + lo,
{
    hi as u16 * 256 + lo as u16
}

} // verus!
