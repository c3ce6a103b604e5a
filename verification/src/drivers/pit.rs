//! The interval timer behind the tick interrupt.
use vstd::prelude::*;

verus! {

pub const PIT_CHANNEL0_DATA: u16 = 0x40;

pub const PIT_COMMAND: u16 = 0x43;

/// How channel 0 of the timer is programmed: the divisor of its clock, the
/// command byte, and the two bytes of the divisor in the order in which they are
/// written.
#[derive(Debug, Clone, Copy, PartialEq, Eq, Structural)]
pub struct PitSetup {
    pub divisor: u16,
    pub command: u8,
    pub low: u8,
    pub high: u8,
}

/// The divisor for a quotient of frequencies: the quotient, kept between 1 and
/// 65535.
pub open spec fn divisor_of(raw: u32) -> int {
    if raw < 1 {
        1
    } else if raw > 0xFFFF {
        0xFFFF
    } else {
        raw as int
    }
}

/// How channel 0 is programmed to divide its clock by `raw`, as nearly as it can:
/// a square wave, both bytes of the divisor, counted in binary.
pub fn set_frequency(raw: u32) -> (r: PitSetup)
    ensures
        r.divisor == divisor_of(raw),
        r.command == 0x36,
        r.low == divisor_of(raw) % 256,
        r.high == divisor_of(raw) / 256,
        1 <= raw <= 65535 ==> r.low + 256 * r.high == raw,
{
    let divisor: u16 = if raw < 1 {
        1
    } else if raw > 0xFFFF {
        0xFFFF
    } else {
        raw as u16
    };
    assert(divisor & 0xFF == divisor % 256 && divisor >> 8 == divisor / 256) by (bit_vector);
    PitSetup { divisor, command: 0x36, low: (divisor & 0xFF) as u8, high: (divisor >> 8) as u8 }
}

/// The timer divides by what was asked for wherever it can, and else by the nearest
/// number that it can divide by; the two bytes put together are that number.
pub proof fn law_divisor(raw: u32, other: int)
    requires
        1 <= other <= 65535,
    ensures
        1 <= divisor_of(raw) <= 65535,
        1 <= raw <= 65535 ==> divisor_of(raw) == raw,
        raw < 1 ==> divisor_of(raw) <= other,
        raw > 65535 ==> divisor_of(raw) >= other,
        divisor_of(raw) % 256 + 256 * (divisor_of(raw) / 256) == divisor_of(raw),
{
}

} // verus!
