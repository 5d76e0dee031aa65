//! Tags: 24-bit correlation identifiers, with bit 23 reserved as the
//! fragment-continuation flag.
use vstd::prelude::*;

verus! {

/// Tag of messages that carry no request/reply correlation.
pub const MARKER_TAG: u32 = 0;

/// Tag reserved for the pre-encoded liveness probe.
pub const PING_TAG: u32 = 1;

/// Smallest tag an application request may use.
pub const MIN_TAG: u32 = PING_TAG + 1;

/// Largest tag value without the fragment flag.
pub const MAX_TAG: u32 = 0x7f_ffff;

/// The fragment-continuation flag within the 24-bit tag space.
pub const TAG_MSB: u32 = 0x80_0000;

/// A tag that fits the 24-bit tag field of a frame header (fragment flag
/// allowed).
pub open spec fn tag_fits(tag: u32) -> bool {
    tag < 0x100_0000
}

/// The fragment flag of a tag.
pub open spec fn fragment_flag(tag: u32) -> bool {
    (tag / 0x80_0000) % 2 == 1
}

/// The signed type code whose two's-complement byte is `b`.
pub open spec fn code_of_byte(b: int) -> int {
    if b < 128 {
        b
    } else {
        b - 256
    }
}

/// The type code held in the top byte of a 32-bit frame header word.
pub fn extract_type(header: u32) -> (r: i8)
    ensures
        r as int == code_of_byte((header / 0x100_0000) as int),
{
    let b: u32 = header >> 24u32;
    assert(b == header / 0x100_0000) by (bit_vector)
        requires b == header >> 24u32;
    if b < 128 {
        b as i8
    } else {
        let c: i32 = b as i32 - 256;
        c as i8
    }
}

/// The 24-bit tag held in the low three bytes of a frame header word.
pub fn extract_tag(header: u32) -> (r: u32)
    ensures
        r == header % 0x100_0000,
{
    let r = header & 0x00ff_ffff;
    assert(r == header % 0x100_0000) by (bit_vector)
        requires r == header & 0x00ff_ffff;
    r
}

/// Whether the fragment flag (bit 23) of `tag` is set.
pub fn is_fragment(tag: u32) -> (r: bool)
    ensures
        r == fragment_flag(tag),
{
    let r = (tag >> 23u32) & 1 == 1;
    assert(r == ((tag / 0x80_0000) % 2 == 1)) by (bit_vector)
        requires r == ((tag >> 23u32) & 1 == 1);
    r
}

/// `tag` with its fragment flag set.
pub fn set_msb(tag: u32) -> (r: u32)
    ensures
        fragment_flag(r),
        r % 0x80_0000 == tag % 0x80_0000,
        r / 0x100_0000 == tag / 0x100_0000,
{
    let r = tag | TAG_MSB;
    assert(((r / 0x80_0000) % 2 == 1) && r % 0x80_0000 == tag % 0x80_0000 && r / 0x100_0000 == tag
        / 0x100_0000) by (bit_vector)
        requires r == tag | 0x80_0000u32;
    r
}

} // verus!
