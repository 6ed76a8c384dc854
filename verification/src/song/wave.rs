//! The bytes of a wave frame nobody has touched yet.

use vstd::prelude::*;

verus! {

/// The length in bytes of one wave frame: 32 samples of four bits each.
pub const WAVE_LEN: usize = 16;

/// The bytes of the default wave frame.
pub open spec fn default_wave() -> Seq<u8> {
    seq![
        0x8Eu8, 0xCDu8, 0xCCu8, 0xBBu8, 0xAAu8, 0xA9u8, 0x99u8, 0x88u8,
        0x87u8, 0x76u8, 0x66u8, 0x55u8, 0x54u8, 0x43u8, 0x32u8, 0x31u8,
    ]
}

/// The bytes of the default wave frame, as an array.
pub fn default_wave_bytes() -> (bytes: [u8; 16])
    ensures
        bytes@ == default_wave(),
{
    let bytes: [u8; 16] = [
        0x8E, 0xCD, 0xCC, 0xBB, 0xAA, 0xA9, 0x99, 0x88,
        0x87, 0x76, 0x66, 0x55, 0x54, 0x43, 0x32, 0x31,
    ];
    assert(bytes@ =~= default_wave());
    bytes
}

} // verus!
