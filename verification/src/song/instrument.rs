//! The bytes of an instrument nobody has touched yet.

use vstd::prelude::*;

verus! {

/// The length in bytes of one instrument.
pub const INSTRUMENT_LEN: usize = 16;

/// The bytes of the default instrument.
pub open spec fn default_instrument() -> Seq<u8> {
    seq![
        0xA8u8, 0x00u8, 0x00u8, 0xFFu8, 0x00u8, 0x00u8, 0x03u8, 0x00u8,
        0x00u8, 0xD0u8, 0x00u8, 0x00u8, 0x00u8, 0xF3u8, 0x00u8, 0x00u8,
    ]
}

/// The bytes of the default instrument, as an array.
pub fn default_instrument_bytes() -> (bytes: [u8; 16])
    ensures
        bytes@ == default_instrument(),
{
    let bytes: [u8; 16] = [
        0xA8, 0x00, 0x00, 0xFF, 0x00, 0x00, 0x03, 0x00,
        0x00, 0xD0, 0x00, 0x00, 0x00, 0xF3, 0x00, 0x00,
    ];
    assert(bytes@ =~= default_instrument());
    bytes
}

} // verus!
