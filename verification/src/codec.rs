//! The length-prefix codec used to frame byte strings inside node encodings:
//! a compact variable-width length followed by the bytes themselves.

use vstd::prelude::*;

verus! {

/// The compact encoding of a length `n` (at most `u32::MAX`): the low two
/// bits of the first byte select the width, the remaining bits carry `n`.
pub open spec fn compact_prefix(n: nat) -> Seq<u8> {
    if n < 64 {
        seq![(n * 4) as u8]
    } else if n < 16384 {
        seq![((n * 4 + 1) % 256) as u8, ((n * 4 + 1) / 256) as u8]
    } else if n < 0x4000_0000 {
        seq![
            ((n * 4 + 2) % 256) as u8,
            ((n * 4 + 2) / 256 % 256) as u8,
            ((n * 4 + 2) / 65536 % 256) as u8,
            ((n * 4 + 2) / 16777216) as u8,
        ]
    } else {
        seq![
            3u8,
            (n % 256) as u8,
            (n / 256 % 256) as u8,
            (n / 65536 % 256) as u8,
            (n / 16777216 % 256) as u8,
        ]
    }
}

/// A byte string framed by the codec: compact length, then the bytes.
pub open spec fn framed(v: Seq<u8>) -> Seq<u8> {
    compact_prefix(v.len()) + v
}

/// Relies on `parity_scale_codec::Encode` for `Vec<u8>`: the SCALE encoding
/// of a byte vector is the compact encoding of its length followed by the
/// bytes; lengths above `u32::MAX` are rejected by the codec and left out
/// here by precondition.
#[verifier::external_body]
pub fn scale_encode(v: &Vec<u8>) -> (r: Vec<u8>)
    requires
        v@.len() <= 0xFFFF_FFFF,
    ensures
        r@ == framed(v@),
{
    parity_scale_codec::Encode::encode(v)
}

} // verus!
