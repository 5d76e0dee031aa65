//! Session negotiation bodies (`Tinit`/`Rinit`): a 16-bit version, then
//! header pairs with 32-bit lengths until the body ends.
use vstd::prelude::*;
use crate::fields::{fits32, pairs32, pairs32_of, pairs_view, read_pairs32, write_pairs32, Pairs};
use crate::message::MuxError;
use crate::wire::{be16, get_u16, put_u16, u16_at};

verus! {

/// The body of a session negotiation message.
pub open spec fn init_body(version: u16, headers: Pairs) -> Seq<u8> {
    be16(version) + pairs32(headers)
}

/// The version and headers a negotiation body holds, if it is well formed.
pub open spec fn init_of(b: Seq<u8>) -> Option<(u16, Pairs)> {
    if b.len() >= 2 {
        match pairs32_of(b.skip(2)) {
            Some(hs) => Some((u16_at(b, 0), hs)),
            None => None,
        }
    } else {
        None
    }
}

/// Appends a negotiation body to `out`.
pub fn encode_into(out: &mut Vec<u8>, version: u16, headers: &Vec<(Vec<u8>, Vec<u8>)>)
    requires
        fits32(pairs_view(headers@)),
    ensures
        final(out)@ == old(out)@ + init_body(version, pairs_view(headers@)),
{
    put_u16(out, version);
    write_pairs32(out, headers);
}

/// The negotiation body for `version` and `headers`.
pub fn encode(version: u16, headers: Vec<(Vec<u8>, Vec<u8>)>) -> (r: Vec<u8>)
    requires
        fits32(pairs_view(headers@)),
    ensures
        r@ == init_body(version, pairs_view(headers@)),
{
    let mut buf: Vec<u8> = Vec::new();
    encode_into(&mut buf, version, &headers);
    buf
}

/// Reads the version and headers of a negotiation body.
pub fn decode_slice(buf: &[u8]) -> (r: Result<(u16, Vec<(Vec<u8>, Vec<u8>)>), MuxError>)
    ensures
        match init_of(buf@) {
            Some((v, hs)) => r matches Ok((rv, rh)) && rv == v && pairs_view(rh@) == hs,
            None => r == Err::<(u16, Vec<(Vec<u8>, Vec<u8>)>), MuxError>(MuxError::Malformed),
        },
{
    if buf.len() < 2 {
        return Err(MuxError::Malformed);
    }
    let version = get_u16(buf, 0);
    match read_pairs32(buf, 2) {
        Some(headers) => Ok((version, headers)),
        None => Err(MuxError::Malformed),
    }
}

/// Reads the version and headers of a negotiation body.
pub fn decode(buf: Vec<u8>) -> (r: Result<(u16, Vec<(Vec<u8>, Vec<u8>)>), MuxError>)
    ensures
        match init_of(buf@) {
            Some((v, hs)) => r matches Ok((rv, rh)) && rv == v && pairs_view(rh@) == hs,
            None => r == Err::<(u16, Vec<(Vec<u8>, Vec<u8>)>), MuxError>(MuxError::Malformed),
        },
{
    decode_slice(buf.as_slice())
}

/// Negotiation bodies read back as the version and headers written.
pub proof fn lemma_init_round_trip(version: u16, headers: Pairs)
    requires
        fits32(headers),
    ensures
        init_of(init_body(version, headers)) == Some((version, headers)),
{
    let b = init_body(version, headers);
    assert(b.subrange(0, 2) == be16(version));
    crate::wire::lemma_be16(version, b, 0);
    assert(b.skip(2) == pairs32(headers));
    crate::fields::lemma_pairs32_of(headers);
}

} // verus!
