//! The frame-size entry of the session header list: key `mux-framer`,
//! value the largest fragment body, as a 32-bit big-endian integer.
use vstd::prelude::*;
use crate::fields::{pairs_view, Pairs};
use crate::message::MuxError;
use crate::wire::{be32, get_u32, put_u32, u32_at};

verus! {

/// The header key, the ASCII bytes of `mux-framer`.
pub open spec fn framer_key() -> Seq<u8> {
    seq![109u8, 117u8, 120u8, 45u8, 102u8, 114u8, 97u8, 109u8, 101u8, 114u8]
}

/// The frame size the first `mux-framer` entry of `hs` holds in the first
/// four bytes of its value, if the value has that many.
pub open spec fn frame_size_in(hs: Pairs) -> Option<u32>
    decreases hs.len(),
{
    if hs.len() == 0 {
        None
    } else if hs[0].0 == framer_key() {
        if hs[0].1.len() >= 4 {
            Some(u32_at(hs[0].1, 0))
        } else {
            None
        }
    } else {
        frame_size_in(hs.drop_first())
    }
}

/// The header key, the ASCII bytes of `mux-framer`.
pub fn key_buf() -> (r: Vec<u8>)
    ensures
        r@ == framer_key(),
{
    let mut r: Vec<u8> = Vec::new();
    r.push(109u8);
    r.push(117u8);
    r.push(120u8);
    r.push(45u8);
    r.push(102u8);
    r.push(114u8);
    r.push(97u8);
    r.push(109u8);
    r.push(101u8);
    r.push(114u8);
    assert(r@ == framer_key());
    r
}

/// A header value holding the frame `size`.
pub fn encode_frame_size(size: u32) -> (r: Vec<u8>)
    ensures
        r@ == be32(size),
{
    let mut buf: Vec<u8> = Vec::new();
    put_u32(&mut buf, size);
    buf
}

/// The frame size a header value holds in its first four bytes; a shorter
/// value is `Malformed`.
pub fn decode_frame_size(buf: Vec<u8>) -> (r: Result<u32, MuxError>)
    ensures
        buf@.len() >= 4 ==> r == Ok::<u32, MuxError>(u32_at(buf@, 0)),
        buf@.len() < 4 ==> r == Err::<u32, MuxError>(MuxError::Malformed),
{
    if buf.len() < 4 {
        return Err(MuxError::Malformed);
    }
    Ok(get_u32(buf.as_slice(), 0))
}

/// The header entry announcing frame `size`.
pub fn frame_size_header(size: u32) -> (r: (Vec<u8>, Vec<u8>))
    ensures
        r.0@ == framer_key(),
        r.1@ == be32(size),
{
    (key_buf(), encode_frame_size(size))
}

fn same_bytes(a: &Vec<u8>, b: &Vec<u8>) -> (r: bool)
    ensures
        r == (a@ == b@),
{
    if a.len() != b.len() {
        return false;
    }
    let mut i: usize = 0;
    while i < a.len()
        invariant
            a@.len() == b@.len(),
            i <= a@.len(),
            forall|j: int| 0 <= j < i ==> a@[j] == b@[j],
        decreases a@.len() - i,
    {
        if a[i] != b[i] {
            return false;
        }
        i = i + 1;
    }
    assert(a@ == b@);
    true
}

/// The frame size announced in a session header list: the first
/// `mux-framer` entry, if its value has at least four bytes.
pub fn frame_size_of(headers: &Vec<(Vec<u8>, Vec<u8>)>) -> (r: Option<u32>)
    ensures
        r == frame_size_in(pairs_view(headers@)),
{
    let ghost hv = pairs_view(headers@);
    let key = key_buf();
    let mut i: usize = 0;
    assert(hv.skip(0) == hv);
    while i < headers.len()
        invariant
            hv == pairs_view(headers@),
            key@ == framer_key(),
            i <= headers@.len(),
            frame_size_in(hv) == frame_size_in(hv.skip(i as int)),
        decreases headers@.len() - i,
    {
        let ghost rest = hv.skip(i as int);
        assert(rest[0] == (headers@[i as int].0@, headers@[i as int].1@));
        assert(rest.drop_first() == hv.skip(i + 1));
        if same_bytes(&headers[i].0, &key) {
            let v = &headers[i].1;
            if v.len() >= 4 {
                return Some(get_u32(v.as_slice(), 0));
            }
            return None;
        }
        i = i + 1;
    }
    None
}

/// A frame size written as a header entry is read back from any header list
/// that holds that entry first among `mux-framer` entries.
pub proof fn lemma_frame_size_round_trip(size: u32, before: Pairs, after: Pairs)
    requires
        forall|i: int| 0 <= i < before.len() ==> #[trigger] before[i].0 != framer_key(),
    ensures
        frame_size_in(before + seq![(framer_key(), be32(size))] + after) == Some(size),
    decreases before.len(),
{
    let hs = before + seq![(framer_key(), be32(size))] + after;
    if before.len() == 0 {
        assert(hs[0] == (framer_key(), be32(size)));
        assert(be32(size).subrange(0, 4) == be32(size));
        crate::wire::lemma_be32(size, be32(size), 0);
    } else {
        assert(hs[0] == before[0]);
        let b2 = before.drop_first();
        assert forall|i: int| 0 <= i < b2.len() implies #[trigger] b2[i].0 != framer_key() by {
            assert(b2[i] == before[i + 1]);
        }
        lemma_frame_size_round_trip(size, b2, after);
        assert(hs.drop_first() == b2 + seq![(framer_key(), be32(size))] + after);
    }
}

} // verus!
