//! The decoder: from a type code, a tag and a body to a message. Each
//! message kind has a parser over the body; malformed input gives
//! `MuxError::Malformed`, never a panic.
use vstd::prelude::*;
use vstd::utf8::{decode_utf8, encode_utf8, valid_utf8};
use crate::fields::{
    bytes16, lemma_take_bytes16, lemma_take_list16, list16, pairs_view, read_bytes16,
    read_list16, take_bytes16, take_list16, Pairs,
};
use crate::init::{decode_slice, init_of, lemma_init_round_trip};
use crate::message::{dtab_bytes, dtab_view, Dentry, Message, MessageView, MuxError};
use crate::types::{
    BAD_RERR, BAD_TDISCARDED, RDISCARDED, RDISPATCH, RDRAIN, RERR, RINIT, RPING, RREQ, TDISCARDED,
    TDISPATCH, TDRAIN, TINIT, TLEASE, TPING, TREQ,
};
use crate::tags::code_of_byte;
use crate::wire::{be24, be64, copy_range, get_u24, get_u64, lemma_be24, lemma_be64, u24_at, u64_at};

verus! {

/// The text whose UTF-8 encoding is `b`, if `b` is well-formed UTF-8.
pub open spec fn utf8_of(b: Seq<u8>) -> Option<Seq<char>> {
    if valid_utf8(b) {
        Some(decode_utf8(b))
    } else {
        None
    }
}

/// A delegation table read from byte pairs, if every side is UTF-8.
pub open spec fn dtab_of(ps: Pairs) -> Option<Seq<(Seq<char>, Seq<char>)>> {
    if forall|i: int| 0 <= i < ps.len() ==> valid_utf8(#[trigger] ps[i].0) && valid_utf8(ps[i].1) {
        Some(ps.map_values(|p: (Seq<u8>, Seq<u8>)| (decode_utf8(p.0), decode_utf8(p.1))))
    } else {
        None
    }
}

pub open spec fn treq_of(tag: u32, b: Seq<u8>) -> Option<MessageView> {
    // A nonzero first byte is the unsupported multi-key form.
    if b.len() >= 1 && b[0] == 0 {
        Some(MessageView::Treq { tag, req: b.skip(1) })
    } else {
        None
    }
}

pub open spec fn rreq_of(tag: u32, b: Seq<u8>) -> Option<MessageView> {
    if b.len() < 1 {
        None
    } else if b[0] == 0 {
        Some(MessageView::RreqOk { tag, reply: b.skip(1) })
    } else if b[0] == 1 {
        match utf8_of(b.skip(1)) {
            Some(error) => Some(MessageView::RreqError { tag, error }),
            None => None,
        }
    } else if b[0] == 2 {
        Some(MessageView::RreqNack { tag })
    } else {
        None
    }
}

pub open spec fn tdispatch_of(tag: u32, b: Seq<u8>) -> Option<MessageView> {
    match take_list16(b) {
        Some((contexts, r1)) => match take_bytes16(r1) {
            Some((d, r2)) => match utf8_of(d) {
                Some(dst) => match take_list16(r2) {
                    Some((entries, req)) => match dtab_of(entries) {
                        Some(dtab) => Some(MessageView::Tdispatch { tag, contexts, dst, dtab, req }),
                        None => None,
                    },
                    None => None,
                },
                None => None,
            },
            None => None,
        },
        None => None,
    }
}

pub open spec fn rdispatch_of(tag: u32, b: Seq<u8>) -> Option<MessageView> {
    if b.len() < 1 {
        None
    } else {
        match take_list16(b.skip(1)) {
            Some((contexts, rest)) => if b[0] == 0 {
                Some(MessageView::RdispatchOk { tag, contexts, reply: rest })
            } else if b[0] == 1 {
                match utf8_of(rest) {
                    Some(error) => Some(MessageView::RdispatchError { tag, contexts, error }),
                    None => None,
                }
            } else if b[0] == 2 {
                Some(MessageView::RdispatchNack { tag, contexts })
            } else {
                None
            },
            None => None,
        }
    }
}

pub open spec fn tdiscarded_of(b: Seq<u8>) -> Option<MessageView> {
    if b.len() >= 3 {
        match utf8_of(b.skip(3)) {
            Some(why) => Some(MessageView::Tdiscarded { which: u24_at(b, 0), why }),
            None => None,
        }
    } else {
        None
    }
}

pub open spec fn tlease_of(b: Seq<u8>) -> Option<MessageView> {
    if b.len() >= 9 {
        Some(MessageView::Tlease { unit: b[0], how_long: u64_at(b, 1) })
    } else {
        None
    }
}

/// The message that type code `typ`, tag `tag` and body `b` stand for, if
/// any. Both the canonical and the legacy code of `Rerr` and `Tdiscarded`
/// are read.
pub open spec fn decode_spec(typ: i8, tag: u32, b: Seq<u8>) -> Option<MessageView> {
    if typ == TINIT || typ == RINIT {
        match init_of(b) {
            Some((version, headers)) => if typ == TINIT {
                Some(MessageView::Tinit { tag, version, headers })
            } else {
                Some(MessageView::Rinit { tag, version, headers })
            },
            None => None,
        }
    } else if typ == TREQ {
        treq_of(tag, b)
    } else if typ == RREQ {
        rreq_of(tag, b)
    } else if typ == TDISPATCH {
        tdispatch_of(tag, b)
    } else if typ == RDISPATCH {
        rdispatch_of(tag, b)
    } else if typ == TDRAIN {
        Some(MessageView::Tdrain { tag })
    } else if typ == RDRAIN {
        Some(MessageView::Rdrain { tag })
    } else if typ == TPING {
        Some(MessageView::Tping { tag })
    } else if typ == RPING {
        Some(MessageView::Rping { tag })
    } else if typ == RDISCARDED {
        Some(MessageView::Rdiscarded { tag })
    } else if typ == RERR || typ == BAD_RERR {
        match utf8_of(b) {
            Some(error) => Some(MessageView::Rerr { tag, error }),
            None => None,
        }
    } else if typ == TDISCARDED || typ == BAD_TDISCARDED {
        tdiscarded_of(b)
    } else if typ == TLEASE {
        tlease_of(b)
    } else {
        None
    }
}

/// `r` is the outcome that `want` describes: the message, or `Malformed`.
pub open spec fn decoded(r: Result<Message, MuxError>, want: Option<MessageView>) -> bool {
    match want {
        Some(m) => r matches Ok(x) && x@ == m,
        None => r == Err::<Message, MuxError>(MuxError::Malformed),
    }
}

/// Relies on std's `String::from_utf8`: it succeeds exactly on well-formed
/// UTF-8, and the string then holds those very bytes.
#[verifier::external_body]
fn utf8_string(b: &[u8]) -> (r: Option<String>)
    ensures
        r is Some <==> valid_utf8(b@),
        r matches Some(s) ==> encode_utf8(s@) == b@,
{
    String::from_utf8(b.to_vec()).ok()
}

/// Text from UTF-8 bytes, exactly as `utf8_of` says.
fn text(b: &[u8]) -> (r: Option<String>)
    ensures
        match utf8_of(b@) {
            Some(t) => r matches Some(s) && s@ == t,
            None => r is None,
        },
{
    let r = utf8_string(b);
    proof {
        if r is Some {
            vstd::utf8::encode_utf8_decode_utf8(r->Some_0@);
        }
    }
    r
}

/// Delegation entries from byte pairs, if every side is UTF-8.
fn dentries(ps: &Vec<(Vec<u8>, Vec<u8>)>) -> (r: Option<Vec<Dentry>>)
    ensures
        match dtab_of(pairs_view(ps@)) {
            Some(d) => r matches Some(v) && dtab_view(v@) == d,
            None => r is None,
        },
{
    let ghost pv = pairs_view(ps@);
    let ghost f = |p: (Seq<u8>, Seq<u8>)| (decode_utf8(p.0), decode_utf8(p.1));
    let mut out: Vec<Dentry> = Vec::new();
    let mut i: usize = 0;
    while i < ps.len()
        invariant
            pv == pairs_view(ps@),
            f == (|p: (Seq<u8>, Seq<u8>)| (decode_utf8(p.0), decode_utf8(p.1))),
            i <= ps@.len(),
            out@.len() == i,
            forall|j: int| 0 <= j < i ==> valid_utf8(#[trigger] pv[j].0) && valid_utf8(pv[j].1),
            dtab_view(out@) == pv.take(i as int).map_values(f),
        decreases ps@.len() - i,
    {
        assert(pv[i as int] == (ps@[i as int].0@, ps@[i as int].1@));
        let k: &[u8] = ps[i].0.as_slice();
        let v: &[u8] = ps[i].1.as_slice();
        assert(k@ == pv[i as int].0 && v@ == pv[i as int].1);
        let prefix = match text(k) {
            Some(t) => t,
            None => {
                assert(!(valid_utf8(pv[i as int].0) && valid_utf8(pv[i as int].1)));
                return None;
            },
        };
        assert(valid_utf8(pv[i as int].0));
        let dst = match text(v) {
            Some(t) => t,
            None => {
                assert(!(valid_utf8(pv[i as int].0) && valid_utf8(pv[i as int].1)));
                return None;
            },
        };
        assert(valid_utf8(pv[i as int].1));
        let ghost before = out@;
        out.push(Dentry { prefix, dst });
        assert forall|j: int| 0 <= j < i + 1 implies #[trigger] dtab_view(out@)[j] == pv.take(
            i + 1,
        ).map_values(f)[j] by {
            if j < i {
                assert(out@[j] == before[j]);
                assert(dtab_view(before)[j] == pv.take(i as int).map_values(f)[j]);
            }
        }
        assert(dtab_view(out@) =~= pv.take(i + 1).map_values(f));
        assert forall|j: int| 0 <= j < i + 1 implies valid_utf8(#[trigger] pv[j].0) && valid_utf8(
            pv[j].1,
        ) by {}
        i = i + 1;
    }
    assert(pv.take(i as int) == pv);
    Some(out)
}

/// Decodes a `Treq` body: a zero key-count byte, then the request.
pub fn decode_treq(tag: u32, buf: Vec<u8>) -> (r: Result<Message, MuxError>)
    ensures
        decoded(r, treq_of(tag, buf@)),
{
    if buf.len() < 1 || buf[0] != 0 {
        return Err(MuxError::Malformed);
    }
    let req = copy_range(buf.as_slice(), 1, buf.len());
    Ok(Message::Treq { tag, req })
}

/// Decodes an `Rreq` body: a status byte, then the reply or error text.
pub fn decode_rreq(tag: u32, buf: Vec<u8>) -> (r: Result<Message, MuxError>)
    ensures
        decoded(r, rreq_of(tag, buf@)),
{
    if buf.len() < 1 {
        return Err(MuxError::Malformed);
    }
    let rest = copy_range(buf.as_slice(), 1, buf.len());
    if buf[0] == 0 {
        Ok(Message::RreqOk { tag, reply: rest })
    } else if buf[0] == 1 {
        match text(rest.as_slice()) {
            Some(error) => Ok(Message::RreqError { tag, error }),
            None => Err(MuxError::Malformed),
        }
    } else if buf[0] == 2 {
        Ok(Message::RreqNack { tag })
    } else {
        Err(MuxError::Malformed)
    }
}

/// Decodes a `Tdispatch` body: contexts, destination, delegation table,
/// then the request.
pub fn decode_tdispatch(tag: u32, buf: Vec<u8>) -> (r: Result<Message, MuxError>)
    ensures
        decoded(r, tdispatch_of(tag, buf@)),
{
    let s = buf.as_slice();
    assert(s@.skip(0) == s@);
    let (contexts, pos1) = match read_list16(s, 0) {
        Some(x) => x,
        None => {
            return Err(MuxError::Malformed);
        },
    };
    let (d, pos2) = match read_bytes16(s, pos1) {
        Some(x) => x,
        None => {
            return Err(MuxError::Malformed);
        },
    };
    let dst = match text(d.as_slice()) {
        Some(t) => t,
        None => {
            return Err(MuxError::Malformed);
        },
    };
    let (entries, pos3) = match read_list16(s, pos2) {
        Some(x) => x,
        None => {
            return Err(MuxError::Malformed);
        },
    };
    let dtab = match dentries(&entries) {
        Some(t) => t,
        None => {
            return Err(MuxError::Malformed);
        },
    };
    let req = copy_range(s, pos3, s.len());
    assert(req@ == s@.skip(pos3 as int));
    Ok(Message::Tdispatch { tag, contexts, dst, dtab, req })
}

/// Decodes an `Rdispatch` body: a status byte, contexts, then the reply or
/// error text.
pub fn decode_rdispatch(tag: u32, buf: Vec<u8>) -> (r: Result<Message, MuxError>)
    ensures
        decoded(r, rdispatch_of(tag, buf@)),
{
    let s = buf.as_slice();
    if s.len() < 1 {
        return Err(MuxError::Malformed);
    }
    let status = s[0];
    assert(s@.skip(1) == buf@.skip(1));
    let (contexts, p) = match read_list16(s, 1) {
        Some(x) => x,
        None => {
            return Err(MuxError::Malformed);
        },
    };
    let rest = copy_range(s, p, s.len());
    assert(rest@ == s@.skip(p as int));
    if status == 0 {
        Ok(Message::RdispatchOk { tag, contexts, reply: rest })
    } else if status == 1 {
        match text(rest.as_slice()) {
            Some(error) => Ok(Message::RdispatchError { tag, contexts, error }),
            None => Err(MuxError::Malformed),
        }
    } else if status == 2 {
        Ok(Message::RdispatchNack { tag, contexts })
    } else {
        Err(MuxError::Malformed)
    }
}

/// Decodes a `Tdiscarded` body: the 24-bit tag discarded, then the reason.
pub fn decode_tdiscarded(buf: Vec<u8>) -> (r: Result<Message, MuxError>)
    ensures
        decoded(r, tdiscarded_of(buf@)),
{
    let s = buf.as_slice();
    if s.len() < 3 {
        return Err(MuxError::Malformed);
    }
    let which = get_u24(s, 0);
    let why_bytes = copy_range(s, 3, s.len());
    match text(why_bytes.as_slice()) {
        Some(why) => Ok(Message::Tdiscarded { which, why }),
        None => Err(MuxError::Malformed),
    }
}

/// Decodes a `Tlease` body: the unit byte, then the 64-bit duration; bytes
/// after them are not read.
pub fn decode_tlease(buf: Vec<u8>) -> (r: Result<Message, MuxError>)
    ensures
        decoded(r, tlease_of(buf@)),
{
    let s = buf.as_slice();
    if s.len() < 9 {
        return Err(MuxError::Malformed);
    }
    Ok(Message::Tlease { unit: s[0], how_long: get_u64(s, 1) })
}

/// Decodes the body of a message of type `typ` on tag `tag`. Unknown type
/// codes, bodies shorter than their fixed fields, bad status bytes and
/// invalid UTF-8 give `Malformed`; bytes after the fields a kind reads are
/// not looked at.
pub fn decode(typ: i8, tag: u32, buf: Vec<u8>) -> (r: Result<Message, MuxError>)
    ensures
        decoded(r, decode_spec(typ, tag, buf@)),
{
    if typ == TINIT || typ == RINIT {
        match decode_slice(buf.as_slice()) {
            Ok((version, headers)) => if typ == TINIT {
                Ok(Message::Tinit { tag, version, headers })
            } else {
                Ok(Message::Rinit { tag, version, headers })
            },
            Err(e) => Err(e),
        }
    } else if typ == TREQ {
        decode_treq(tag, buf)
    } else if typ == RREQ {
        decode_rreq(tag, buf)
    } else if typ == TDISPATCH {
        decode_tdispatch(tag, buf)
    } else if typ == RDISPATCH {
        decode_rdispatch(tag, buf)
    } else if typ == TDRAIN {
        Ok(Message::Tdrain { tag })
    } else if typ == RDRAIN {
        Ok(Message::Rdrain { tag })
    } else if typ == TPING {
        Ok(Message::Tping { tag })
    } else if typ == RPING {
        Ok(Message::Rping { tag })
    } else if typ == RDISCARDED {
        Ok(Message::Rdiscarded { tag })
    } else if typ == RERR || typ == BAD_RERR {
        match text(buf.as_slice()) {
            Some(error) => Ok(Message::Rerr { tag, error }),
            None => Err(MuxError::Malformed),
        }
    } else if typ == TDISCARDED || typ == BAD_TDISCARDED {
        decode_tdiscarded(buf)
    } else if typ == TLEASE {
        decode_tlease(buf)
    } else {
        Err(MuxError::Malformed)
    }
}

/// The message a whole frame (type byte, 24-bit tag, body) stands for.
pub open spec fn frame_of(w: Seq<u8>) -> Option<MessageView> {
    if w.len() >= 4 {
        decode_spec(code_of_byte(w[0] as int) as i8, u24_at(w, 1), w.skip(4))
    } else {
        None
    }
}

/// Text survives a trip through its UTF-8 bytes.
pub proof fn lemma_text_round_trip(t: Seq<char>)
    ensures
        utf8_of(encode_utf8(t)) == Some(t),
{
    vstd::utf8::encode_utf8_valid_utf8(t);
    vstd::utf8::encode_utf8_decode_utf8(t);
}

/// A delegation table of any length survives a trip through its byte
/// pairs, entries in order.
pub proof fn lemma_dtab_round_trip(d: Seq<(Seq<char>, Seq<char>)>)
    ensures
        dtab_of(dtab_bytes(d)) == Some(d),
{
    let ps = dtab_bytes(d);
    assert forall|i: int| 0 <= i < ps.len() implies valid_utf8(#[trigger] ps[i].0) && valid_utf8(
        ps[i].1,
    ) by {
        vstd::utf8::encode_utf8_valid_utf8(d[i].0);
        vstd::utf8::encode_utf8_valid_utf8(d[i].1);
    }
    let f = |p: (Seq<u8>, Seq<u8>)| (decode_utf8(p.0), decode_utf8(p.1));
    assert forall|i: int| 0 <= i < d.len() implies #[trigger] ps.map_values(f)[i] == d[i] by {
        vstd::utf8::encode_utf8_decode_utf8(d[i].0);
        vstd::utf8::encode_utf8_decode_utf8(d[i].1);
    }
    assert(ps.map_values(f) =~= d);
}

/// A type code survives the trip through its byte.
pub proof fn lemma_code_round_trip(t: i8)
    ensures
        code_of_byte((t as u8) as int) as i8 == t,
{
    if t < 0 {
        assert((t as u8) as int == t as int + 256) by (bit_vector)
            requires
                t < 0i8,
        ;
    } else {
        assert((t as u8) as int == t as int) by (bit_vector)
            requires
                t >= 0i8,
        ;
    }
}

proof fn lemma_tdispatch_round_trip(m: MessageView)
    requires
        m is Tdispatch,
        m.fits(),
    ensures
        tdispatch_of(m.tag(), m.body()) == Some(m),
{
    if let MessageView::Tdispatch { tag, contexts, dst, dtab, req } = m {
        let b = m.body();
        let d = encode_utf8(dst);
        let entries = dtab_bytes(dtab);
        let r2 = list16(entries) + req;
        let r1 = bytes16(d) + r2;
        assert(b == list16(contexts) + r1);
        lemma_take_list16(contexts, r1);
        lemma_take_bytes16(d, r2);
        lemma_text_round_trip(dst);
        lemma_take_list16(entries, req);
        lemma_dtab_round_trip(dtab);
    }
}

/// Decoding reads every message body back as the message, for every kind
/// with legal tags and fitting lengths; fragments and the pre-encoded probe
/// are not messages of their own.
pub proof fn lemma_decode_encode(m: MessageView)
    requires
        m.tag_ok(),
        m.fits(),
        !(m is Fragment),
        !(m is PreEncodedTping),
    ensures
        decode_spec(m.typ(), m.tag(), m.body()) == Some(m),
{
    let b = m.body();
    match m {
        MessageView::Tinit { version, headers, .. } => {
            lemma_init_round_trip(version, headers);
        },
        MessageView::Rinit { version, headers, .. } => {
            lemma_init_round_trip(version, headers);
        },
        MessageView::Treq { req, .. } => {
            assert(b.skip(1) == req);
        },
        MessageView::RreqOk { reply, .. } => {
            assert(b.skip(1) == reply);
        },
        MessageView::RreqError { error, .. } => {
            assert(b.skip(1) == encode_utf8(error));
            lemma_text_round_trip(error);
        },
        MessageView::RreqNack { .. } => {},
        MessageView::Tdispatch { .. } => {
            lemma_tdispatch_round_trip(m);
        },
        MessageView::RdispatchOk { contexts, reply, .. } => {
            assert(b.skip(1) == list16(contexts) + reply);
            lemma_take_list16(contexts, reply);
        },
        MessageView::RdispatchError { contexts, error, .. } => {
            assert(b.skip(1) == list16(contexts) + encode_utf8(error));
            lemma_take_list16(contexts, encode_utf8(error));
            lemma_text_round_trip(error);
        },
        MessageView::RdispatchNack { contexts, .. } => {
            assert(b.skip(1) == list16(contexts) + Seq::<u8>::empty());
            lemma_take_list16(contexts, Seq::<u8>::empty());
        },
        MessageView::Rerr { error, .. } => {
            lemma_text_round_trip(error);
        },
        MessageView::Tdiscarded { which, why } => {
            assert(b.subrange(0, 3) == be24(which));
            lemma_be24(which, b, 0);
            assert(which & 0xff_ffff == which) by (bit_vector)
                requires
                    which < 0x100_0000u32,
            ;
            assert(b.skip(3) == encode_utf8(why));
            lemma_text_round_trip(why);
        },
        MessageView::Tlease { unit, how_long } => {
            assert(b.subrange(1, 9) == be64(how_long));
            lemma_be64(how_long, b, 1);
        },
        _ => {},
    }
}

/// Round trip: the frame `encode` produces for a message decodes back to
/// that message, for every kind with legal tags and fitting lengths
/// (fragments and the pre-encoded probe aside).
pub proof fn lemma_round_trip(m: MessageView)
    requires
        m.tag_ok(),
        m.fits(),
        !(m is Fragment),
        !(m is PreEncodedTping),
    ensures
        frame_of(m.wire()) == Some(m),
{
    let w = m.wire();
    let tag = m.tag();
    lemma_code_round_trip(m.typ());
    assert(w.subrange(1, 4) == be24(tag));
    lemma_be24(tag, w, 1);
    assert(tag & 0xff_ffff == tag) by (bit_vector)
        requires
            tag < 0x100_0000u32,
    ;
    assert(w.skip(4) == m.body());
    lemma_decode_encode(m);
}

/// The pre-encoded probe has exactly the frame of a probe on the reserved
/// ping tag.
pub proof fn lemma_pre_encoded_ping()
    ensures
        MessageView::PreEncodedTping.wire() == (MessageView::Tping {
            tag: crate::tags::PING_TAG,
        }).wire(),
{
}

/// A `Treq` body whose first byte is nonzero (the unsupported multi-key
/// form) does not decode.
pub proof fn lemma_treq_multi_key_rejected(tag: u32, b: Seq<u8>)
    requires
        b.len() >= 1,
        b[0] != 0,
    ensures
        decode_spec(TREQ, tag, b) is None,
{
}

/// An `Rreq` or `Rdispatch` body whose status byte is not 0, 1 or 2 does not
/// decode.
pub proof fn lemma_bad_status_rejected(tag: u32, b: Seq<u8>)
    requires
        b.len() >= 1,
        b[0] > 2,
    ensures
        decode_spec(RREQ, tag, b) is None,
        decode_spec(RDISPATCH, tag, b) is None,
{
}

} // verus!
