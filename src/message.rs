//! The message taxonomy, its abstract model, and the encoder.
use vstd::prelude::*;
use vstd::utf8::encode_utf8;
use crate::fields::{
    bytes16, check_fits16, check_sides, fits16, fits32, list16, pairs32, pairs_view, write_list16,
    Pairs,
};
use crate::tags::PING_TAG;
use crate::types::{
    BAD_RERR, BAD_TDISCARDED, RDISCARDED, RDISPATCH, RDRAIN, RINIT, RPING, RREQ, TDISPATCH, TDRAIN,
    TINIT, TLEASE, TPING, TREQ,
};
use crate::wire::{be24, be64, copy_range, put_bytes, put_u16, put_u24, put_u64};

verus! {

/// Destination path of a dispatch request.
pub type Path = String;

/// One delegation entry: a path prefix and where it is delegated to. The
/// codec carries entries without interpreting them.
#[derive(Clone, Debug, PartialEq, Eq)]
pub struct Dentry {
    pub prefix: String,
    pub dst: String,
}

/// A delegation table: ordered entries.
pub type Dtab = Vec<Dentry>;

/// Why encoding or decoding failed.
#[derive(Clone, Copy, Debug, PartialEq, Eq)]
pub enum MuxError {
    /// A tag (or a tag a message refers to) does not fit the 24-bit field.
    InvalidTag,
    /// A list or string is too long for its length or count field.
    Oversized,
    /// A body is short, has a bad status byte or invalid UTF-8, or the type
    /// code is unknown.
    Malformed,
    /// Fragments of one tag do not form a message.
    ProtocolViolation,
    /// A new message was written while a frame was still partly written:
    /// the frame must be flushed to completion first.
    PendingWrite,
}

/// One protocol message.
#[derive(Clone, Debug, PartialEq, Eq)]
pub enum Message {
    Tinit { tag: u32, version: u16, headers: Vec<(Vec<u8>, Vec<u8>)> },
    Rinit { tag: u32, version: u16, headers: Vec<(Vec<u8>, Vec<u8>)> },
    /// A request on the deprecated path; superseded by `Tdispatch`.
    Treq { tag: u32, req: Vec<u8> },
    /// A reply to a `Treq`.
    RreqOk { tag: u32, reply: Vec<u8> },
    RreqError { tag: u32, error: String },
    RreqNack { tag: u32 },
    Tdispatch {
        tag: u32,
        contexts: Vec<(Vec<u8>, Vec<u8>)>,
        dst: Path,
        dtab: Dtab,
        req: Vec<u8>,
    },
    /// A reply to a `Tdispatch`.
    RdispatchOk { tag: u32, contexts: Vec<(Vec<u8>, Vec<u8>)>, reply: Vec<u8> },
    RdispatchError { tag: u32, contexts: Vec<(Vec<u8>, Vec<u8>)>, error: String },
    RdispatchNack { tag: u32, contexts: Vec<(Vec<u8>, Vec<u8>)> },
    /// A piece of a larger message; its tag carries the fragment flag.
    Fragment { typ: i8, tag: u32, buf: Vec<u8> },
    /// Asks the peer to stop sending new requests.
    Tdrain { tag: u32 },
    Rdrain { tag: u32 },
    /// Liveness probe.
    Tping { tag: u32 },
    /// The liveness probe on the reserved ping tag, with fixed bytes.
    PreEncodedTping,
    Rping { tag: u32 },
    /// The corresponding T message produced an error.
    Rerr { tag: u32, error: String },
    /// The request on tag `which` was abandoned by the caller.
    Tdiscarded { which: u32, why: String },
    Rdiscarded { tag: u32 },
    /// A lease advisory.
    Tlease { unit: u8, how_long: u64 },
}

/// The abstract value of a `Message`: byte strings as `Seq<u8>`, text as
/// `Seq<char>`.
pub enum MessageView {
    Tinit { tag: u32, version: u16, headers: Pairs },
    Rinit { tag: u32, version: u16, headers: Pairs },
    Treq { tag: u32, req: Seq<u8> },
    RreqOk { tag: u32, reply: Seq<u8> },
    RreqError { tag: u32, error: Seq<char> },
    RreqNack { tag: u32 },
    Tdispatch {
        tag: u32,
        contexts: Pairs,
        dst: Seq<char>,
        dtab: Seq<(Seq<char>, Seq<char>)>,
        req: Seq<u8>,
    },
    RdispatchOk { tag: u32, contexts: Pairs, reply: Seq<u8> },
    RdispatchError { tag: u32, contexts: Pairs, error: Seq<char> },
    RdispatchNack { tag: u32, contexts: Pairs },
    Fragment { typ: i8, tag: u32, buf: Seq<u8> },
    Tdrain { tag: u32 },
    Rdrain { tag: u32 },
    Tping { tag: u32 },
    PreEncodedTping,
    Rping { tag: u32 },
    Rerr { tag: u32, error: Seq<char> },
    Tdiscarded { which: u32, why: Seq<char> },
    Rdiscarded { tag: u32 },
    Tlease { unit: u8, how_long: u64 },
}

/// The abstract value of a delegation table.
pub open spec fn dtab_view(d: Seq<Dentry>) -> Seq<(Seq<char>, Seq<char>)> {
    d.map_values(|e: Dentry| (e.prefix@, e.dst@))
}

/// A delegation table as the byte pairs that go on the wire.
pub open spec fn dtab_bytes(d: Seq<(Seq<char>, Seq<char>)>) -> Pairs {
    d.map_values(|e: (Seq<char>, Seq<char>)| (encode_utf8(e.0), encode_utf8(e.1)))
}

impl View for Message {
    type V = MessageView;

    open spec fn view(&self) -> MessageView {
        match self {
            Message::Tinit { tag, version, headers } => MessageView::Tinit {
                tag: *tag,
                version: *version,
                headers: pairs_view(headers@),
            },
            Message::Rinit { tag, version, headers } => MessageView::Rinit {
                tag: *tag,
                version: *version,
                headers: pairs_view(headers@),
            },
            Message::Treq { tag, req } => MessageView::Treq { tag: *tag, req: req@ },
            Message::RreqOk { tag, reply } => MessageView::RreqOk { tag: *tag, reply: reply@ },
            Message::RreqError { tag, error } => MessageView::RreqError {
                tag: *tag,
                error: error@,
            },
            Message::RreqNack { tag } => MessageView::RreqNack { tag: *tag },
            Message::Tdispatch { tag, contexts, dst, dtab, req } => MessageView::Tdispatch {
                tag: *tag,
                contexts: pairs_view(contexts@),
                dst: dst@,
                dtab: dtab_view(dtab@),
                req: req@,
            },
            Message::RdispatchOk { tag, contexts, reply } => MessageView::RdispatchOk {
                tag: *tag,
                contexts: pairs_view(contexts@),
                reply: reply@,
            },
            Message::RdispatchError { tag, contexts, error } => MessageView::RdispatchError {
                tag: *tag,
                contexts: pairs_view(contexts@),
                error: error@,
            },
            Message::RdispatchNack { tag, contexts } => MessageView::RdispatchNack {
                tag: *tag,
                contexts: pairs_view(contexts@),
            },
            Message::Fragment { typ, tag, buf } => MessageView::Fragment {
                typ: *typ,
                tag: *tag,
                buf: buf@,
            },
            Message::Tdrain { tag } => MessageView::Tdrain { tag: *tag },
            Message::Rdrain { tag } => MessageView::Rdrain { tag: *tag },
            Message::Tping { tag } => MessageView::Tping { tag: *tag },
            Message::PreEncodedTping => MessageView::PreEncodedTping,
            Message::Rping { tag } => MessageView::Rping { tag: *tag },
            Message::Rerr { tag, error } => MessageView::Rerr { tag: *tag, error: error@ },
            Message::Tdiscarded { which, why } => MessageView::Tdiscarded {
                which: *which,
                why: why@,
            },
            Message::Rdiscarded { tag } => MessageView::Rdiscarded { tag: *tag },
            Message::Tlease { unit, how_long } => MessageView::Tlease {
                unit: *unit,
                how_long: *how_long,
            },
        }
    }
}

impl MessageView {
    /// The type code emitted on the wire: the legacy alias for `Rerr` and
    /// `Tdiscarded`.
    pub open spec fn typ(self) -> i8 {
        match self {
            MessageView::Tinit { .. } => TINIT,
            MessageView::Rinit { .. } => RINIT,
            MessageView::Treq { .. } => TREQ,
            MessageView::RreqOk { .. } | MessageView::RreqError { .. } | MessageView::RreqNack {
                ..
            } => RREQ,
            MessageView::Tdispatch { .. } => TDISPATCH,
            MessageView::RdispatchOk { .. } | MessageView::RdispatchError { .. }
            | MessageView::RdispatchNack { .. } => RDISPATCH,
            MessageView::Fragment { typ, .. } => typ,
            MessageView::Tdrain { .. } => TDRAIN,
            MessageView::Rdrain { .. } => RDRAIN,
            MessageView::Tping { .. } | MessageView::PreEncodedTping => TPING,
            MessageView::Rping { .. } => RPING,
            MessageView::Rerr { .. } => BAD_RERR,
            MessageView::Tdiscarded { .. } => BAD_TDISCARDED,
            MessageView::Rdiscarded { .. } => RDISCARDED,
            MessageView::Tlease { .. } => TLEASE,
        }
    }

    /// The tag in the frame header: the marker tag for `Tdiscarded` and
    /// `Tlease`, the reserved ping tag for the pre-encoded probe.
    pub open spec fn tag(self) -> u32 {
        match self {
            MessageView::Tinit { tag, .. } | MessageView::Rinit { tag, .. } | MessageView::Treq {
                tag,
                ..
            } | MessageView::RreqOk { tag, .. } | MessageView::RreqError { tag, .. }
            | MessageView::RreqNack { tag } | MessageView::Tdispatch { tag, .. }
            | MessageView::RdispatchOk { tag, .. } | MessageView::RdispatchError { tag, .. }
            | MessageView::RdispatchNack { tag, .. } | MessageView::Fragment { tag, .. }
            | MessageView::Tdrain { tag } | MessageView::Rdrain { tag } | MessageView::Tping {
                tag,
            } | MessageView::Rping { tag } | MessageView::Rerr { tag, .. }
            | MessageView::Rdiscarded { tag } => tag,
            MessageView::PreEncodedTping => PING_TAG,
            MessageView::Tdiscarded { .. } | MessageView::Tlease { .. } => 0,
        }
    }

    /// The body that follows the frame header.
    pub open spec fn body(self) -> Seq<u8> {
        match self {
            MessageView::Tinit { version, headers, .. } | MessageView::Rinit {
                version,
                headers,
                ..
            } => crate::wire::be16(version) + pairs32(headers),
            MessageView::Treq { req, .. } => seq![0u8] + req,
            MessageView::RreqOk { reply, .. } => seq![0u8] + reply,
            MessageView::RreqError { error, .. } => seq![1u8] + encode_utf8(error),
            MessageView::RreqNack { .. } => seq![2u8],
            MessageView::Tdispatch { contexts, dst, dtab, req, .. } => list16(contexts) + bytes16(
                encode_utf8(dst),
            ) + list16(dtab_bytes(dtab)) + req,
            MessageView::RdispatchOk { contexts, reply, .. } => seq![0u8] + list16(contexts)
                + reply,
            MessageView::RdispatchError { contexts, error, .. } => seq![1u8] + list16(contexts)
                + encode_utf8(error),
            MessageView::RdispatchNack { contexts, .. } => seq![2u8] + list16(contexts),
            MessageView::Fragment { buf, .. } => buf,
            MessageView::Rerr { error, .. } => encode_utf8(error),
            MessageView::Tdiscarded { which, why } => be24(which) + encode_utf8(why),
            MessageView::Tlease { unit, how_long } => seq![unit] + be64(how_long),
            _ => Seq::empty(),
        }
    }

    /// The header tag, and any tag the message refers to, fit 24 bits.
    pub open spec fn tag_ok(self) -> bool {
        &&& self.tag() < 0x100_0000
        &&& (self matches MessageView::Tdiscarded { which, .. } ==> which < 0x100_0000)
    }

    /// Every list and string fits its count or length field.
    pub open spec fn fits(self) -> bool {
        match self {
            MessageView::Tinit { headers, .. } | MessageView::Rinit { headers, .. } => fits32(
                headers,
            ),
            MessageView::Tdispatch { contexts, dst, dtab, .. } => fits16(contexts) && encode_utf8(
                dst,
            ).len() < 0x1_0000 && fits16(dtab_bytes(dtab)),
            MessageView::RdispatchOk { contexts, .. } | MessageView::RdispatchError {
                contexts,
                ..
            } | MessageView::RdispatchNack { contexts, .. } => fits16(contexts),
            _ => true,
        }
    }

    /// The whole frame: type byte, 24-bit tag, body.
    pub open spec fn wire(self) -> Seq<u8> {
        seq![self.typ() as u8] + be24(self.tag()) + self.body()
    }
}

/// The bytes of a string.
pub fn string_bytes(s: &String) -> (r: Vec<u8>)
    ensures
        r@ == encode_utf8(s@),
{
    let b: &[u8] = s.as_str().as_bytes();
    copy_range(b, 0, b.len())
}

/// A delegation table as byte pairs.
pub fn dtab_pairs(d: &Vec<Dentry>) -> (r: Vec<(Vec<u8>, Vec<u8>)>)
    ensures
        pairs_view(r@) == dtab_bytes(dtab_view(d@)),
{
    let ghost want = dtab_bytes(dtab_view(d@));
    let mut r: Vec<(Vec<u8>, Vec<u8>)> = Vec::new();
    let mut i: usize = 0;
    while i < d.len()
        invariant
            want == dtab_bytes(dtab_view(d@)),
            i <= d@.len(),
            r@.len() == i,
            pairs_view(r@) == want.take(i as int),
        decreases d@.len() - i,
    {
        let p = string_bytes(&d[i].prefix);
        let q = string_bytes(&d[i].dst);
        assert(want[i as int] == (p@, q@));
        let ghost before = r@;
        r.push((p, q));
        assert forall|j: int| 0 <= j < i + 1 implies #[trigger] pairs_view(r@)[j] == want.take(
            i + 1,
        )[j] by {
            if j < i {
                assert(r@[j] == before[j]);
                assert(pairs_view(before)[j] == want.take(i as int)[j]);
            }
        }
        assert(pairs_view(r@) =~= want.take(i + 1));
        i = i + 1;
    }
    assert(want.take(i as int) == want);
    r
}

/// The cached frame of the liveness probe on the reserved ping tag.
pub fn pre_encoded_tping() -> (r: Vec<u8>)
    ensures
        r@ == MessageView::PreEncodedTping.wire(),
        r@ == (MessageView::Tping { tag: PING_TAG }).wire(),
{
    let mut r: Vec<u8> = Vec::new();
    r.push(TPING as u8);
    put_u24(&mut r, PING_TAG);
    assert(r@ == (MessageView::Tping { tag: PING_TAG }).wire());
    r
}

impl Message {
    /// The wire type code.
    pub fn typ(&self) -> (r: i8)
        ensures
            r == self@.typ(),
    {
        match self {
            Message::Tinit { .. } => TINIT,
            Message::Rinit { .. } => RINIT,
            Message::Treq { .. } => TREQ,
            Message::RreqOk { .. } | Message::RreqError { .. } | Message::RreqNack { .. } => RREQ,
            Message::Tdispatch { .. } => TDISPATCH,
            Message::RdispatchOk { .. } | Message::RdispatchError { .. }
            | Message::RdispatchNack { .. } => RDISPATCH,
            Message::Fragment { typ, .. } => *typ,
            Message::Tdrain { .. } => TDRAIN,
            Message::Rdrain { .. } => RDRAIN,
            Message::Tping { .. } | Message::PreEncodedTping => TPING,
            Message::Rping { .. } => RPING,
            // The legacy codes keep older peers able to read these.
            Message::Rerr { .. } => BAD_RERR,
            Message::Tdiscarded { .. } => BAD_TDISCARDED,
            Message::Rdiscarded { .. } => RDISCARDED,
            Message::Tlease { .. } => TLEASE,
        }
    }

    /// The tag that goes in the frame header.
    pub fn tag(&self) -> (r: u32)
        ensures
            r == self@.tag(),
    {
        match self {
            Message::Tinit { tag, .. } => *tag,
            Message::Rinit { tag, .. } => *tag,
            Message::Treq { tag, .. } => *tag,
            Message::RreqOk { tag, .. } => *tag,
            Message::RreqError { tag, .. } => *tag,
            Message::RreqNack { tag } => *tag,
            Message::Tdispatch { tag, .. } => *tag,
            Message::RdispatchOk { tag, .. } => *tag,
            Message::RdispatchError { tag, .. } => *tag,
            Message::RdispatchNack { tag, .. } => *tag,
            Message::Fragment { tag, .. } => *tag,
            Message::Tdrain { tag } => *tag,
            Message::Rdrain { tag } => *tag,
            Message::Tping { tag } => *tag,
            Message::Rping { tag } => *tag,
            Message::Rerr { tag, .. } => *tag,
            Message::Rdiscarded { tag } => *tag,
            Message::PreEncodedTping => PING_TAG,
            Message::Tdiscarded { .. } | Message::Tlease { .. } => 0,
        }
    }

    /// Whether the header tag, and any tag the message refers to, fit 24
    /// bits.
    pub fn tag_fits(&self) -> (r: bool)
        ensures
            r == self@.tag_ok(),
    {
        if self.tag() > 0xff_ffff {
            return false;
        }
        match self {
            Message::Tdiscarded { which, .. } => *which <= 0xff_ffff,
            _ => true,
        }
    }

    /// Whether every list and string fits its count or length field.
    pub fn fits_wire(&self) -> (r: bool)
        ensures
            r == self@.fits(),
    {
        match self {
            Message::Tinit { headers, .. } => check_sides(headers, 0x1_0000_0000),
            Message::Rinit { headers, .. } => check_sides(headers, 0x1_0000_0000),
            Message::Tdispatch { contexts, dst, dtab, .. } => {
                check_fits16(contexts) && dst.as_str().as_bytes().len() < 0x1_0000 && check_fits16(
                    &dtab_pairs(dtab),
                )
            },
            Message::RdispatchOk { contexts, .. } => check_fits16(contexts),
            Message::RdispatchError { contexts, .. } => check_fits16(contexts),
            Message::RdispatchNack { contexts, .. } => check_fits16(contexts),
            _ => true,
        }
    }

    /// The body that follows the frame header.
    pub fn buf(&self) -> (r: Vec<u8>)
        requires
            self@.fits(),
        ensures
            r@ == self@.body(),
    {
        let mut out: Vec<u8> = Vec::new();
        match self {
            Message::Tinit { version, headers, .. } => {
                crate::init::encode_into(&mut out, *version, headers);
            },
            Message::Rinit { version, headers, .. } => {
                crate::init::encode_into(&mut out, *version, headers);
            },
            Message::Treq { req, .. } => {
                out.push(0u8);
                put_bytes(&mut out, req.as_slice());
            },
            Message::RreqOk { reply, .. } => {
                out.push(0u8);
                put_bytes(&mut out, reply.as_slice());
            },
            Message::RreqError { error, .. } => {
                out.push(1u8);
                put_bytes(&mut out, error.as_str().as_bytes());
            },
            Message::RreqNack { .. } => {
                out.push(2u8);
            },
            Message::Tdispatch { contexts, dst, dtab, req, .. } => {
                write_list16(&mut out, contexts);
                let d: &[u8] = dst.as_str().as_bytes();
                put_u16(&mut out, d.len() as u16);
                put_bytes(&mut out, d);
                write_list16(&mut out, &dtab_pairs(dtab));
                put_bytes(&mut out, req.as_slice());
            },
            Message::RdispatchOk { contexts, reply, .. } => {
                out.push(0u8);
                write_list16(&mut out, contexts);
                put_bytes(&mut out, reply.as_slice());
            },
            Message::RdispatchError { contexts, error, .. } => {
                out.push(1u8);
                write_list16(&mut out, contexts);
                put_bytes(&mut out, error.as_str().as_bytes());
            },
            Message::RdispatchNack { contexts, .. } => {
                out.push(2u8);
                write_list16(&mut out, contexts);
            },
            Message::Fragment { buf, .. } => {
                put_bytes(&mut out, buf.as_slice());
            },
            Message::Rerr { error, .. } => {
                put_bytes(&mut out, error.as_str().as_bytes());
            },
            Message::Tdiscarded { which, why } => {
                put_u24(&mut out, *which);
                put_bytes(&mut out, why.as_str().as_bytes());
            },
            Message::Tlease { unit, how_long } => {
                out.push(*unit);
                put_u64(&mut out, *how_long);
            },
            _ => {},
        }
        assert(out@ == self@.body());
        out
    }
}

/// Encodes a message as one frame: type byte, 24-bit big-endian tag, body.
/// Fails with `InvalidTag` when a tag does not fit 24 bits (the fragment
/// flag is allowed), and with `Oversized` when a list or string does not fit
/// its length field.
pub fn encode(msg: Message) -> (r: Result<Vec<u8>, MuxError>)
    ensures
        match r {
            Ok(b) => msg@.tag_ok() && msg@.fits() && b@ == msg@.wire(),
            Err(e) => if !msg@.tag_ok() {
                e == MuxError::InvalidTag
            } else {
                !msg@.fits() && e == MuxError::Oversized
            },
        },
{
    if let Message::PreEncodedTping = msg {
        return Ok(pre_encoded_tping());
    }
    if !msg.tag_fits() {
        return Err(MuxError::InvalidTag);
    }
    if !msg.fits_wire() {
        return Err(MuxError::Oversized);
    }
    let mut out: Vec<u8> = Vec::new();
    out.push(msg.typ() as u8);
    put_u24(&mut out, msg.tag());
    let body = msg.buf();
    put_bytes(&mut out, body.as_slice());
    Ok(out)
}

} // verus!
