//! The fragmenting multiplexer: many tagged messages over one ordered byte
//! stream. Outbound messages wait in a queue and leave one frame per turn,
//! round robin; inbound frames are gathered per tag until a message is
//! whole. The channel itself stays outside: the owner feeds the bytes it
//! read and writes the bytes this hands out.
//!
//! On the stream each frame is preceded by its size: the length of the
//! frame header (type byte and 24-bit tag) and body, as a 32-bit big-endian
//! integer. Without it a reader could not tell where one frame ends and the
//! next begins.
use vstd::prelude::*;
use std::collections::HashMap;
use crate::decode::{decode, decode_spec, decoded};
use crate::fragment::{
    corrupt, drain, first_fragment, frame_at, has_frame, after_frame, lemma_drain_settled,
    lemma_drain_shrinks, lemma_rotate_work, reads, rotate, send_all, step, stream_frame, work,
    Arrival, FrameV, Partials, MAX_FRAME_SIZE,
};
use crate::message::{Message, MuxError};
use crate::tags::{extract_tag, extract_type, is_fragment, set_msb, TAG_MSB};
use crate::wire::{copy_range, get_u32, put_bytes, put_u24, put_u32, u32_at};

verus! {

broadcast use vstd::std_specs::hash::group_hash_axioms;

/// A message waiting to be sent: its type code, tag, body, and how many
/// body bytes have been sent.
pub struct Outgoing {
    typ: i8,
    tag: u32,
    body: Vec<u8>,
    sent: usize,
}

impl View for Outgoing {
    type V = FrameV;

    /// Type code, tag and the body bytes still to send.
    closed spec fn view(&self) -> FrameV {
        (self.typ, self.tag, self.body@.skip(self.sent as int))
    }
}

/// `v` is what a read hands out for arrival `a`: the tag with the decoded
/// message (or why it failed), or the tag with `ProtocolViolation`.
pub open spec fn reported(v: (u32, Result<Message, MuxError>), a: Arrival) -> bool {
    match a {
        Arrival::Violation { tag } => v == (tag, Err::<Message, MuxError>(
            MuxError::ProtocolViolation,
        )),
        Arrival::Complete { typ, tag, body } => v.0 == tag && decoded(
            v.1,
            decode_spec(typ, tag, body),
        ),
        Arrival::Pending => false,
    }
}

/// The abstract value of the partial inbound messages.
pub open spec fn partials_view(m: Map<u32, (i8, Vec<u8>)>) -> Partials {
    Map::new(|k: u32| m.contains_key(k), |k: u32| (m[k].0, m[k].1@))
}

/// The abstract value of the outbound queue.
pub open spec fn queue_view(q: Seq<Outgoing>) -> Seq<FrameV> {
    q.map_values(|o: Outgoing| o@)
}

/// A transport over channel `T`: the frame size in force, the bytes read
/// but not yet framed, the partial inbound messages, the outbound queue, and
/// the frame being written with how much of it has been written.
pub struct LowLevelTransport<T> {
    inner: T,
    frame_size: usize,
    read_buffer: Vec<u8>,
    partials: HashMap<u32, (i8, Vec<u8>)>,
    queue: Vec<Outgoing>,
    write_buffer: Vec<u8>,
    written: usize,
}

/// What one inbound frame led to.
enum Accepted {
    Pending,
    Complete(i8, u32, Vec<u8>),
    Violation(u32),
}

impl Accepted {
    spec fn view(&self) -> Arrival {
        match self {
            Accepted::Pending => Arrival::Pending,
            Accepted::Complete(typ, tag, body) => Arrival::Complete {
                typ: *typ,
                tag: *tag,
                body: body@,
            },
            Accepted::Violation(tag) => Arrival::Violation { tag: *tag },
        }
    }
}

/// The stream frame of type `typ`, tag `tag` and body `body[from..to]`.
fn build_frame(typ: i8, tag: u32, body: &[u8], from: usize, to: usize) -> (r: Vec<u8>)
    requires
        from <= to <= body@.len(),
        to - from <= MAX_FRAME_SIZE,
    ensures
        r@ == stream_frame((typ, tag, body@.subrange(from as int, to as int))),
{
    let mut frame: Vec<u8> = Vec::new();
    put_u32(&mut frame, (4 + (to - from)) as u32);
    frame.push(typ as u8);
    put_u24(&mut frame, tag);
    let chunk = copy_range(body, from, to);
    put_bytes(&mut frame, chunk.as_slice());
    frame
}

/// A transport over `inner` that sends every message whole until a frame
/// size is set.
pub fn transport<T>(inner: T) -> (r: LowLevelTransport<T>)
    ensures
        r.wf(),
        r.inner() == inner,
        r.frame_size() == MAX_FRAME_SIZE,
        r.buffered() == Seq::<u8>::empty(),
        r.partial() == Map::<u32, (i8, Seq<u8>)>::empty(),
        r.pending() == Seq::<FrameV>::empty(),
        r.unsent_view() == Seq::<u8>::empty(),
{
    let t = LowLevelTransport {
        inner,
        frame_size: MAX_FRAME_SIZE,
        read_buffer: Vec::new(),
        partials: HashMap::new(),
        queue: Vec::new(),
        write_buffer: Vec::new(),
        written: 0,
    };
    assert(t.partial() =~= Map::<u32, (i8, Seq<u8>)>::empty());
    assert(t.unsent_view() =~= Seq::<u8>::empty());
    t
}

impl<T> LowLevelTransport<T> {
    /// Well-formed: the frame size is positive and bounded, the written
    /// count stays in the frame being written, and every queued message has
    /// a tag below the fragment flag and a cursor within its body.
    pub closed spec fn wf(&self) -> bool {
        &&& 0 < self.frame_size <= MAX_FRAME_SIZE
        &&& self.written <= self.write_buffer@.len()
        &&& forall|i: int|
            0 <= i < self.queue@.len() ==> #[trigger] self.queue@[i].sent <= self.queue@[i].body@.len()
                && self.queue@[i].tag < 0x80_0000
    }

    /// Everything but the channel is as in `other`.
    pub closed spec fn same_but_inner(&self, other: Self) -> bool {
        &&& self.frame_size == other.frame_size
        &&& self.read_buffer == other.read_buffer
        &&& self.partials == other.partials
        &&& self.queue == other.queue
        &&& self.write_buffer == other.write_buffer
        &&& self.written == other.written
    }

    pub closed spec fn inner(&self) -> T {
        self.inner
    }

    pub closed spec fn frame_size(&self) -> usize {
        self.frame_size
    }

    /// Bytes read from the channel that do not yet form a frame.
    pub closed spec fn buffered(&self) -> Seq<u8> {
        self.read_buffer@
    }

    /// Partial inbound messages per tag.
    pub closed spec fn partial(&self) -> Partials {
        partials_view(self.partials@)
    }

    /// Messages waiting to send more frames, next first.
    pub closed spec fn pending(&self) -> Seq<FrameV> {
        queue_view(self.queue@)
    }

    /// The part of the current frame not yet written to the channel.
    pub closed spec fn unsent_view(&self) -> Seq<u8> {
        self.write_buffer@.skip(self.written as int)
    }

    /// A transport over `inner` with a negotiated frame size.
    pub fn with_frame_size(inner: T, frame_size: usize) -> (r: Self)
        requires
            0 < frame_size <= MAX_FRAME_SIZE,
        ensures
            r.wf(),
            r.inner() == inner,
            r.frame_size() == frame_size,
            r.buffered() == Seq::<u8>::empty(),
            r.partial() == Map::<u32, (i8, Seq<u8>)>::empty(),
            r.pending() == Seq::<FrameV>::empty(),
            r.unsent_view() == Seq::<u8>::empty(),
    {
        let mut t = transport(inner);
        t.frame_size = frame_size;
        t
    }

    /// The channel.
    pub fn get_ref(&self) -> (r: &T)
        ensures
            *r == self.inner(),
    {
        &self.inner
    }

    /// The frame size in force.
    pub fn get_frame_size(&self) -> (r: usize)
        ensures
            r == self.frame_size(),
    {
        self.frame_size
    }

    /// The channel, to read from and write to.
    pub fn get_mut(&mut self) -> (r: &mut T)
        ensures
            *r == old(self).inner(),
            final(self).inner() == *final(r),
            final(self).same_but_inner(*old(self)),
            final(self).wf() == old(self).wf(),
            final(self).frame_size() == old(self).frame_size(),
            final(self).buffered() == old(self).buffered(),
            final(self).partial() == old(self).partial(),
            final(self).pending() == old(self).pending(),
            final(self).unsent_view() == old(self).unsent_view(),
    {
        &mut self.inner
    }

    /// Whether the current frame is all written, so that the next one may
    /// start.
    pub fn is_writable(&self) -> (r: bool)
        requires
            self.wf(),
        ensures
            r == (self.unsent_view().len() == 0),
    {
        self.written == self.write_buffer.len()
    }

    /// Whether messages still have frames to send.
    pub fn has_pending(&self) -> (r: bool)
        ensures
            r == (self.pending().len() > 0),
    {
        self.queue.len() > 0
    }

    /// Queues a message to send. Fails, queueing nothing, with
    /// `PendingWrite` while a frame is partly written, with `InvalidTag`
    /// when a tag does not fit or the header tag carries the fragment flag
    /// (kept for the framer), and with `Oversized` when a list or string
    /// does not fit its length field.
    pub fn write(&mut self, msg: Message) -> (r: Result<(), MuxError>)
        requires
            old(self).wf(),
        ensures
            final(self).wf(),
            final(self).inner() == old(self).inner(),
            final(self).frame_size() == old(self).frame_size(),
            final(self).buffered() == old(self).buffered(),
            final(self).partial() == old(self).partial(),
            final(self).unsent_view() == old(self).unsent_view(),
            match r {
                Ok(_) => {
                    &&& old(self).unsent_view().len() == 0
                    &&& msg@.tag_ok()
                    &&& msg@.tag() < 0x80_0000
                    &&& msg@.fits()
                    &&& final(self).pending() == old(self).pending().push(
                        (msg@.typ(), msg@.tag(), msg@.body()),
                    )
                },
                Err(e) => {
                    &&& final(self).pending() == old(self).pending()
                    &&& if old(self).unsent_view().len() > 0 {
                        e == MuxError::PendingWrite
                    } else if !msg@.tag_ok() || msg@.tag() >= 0x80_0000 {
                        e == MuxError::InvalidTag
                    } else {
                        !msg@.fits() && e == MuxError::Oversized
                    }
                },
            },
    {
        if self.written < self.write_buffer.len() {
            return Err(MuxError::PendingWrite);
        }
        if !msg.tag_fits() || msg.tag() >= TAG_MSB {
            return Err(MuxError::InvalidTag);
        }
        if !msg.fits_wire() {
            return Err(MuxError::Oversized);
        }
        let o = Outgoing { typ: msg.typ(), tag: msg.tag(), body: msg.buf(), sent: 0 };
        assert(o@.2 == o.body@);
        self.queue.push(o);
        assert(self.pending() =~= old(self).pending().push((msg@.typ(), msg@.tag(), msg@.body())));
        Ok(())
    }

    /// Makes the next frame current once the previous one is all written:
    /// the head of the queue sends its next fragment and, with more to
    /// send, goes to the back. Gives whether there is anything to write.
    pub fn load_frame(&mut self) -> (r: bool)
        requires
            old(self).wf(),
        ensures
            final(self).wf(),
            final(self).inner() == old(self).inner(),
            final(self).frame_size() == old(self).frame_size(),
            final(self).buffered() == old(self).buffered(),
            final(self).partial() == old(self).partial(),
            if old(self).unsent_view().len() > 0 {
                r && final(self).unsent_view() == old(self).unsent_view() && final(self).pending()
                    == old(self).pending()
            } else if old(self).pending().len() == 0 {
                !r && final(self).unsent_view() == old(self).unsent_view() && final(self).pending()
                    == old(self).pending()
            } else {
                let q = old(self).pending();
                let f = old(self).frame_size() as nat;
                &&& r
                &&& final(self).unsent_view() == stream_frame(first_fragment(q[0].0, q[0].1, q[0].2, f))
                &&& final(self).pending() == rotate(q, f)
            },
    {
        if self.written < self.write_buffer.len() {
            return true;
        }
        if self.queue.len() == 0 {
            return false;
        }
        let ghost q = self.pending();
        let ghost f = self.frame_size as nat;
        let mut o = self.queue.remove(0);
        assert(q[0] == o@);
        assert(self.queue@ == old(self).queue@.drop_first());
        assert(o.sent <= o.body@.len() && o.tag < 0x80_0000);
        assert forall|i: int| 0 <= i < self.queue@.len() implies #[trigger] self.queue@[i].sent
            <= self.queue@[i].body@.len() && self.queue@[i].tag < 0x80_0000 by {
            assert(self.queue@[i] == old(self).queue@[i + 1]);
        }
        let ghost rest_q = self.queue@;
        let total = o.body.len();
        let left = total - o.sent;
        let last = left <= self.frame_size;
        let end = if last {
            total
        } else {
            o.sent + self.frame_size
        };
        let tag = if last {
            o.tag
        } else {
            set_msb(o.tag)
        };
        proof {
            if !last {
                assert(tag == (o.tag + 0x80_0000) as u32);
            }
        }
        let frame = build_frame(o.typ, tag, o.body.as_slice(), o.sent, end);
        assert(o.body@.subrange(o.sent as int, end as int) == first_fragment(
            q[0].0,
            q[0].1,
            q[0].2,
            f,
        ).2);
        assert(frame@ == stream_frame(first_fragment(q[0].0, q[0].1, q[0].2, f)));
        self.write_buffer = frame;
        self.written = 0;
        assert(self.unsent_view() == self.write_buffer@);
        if !last {
            o.sent = end;
            assert(o@.2 == q[0].2.skip(f as int));
            self.queue.push(o);
        }
        assert(self.pending() =~= rotate(q, f));
        assert(0 < self.frame_size <= MAX_FRAME_SIZE);
        assert(self.written <= self.write_buffer@.len());
        assert forall|i: int| 0 <= i < self.queue@.len() implies #[trigger] self.queue@[i].sent
            <= self.queue@[i].body@.len() && self.queue@[i].tag < 0x80_0000 by {
            if i < rest_q.len() {
                assert(self.queue@[i] == rest_q[i]);
            }
        }
        assert(self.wf());
        true
    }

    /// The part of the current frame not yet written.
    pub fn unsent(&self) -> (r: &[u8])
        requires
            self.wf(),
        ensures
            r@ == self.unsent_view(),
    {
        vstd::slice::slice_subrange(self.write_buffer.as_slice(), self.written, self.write_buffer.len())
    }

    /// Records that the channel took `n` more bytes of the current frame.
    pub fn consume(&mut self, n: usize)
        requires
            old(self).wf(),
            n <= old(self).unsent_view().len(),
        ensures
            final(self).wf(),
            final(self).inner() == old(self).inner(),
            final(self).frame_size() == old(self).frame_size(),
            final(self).buffered() == old(self).buffered(),
            final(self).partial() == old(self).partial(),
            final(self).pending() == old(self).pending(),
            final(self).unsent_view() == old(self).unsent_view().skip(n as int),
    {
        let len = self.write_buffer.len();
        assert(old(self).unsent_view().len() == len - self.written);
        self.written = self.written + n;
        assert(self.unsent_view() =~= old(self).unsent_view().skip(n as int));
    }

    /// Hands out everything left to send, for a channel that takes any
    /// number of bytes: the rest of the current frame, then the frames of
    /// the queued messages, one per message per turn, until none is left.
    pub fn take_output(&mut self) -> (r: Vec<u8>)
        requires
            old(self).wf(),
        ensures
            final(self).wf(),
            final(self).inner() == old(self).inner(),
            final(self).frame_size() == old(self).frame_size(),
            final(self).buffered() == old(self).buffered(),
            final(self).partial() == old(self).partial(),
            final(self).pending() == Seq::<FrameV>::empty(),
            final(self).unsent_view() == Seq::<u8>::empty(),
            r@ == old(self).unsent_view() + send_all(old(self).pending(), old(self).frame_size() as nat),
    {
        let ghost f = self.frame_size as nat;
        let ghost want = old(self).unsent_view() + send_all(old(self).pending(), f);
        let mut out: Vec<u8> = Vec::new();
        assert(out@ + self.unsent_view() + send_all(self.pending(), f) == want);
        loop
            invariant
                self.wf(),
                self.inner() == old(self).inner(),
                self.frame_size() == old(self).frame_size(),
                f == self.frame_size() as nat,
                self.buffered() == old(self).buffered(),
                self.partial() == old(self).partial(),
                want == old(self).unsent_view() + send_all(old(self).pending(), f),
                out@ + self.unsent_view() + send_all(self.pending(), f) == want,
            decreases work(self.pending()), self.unsent_view().len(),
        {
            let ghost q = self.pending();
            let ghost u = self.unsent_view();
            if !self.load_frame() {
                assert(send_all(self.pending(), f) == Seq::<u8>::empty());
                assert(out@ + self.unsent_view() + send_all(self.pending(), f) == out@);
                return out;
            }
            proof {
                if u.len() == 0 {
                    lemma_rotate_work(q, f);
                    assert(send_all(q, f) == self.unsent_view() + send_all(self.pending(), f));
                    assert(u + send_all(q, f) == self.unsent_view() + send_all(self.pending(), f));
                }
            }
            put_bytes(&mut out, self.unsent());
            let n = self.unsent().len();
            self.consume(n);
            assert(self.unsent_view() == Seq::<u8>::empty());
            assert(out@ + self.unsent_view() + send_all(self.pending(), f) == want);
        }
    }

    /// Adds bytes read from the channel.
    pub fn feed(&mut self, bytes: &[u8])
        requires
            old(self).wf(),
        ensures
            final(self).wf(),
            final(self).inner() == old(self).inner(),
            final(self).frame_size() == old(self).frame_size(),
            final(self).buffered() == old(self).buffered() + bytes@,
            final(self).partial() == old(self).partial(),
            final(self).pending() == old(self).pending(),
            final(self).unsent_view() == old(self).unsent_view(),
    {
        put_bytes(&mut self.read_buffer, bytes);
    }

    /// One inbound frame applied to the partial messages.
    fn accept(&mut self, typ: i8, tag: u32, body: Vec<u8>) -> (r: Accepted)
        requires
            old(self).wf(),
            tag < 0x100_0000,
        ensures
            final(self).wf(),
            final(self).inner() == old(self).inner(),
            final(self).frame_size() == old(self).frame_size(),
            final(self).buffered() == old(self).buffered(),
            final(self).pending() == old(self).pending(),
            final(self).unsent_view() == old(self).unsent_view(),
            (final(self).partial(), r.view()) == step(old(self).partial(), (typ, tag, body@)),
    {
        let ghost p = self.partial();
        let base = tag & 0x7f_ffff;
        assert(base == tag % 0x80_0000) by (bit_vector)
            requires
                base == tag & 0x7f_ffff,
        ;
        let frag = is_fragment(tag);
        match self.partials.remove(&base) {
            Some((ptyp, mut buf)) => {
                assert(p.contains_key(base) && p[base] == (ptyp, buf@));
                if ptyp != typ {
                    assert(self.partial() =~= p.remove(base));
                    return Accepted::Violation(base);
                }
                put_bytes(&mut buf, body.as_slice());
                if frag {
                    self.partials.insert(base, (typ, buf));
                    assert(self.partial() =~= p.insert(base, (typ, p[base].1 + body@)));
                    Accepted::Pending
                } else {
                    assert(self.partial() =~= p.remove(base));
                    Accepted::Complete(typ, base, buf)
                }
            },
            None => {
                assert(!p.contains_key(base));
                if frag {
                    self.partials.insert(base, (typ, body));
                    assert(self.partial() =~= p.insert(base, (typ, Seq::<u8>::empty() + body@)));
                    Accepted::Pending
                } else {
                    assert(self.partial() =~= p.remove(base));
                    assert(Seq::<u8>::empty() + body@ == body@);
                    Accepted::Complete(typ, base, body)
                }
            },
        }
    }

    /// Reads buffered frames until a message is whole or something goes
    /// wrong for a tag; fragments along the way are stored. Gives the tag
    /// and the decoded message (or why it failed), or nothing when the
    /// buffered bytes run out first.
    pub fn read(&mut self) -> (r: Option<(u32, Result<Message, MuxError>)>)
        requires
            old(self).wf(),
        ensures
            final(self).wf(),
            final(self).inner() == old(self).inner(),
            final(self).frame_size() == old(self).frame_size(),
            final(self).pending() == old(self).pending(),
            final(self).unsent_view() == old(self).unsent_view(),
            ({
                let (p, s, a) = drain(old(self).partial(), old(self).buffered());
                &&& final(self).partial() == p
                &&& final(self).buffered() == s
                &&& match a {
                    None => r is None,
                    Some(x) => r matches Some(v) && reported(v, x),
                }
            }),
    {
        let ghost s0 = self.read_buffer@;
        let ghost want = drain(self.partial(), s0);
        let mut pos: usize = 0;
        assert(s0.skip(0) == s0);
        loop
            invariant
                self.wf(),
                self.inner() == old(self).inner(),
                self.frame_size() == old(self).frame_size(),
                self.pending() == old(self).pending(),
                self.unsent_view() == old(self).unsent_view(),
                self.read_buffer@ == s0,
                s0 == old(self).buffered(),
                want == drain(old(self).partial(), s0),
                pos <= s0.len(),
                want == drain(self.partial(), s0.skip(pos as int)),
            decreases s0.len() - pos,
        {
            let ghost s = s0.skip(pos as int);
            let len = self.read_buffer.len();
            let avail = len - pos;
            if avail < 4 {
                self.read_buffer = copy_range(self.read_buffer.as_slice(), pos, len);
                assert(self.read_buffer@ == s);
                return None;
            }
            let n = get_u32(self.read_buffer.as_slice(), pos);
            assert(u32_at(s, 0) == u32_at(s0, pos as int));
            if n < 4 {
                self.read_buffer = Vec::new();
                assert(self.wf());
                assert(corrupt(s));
                return Some((0, Err(MuxError::ProtocolViolation)));
            }
            if ((avail - 4) as u64) < n as u64 {
                self.read_buffer = copy_range(self.read_buffer.as_slice(), pos, len);
                assert(self.read_buffer@ == s);
                return None;
            }
            let end = pos + 4 + n as usize;
            let h = get_u32(self.read_buffer.as_slice(), pos + 4);
            assert(u32_at(s, 4) == u32_at(s0, pos + 4));
            let typ = extract_type(h);
            let tag = extract_tag(h);
            let body = copy_range(self.read_buffer.as_slice(), pos + 8, end);
            assert(has_frame(s));
            assert(frame_at(s) == (typ, tag, body@));
            assert(after_frame(s) == s0.skip(end as int));
            pos = end;
            match self.accept(typ, tag, body) {
                Accepted::Pending => {},
                Accepted::Complete(ctyp, ctag, full) => {
                    self.read_buffer = copy_range(self.read_buffer.as_slice(), pos, len);
                    assert(self.wf());
                    return Some((ctag, decode(ctyp, ctag, full)));
                },
                Accepted::Violation(vtag) => {
                    self.read_buffer = copy_range(self.read_buffer.as_slice(), pos, len);
                    assert(self.wf());
                    return Some((vtag, Err(MuxError::ProtocolViolation)));
                },
            }
        }
    }

    /// Reads every message the buffered bytes complete, in order, until
    /// nothing more comes: what calling `read` until it gives nothing
    /// hands out.
    pub fn read_all(&mut self) -> (r: Vec<(u32, Result<Message, MuxError>)>)
        requires
            old(self).wf(),
        ensures
            final(self).wf(),
            final(self).inner() == old(self).inner(),
            final(self).frame_size() == old(self).frame_size(),
            final(self).pending() == old(self).pending(),
            final(self).unsent_view() == old(self).unsent_view(),
            final(self).partial() == reads(old(self).partial(), old(self).buffered()).0,
            r@.len() == reads(old(self).partial(), old(self).buffered()).1.len(),
            forall|i: int|
                0 <= i < r@.len() ==> reported(
                    #[trigger] r@[i],
                    reads(old(self).partial(), old(self).buffered()).1[i],
                ),
            drain(final(self).partial(), final(self).buffered()).2 is None,
    {
        let ghost want = reads(self.partial(), self.buffered());
        let mut out: Vec<(u32, Result<Message, MuxError>)> = Vec::new();
        loop
            invariant
                self.wf(),
                self.inner() == old(self).inner(),
                self.frame_size() == old(self).frame_size(),
                self.pending() == old(self).pending(),
                self.unsent_view() == old(self).unsent_view(),
                want == reads(old(self).partial(), old(self).buffered()),
                want.0 == reads(self.partial(), self.buffered()).0,
                out@.len() + reads(self.partial(), self.buffered()).1.len() == want.1.len(),
                forall|i: int| 0 <= i < out@.len() ==> reported(#[trigger] out@[i], want.1[i]),
                forall|j: int|
                    0 <= j < reads(self.partial(), self.buffered()).1.len() ==> #[trigger] reads(
                        self.partial(),
                        self.buffered(),
                    ).1[j] == want.1[out@.len() + j],
            decreases self.buffered().len(),
        {
            let ghost p = self.partial();
            let ghost s = self.buffered();
            let ghost d = drain(p, s);
            match self.read() {
                None => {
                    proof {
                        lemma_drain_settled(p, s);
                    }
                    return out;
                },
                Some(v) => {
                    proof {
                        lemma_drain_shrinks(p, s);
                        let xs = reads(d.0, d.1).1;
                        assert(reads(p, s).1 == seq![d.2.unwrap()] + xs);
                        assert(reads(p, s).1[0] == d.2.unwrap());
                        assert forall|j: int| 0 <= j < xs.len() implies #[trigger] xs[j] == want.1[
                            out@.len() + 1 + j] by {
                            assert(xs[j] == reads(p, s).1[j + 1]);
                        }
                    }
                    out.push(v);
                    assert forall|i: int| 0 <= i < out@.len() implies reported(
                        #[trigger] out@[i],
                        want.1[i],
                    ) by {
                        if i == out@.len() - 1 {
                            assert(want.1[i] == reads(p, s).1[0]);
                        }
                    }
                },
            }
        }
    }
}

} // verus!
