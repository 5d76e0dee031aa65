//! The framer's model: how a message is cut into fragments, how frames sit
//! on the byte stream, and how fragments are put back together per tag.
use vstd::prelude::*;
use crate::tags::{code_of_byte, fragment_flag};
use crate::wire::{be24, be32, lemma_be32, u32_at};

verus! {

/// The largest negotiable fragment body: the largest for which a frame's
/// 32-bit size field (4 header bytes and the body) still fits.
pub const MAX_FRAME_SIZE: usize = 0xffff_fffb;

/// A frame as the framer handles it: type code, tag (with the fragment flag
/// when more follows), body.
pub type FrameV = (i8, u32, Seq<u8>);

/// Partial messages per tag: the type code of the first fragment and the
/// bytes gathered so far.
pub type Partials = Map<u32, (i8, Seq<u8>)>;

/// What one inbound frame leads to.
pub enum Arrival {
    /// A fragment was stored; nothing is complete yet.
    Pending,
    /// A whole message body is complete.
    Complete { typ: i8, tag: u32, body: Seq<u8> },
    /// The frames of `tag` do not form a message; its partial bytes are
    /// dropped.
    Violation { tag: u32 },
}

/// `tag` with the fragment flag set (for a tag below the flag).
pub open spec fn flagged(tag: u32) -> u32 {
    (tag + 0x80_0000) as u32
}

/// A frame on the byte stream: the 32-bit size of header and body, the
/// type byte, the 24-bit tag, the body.
pub open spec fn stream_frame(fr: FrameV) -> Seq<u8> {
    be32((4 + fr.2.len()) as u32) + seq![fr.0 as u8] + be24(fr.1) + fr.2
}

/// The first frame of a message whose unsent body is `rest`, with at most
/// `f` body bytes per frame.
pub open spec fn first_fragment(typ: i8, tag: u32, rest: Seq<u8>, f: nat) -> FrameV {
    if rest.len() <= f {
        (typ, tag, rest)
    } else {
        (typ, flagged(tag), rest.take(f as int))
    }
}

/// The frames a message body is sent as: chunks of `f` bytes in order, all
/// but the last with the fragment flag. A body of at most `f` bytes is one
/// plain frame.
pub open spec fn fragments(typ: i8, tag: u32, b: Seq<u8>, f: nat) -> Seq<FrameV>
    decreases b.len(),
{
    if b.len() <= f || f == 0 {
        seq![(typ, tag, b)]
    } else {
        seq![(typ, flagged(tag), b.take(f as int))] + fragments(typ, tag, b.skip(f as int), f)
    }
}

/// The number of frames a body of `n` bytes is sent as: `ceil(n / f)`, and
/// one for an empty body.
pub open spec fn frame_count(n: nat, f: nat) -> nat {
    if n == 0 {
        1
    } else {
        ((n + f - 1) / f as int) as nat
    }
}

/// One inbound frame applied to the partial messages.
pub open spec fn step(p: Partials, fr: FrameV) -> (Partials, Arrival) {
    let typ = fr.0;
    let tag = fr.1;
    let base = tag % 0x80_0000;
    if p.contains_key(base) && p[base].0 != typ {
        (p.remove(base), Arrival::Violation { tag: base })
    } else {
        let prior = if p.contains_key(base) {
            p[base].1
        } else {
            Seq::empty()
        };
        if fragment_flag(tag) {
            (p.insert(base, (typ, prior + fr.2)), Arrival::Pending)
        } else {
            (p.remove(base), Arrival::Complete { typ, tag: base, body: prior + fr.2 })
        }
    }
}

/// A sequence of inbound frames applied in order: the final partial
/// messages, and every arrival other than `Pending`.
pub open spec fn run(p: Partials, frs: Seq<FrameV>) -> (Partials, Seq<Arrival>)
    decreases frs.len(),
{
    if frs.len() == 0 {
        (p, Seq::empty())
    } else {
        let (next, a) = step(p, frs[0]);
        let (after, rest) = run(next, frs.drop_first());
        if a is Pending {
            (after, rest)
        } else {
            (after, seq![a] + rest)
        }
    }
}

/// The byte stream holds, at its start, a frame whose size field is below
/// the header size: the stream cannot be read further.
pub open spec fn corrupt(s: Seq<u8>) -> bool {
    s.len() >= 4 && u32_at(s, 0) < 4
}

/// The byte stream holds a whole frame at its start.
pub open spec fn has_frame(s: Seq<u8>) -> bool {
    s.len() >= 4 && u32_at(s, 0) >= 4 && s.len() - 4 >= u32_at(s, 0)
}

/// The whole frame at the start of the stream.
pub open spec fn frame_at(s: Seq<u8>) -> FrameV {
    let h = u32_at(s, 4);
    (code_of_byte((h / 0x100_0000) as int) as i8, h % 0x100_0000, s.subrange(
        8,
        4 + u32_at(s, 0) as int,
    ))
}

/// What follows the frame at the start of the stream.
pub open spec fn after_frame(s: Seq<u8>) -> Seq<u8> {
    s.skip(4 + u32_at(s, 0) as int)
}

/// Reads buffered bytes until something other than a stored fragment
/// happens: the partial messages then, the bytes left, and what happened
/// (`None` when the bytes run out first). A corrupt stream is reported on
/// the marker tag and its bytes are dropped.
pub open spec fn drain(p: Partials, s: Seq<u8>) -> (Partials, Seq<u8>, Option<Arrival>)
    decreases s.len(),
{
    if corrupt(s) {
        (p, Seq::empty(), Some(Arrival::Violation { tag: 0 }))
    } else if has_frame(s) {
        let (next, a) = step(p, frame_at(s));
        if a is Pending {
            drain(next, after_frame(s))
        } else {
            (next, after_frame(s), Some(a))
        }
    } else {
        (p, s, None)
    }
}

/// The outbound queue after its head sent one frame: a head with more to
/// send goes to the back.
pub open spec fn rotate(q: Seq<FrameV>, f: nat) -> Seq<FrameV> {
    if q[0].2.len() > f {
        q.drop_first().push((q[0].0, q[0].1, q[0].2.skip(f as int)))
    } else {
        q.drop_first()
    }
}

/// All frames of `x` and `y`, each kept in its own order, merged as the
/// schedule `s` picks (`true`: next of `x`); what the schedule leaves over
/// follows, `x` first.
pub open spec fn interleave(x: Seq<FrameV>, y: Seq<FrameV>, s: Seq<bool>) -> Seq<FrameV>
    decreases s.len(),
{
    if s.len() == 0 {
        x + y
    } else if s[0] && x.len() > 0 {
        seq![x[0]] + interleave(x.drop_first(), y, s.drop_first())
    } else if !s[0] && y.len() > 0 {
        seq![y[0]] + interleave(x, y.drop_first(), s.drop_first())
    } else {
        interleave(x, y, s.drop_first())
    }
}

/// The partial message of tag `t` holds `acc` under type `typ` (no entry
/// means nothing gathered yet).
pub open spec fn holds(p: Partials, t: u32, typ: i8, acc: Seq<u8>) -> bool {
    if p.contains_key(t) {
        p[t] == (typ, acc)
    } else {
        acc.len() == 0
    }
}

proof fn lemma_flag_facts(t: u32)
    requires
        t < 0x80_0000,
    ensures
        !fragment_flag(t),
        t % 0x80_0000 == t,
        fragment_flag(flagged(t)),
        flagged(t) % 0x80_0000 == t,
        flagged(t) < 0x100_0000,
{
}

proof fn lemma_run_cons(p: Partials, a: FrameV, rest: Seq<FrameV>)
    ensures
        run(p, seq![a] + rest) == ({
            let (next, x) = step(p, a);
            let (after, tail) = run(next, rest);
            if x is Pending {
                (after, tail)
            } else {
                (after, seq![x] + tail)
            }
        }),
{
    assert((seq![a] + rest)[0] == a);
    assert((seq![a] + rest).drop_first() == rest);
}

proof fn lemma_run_append(p: Partials, x: Seq<FrameV>, y: Seq<FrameV>)
    ensures
        run(p, x + y) == (run(run(p, x).0, y).0, run(p, x).1 + run(run(p, x).0, y).1),
    decreases x.len(),
{
    if x.len() == 0 {
        assert(x + y == y);
        assert(Seq::<Arrival>::empty() + run(p, y).1 == run(p, y).1);
    } else {
        assert(x + y == seq![x[0]] + (x.drop_first() + y));
        assert(x == seq![x[0]] + x.drop_first());
        lemma_run_cons(p, x[0], x.drop_first() + y);
        lemma_run_cons(p, x[0], x.drop_first());
        let next = step(p, x[0]).0;
        lemma_run_append(next, x.drop_first(), y);
        let a = step(p, x[0]).1;
        if !(a is Pending) {
            let t1 = run(next, x.drop_first()).1;
            let t2 = run(run(next, x.drop_first()).0, y).1;
            assert(seq![a] + (t1 + t2) == (seq![a] + t1) + t2);
        }
    }
}

/// The frames of one message, from a state where its tag holds `acc`,
/// complete it with body `acc + b` and clear its tag.
proof fn lemma_run_message(p: Partials, typ: i8, t: u32, acc: Seq<u8>, b: Seq<u8>, f: nat)
    requires
        t < 0x80_0000,
        f > 0,
        holds(p, t, typ, acc),
    ensures
        run(p, fragments(typ, t, b, f)) == (p.remove(t), seq![
            Arrival::Complete { typ, tag: t, body: acc + b },
        ]),
    decreases b.len(),
{
    lemma_flag_facts(t);
    let frs = fragments(typ, t, b, f);
    if b.len() <= f {
        assert(frs == seq![(typ, t, b)] + Seq::<FrameV>::empty());
        lemma_run_cons(p, (typ, t, b), Seq::<FrameV>::empty());
        if !p.contains_key(t) {
            assert(acc + b == Seq::<u8>::empty() + b);
        }
        assert(seq![Arrival::Complete { typ, tag: t, body: acc + b }] + Seq::<Arrival>::empty()
            == seq![Arrival::Complete { typ, tag: t, body: acc + b }]);
    } else {
        let chunk = b.take(f as int);
        let rest = b.skip(f as int);
        lemma_run_cons(p, (typ, flagged(t), chunk), fragments(typ, t, rest, f));
        let prior = if p.contains_key(t) {
            p[t].1
        } else {
            Seq::<u8>::empty()
        };
        assert(prior == acc);
        let next = p.insert(t, (typ, acc + chunk));
        assert(step(p, (typ, flagged(t), chunk)) == (next, Arrival::Pending));
        lemma_run_message(next, typ, t, acc + chunk, rest, f);
        assert(next.remove(t) =~= p.remove(t));
        assert(acc + chunk + rest == acc + b);
    }
}

proof fn lemma_frame_count(n: nat, f: nat)
    requires
        f > 0,
        n > f,
    ensures
        frame_count(n, f) == 1 + frame_count((n - f) as nat, f),
{
    let m = (n - f) as nat;
    let x = m + f - 1;
    vstd::arithmetic::div_mod::lemma_fundamental_div_mod(x as int, f as int);
    let q = x / f as int;
    let r = x % f as int;
    assert(n + f - 1 == (q + 1) * f + r) by (nonlinear_arith)
        requires
            x == f * q + r,
            n + f - 1 == x + f,
    ;
    vstd::arithmetic::div_mod::lemma_fundamental_div_mod_converse(
        (n + f - 1) as int,
        f as int,
        q + 1,
        r,
    );
}

/// Fragmentation: a body of `n` bytes leaves as `frame_count(n, f)` frames
/// (`ceil(n / f)`, at least one); every frame but the last carries the tag
/// with the fragment flag and exactly `f` bytes, the last carries the plain
/// tag and at most `f` bytes, and the chunks in order make up the body.
pub proof fn lemma_fragments_shape(typ: i8, tag: u32, b: Seq<u8>, f: nat)
    requires
        tag < 0x80_0000,
        f > 0,
    ensures
        fragments(typ, tag, b, f).len() == frame_count(b.len(), f),
        forall|i: int|
            0 <= i < fragments(typ, tag, b, f).len() - 1 ==> {
                let fr = #[trigger] fragments(typ, tag, b, f)[i];
                &&& fr.0 == typ
                &&& fragment_flag(fr.1)
                &&& fr.1 % 0x80_0000 == tag
                &&& fr.2.len() == f
            },
        fragments(typ, tag, b, f).last().0 == typ,
        fragments(typ, tag, b, f).last().1 == tag,
        fragments(typ, tag, b, f).last().2.len() <= f,
        !fragment_flag(tag),
    decreases b.len(),
{
    lemma_flag_facts(tag);
    let frs = fragments(typ, tag, b, f);
    if b.len() <= f {
        if b.len() > 0 {
            vstd::arithmetic::div_mod::lemma_fundamental_div_mod_converse(
                (b.len() + f - 1) as int,
                f as int,
                1,
                (b.len() - 1) as int,
            );
        }
    } else {
        let rest = b.skip(f as int);
        lemma_fragments_shape(typ, tag, rest, f);
        lemma_frame_count(b.len(), f);
        let tail = fragments(typ, tag, rest, f);
        assert(frs.last() == tail.last());
        assert forall|i: int| 0 <= i < frs.len() - 1 implies {
            let fr = #[trigger] frs[i];
            &&& fr.0 == typ
            &&& fragment_flag(fr.1)
            &&& fr.1 % 0x80_0000 == tag
            &&& fr.2.len() == f
        } by {
            if i > 0 {
                assert(frs[i] == tail[i - 1]);
            }
        }
    }
}

/// Reassembly: the frames of one message, read in order on a tag with no
/// partial message, give back exactly that body, once, and leave the
/// partial messages as they were.
pub proof fn lemma_reassembly(p: Partials, typ: i8, tag: u32, b: Seq<u8>, f: nat)
    requires
        tag < 0x80_0000,
        f > 0,
        !p.contains_key(tag),
    ensures
        run(p, fragments(typ, tag, b, f)) == (p, seq![Arrival::Complete { typ, tag, body: b }]),
{
    lemma_run_message(p, typ, tag, Seq::empty(), b, f);
    assert(p.remove(tag) =~= p);
    assert(Seq::<u8>::empty() + b == b);
}

/// The frames of a message still to come: none once it is done, else the
/// fragments of what is left of its body.
pub open spec fn remaining(done: bool, typ: i8, t: u32, r: Seq<u8>, f: nat) -> Seq<FrameV> {
    if done {
        Seq::empty()
    } else {
        fragments(typ, t, r, f)
    }
}

/// The arrival still owed for a message: none once it is done.
pub open spec fn owed(done: bool, typ: i8, t: u32, body: Seq<u8>) -> Seq<Arrival> {
    if done {
        Seq::empty()
    } else {
        seq![Arrival::Complete { typ, tag: t, body }]
    }
}

proof fn lemma_two_streams(
    p: Partials,
    d1: bool,
    typ1: i8,
    t1: u32,
    acc1: Seq<u8>,
    r1: Seq<u8>,
    d2: bool,
    typ2: i8,
    t2: u32,
    acc2: Seq<u8>,
    r2: Seq<u8>,
    f: nat,
    s: Seq<bool>,
)
    requires
        t1 != t2,
        t1 < 0x80_0000,
        t2 < 0x80_0000,
        f > 0,
        d1 ==> !p.contains_key(t1),
        !d1 ==> holds(p, t1, typ1, acc1),
        d2 ==> !p.contains_key(t2),
        !d2 ==> holds(p, t2, typ2, acc2),
    ensures
        ({
            let (pf, arr) = run(
                p,
                interleave(remaining(d1, typ1, t1, r1, f), remaining(d2, typ2, t2, r2, f), s),
            );
            let c1 = owed(d1, typ1, t1, acc1 + r1);
            let c2 = owed(d2, typ2, t2, acc2 + r2);
            pf == p.remove(t1).remove(t2) && (arr == c1 + c2 || arr == c2 + c1)
        }),
    decreases s.len(),
{
    lemma_flag_facts(t1);
    lemma_flag_facts(t2);
    let x = remaining(d1, typ1, t1, r1, f);
    let y = remaining(d2, typ2, t2, r2, f);
    let c1 = owed(d1, typ1, t1, acc1 + r1);
    let c2 = owed(d2, typ2, t2, acc2 + r2);
    if s.len() == 0 {
        lemma_run_append(p, x, y);
        let next = run(p, x).0;
        if d1 {
            assert(x.len() == 0);
            assert(next == p);
        } else {
            lemma_run_message(p, typ1, t1, acc1, r1, f);
        }
        assert(run(p, x).1 == c1);
        assert(d2 ==> !next.contains_key(t2));
        assert(!d2 ==> holds(next, t2, typ2, acc2));
        if d2 {
            assert(run(next, y) == (next, Seq::<Arrival>::empty()));
            assert(next.remove(t2) =~= next);
        } else {
            lemma_run_message(next, typ2, t2, acc2, r2, f);
        }
        assert(run(next, y).1 == c2);
        assert(run(next, y).0 =~= p.remove(t1).remove(t2));
    } else if s[0] && x.len() > 0 {
        let rest_s = s.drop_first();
        lemma_run_cons(p, x[0], interleave(x.drop_first(), y, rest_s));
        if r1.len() <= f {
            assert(x[0] == (typ1, t1, r1));
            assert(x.drop_first() == remaining(true, typ1, t1, r1, f));
            if !p.contains_key(t1) {
                assert(acc1 + r1 == Seq::<u8>::empty() + r1);
            }
            let next = p.remove(t1);
            assert(step(p, x[0]) == (next, Arrival::Complete { typ: typ1, tag: t1, body: acc1 + r1 }));
            lemma_two_streams(next, true, typ1, t1, acc1, r1, d2, typ2, t2, acc2, r2, f, rest_s);
            assert(next.remove(t1).remove(t2) =~= p.remove(t1).remove(t2));
            let arr = run(next, interleave(x.drop_first(), y, rest_s)).1;
            assert(owed(true, typ1, t1, acc1 + r1) + c2 == c2);
            assert(c2 + owed(true, typ1, t1, acc1 + r1) == c2);
            assert(arr == c2);
            assert(seq![Arrival::Complete { typ: typ1, tag: t1, body: acc1 + r1 }] + c2 == c1 + c2);
        } else {
            let chunk = r1.take(f as int);
            let rest = r1.skip(f as int);
            assert(x[0] == (typ1, flagged(t1), chunk));
            assert(x.drop_first() == remaining(false, typ1, t1, rest, f));
            let prior = if p.contains_key(t1) {
                p[t1].1
            } else {
                Seq::<u8>::empty()
            };
            assert(prior == acc1);
            let next = p.insert(t1, (typ1, acc1 + chunk));
            assert(step(p, x[0]) == (next, Arrival::Pending));
            lemma_two_streams(next, false, typ1, t1, acc1 + chunk, rest, d2, typ2, t2, acc2, r2, f, rest_s);
            assert(next.remove(t1).remove(t2) =~= p.remove(t1).remove(t2));
            assert(acc1 + chunk + rest == acc1 + r1);
        }
    } else if !s[0] && y.len() > 0 {
        let rest_s = s.drop_first();
        lemma_run_cons(p, y[0], interleave(x, y.drop_first(), rest_s));
        if r2.len() <= f {
            assert(y[0] == (typ2, t2, r2));
            assert(y.drop_first() == remaining(true, typ2, t2, r2, f));
            if !p.contains_key(t2) {
                assert(acc2 + r2 == Seq::<u8>::empty() + r2);
            }
            let next = p.remove(t2);
            assert(step(p, y[0]) == (next, Arrival::Complete { typ: typ2, tag: t2, body: acc2 + r2 }));
            lemma_two_streams(next, d1, typ1, t1, acc1, r1, true, typ2, t2, acc2, r2, f, rest_s);
            assert(next.remove(t1).remove(t2) =~= p.remove(t1).remove(t2));
            let arr = run(next, interleave(x, y.drop_first(), rest_s)).1;
            assert(c1 + owed(true, typ2, t2, acc2 + r2) == c1);
            assert(owed(true, typ2, t2, acc2 + r2) + c1 == c1);
            assert(arr == c1);
            assert(seq![Arrival::Complete { typ: typ2, tag: t2, body: acc2 + r2 }] + c1 == c2 + c1);
        } else {
            let chunk = r2.take(f as int);
            let rest = r2.skip(f as int);
            assert(y[0] == (typ2, flagged(t2), chunk));
            assert(y.drop_first() == remaining(false, typ2, t2, rest, f));
            let prior = if p.contains_key(t2) {
                p[t2].1
            } else {
                Seq::<u8>::empty()
            };
            assert(prior == acc2);
            let next = p.insert(t2, (typ2, acc2 + chunk));
            assert(step(p, y[0]) == (next, Arrival::Pending));
            lemma_two_streams(next, d1, typ1, t1, acc1, r1, false, typ2, t2, acc2 + chunk, rest, f, rest_s);
            assert(next.remove(t1).remove(t2) =~= p.remove(t1).remove(t2));
            assert(acc2 + chunk + rest == acc2 + r2);
        }
    } else {
        lemma_two_streams(p, d1, typ1, t1, acc1, r1, d2, typ2, t2, acc2, r2, f, s.drop_first());
    }
}

/// Cross-tag interleaving: the frames of two messages on distinct tags,
/// merged in any order that keeps each message's own frames in order, give
/// back both bodies (each once, in the order they complete) and leave the
/// partial messages as they were.
pub proof fn lemma_cross_tag_interleaving(
    p: Partials,
    typ1: i8,
    t1: u32,
    b1: Seq<u8>,
    typ2: i8,
    t2: u32,
    b2: Seq<u8>,
    f: nat,
    s: Seq<bool>,
)
    requires
        t1 != t2,
        t1 < 0x80_0000,
        t2 < 0x80_0000,
        f > 0,
        !p.contains_key(t1),
        !p.contains_key(t2),
    ensures
        ({
            let (pf, arr) = run(
                p,
                interleave(fragments(typ1, t1, b1, f), fragments(typ2, t2, b2, f), s),
            );
            let c1 = Arrival::Complete { typ: typ1, tag: t1, body: b1 };
            let c2 = Arrival::Complete { typ: typ2, tag: t2, body: b2 };
            pf == p && (arr == seq![c1, c2] || arr == seq![c2, c1])
        }),
{
    let e = Seq::<u8>::empty();
    lemma_two_streams(p, false, typ1, t1, e, b1, false, typ2, t2, e, b2, f, s);
    assert(e + b1 == b1);
    assert(e + b2 == b2);
    assert(p.remove(t1).remove(t2) =~= p);
    let c1 = Arrival::Complete { typ: typ1, tag: t1, body: b1 };
    let c2 = Arrival::Complete { typ: typ2, tag: t2, body: b2 };
    assert(seq![c1] + seq![c2] == seq![c1, c2]);
    assert(seq![c2] + seq![c1] == seq![c2, c1]);
}

/// The bytes of a sequence of frames, one after another.
pub open spec fn stream_of(frs: Seq<FrameV>) -> Seq<u8>
    decreases frs.len(),
{
    if frs.len() == 0 {
        Seq::empty()
    } else {
        stream_frame(frs[0]) + stream_of(frs.drop_first())
    }
}

/// A frame written to the stream is read back as that frame, with what
/// followed it left over.
pub proof fn lemma_stream_frame(fr: FrameV, rest: Seq<u8>)
    requires
        fr.1 < 0x100_0000,
        fr.2.len() <= MAX_FRAME_SIZE,
    ensures
        has_frame(stream_frame(fr) + rest),
        !corrupt(stream_frame(fr) + rest),
        frame_at(stream_frame(fr) + rest) == fr,
        after_frame(stream_frame(fr) + rest) == rest,
{
    let w = stream_frame(fr) + rest;
    let n = (4 + fr.2.len()) as u32;
    assert(w.subrange(0, 4) == be32(n));
    lemma_be32(n, w, 0);
    let tag = fr.1;
    let e = be24(tag);
    let (a, b, c, d) = (w[4], w[5], w[6], w[7]);
    assert(a == fr.0 as u8 && b == e[0] && c == e[1] && d == e[2]);
    let h = u32_at(w, 4);
    assert(h / 0x100_0000 == a as u32 && h % 0x100_0000 == tag) by (bit_vector)
        requires
            h == ((a as u32) << 24u32) | ((b as u32) << 16u32) | ((c as u32) << 8u32) | (d as u32),
            b == ((tag >> 16u32) & 0xff) as u8,
            c == ((tag >> 8u32) & 0xff) as u8,
            d == (tag & 0xff) as u8,
            tag < 0x100_0000u32,
    ;
    crate::decode::lemma_code_round_trip(fr.0);
    assert(w.subrange(8, 4 + n as int) == fr.2);
    assert(w.skip(4 + n as int) == rest);
}

/// Reading one whole frame off the stream is one `step`.
proof fn lemma_drain_one(p: Partials, fr: FrameV, tail: Seq<u8>)
    requires
        fr.1 < 0x100_0000,
        fr.2.len() <= MAX_FRAME_SIZE,
    ensures
        drain(p, stream_frame(fr) + tail) == (if step(p, fr).1 is Pending {
            drain(step(p, fr).0, tail)
        } else {
            (step(p, fr).0, tail, Some(step(p, fr).1))
        }),
{
    lemma_stream_frame(fr, tail);
}

/// The bytes of one message's frames, read from a state where its tag holds
/// `acc`, complete it with body `acc + b`, clear its tag, and leave what
/// followed.
proof fn lemma_drain_message_from(
    p: Partials,
    typ: i8,
    tag: u32,
    acc: Seq<u8>,
    b: Seq<u8>,
    f: nat,
    rest: Seq<u8>,
)
    requires
        tag < 0x80_0000,
        0 < f <= MAX_FRAME_SIZE,
        holds(p, tag, typ, acc),
    ensures
        drain(p, stream_of(fragments(typ, tag, b, f)) + rest) == (p.remove(tag), rest, Some(
            Arrival::Complete { typ, tag, body: acc + b },
        )),
    decreases b.len(),
{
    lemma_flag_facts(tag);
    let frs = fragments(typ, tag, b, f);
    if b.len() <= f {
        assert(frs[0] == (typ, tag, b));
        assert(frs.drop_first().len() == 0);
        assert(stream_of(frs.drop_first()) == Seq::<u8>::empty());
        assert(stream_of(frs) == stream_frame((typ, tag, b)) + Seq::<u8>::empty());
        assert(stream_of(frs) + rest == stream_frame((typ, tag, b)) + rest);
        lemma_drain_one(p, (typ, tag, b), rest);
        if !p.contains_key(tag) {
            assert(acc + b == Seq::<u8>::empty() + b);
        }
    } else {
        let chunk = b.take(f as int);
        let more = b.skip(f as int);
        let fr = (typ, flagged(tag), chunk);
        let tail = stream_of(fragments(typ, tag, more, f)) + rest;
        assert(frs[0] == fr);
        assert(frs.drop_first() == fragments(typ, tag, more, f));
        assert(stream_of(frs) == stream_frame(fr) + stream_of(fragments(typ, tag, more, f)));
        assert(stream_of(frs) + rest == stream_frame(fr) + tail);
        lemma_drain_one(p, fr, tail);
        let next = p.insert(tag, (typ, acc + chunk));
        assert(step(p, fr) == (next, Arrival::Pending));
        lemma_drain_message_from(next, typ, tag, acc + chunk, more, f, rest);
        assert(next.remove(tag) =~= p.remove(tag));
        assert(acc + chunk + more == acc + b);
    }
}

/// On the byte stream: the frames of one message, read on a tag with no
/// partial message, yield that body once, leave the partial messages as
/// they were, and leave the bytes that followed.
pub proof fn lemma_drain_message(p: Partials, typ: i8, tag: u32, b: Seq<u8>, f: nat, rest: Seq<u8>)
    requires
        tag < 0x80_0000,
        0 < f <= MAX_FRAME_SIZE,
        !p.contains_key(tag),
    ensures
        drain(p, stream_of(fragments(typ, tag, b, f)) + rest) == (p, rest, Some(
            Arrival::Complete { typ, tag, body: b },
        )),
{
    lemma_drain_message_from(p, typ, tag, Seq::empty(), b, f, rest);
    assert(p.remove(tag) =~= p);
    assert(Seq::<u8>::empty() + b == b);
}

/// The outbound work left in a queue: every unsent byte, and one per
/// message.
pub open spec fn work(q: Seq<FrameV>) -> nat
    decreases q.len(),
{
    if q.len() == 0 {
        0
    } else {
        q[0].2.len() + 1 + work(q.drop_first())
    }
}

proof fn lemma_work_push(q: Seq<FrameV>, e: FrameV)
    ensures
        work(q.push(e)) == work(q) + e.2.len() + 1,
    decreases q.len(),
{
    if q.len() == 0 {
        assert(q.push(e).drop_first() == q);
    } else {
        assert(q.push(e).drop_first() == q.drop_first().push(e));
        lemma_work_push(q.drop_first(), e);
    }
}

/// A turn of the queue lessens its work.
pub proof fn lemma_rotate_work(q: Seq<FrameV>, f: nat)
    requires
        q.len() > 0,
        f > 0,
    ensures
        work(rotate(q, f)) < work(q),
{
    if q[0].2.len() > f {
        lemma_work_push(q.drop_first(), (q[0].0, q[0].1, q[0].2.skip(f as int)));
    }
}

/// Every byte the queue sends, turn by turn, until it is empty.
pub open spec fn send_all(q: Seq<FrameV>, f: nat) -> Seq<u8>
    decreases work(q),
{
    if q.len() == 0 || f == 0 {
        Seq::empty()
    } else {
        proof {
            lemma_rotate_work(q, f);
        }
        stream_frame(first_fragment(q[0].0, q[0].1, q[0].2, f)) + send_all(rotate(q, f), f)
    }
}

/// A message alone in the queue goes out as exactly the stream of its
/// fragments.
pub proof fn lemma_send_alone(typ: i8, tag: u32, b: Seq<u8>, f: nat)
    requires
        f > 0,
    ensures
        send_all(seq![(typ, tag, b)], f) == stream_of(fragments(typ, tag, b, f)),
    decreases b.len(),
{
    let q = seq![(typ, tag, b)];
    let frs = fragments(typ, tag, b, f);
    lemma_rotate_work(q, f);
    if b.len() <= f {
        assert(rotate(q, f) == Seq::<FrameV>::empty());
        assert(send_all(rotate(q, f), f) == Seq::<u8>::empty());
        assert(frs[0] == (typ, tag, b));
        assert(frs.drop_first().len() == 0);
        assert(stream_of(frs.drop_first()) == Seq::<u8>::empty());
        assert(first_fragment(typ, tag, b, f) == frs[0]);
        assert(send_all(q, f) == stream_frame(frs[0]) + Seq::<u8>::empty());
        assert(stream_of(frs) == stream_frame(frs[0]) + Seq::<u8>::empty());
    } else {
        let more = b.skip(f as int);
        assert(rotate(q, f) == seq![(typ, tag, more)]);
        lemma_send_alone(typ, tag, more, f);
        assert(frs.drop_first() == fragments(typ, tag, more, f));
        assert(first_fragment(typ, tag, b, f) == frs[0]);
        assert(send_all(q, f) == stream_frame(frs[0]) + send_all(rotate(q, f), f));
        assert(stream_of(frs) == stream_frame(frs[0]) + stream_of(frs.drop_first()));
    }
}

/// Sending a lone message and reading the bytes back gives that body once,
/// with the partial messages and the bytes that follow unchanged.
pub proof fn lemma_send_then_read(p: Partials, typ: i8, tag: u32, b: Seq<u8>, f: nat, rest: Seq<u8>)
    requires
        tag < 0x80_0000,
        0 < f <= MAX_FRAME_SIZE,
        !p.contains_key(tag),
    ensures
        drain(p, send_all(seq![(typ, tag, b)], f) + rest) == (p, rest, Some(
            Arrival::Complete { typ, tag, body: b },
        )),
{
    lemma_send_alone(typ, tag, b, f);
    lemma_drain_message(p, typ, tag, b, f, rest);
}

/// Bytes may arrive in any pieces: when the bytes so far complete nothing,
/// reading them and then the next piece is reading both at once.
pub proof fn lemma_drain_pieces(p: Partials, s: Seq<u8>, t: Seq<u8>)
    requires
        drain(p, s).2 is None,
    ensures
        drain(p, s + t) == drain(drain(p, s).0, drain(p, s).1 + t),
    decreases s.len(),
{
    if corrupt(s) {
    } else if has_frame(s) {
        let w = s + t;
        assert(w.subrange(0, 4) == s.subrange(0, 4));
        assert(u32_at(w, 0) == u32_at(s, 0));
        assert(u32_at(w, 4) == u32_at(s, 4));
        assert(has_frame(w) && !corrupt(w));
        assert(frame_at(w) == frame_at(s));
        assert(after_frame(w) == after_frame(s) + t);
        let (next, a) = step(p, frame_at(s));
        lemma_drain_pieces(next, after_frame(s), t);
    } else {
    }
}

/// A drain that reports something has read at least one byte.
pub proof fn lemma_drain_shrinks(p: Partials, s: Seq<u8>)
    requires
        drain(p, s).2 is Some,
    ensures
        drain(p, s).1.len() < s.len(),
    decreases s.len(),
{
    if corrupt(s) {
    } else if has_frame(s) {
        let (next, a) = step(p, frame_at(s));
        if a is Pending {
            lemma_drain_shrinks(next, after_frame(s));
        }
    }
}

/// Reading until nothing more comes: the partial messages then, and every
/// report in order (what repeated calls of `read` give).
pub open spec fn reads(p: Partials, s: Seq<u8>) -> (Partials, Seq<Arrival>)
    decreases s.len(),
{
    let (q, r, a) = drain(p, s);
    match a {
        None => (q, Seq::empty()),
        Some(x) => {
            proof {
                lemma_drain_shrinks(p, s);
            }
            let (q2, xs) = reads(q, r);
            (q2, seq![x] + xs)
        },
    }
}

/// Frames that the stream can carry: tags within 24 bits, bodies within the
/// largest frame size.
pub open spec fn carriable(frs: Seq<FrameV>) -> bool {
    forall|i: int| 0 <= i < frs.len() ==> #[trigger] frs[i].1 < 0x100_0000 && frs[i].2.len()
        <= MAX_FRAME_SIZE
}

/// Reading the bytes of whole frames until nothing more comes reports
/// exactly what applying the frames in order does.
pub proof fn lemma_reads_stream(p: Partials, frs: Seq<FrameV>)
    requires
        carriable(frs),
    ensures
        reads(p, stream_of(frs)) == run(p, frs),
    decreases frs.len(),
{
    if frs.len() == 0 {
        assert(!corrupt(Seq::<u8>::empty()) && !has_frame(Seq::<u8>::empty()));
    } else {
        let tail = frs.drop_first();
        assert(carriable(tail)) by {
            assert forall|i: int| 0 <= i < tail.len() implies #[trigger] tail[i].1 < 0x100_0000
                && tail[i].2.len() <= MAX_FRAME_SIZE by {
                assert(tail[i] == frs[i + 1]);
            }
        }
        assert(frs[0].1 < 0x100_0000 && frs[0].2.len() <= MAX_FRAME_SIZE);
        let s = stream_of(frs);
        assert(s == stream_frame(frs[0]) + stream_of(tail));
        lemma_drain_one(p, frs[0], stream_of(tail));
        lemma_reads_stream(step(p, frs[0]).0, tail);
        let (next, a) = step(p, frs[0]);
        if a is Pending {
            lemma_reads_pending(p, s, next, stream_of(tail));
        }
    }
}

/// Where the first frame only stores a fragment, reading the stream is
/// reading what follows it.
proof fn lemma_reads_pending(p: Partials, s: Seq<u8>, next: Partials, t: Seq<u8>)
    requires
        drain(p, s) == drain(next, t),
    ensures
        reads(p, s) == reads(next, t),
    decreases s.len(),
{
    let (q, r, a) = drain(p, s);
    if a is Some {
        lemma_drain_shrinks(p, s);
        lemma_drain_shrinks(next, t);
    }
}

proof fn lemma_fragments_carriable(typ: i8, tag: u32, b: Seq<u8>, f: nat)
    requires
        tag < 0x80_0000,
        0 < f <= MAX_FRAME_SIZE,
    ensures
        carriable(fragments(typ, tag, b, f)),
{
    let frs = fragments(typ, tag, b, f);
    lemma_fragments_shape(typ, tag, b, f);
    assert forall|i: int| 0 <= i < frs.len() implies #[trigger] frs[i].1 < 0x100_0000
        && frs[i].2.len() <= MAX_FRAME_SIZE by {
        if i < frs.len() - 1 {
            assert(frs[i].1 % 0x80_0000 == tag && fragment_flag(frs[i].1));
            assert(frs[i].1 < 0x100_0000) by {
                lemma_fragments_tags(typ, tag, b, f, i);
            }
        } else {
            assert(frs[i] == frs.last());
        }
    }
}

proof fn lemma_fragments_tags(typ: i8, tag: u32, b: Seq<u8>, f: nat, i: int)
    requires
        tag < 0x80_0000,
        f > 0,
        0 <= i < fragments(typ, tag, b, f).len(),
    ensures
        fragments(typ, tag, b, f)[i].1 == tag || fragments(typ, tag, b, f)[i].1 == flagged(tag),
    decreases b.len(),
{
    if b.len() > f && i > 0 {
        lemma_fragments_tags(typ, tag, b.skip(f as int), f, i - 1);
    }
}

proof fn lemma_interleave_carriable(x: Seq<FrameV>, y: Seq<FrameV>, s: Seq<bool>)
    requires
        carriable(x),
        carriable(y),
    ensures
        carriable(interleave(x, y, s)),
    decreases s.len(),
{
    let z = interleave(x, y, s);
    if s.len() == 0 {
        assert forall|i: int| 0 <= i < z.len() implies #[trigger] z[i].1 < 0x100_0000
            && z[i].2.len() <= MAX_FRAME_SIZE by {
            if i < x.len() {
                assert(z[i] == x[i]);
            } else {
                assert(z[i] == y[i - x.len()]);
            }
        }
    } else if s[0] && x.len() > 0 {
        let x2 = x.drop_first();
        assert(carriable(x2)) by {
            assert forall|i: int| 0 <= i < x2.len() implies #[trigger] x2[i].1 < 0x100_0000
                && x2[i].2.len() <= MAX_FRAME_SIZE by {
                assert(x2[i] == x[i + 1]);
            }
        }
        lemma_interleave_carriable(x2, y, s.drop_first());
        let w = interleave(x2, y, s.drop_first());
        assert forall|i: int| 0 <= i < z.len() implies #[trigger] z[i].1 < 0x100_0000
            && z[i].2.len() <= MAX_FRAME_SIZE by {
            if i > 0 {
                assert(z[i] == w[i - 1]);
            }
        }
    } else if !s[0] && y.len() > 0 {
        let y2 = y.drop_first();
        assert(carriable(y2)) by {
            assert forall|i: int| 0 <= i < y2.len() implies #[trigger] y2[i].1 < 0x100_0000
                && y2[i].2.len() <= MAX_FRAME_SIZE by {
                assert(y2[i] == y[i + 1]);
            }
        }
        lemma_interleave_carriable(x, y2, s.drop_first());
        let w = interleave(x, y2, s.drop_first());
        assert forall|i: int| 0 <= i < z.len() implies #[trigger] z[i].1 < 0x100_0000
            && z[i].2.len() <= MAX_FRAME_SIZE by {
            if i > 0 {
                assert(z[i] == w[i - 1]);
            }
        }
    } else {
        lemma_interleave_carriable(x, y, s.drop_first());
    }
}

/// Cross-tag interleaving on the byte stream: the bytes of two messages'
/// frames on distinct tags, merged in any order that keeps each message's
/// frames in order, read until nothing more comes, give back both bodies,
/// each once, and leave the partial messages as they were.
pub proof fn lemma_cross_tag_stream(
    p: Partials,
    typ1: i8,
    t1: u32,
    b1: Seq<u8>,
    typ2: i8,
    t2: u32,
    b2: Seq<u8>,
    f: nat,
    s: Seq<bool>,
)
    requires
        t1 != t2,
        t1 < 0x80_0000,
        t2 < 0x80_0000,
        0 < f <= MAX_FRAME_SIZE,
        !p.contains_key(t1),
        !p.contains_key(t2),
    ensures
        ({
            let (pf, arr) = reads(
                p,
                stream_of(interleave(fragments(typ1, t1, b1, f), fragments(typ2, t2, b2, f), s)),
            );
            let c1 = Arrival::Complete { typ: typ1, tag: t1, body: b1 };
            let c2 = Arrival::Complete { typ: typ2, tag: t2, body: b2 };
            pf == p && (arr == seq![c1, c2] || arr == seq![c2, c1])
        }),
{
    let x = fragments(typ1, t1, b1, f);
    let y = fragments(typ2, t2, b2, f);
    lemma_fragments_carriable(typ1, t1, b1, f);
    lemma_fragments_carriable(typ2, t2, b2, f);
    lemma_interleave_carriable(x, y, s);
    lemma_reads_stream(p, interleave(x, y, s));
    lemma_cross_tag_interleaving(p, typ1, t1, b1, typ2, t2, b2, f, s);
}

/// Once reading finds nothing more, reading again finds nothing and
/// changes nothing.
pub proof fn lemma_drain_settled(p: Partials, s: Seq<u8>)
    requires
        drain(p, s).2 is None,
    ensures
        drain(drain(p, s).0, drain(p, s).1) == drain(p, s),
    decreases s.len(),
{
    if !corrupt(s) && has_frame(s) {
        let (next, a) = step(p, frame_at(s));
        lemma_drain_settled(next, after_frame(s));
    }
}

/// Reassembly over repeated reads: the bytes of one message's frames, on a
/// tag with no partial message, read until nothing more comes, report that
/// body once and leave the partial messages as they were.
pub proof fn lemma_reads_message(p: Partials, typ: i8, tag: u32, b: Seq<u8>, f: nat)
    requires
        tag < 0x80_0000,
        0 < f <= MAX_FRAME_SIZE,
        !p.contains_key(tag),
    ensures
        reads(p, stream_of(fragments(typ, tag, b, f))) == (p, seq![
            Arrival::Complete { typ, tag, body: b },
        ]),
{
    lemma_fragments_carriable(typ, tag, b, f);
    lemma_reads_stream(p, fragments(typ, tag, b, f));
    lemma_reassembly(p, typ, tag, b, f);
}

} // verus!
