//! Length-prefixed byte strings and ordered pair lists: the building blocks
//! of message bodies. Each layout has a serializer, a parser over the
//! remaining bytes, and a lemma that the parser reads back what the
//! serializer wrote.
use vstd::prelude::*;
use crate::wire::{
    be16, be32, copy_range, get_u16, get_u32, lemma_be16, lemma_be32, put_bytes, put_u16, put_u32,
    u16_at, u32_at,
};

verus! {

/// An ordered list of byte-string pairs (contexts, session headers).
pub type Pairs = Seq<(Seq<u8>, Seq<u8>)>;

/// The abstract value of a list of byte-vector pairs.
pub open spec fn pairs_view(v: Seq<(Vec<u8>, Vec<u8>)>) -> Pairs {
    v.map_values(|p: (Vec<u8>, Vec<u8>)| (p.0@, p.1@))
}

/// Every pair of `ps` has both sides shorter than `bound`.
pub open spec fn sides_below(ps: Pairs, bound: int) -> bool {
    forall|i: int| 0 <= i < ps.len() ==> #[trigger] ps[i].0.len() < bound && ps[i].1.len() < bound
}

/// A pair list that a 16-bit count and 16-bit lengths can describe.
pub open spec fn fits16(ps: Pairs) -> bool {
    ps.len() < 0x1_0000 && sides_below(ps, 0x1_0000)
}

/// A pair list that 32-bit lengths can describe.
pub open spec fn fits32(ps: Pairs) -> bool {
    sides_below(ps, 0x1_0000_0000)
}

/// Bytes preceded by their length as a 16-bit big-endian integer.
pub open spec fn bytes16(b: Seq<u8>) -> Seq<u8> {
    be16(b.len() as u16) + b
}

/// Bytes preceded by their length as a 32-bit big-endian integer.
pub open spec fn bytes32(b: Seq<u8>) -> Seq<u8> {
    be32(b.len() as u32) + b
}

/// The pairs of `ps`, each side with a 16-bit length prefix.
pub open spec fn pairs16(ps: Pairs) -> Seq<u8>
    decreases ps.len(),
{
    if ps.len() == 0 {
        Seq::empty()
    } else {
        bytes16(ps[0].0) + bytes16(ps[0].1) + pairs16(ps.drop_first())
    }
}

/// A pair list preceded by its 16-bit count.
pub open spec fn list16(ps: Pairs) -> Seq<u8> {
    be16(ps.len() as u16) + pairs16(ps)
}

/// The pairs of `ps`, each side with a 32-bit length prefix.
pub open spec fn pairs32(ps: Pairs) -> Seq<u8>
    decreases ps.len(),
{
    if ps.len() == 0 {
        Seq::empty()
    } else {
        bytes32(ps[0].0) + bytes32(ps[0].1) + pairs32(ps.drop_first())
    }
}

/// Reads a 16-bit big-endian integer; the rest follows.
pub open spec fn take_u16(s: Seq<u8>) -> Option<(u16, Seq<u8>)> {
    if s.len() >= 2 {
        Some((u16_at(s, 0), s.skip(2)))
    } else {
        None
    }
}

/// Reads bytes behind a 16-bit length; the rest follows.
pub open spec fn take_bytes16(s: Seq<u8>) -> Option<(Seq<u8>, Seq<u8>)> {
    match take_u16(s) {
        Some((n, r)) => if n as int <= r.len() {
            Some((r.take(n as int), r.skip(n as int)))
        } else {
            None
        },
        None => None,
    }
}

/// Reads bytes behind a 32-bit length; the rest follows.
pub open spec fn take_bytes32(s: Seq<u8>) -> Option<(Seq<u8>, Seq<u8>)> {
    if s.len() >= 4 && u32_at(s, 0) as int <= s.len() - 4 {
        Some((s.subrange(4, 4 + u32_at(s, 0) as int), s.skip(4 + u32_at(s, 0) as int)))
    } else {
        None
    }
}

/// Reads one pair with 16-bit lengths.
pub open spec fn take_pair16(s: Seq<u8>) -> Option<((Seq<u8>, Seq<u8>), Seq<u8>)> {
    match take_bytes16(s) {
        Some((k, r1)) => match take_bytes16(r1) {
            Some((v, r2)) => Some(((k, v), r2)),
            None => None,
        },
        None => None,
    }
}

/// Reads `n` pairs with 16-bit lengths.
pub open spec fn take_pairs16(s: Seq<u8>, n: nat) -> Option<(Pairs, Seq<u8>)>
    decreases n,
{
    if n == 0 {
        Some((Seq::empty(), s))
    } else {
        match take_pair16(s) {
            Some((p, r1)) => match take_pairs16(r1, (n - 1) as nat) {
                Some((ps, r2)) => Some((seq![p] + ps, r2)),
                None => None,
            },
            None => None,
        }
    }
}

/// Reads a pair list preceded by its 16-bit count.
pub open spec fn take_list16(s: Seq<u8>) -> Option<(Pairs, Seq<u8>)> {
    match take_u16(s) {
        Some((n, r)) => take_pairs16(r, n as nat),
        None => None,
    }
}

/// Reads one pair with 32-bit lengths.
pub open spec fn take_pair32(s: Seq<u8>) -> Option<((Seq<u8>, Seq<u8>), Seq<u8>)> {
    match take_bytes32(s) {
        Some((k, r1)) => match take_bytes32(r1) {
            Some((v, r2)) => Some(((k, v), r2)),
            None => None,
        },
        None => None,
    }
}

/// Reads pairs with 32-bit lengths until no bytes are left.
pub open spec fn pairs32_of(s: Seq<u8>) -> Option<Pairs>
    decreases s.len(),
{
    if s.len() == 0 {
        Some(Seq::empty())
    } else {
        match take_pair32(s) {
            Some((p, r)) => match pairs32_of(r) {
                Some(ps) => Some(seq![p] + ps),
                None => None,
            },
            None => None,
        }
    }
}

// ---- lemmas ----

pub proof fn lemma_take_bytes16(b: Seq<u8>, rest: Seq<u8>)
    requires
        b.len() < 0x1_0000,
    ensures
        take_bytes16(bytes16(b) + rest) == Some((b, rest)),
{
    let s = bytes16(b) + rest;
    assert(s.subrange(0, 2) == be16(b.len() as u16));
    lemma_be16(b.len() as u16, s, 0);
    assert(s.skip(2).take(b.len() as int) == b);
    assert(s.skip(2).skip(b.len() as int) == rest);
}

pub proof fn lemma_take_bytes32(b: Seq<u8>, rest: Seq<u8>)
    requires
        b.len() < 0x1_0000_0000,
    ensures
        take_bytes32(bytes32(b) + rest) == Some((b, rest)),
{
    let s = bytes32(b) + rest;
    assert(s.subrange(0, 4) == be32(b.len() as u32));
    lemma_be32(b.len() as u32, s, 0);
    assert(s.subrange(4, 4 + b.len() as int) == b);
    assert(s.skip(4 + b.len() as int) == rest);
}

pub proof fn lemma_pairs16_push(ps: Pairs, p: (Seq<u8>, Seq<u8>))
    ensures
        pairs16(ps.push(p)) == pairs16(ps) + bytes16(p.0) + bytes16(p.1),
    decreases ps.len(),
{
    if ps.len() == 0 {
        assert(ps.push(p).drop_first() == ps);
        assert(pairs16(ps.push(p)) == bytes16(p.0) + bytes16(p.1) + Seq::<u8>::empty());
        assert(pairs16(ps.push(p)) == pairs16(ps) + bytes16(p.0) + bytes16(p.1));
    } else {
        lemma_pairs16_push(ps.drop_first(), p);
        assert(ps.push(p).drop_first() == ps.drop_first().push(p));
        assert(pairs16(ps.push(p)) == pairs16(ps) + bytes16(p.0) + bytes16(p.1));
    }
}

pub proof fn lemma_pairs32_push(ps: Pairs, p: (Seq<u8>, Seq<u8>))
    ensures
        pairs32(ps.push(p)) == pairs32(ps) + bytes32(p.0) + bytes32(p.1),
    decreases ps.len(),
{
    if ps.len() == 0 {
        assert(ps.push(p).drop_first() == ps);
        assert(pairs32(ps.push(p)) == bytes32(p.0) + bytes32(p.1) + Seq::<u8>::empty());
        assert(pairs32(ps.push(p)) == pairs32(ps) + bytes32(p.0) + bytes32(p.1));
    } else {
        lemma_pairs32_push(ps.drop_first(), p);
        assert(ps.push(p).drop_first() == ps.drop_first().push(p));
        assert(pairs32(ps.push(p)) == pairs32(ps) + bytes32(p.0) + bytes32(p.1));
    }
}

/// Reading `ps.len()` pairs back from their serialization gives `ps`.
pub proof fn lemma_take_pairs16(ps: Pairs, rest: Seq<u8>)
    requires
        sides_below(ps, 0x1_0000),
    ensures
        take_pairs16(pairs16(ps) + rest, ps.len()) == Some((ps, rest)),
    decreases ps.len(),
{
    if ps.len() > 0 {
        let tail = ps.drop_first();
        assert(sides_below(tail, 0x1_0000)) by {
            assert forall|i: int| 0 <= i < tail.len() implies #[trigger] tail[i].0.len() < 0x1_0000
                && tail[i].1.len() < 0x1_0000 by {
                assert(tail[i] == ps[i + 1]);
            }
        }
        assert(ps[0].0.len() < 0x1_0000 && ps[0].1.len() < 0x1_0000);
        let r2 = pairs16(tail) + rest;
        let r1 = bytes16(ps[0].1) + r2;
        lemma_take_bytes16(ps[0].0, r1);
        lemma_take_bytes16(ps[0].1, r2);
        assert(pairs16(ps) + rest == bytes16(ps[0].0) + r1);
        lemma_take_pairs16(tail, rest);
        assert(seq![ps[0]] + tail == ps);
    }
}

/// A count-prefixed pair list reads back as itself.
pub proof fn lemma_take_list16(ps: Pairs, rest: Seq<u8>)
    requires
        fits16(ps),
    ensures
        take_list16(list16(ps) + rest) == Some((ps, rest)),
{
    let s = list16(ps) + rest;
    assert(s.subrange(0, 2) == be16(ps.len() as u16));
    lemma_be16(ps.len() as u16, s, 0);
    assert(s.skip(2) == pairs16(ps) + rest);
    lemma_take_pairs16(ps, rest);
}

/// Pairs with 32-bit lengths read back as themselves.
pub proof fn lemma_pairs32_of(ps: Pairs)
    requires
        fits32(ps),
    ensures
        pairs32_of(pairs32(ps)) == Some(ps),
    decreases ps.len(),
{
    if ps.len() > 0 {
        let tail = ps.drop_first();
        assert(fits32(tail)) by {
            assert forall|i: int| 0 <= i < tail.len() implies #[trigger] tail[i].0.len()
                < 0x1_0000_0000 && tail[i].1.len() < 0x1_0000_0000 by {
                assert(tail[i] == ps[i + 1]);
            }
        }
        assert(ps[0].0.len() < 0x1_0000_0000 && ps[0].1.len() < 0x1_0000_0000);
        let s = pairs32(ps);
        let r2 = pairs32(tail);
        let r1 = bytes32(ps[0].1) + r2;
        assert(s == bytes32(ps[0].0) + r1);
        lemma_take_bytes32(ps[0].0, r1);
        lemma_take_bytes32(ps[0].1, r2);
        assert(take_pair32(s) == Some((ps[0], r2)));
        lemma_pairs32_of(tail);
        assert(seq![ps[0]] + tail == ps);
    }
}

// ---- executable readers and writers ----

/// Appends a pair list with its 16-bit count and 16-bit lengths.
pub fn write_list16(out: &mut Vec<u8>, ps: &Vec<(Vec<u8>, Vec<u8>)>)
    requires
        fits16(pairs_view(ps@)),
    ensures
        final(out)@ == old(out)@ + list16(pairs_view(ps@)),
{
    let ghost pv = pairs_view(ps@);
    put_u16(out, ps.len() as u16);
    let ghost start = out@;
    let mut i: usize = 0;
    while i < ps.len()
        invariant
            pv == pairs_view(ps@),
            fits16(pv),
            i <= ps@.len(),
            out@ == start + pairs16(pv.take(i as int)),
        decreases ps@.len() - i,
    {
        let k = &ps[i].0;
        let v = &ps[i].1;
        assert(pv[i as int] == (k@, v@));
        put_u16(out, k.len() as u16);
        put_bytes(out, k.as_slice());
        put_u16(out, v.len() as u16);
        put_bytes(out, v.as_slice());
        proof {
            lemma_pairs16_push(pv.take(i as int), pv[i as int]);
            assert(pv.take(i + 1) == pv.take(i as int).push(pv[i as int]));
        }
        i = i + 1;
    }
    assert(pv.take(i as int) == pv);
}

/// Appends pairs with 32-bit lengths.
pub fn write_pairs32(out: &mut Vec<u8>, ps: &Vec<(Vec<u8>, Vec<u8>)>)
    requires
        fits32(pairs_view(ps@)),
    ensures
        final(out)@ == old(out)@ + pairs32(pairs_view(ps@)),
{
    let ghost pv = pairs_view(ps@);
    let ghost start = out@;
    let mut i: usize = 0;
    while i < ps.len()
        invariant
            pv == pairs_view(ps@),
            fits32(pv),
            i <= ps@.len(),
            out@ == start + pairs32(pv.take(i as int)),
        decreases ps@.len() - i,
    {
        let k = &ps[i].0;
        let v = &ps[i].1;
        assert(pv[i as int] == (k@, v@));
        put_u32(out, k.len() as u32);
        put_bytes(out, k.as_slice());
        put_u32(out, v.len() as u32);
        put_bytes(out, v.as_slice());
        proof {
            lemma_pairs32_push(pv.take(i as int), pv[i as int]);
            assert(pv.take(i + 1) == pv.take(i as int).push(pv[i as int]));
        }
        i = i + 1;
    }
    assert(pv.take(i as int) == pv);
}

/// Reads bytes behind a 16-bit length at `pos`; gives them and the position
/// after them.
pub fn read_bytes16(s: &[u8], pos: usize) -> (r: Option<(Vec<u8>, usize)>)
    requires
        pos <= s@.len(),
    ensures
        match take_bytes16(s@.skip(pos as int)) {
            Some((b, rest)) => r matches Some((v, p)) && v@ == b && pos <= p <= s@.len() && s@.skip(
                p as int,
            ) == rest,
            None => r is None,
        },
{
    let ghost t = s@.skip(pos as int);
    if s.len() - pos < 2 {
        return None;
    }
    let n = get_u16(s, pos) as usize;
    assert(u16_at(t, 0) == u16_at(s@, pos as int));
    if s.len() - (pos + 2) < n {
        return None;
    }
    let v = copy_range(s, pos + 2, pos + 2 + n);
    assert(t.skip(2).take(n as int) == v@);
    assert(t.skip(2).skip(n as int) == s@.skip(pos + 2 + n));
    Some((v, pos + 2 + n))
}

/// Reads bytes behind a 32-bit length at `pos`; gives them and the position
/// after them.
pub fn read_bytes32(s: &[u8], pos: usize) -> (r: Option<(Vec<u8>, usize)>)
    requires
        pos <= s@.len(),
    ensures
        match take_bytes32(s@.skip(pos as int)) {
            Some((b, rest)) => r matches Some((v, p)) && v@ == b && pos <= p <= s@.len() && s@.skip(
                p as int,
            ) == rest,
            None => r is None,
        },
{
    let ghost t = s@.skip(pos as int);
    if s.len() - pos < 4 {
        return None;
    }
    let n32 = get_u32(s, pos);
    assert(u32_at(t, 0) == u32_at(s@, pos as int));
    if ((s.len() - (pos + 4)) as u64) < n32 as u64 {
        return None;
    }
    let n = n32 as usize;
    let v = copy_range(s, pos + 4, pos + 4 + n);
    assert(t.subrange(4, 4 + n) == v@);
    assert(t.skip(4 + n) == s@.skip(pos + 4 + n));
    Some((v, pos + 4 + n))
}

/// Reads a pair list preceded by its 16-bit count at `pos`.
pub fn read_list16(s: &[u8], pos: usize) -> (r: Option<(Vec<(Vec<u8>, Vec<u8>)>, usize)>)
    requires
        pos <= s@.len(),
    ensures
        match take_list16(s@.skip(pos as int)) {
            Some((ps, rest)) => r matches Some((v, p)) && pairs_view(v@) == ps && pos <= p
                <= s@.len() && s@.skip(p as int) == rest,
            None => r is None,
        },
{
    if s.len() - pos < 2 {
        return None;
    }
    let n = get_u16(s, pos);
    assert(u16_at(s@.skip(pos as int), 0) == u16_at(s@, pos as int));
    let mut p: usize = pos + 2;
    assert(s@.skip(pos as int).skip(2) == s@.skip(p as int));
    let ghost whole = take_pairs16(s@.skip(p as int), n as nat);
    let mut acc: Vec<(Vec<u8>, Vec<u8>)> = Vec::new();
    let mut i: u16 = 0;
    while i < n
        invariant
            pos <= p <= s@.len(),
            i <= n,
            whole == take_list16(s@.skip(pos as int)),
            whole == match take_pairs16(s@.skip(p as int), (n - i) as nat) {
                Some((ps, rest)) => Some((pairs_view(acc@) + ps, rest)),
                None => None,
            },
        decreases n - i,
    {
        let ghost before = s@.skip(p as int);
        match read_bytes16(s, p) {
            None => {
                assert(take_pair16(before) is None);
                assert(take_pairs16(before, (n - i) as nat) is None);
                return None;
            },
            Some((k, pos1)) => {
                match read_bytes16(s, pos1) {
                    None => {
                        assert(take_pair16(before) is None);
                        assert(take_pairs16(before, (n - i) as nat) is None);
                        return None;
                    },
                    Some((v, pos2)) => {
                        proof {
                            let m = (n - i) as nat;
                            assert(take_pair16(before) == Some(((k@, v@), s@.skip(pos2 as int))));
                            assert(pairs_view(acc@.push((k, v))) == pairs_view(acc@).push(
                                (k@, v@),
                            ));
                            match take_pairs16(s@.skip(pos2 as int), (m - 1) as nat) {
                                Some((ps, rest)) => {
                                    assert(pairs_view(acc@) + (seq![(k@, v@)] + ps) == pairs_view(
                                        acc@,
                                    ).push((k@, v@)) + ps);
                                },
                                None => {},
                            }
                        }
                        acc.push((k, v));
                        p = pos2;
                    },
                }
            },
        }
        i = i + 1;
    }
    assert(pairs_view(acc@) + Seq::<(Seq<u8>, Seq<u8>)>::empty() == pairs_view(acc@));
    Some((acc, p))
}

/// Reads pairs with 32-bit lengths from `pos` to the end of `s`.
pub fn read_pairs32(s: &[u8], pos: usize) -> (r: Option<Vec<(Vec<u8>, Vec<u8>)>>)
    requires
        pos <= s@.len(),
    ensures
        match pairs32_of(s@.skip(pos as int)) {
            Some(ps) => r matches Some(v) && pairs_view(v@) == ps,
            None => r is None,
        },
{
    let ghost whole = pairs32_of(s@.skip(pos as int));
    let mut p: usize = pos;
    let mut acc: Vec<(Vec<u8>, Vec<u8>)> = Vec::new();
    while p < s.len()
        invariant
            p <= s@.len(),
            whole == pairs32_of(s@.skip(pos as int)),
            whole == match pairs32_of(s@.skip(p as int)) {
                Some(ps) => Some(pairs_view(acc@) + ps),
                None => None,
            },
        decreases s@.len() - p,
    {
        let ghost before = s@.skip(p as int);
        match read_bytes32(s, p) {
            None => {
                assert(take_pair32(before) is None);
                assert(pairs32_of(before) is None);
                return None;
            },
            Some((k, pos1)) => {
                match read_bytes32(s, pos1) {
                    None => {
                        assert(take_pair32(before) is None);
                        assert(pairs32_of(before) is None);
                        return None;
                    },
                    Some((v, pos2)) => {
                        proof {
                            assert(take_pair32(before) == Some(((k@, v@), s@.skip(pos2 as int))));
                            assert(pairs_view(acc@.push((k, v))) == pairs_view(acc@).push(
                                (k@, v@),
                            ));
                            match pairs32_of(s@.skip(pos2 as int)) {
                                Some(ps) => {
                                    assert(pairs_view(acc@) + (seq![(k@, v@)] + ps) == pairs_view(
                                        acc@,
                                    ).push((k@, v@)) + ps);
                                },
                                None => {},
                            }
                        }
                        acc.push((k, v));
                        p = pos2;
                    },
                }
            },
        }
    }
    assert(s@.skip(p as int).len() == 0);
    assert(pairs_view(acc@) + Seq::<(Seq<u8>, Seq<u8>)>::empty() == pairs_view(acc@));
    Some(acc)
}

/// Whether every side of every pair is shorter than `bound`.
pub fn check_sides(ps: &Vec<(Vec<u8>, Vec<u8>)>, bound: u64) -> (r: bool)
    ensures
        r == sides_below(pairs_view(ps@), bound as int),
{
    let ghost pv = pairs_view(ps@);
    let mut i: usize = 0;
    while i < ps.len()
        invariant
            pv == pairs_view(ps@),
            i <= ps@.len(),
            forall|j: int| 0 <= j < i ==> #[trigger] pv[j].0.len() < bound && pv[j].1.len() < bound,
        decreases ps@.len() - i,
    {
        assert(pv[i as int] == (ps@[i as int].0@, ps@[i as int].1@));
        if ps[i].0.len() as u64 >= bound || ps[i].1.len() as u64 >= bound {
            assert(!(pv[i as int].0.len() < bound && pv[i as int].1.len() < bound));
            return false;
        }
        i = i + 1;
    }
    true
}

/// Whether a pair list fits a 16-bit count and 16-bit lengths.
pub fn check_fits16(ps: &Vec<(Vec<u8>, Vec<u8>)>) -> (r: bool)
    ensures
        r == fits16(pairs_view(ps@)),
{
    ps.len() < 0x1_0000 && check_sides(ps, 0x1_0000)
}

} // verus!
