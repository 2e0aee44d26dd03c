//! The binary record of a reference string.
//!
//! A record holds the depth as eight little-endian bytes, then the basis
//! points in order, then the blinding point. A point takes 65 bytes: each
//! coordinate as four little-endian 64-bit limbs, least significant first,
//! and one byte that is 1 for the point at infinity and 0 otherwise.
//! Records may stand one after the other in a file, each found by its
//! offset.

use crate::field::{lemma_limbs_value_injective, limbs_value};
use crate::group::{points_wf, GroupElement};
use crate::srs::Srs;
use vstd::bytes::{
    lemma_auto_spec_u64_to_from_le_bytes, spec_u64_from_le_bytes, spec_u64_to_le_bytes,
    u64_from_le_bytes, u64_to_le_bytes,
};
use vstd::prelude::*;
use vstd::slice::slice_subrange;

verus! {

/// The number of bytes that the depth takes.
pub const HEADER_BYTES: usize = 8;

/// The number of bytes that a coordinate takes.
pub const LIMBS_BYTES: usize = 32;

/// The number of bytes that a point takes.
pub const POINT_BYTES: usize = 65;

/// The bytes of four limbs.
pub open spec fn encode_limbs(l: [u64; 4]) -> Seq<u8> {
    spec_u64_to_le_bytes(l[0]) + spec_u64_to_le_bytes(l[1]) + spec_u64_to_le_bytes(l[2])
        + spec_u64_to_le_bytes(l[3])
}

/// The byte that tells a finite point from the point at infinity.
pub open spec fn encode_flag(infinity: bool) -> u8 {
    if infinity {
        1
    } else {
        0
    }
}

/// The bytes of a point.
pub open spec fn encode_point(p: GroupElement) -> Seq<u8> {
    encode_limbs(p.x) + encode_limbs(p.y) + seq![encode_flag(p.infinity)]
}

/// The bytes of a sequence of points, one after the other.
pub open spec fn encode_points(ps: Seq<GroupElement>) -> Seq<u8>
    decreases ps.len(),
{
    if ps.len() == 0 {
        Seq::empty()
    } else {
        encode_points(ps.drop_last()) + encode_point(ps.last())
    }
}

/// The record of the reference string with the basis `g` and the blinding
/// point `h`.
pub open spec fn encode_srs(g: Seq<GroupElement>, h: GroupElement) -> Seq<u8> {
    spec_u64_to_le_bytes(g.len() as u64) + encode_points(g) + encode_point(h)
}

/// The bytes of four limbs are 32, and tell the limbs.
pub proof fn lemma_encode_limbs(a: [u64; 4], b: [u64; 4])
    ensures
        encode_limbs(a).len() == LIMBS_BYTES,
        encode_limbs(a) == encode_limbs(b) ==> a == b,
{
    lemma_auto_spec_u64_to_from_le_bytes();
    if encode_limbs(a) == encode_limbs(b) {
        let s = encode_limbs(a);
        let t = encode_limbs(b);
        assert(s.subrange(0, 8) =~= spec_u64_to_le_bytes(a[0]));
        assert(t.subrange(0, 8) =~= spec_u64_to_le_bytes(b[0]));
        assert(s.subrange(8, 16) =~= spec_u64_to_le_bytes(a[1]));
        assert(t.subrange(8, 16) =~= spec_u64_to_le_bytes(b[1]));
        assert(s.subrange(16, 24) =~= spec_u64_to_le_bytes(a[2]));
        assert(t.subrange(16, 24) =~= spec_u64_to_le_bytes(b[2]));
        assert(s.subrange(24, 32) =~= spec_u64_to_le_bytes(a[3]));
        assert(t.subrange(24, 32) =~= spec_u64_to_le_bytes(b[3]));
        assert(a[0] == spec_u64_from_le_bytes(spec_u64_to_le_bytes(a[0])));
        assert(b[0] == spec_u64_from_le_bytes(spec_u64_to_le_bytes(b[0])));
        assert(a[1] == spec_u64_from_le_bytes(spec_u64_to_le_bytes(a[1])));
        assert(b[1] == spec_u64_from_le_bytes(spec_u64_to_le_bytes(b[1])));
        assert(a[2] == spec_u64_from_le_bytes(spec_u64_to_le_bytes(a[2])));
        assert(b[2] == spec_u64_from_le_bytes(spec_u64_to_le_bytes(b[2])));
        assert(a[3] == spec_u64_from_le_bytes(spec_u64_to_le_bytes(a[3])));
        assert(b[3] == spec_u64_from_le_bytes(spec_u64_to_le_bytes(b[3])));
        assert(a =~= b);
    }
}

/// The bytes of a point are 65, and tell the point.
pub proof fn lemma_encode_point(p: GroupElement, q: GroupElement)
    ensures
        encode_point(p).len() == POINT_BYTES,
        encode_point(p) == encode_point(q) ==> p == q,
{
    lemma_encode_limbs(p.x, q.x);
    lemma_encode_limbs(p.y, q.y);
    lemma_encode_limbs(q.x, q.x);
    lemma_encode_limbs(q.y, q.y);
    if encode_point(p) == encode_point(q) {
        let s = encode_point(p);
        let t = encode_point(q);
        assert(s.subrange(0, 32) =~= encode_limbs(p.x));
        assert(t.subrange(0, 32) =~= encode_limbs(q.x));
        assert(s.subrange(32, 64) =~= encode_limbs(p.y));
        assert(t.subrange(32, 64) =~= encode_limbs(q.y));
        assert(s[64] == encode_flag(p.infinity));
        assert(t[64] == encode_flag(q.infinity));
    }
}

/// The bytes of `n` points are `65 * n`, and point `i` stands at `65 * i`.
pub proof fn lemma_encode_points(ps: Seq<GroupElement>, i: int)
    ensures
        encode_points(ps).len() == POINT_BYTES * ps.len(),
        0 <= i < ps.len() ==> encode_points(ps).subrange(POINT_BYTES * i, POINT_BYTES * i + POINT_BYTES)
            == encode_point(ps[i]),
    decreases ps.len(),
{
    if ps.len() > 0 {
        let front = ps.drop_last();
        lemma_encode_points(front, i);
        lemma_encode_point(ps.last(), ps.last());
        if 0 <= i < ps.len() {
            let whole = encode_points(ps);
            if i < front.len() {
                assert(front[i] == ps[i]);
                assert(whole.subrange(POINT_BYTES * i, POINT_BYTES * i + POINT_BYTES)
                    =~= encode_points(front).subrange(
                    POINT_BYTES * i,
                    POINT_BYTES * i + POINT_BYTES,
                ));
            } else {
                assert(whole.subrange(POINT_BYTES * i, POINT_BYTES * i + POINT_BYTES)
                    =~= encode_point(ps.last()));
            }
        }
    }
}

/// Appends the bytes of four limbs to `out`.
fn write_limbs(out: &mut Vec<u8>, l: &[u64; 4])
    ensures
        final(out)@ == old(out)@ + encode_limbs(*l),
{
    let mut b0 = u64_to_le_bytes(l[0]);
    let mut b1 = u64_to_le_bytes(l[1]);
    let mut b2 = u64_to_le_bytes(l[2]);
    let mut b3 = u64_to_le_bytes(l[3]);
    out.append(&mut b0);
    out.append(&mut b1);
    out.append(&mut b2);
    out.append(&mut b3);
    assert(out@ =~= old(out)@ + encode_limbs(*l));
}

/// Appends the bytes of a point to `out`.
fn write_point(out: &mut Vec<u8>, p: &GroupElement)
    ensures
        final(out)@ == old(out)@ + encode_point(*p),
{
    write_limbs(out, &p.x);
    write_limbs(out, &p.y);
    out.push(if p.infinity {
        1
    } else {
        0
    });
    assert(out@ =~= old(out)@ + encode_point(*p));
}

/// The record of a reference string.
pub fn write_record(srs: &Srs) -> (r: Vec<u8>)
    ensures
        r@ == encode_srs(srs.g@, srs.h),
{
    let mut out = u64_to_le_bytes(srs.g.len() as u64);
    let ghost header = out@;
    let mut i: usize = 0;
    while i < srs.g.len()
        invariant
            i <= srs.g.len(),
            out@ == header + encode_points(srs.g@.take(i as int)),
        decreases srs.g.len() - i,
    {
        let ghost before = out@;
        write_point(&mut out, &srs.g[i]);
        proof {
            let next = srs.g@.take(i + 1);
            assert(next.drop_last() =~= srs.g@.take(i as int));
            assert(next.last() == srs.g@[i as int]);
            assert(out@ =~= header + encode_points(next));
        }
        i = i + 1;
    }
    assert(srs.g@.take(srs.g.len() as int) =~= srs.g@);
    write_point(&mut out, &srs.h);
    out
}

/// The bytes from `at` on hold the canonical point `p`.
pub open spec fn point_at(bytes: Seq<u8>, at: int, p: GroupElement) -> bool {
    &&& p.wf()
    &&& 0 <= at
    &&& at + POINT_BYTES <= bytes.len()
    &&& bytes.subrange(at, at + POINT_BYTES) == encode_point(p)
}

/// The bytes from `offset` on hold the record of the reference string
/// with the basis `g` and the blinding point `h`.
pub open spec fn record_at(bytes: Seq<u8>, offset: int, g: Seq<GroupElement>, h: GroupElement) -> bool {
    &&& 0 < g.len() <= u64::MAX
    &&& points_wf(g)
    &&& h.wf()
    &&& 0 <= offset
    &&& offset + encode_srs(g, h).len() <= bytes.len()
    &&& bytes.subrange(offset, offset + encode_srs(g, h).len()) == encode_srs(g, h)
}

/// Where the parts of a record stand.
pub proof fn lemma_record_layout(bytes: Seq<u8>, offset: int, g: Seq<GroupElement>, h: GroupElement)
    requires
        record_at(bytes, offset, g, h),
    ensures
        encode_srs(g, h).len() == HEADER_BYTES + POINT_BYTES * g.len() + POINT_BYTES,
        bytes.subrange(offset, offset + HEADER_BYTES) == spec_u64_to_le_bytes(g.len() as u64),
        forall|i: int|
            0 <= i < g.len() ==> point_at(bytes, offset + HEADER_BYTES + POINT_BYTES * i, #[trigger] g[i]),
        point_at(bytes, offset + HEADER_BYTES + POINT_BYTES * g.len(), h),
{
    lemma_auto_spec_u64_to_from_le_bytes();
    lemma_encode_points(g, 0);
    lemma_encode_point(h, h);
    let record = encode_srs(g, h);
    let header = spec_u64_to_le_bytes(g.len() as u64);
    let n = g.len() as int;
    assert(bytes.subrange(offset, offset + HEADER_BYTES) =~= record.subrange(0, HEADER_BYTES as int));
    assert(record.subrange(0, HEADER_BYTES as int) =~= header);
    assert(record.subrange(HEADER_BYTES as int, HEADER_BYTES + POINT_BYTES * n) =~= encode_points(g));
    assert forall|i: int| 0 <= i < g.len() implies point_at(
        bytes,
        offset + HEADER_BYTES + POINT_BYTES * i,
        #[trigger] g[i],
    ) by {
        lemma_encode_points(g, i);
        let at = offset + HEADER_BYTES + POINT_BYTES * i;
        assert(bytes.subrange(at, at + POINT_BYTES) =~= record.subrange(
            HEADER_BYTES + POINT_BYTES * i,
            HEADER_BYTES + POINT_BYTES * i + POINT_BYTES,
        ));
        assert(record.subrange(
            HEADER_BYTES + POINT_BYTES * i,
            HEADER_BYTES + POINT_BYTES * i + POINT_BYTES,
        ) =~= encode_points(g).subrange(POINT_BYTES * i, POINT_BYTES * i + POINT_BYTES));
    }
    let at = offset + HEADER_BYTES + POINT_BYTES * n;
    assert(bytes.subrange(at, at + POINT_BYTES) =~= record.subrange(
        HEADER_BYTES + POINT_BYTES * n,
        HEADER_BYTES + POINT_BYTES * n + POINT_BYTES,
    ));
    assert(record.subrange(
        HEADER_BYTES + POINT_BYTES * n,
        HEADER_BYTES + POINT_BYTES * n + POINT_BYTES,
    ) =~= encode_point(h));
}

/// At one offset the bytes hold at most one record.
pub proof fn lemma_record_unique(
    bytes: Seq<u8>,
    offset: int,
    g1: Seq<GroupElement>,
    h1: GroupElement,
    g2: Seq<GroupElement>,
    h2: GroupElement,
)
    requires
        record_at(bytes, offset, g1, h1),
        record_at(bytes, offset, g2, h2),
    ensures
        g1 == g2,
        h1 == h2,
{
    lemma_auto_spec_u64_to_from_le_bytes();
    lemma_record_layout(bytes, offset, g1, h1);
    lemma_record_layout(bytes, offset, g2, h2);
    assert(g1.len() as u64 == spec_u64_from_le_bytes(spec_u64_to_le_bytes(g1.len() as u64)));
    assert(g2.len() as u64 == spec_u64_from_le_bytes(spec_u64_to_le_bytes(g2.len() as u64)));
    assert(g1.len() == g2.len());
    assert forall|i: int| 0 <= i < g1.len() implies g1[i] == g2[i] by {
        assert(point_at(bytes, offset + HEADER_BYTES + POINT_BYTES * i, g1[i]));
        assert(point_at(bytes, offset + HEADER_BYTES + POINT_BYTES * i, g2[i]));
        lemma_encode_point(g1[i], g2[i]);
    }
    assert(g1 =~= g2);
    lemma_encode_point(h1, h2);
}

/// A record that was written is found where it stands, whatever stands
/// before and after it.
pub proof fn lemma_written_record_is_found(
    before: Seq<u8>,
    after: Seq<u8>,
    g: Seq<GroupElement>,
    h: GroupElement,
)
    requires
        0 < g.len() <= u64::MAX,
        points_wf(g),
        h.wf(),
    ensures
        record_at(before + encode_srs(g, h) + after, before.len() as int, g, h),
{
    let record = encode_srs(g, h);
    let bytes = before + record + after;
    assert(bytes.subrange(before.len() as int, (before.len() + record.len()) as int) =~= record);
}

/// The eight bytes from `at` on, as a little-endian number.
fn read_u64(bytes: &Vec<u8>, at: usize) -> (r: u64)
    requires
        at + 8 <= bytes.len(),
    ensures
        spec_u64_to_le_bytes(r) == bytes@.subrange(at as int, at + 8),
{
    let s = slice_subrange(bytes.as_slice(), at, at + 8);
    proof {
        lemma_auto_spec_u64_to_from_le_bytes();
    }
    u64_from_le_bytes(s)
}

/// The four limbs that the 32 bytes from `at` on hold.
fn read_limbs(bytes: &Vec<u8>, at: usize) -> (r: [u64; 4])
    requires
        at + LIMBS_BYTES <= bytes.len(),
    ensures
        encode_limbs(r) == bytes@.subrange(at as int, at + LIMBS_BYTES),
{
    let l0 = read_u64(bytes, at);
    let l1 = read_u64(bytes, at + 8);
    let l2 = read_u64(bytes, at + 16);
    let l3 = read_u64(bytes, at + 24);
    let r = [l0, l1, l2, l3];
    assert(encode_limbs(r) =~= bytes@.subrange(at as int, at + LIMBS_BYTES));
    r
}

/// The canonical point that the 65 bytes from `at` on hold, if they hold
/// one.
fn read_point(bytes: &Vec<u8>, at: usize) -> (r: Option<GroupElement>)
    requires
        at + POINT_BYTES <= bytes.len(),
    ensures
        match r {
            Some(p) => point_at(bytes@, at as int, p),
            None => forall|p: GroupElement| !point_at(bytes@, at as int, p),
        },
{
    let x = read_limbs(bytes, at);
    let y = read_limbs(bytes, at + LIMBS_BYTES);
    let flag = bytes[at + 2 * LIMBS_BYTES];
    let p = GroupElement { x, y, infinity: flag == 1 };
    let ghost held = bytes@.subrange(at as int, at + POINT_BYTES);
    proof {
        lemma_encode_limbs(x, x);
        lemma_encode_limbs(y, y);
        assert(held.subrange(0, 32) =~= encode_limbs(x));
        assert(held.subrange(32, 64) =~= encode_limbs(y));
        assert(held[64] == flag);
        assert forall|q: GroupElement| point_at(bytes@, at as int, q) implies q == p && flag <= 1 by {
            lemma_encode_limbs(q.x, x);
            lemma_encode_limbs(q.y, y);
            let e = encode_point(q);
            assert(e.subrange(0, 32) =~= encode_limbs(q.x));
            assert(e.subrange(32, 64) =~= encode_limbs(q.y));
            assert(e[64] == encode_flag(q.infinity));
        }
    }
    if flag > 1 {
        return None;
    }
    if p.is_valid() {
        assert(encode_point(p) =~= held);
        Some(p)
    } else {
        None
    }
}

/// Where reading starts: at the offset, or at the first byte if none is
/// given.
pub open spec fn start_of(offset: Option<isize>) -> int {
    match offset {
        Some(o) => o as int,
        None => 0,
    }
}

/// `r` is what reading the bytes from `start` on gives: the reference
/// string whose record stands there, or nothing where no record stands
/// there.
pub open spec fn is_reading(r: Option<Srs>, bytes: Seq<u8>, start: int) -> bool {
    match r {
        Some(srs) => srs.wf() && record_at(bytes, start, srs.g@, srs.h),
        None => forall|g: Seq<GroupElement>, h: GroupElement| !record_at(bytes, start, g, h),
    }
}

/// Reading a record that was written gives back the reference string that
/// was written, and so the same commitments, whatever stands before and
/// after the record.
pub proof fn lemma_read_after_write(
    before: Seq<u8>,
    after: Seq<u8>,
    g: Seq<GroupElement>,
    h: GroupElement,
    r: Option<Srs>,
)
    requires
        0 < g.len() <= u64::MAX,
        points_wf(g),
        h.wf(),
        is_reading(r, before + encode_srs(g, h) + after, before.len() as int),
    ensures
        r is Some,
        r.unwrap().g@ == g,
        r.unwrap().h == h,
{
    let bytes = before + encode_srs(g, h) + after;
    lemma_written_record_is_found(before, after, g, h);
    lemma_record_unique(bytes, before.len() as int, g, h, r.unwrap().g@, r.unwrap().h);
}

/// The reference string whose record the bytes hold at `offset`, or at
/// their start if no offset is given. Where the bytes there are not the
/// record of any reference string, there is none.
pub fn read_record(bytes: &Vec<u8>, offset: Option<isize>) -> (r: Option<Srs>)
    ensures
        is_reading(r, bytes@, start_of(offset)),
{
    let start: usize = match offset {
        Some(o) => {
            if o < 0 {
                return None;
            }
            o as usize
        },
        None => 0,
    };
    let len = bytes.len();
    proof {
        assert forall|g: Seq<GroupElement>, h: GroupElement|
            record_at(bytes@, start as int, g, h) implies {
            &&& start + HEADER_BYTES + POINT_BYTES * g.len() + POINT_BYTES <= len
            &&& bytes@.subrange(start as int, start + HEADER_BYTES) == spec_u64_to_le_bytes(g.len() as u64)
        } by {
            lemma_record_layout(bytes@, start as int, g, h);
        }
    }
    if start > len || len - start < HEADER_BYTES + POINT_BYTES {
        return None;
    }
    let depth = read_u64(bytes, start);
    proof {
        lemma_auto_spec_u64_to_from_le_bytes();
        assert(depth == spec_u64_from_le_bytes(spec_u64_to_le_bytes(depth)));
        assert forall|g: Seq<GroupElement>, h: GroupElement|
            record_at(bytes@, start as int, g, h) implies g.len() == depth by {
            assert(g.len() as u64 == spec_u64_from_le_bytes(spec_u64_to_le_bytes(g.len() as u64)));
        }
    }
    let room = (len - start - HEADER_BYTES - POINT_BYTES) / POINT_BYTES;
    if depth == 0 || depth > room as u64 {
        return None;
    }
    let n = depth as usize;
    let first = start + HEADER_BYTES;
    let mut g: Vec<GroupElement> = Vec::new();
    let mut i: usize = 0;
    while i < n
        invariant
            i <= n,
            n == depth,
            0 < n,
            first == start + HEADER_BYTES,
            len == bytes.len(),
            first + POINT_BYTES * n + POINT_BYTES <= len,
            g@.len() == i,
            points_wf(g@),
            encode_points(g@) == bytes@.subrange(first as int, first + POINT_BYTES * i),
            start == start_of(offset),
            forall|g: Seq<GroupElement>, h: GroupElement|
                record_at(bytes@, start as int, g, h) ==> g.len() == depth,
        decreases n - i,
    {
        let at = first + POINT_BYTES * i;
        match read_point(bytes, at) {
            Some(p) => {
                let ghost before = g@;
                g.push(p);
                proof {
                    assert(g@.drop_last() =~= before);
                    assert(encode_points(g@) =~= bytes@.subrange(
                        first as int,
                        first + POINT_BYTES * (i + 1),
                    ));
                }
            },
            None => {
                proof {
                    assert forall|g: Seq<GroupElement>, h: GroupElement|
                        !record_at(bytes@, start as int, g, h) by {
                        if record_at(bytes@, start as int, g, h) {
                            lemma_record_layout(bytes@, start as int, g, h);
                            assert(point_at(bytes@, at as int, g[i as int]));
                        }
                    }
                }
                return None;
            },
        }
        i = i + 1;
    }
    let at = first + POINT_BYTES * n;
    match read_point(bytes, at) {
        Some(h) => {
            proof {
                lemma_auto_spec_u64_to_from_le_bytes();
                lemma_encode_points(g@, 0);
                lemma_encode_point(h, h);
                let record = encode_srs(g@, h);
                assert(record =~= bytes@.subrange(start as int, start + record.len()));
            }
            Some(Srs { g, h })
        },
        None => {
            proof {
                assert forall|g: Seq<GroupElement>, h: GroupElement|
                    !record_at(bytes@, start as int, g, h) by {
                    if record_at(bytes@, start as int, g, h) {
                        lemma_record_layout(bytes@, start as int, g, h);
                        assert(point_at(bytes@, at as int, h));
                    }
                }
            }
            None
        },
    }
}

} // verus!
