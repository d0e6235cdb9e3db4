//! The cache file: a list of transformations in a stable binary form. The
//! list's length comes first as a little-endian `u64`; each entry is a
//! little-endian `u32` variant tag (0 for a deletion, 1 for a relocation)
//! followed by its paths, each a little-endian `u64` length and the bytes.
use vstd::prelude::*;

use crate::transform::{copy_bytes, views_of, TransformView, VirtualFileTransformation};

verus! {

pub open spec fn le64(n: u64) -> Seq<u8> {
    seq![
        n as u8,
        (n >> 8u64) as u8,
        (n >> 16u64) as u8,
        (n >> 24u64) as u8,
        (n >> 32u64) as u8,
        (n >> 40u64) as u8,
        (n >> 48u64) as u8,
        (n >> 56u64) as u8,
    ]
}

pub open spec fn le32(n: u32) -> Seq<u8> {
    seq![n as u8, (n >> 8u32) as u8, (n >> 16u32) as u8, (n >> 24u32) as u8]
}

/// A path: its length, then its bytes.
pub open spec fn enc_path(p: Seq<u8>) -> Seq<u8> {
    le64(p.len() as u64) + p
}

/// One transformation: its tag, then its paths in order.
pub open spec fn enc_one(x: TransformView) -> Seq<u8> {
    match x {
        TransformView::Deletion { target } => le32(0) + enc_path(target),
        TransformView::Relocation { from, to } => le32(1) + enc_path(from) + enc_path(to),
    }
}

pub open spec fn enc_all(ts: Seq<TransformView>) -> Seq<u8>
    decreases ts.len(),
{
    if ts.len() == 0 {
        Seq::empty()
    } else {
        enc_one(ts[0]) + enc_all(ts.drop_first())
    }
}

/// The bytes of a cache file that holds `ts`.
pub open spec fn encoding(ts: Seq<TransformView>) -> Seq<u8> {
    le64(ts.len() as u64) + enc_all(ts)
}

proof fn lemma_le64_bytes(b0: u8, b1: u8, b2: u8, b3: u8, b4: u8, b5: u8, b6: u8, b7: u8, n: u64)
    requires
        n == (b0 as u64) | ((b1 as u64) << 8u64) | ((b2 as u64) << 16u64) | ((b3 as u64) << 24u64)
            | ((b4 as u64) << 32u64) | ((b5 as u64) << 40u64) | ((b6 as u64) << 48u64) | ((b7 as u64) << 56u64),
    ensures
        n as u8 == b0 && (n >> 8u64) as u8 == b1 && (n >> 16u64) as u8 == b2 && (n >> 24u64) as u8 == b3
            && (n >> 32u64) as u8 == b4 && (n >> 40u64) as u8 == b5 && (n >> 48u64) as u8 == b6 && (n >> 56u64) as u8 == b7,
{
    assert(n as u8 == b0 && (n >> 8u64) as u8 == b1 && (n >> 16u64) as u8 == b2 && (n >> 24u64) as u8 == b3
            && (n >> 32u64) as u8 == b4 && (n >> 40u64) as u8 == b5 && (n >> 48u64) as u8 == b6 && (n >> 56u64) as u8 == b7) by (bit_vector)
        requires
            n == (b0 as u64) | ((b1 as u64) << 8u64) | ((b2 as u64) << 16u64) | ((b3 as u64) << 24u64)
            | ((b4 as u64) << 32u64) | ((b5 as u64) << 40u64) | ((b6 as u64) << 48u64) | ((b7 as u64) << 56u64),
    ;
}

proof fn lemma_le64_injective(n: u64, m: u64)
    requires
        n as u8 == m as u8 && (n >> 8u64) as u8 == (m >> 8u64) as u8 && (n >> 16u64) as u8 == (m >> 16u64) as u8
            && (n >> 24u64) as u8 == (m >> 24u64) as u8 && (n >> 32u64) as u8 == (m >> 32u64) as u8
            && (n >> 40u64) as u8 == (m >> 40u64) as u8 && (n >> 48u64) as u8 == (m >> 48u64) as u8
            && (n >> 56u64) as u8 == (m >> 56u64) as u8,
    ensures
        n == m,
{
    assert(n == m) by (bit_vector)
        requires
            n as u8 == m as u8 && (n >> 8u64) as u8 == (m >> 8u64) as u8 && (n >> 16u64) as u8 == (m >> 16u64) as u8
            && (n >> 24u64) as u8 == (m >> 24u64) as u8 && (n >> 32u64) as u8 == (m >> 32u64) as u8
            && (n >> 40u64) as u8 == (m >> 40u64) as u8 && (n >> 48u64) as u8 == (m >> 48u64) as u8
            && (n >> 56u64) as u8 == (m >> 56u64) as u8,
    ;
}

proof fn lemma_le32_bytes(b0: u8, b1: u8, b2: u8, b3: u8, n: u32)
    requires
        n == (b0 as u32) | ((b1 as u32) << 8u32) | ((b2 as u32) << 16u32) | ((b3 as u32) << 24u32),
    ensures
        n as u8 == b0 && (n >> 8u32) as u8 == b1 && (n >> 16u32) as u8 == b2 && (n >> 24u32) as u8 == b3,
{
    assert(n as u8 == b0 && (n >> 8u32) as u8 == b1 && (n >> 16u32) as u8 == b2 && (n >> 24u32) as u8 == b3) by (bit_vector)
        requires
            n == (b0 as u32) | ((b1 as u32) << 8u32) | ((b2 as u32) << 16u32) | ((b3 as u32) << 24u32),
    ;
}

proof fn lemma_le32_injective(n: u32, m: u32)
    requires
        n as u8 == m as u8 && (n >> 8u32) as u8 == (m >> 8u32) as u8 && (n >> 16u32) as u8 == (m >> 16u32) as u8
            && (n >> 24u32) as u8 == (m >> 24u32) as u8,
    ensures
        n == m,
{
    assert(n == m) by (bit_vector)
        requires
            n as u8 == m as u8 && (n >> 8u32) as u8 == (m >> 8u32) as u8 && (n >> 16u32) as u8 == (m >> 16u32) as u8
            && (n >> 24u32) as u8 == (m >> 24u32) as u8,
    ;
}

proof fn lemma_le64_eq(n: u64, m: u64)
    requires
        le64(n) == le64(m),
    ensures
        n == m,
{
    assert(le64(n)[0] == le64(m)[0] && le64(n)[1] == le64(m)[1] && le64(n)[2] == le64(m)[2] && le64(n)[3] == le64(m)[3]);
    assert(le64(n)[4] == le64(m)[4] && le64(n)[5] == le64(m)[5] && le64(n)[6] == le64(m)[6] && le64(n)[7] == le64(m)[7]);
    lemma_le64_injective(n, m);
}

proof fn lemma_le32_eq(n: u32, m: u32)
    requires
        le32(n) == le32(m),
    ensures
        n == m,
{
    assert(le32(n)[0] == le32(m)[0] && le32(n)[1] == le32(m)[1] && le32(n)[2] == le32(m)[2] && le32(n)[3] == le32(m)[3]);
    lemma_le32_injective(n, m);
}

proof fn lemma_enc_all_len(ts: Seq<TransformView>)
    ensures
        enc_all(ts).len() >= ts.len(),
    decreases ts.len(),
{
    if ts.len() > 0 {
        lemma_enc_all_len(ts.drop_first());
    }
}

proof fn lemma_enc_all_push(a: Seq<TransformView>, x: TransformView)
    ensures
        enc_all(a.push(x)) == enc_all(a) + enc_one(x),
    decreases a.len(),
{
    if a.len() == 0 {
        assert(a.push(x).drop_first() =~= Seq::<TransformView>::empty());
        assert(a.push(x)[0] == x);
        assert(enc_all(Seq::<TransformView>::empty()) == Seq::<u8>::empty());
        assert(enc_all(a) == Seq::<u8>::empty());
        assert(enc_all(a.push(x)) =~= enc_all(a) + enc_one(x));
    } else {
        assert(a.push(x).drop_first() =~= a.drop_first().push(x));
        lemma_enc_all_push(a.drop_first(), x);
        assert(enc_all(a.push(x)) =~= enc_all(a) + enc_one(x));
    }
}

proof fn lemma_enc_all_split(ts: Seq<TransformView>, k: int)
    requires
        0 <= k < ts.len(),
    ensures
        enc_all(ts) == enc_all(ts.take(k)) + enc_one(ts[k]) + enc_all(ts.skip(k + 1)),
    decreases k,
{
    if k == 0 {
        assert(ts.take(0) =~= Seq::<TransformView>::empty());
        assert(ts.skip(1) =~= ts.drop_first());
        assert(enc_all(ts) =~= enc_all(ts.take(k)) + enc_one(ts[k]) + enc_all(ts.skip(k + 1)));
    } else {
        let t = ts.drop_first();
        lemma_enc_all_split(t, k - 1);
        assert(t.take(k - 1) =~= ts.take(k).drop_first());
        assert(ts.take(k)[0] == ts[0]);
        assert(t.skip(k) =~= ts.skip(k + 1));
        assert(enc_all(ts.take(k)) == enc_one(ts[0]) + enc_all(t.take(k - 1)));
        assert(enc_all(ts) =~= enc_all(ts.take(k)) + enc_one(ts[k]) + enc_all(ts.skip(k + 1)));
    }
}

/// Every length that the encoding writes fits in its `u64` prefix; true of
/// any list held in memory.
pub open spec fn fits(ts: Seq<TransformView>) -> bool {
    &&& ts.len() <= u64::MAX
    &&& forall|i: int| 0 <= i < ts.len() ==> #[trigger] fits_one(ts[i])
}

pub open spec fn fits_one(x: TransformView) -> bool {
    match x {
        TransformView::Deletion { target } => target.len() <= u64::MAX,
        TransformView::Relocation { from, to } => from.len() <= u64::MAX && to.len() <= u64::MAX,
    }
}

proof fn lemma_path_prefix_free(x: Seq<u8>, y: Seq<u8>, r1: Seq<u8>, r2: Seq<u8>)
    requires
        x.len() <= u64::MAX,
        y.len() <= u64::MAX,
        enc_path(x) + r1 == enc_path(y) + r2,
    ensures
        x == y,
        r1 == r2,
{
    let s = enc_path(x) + r1;
    assert(s.subrange(0, 8) =~= le64(x.len() as u64));
    assert((enc_path(y) + r2).subrange(0, 8) =~= le64(y.len() as u64));
    lemma_le64_eq(x.len() as u64, y.len() as u64);
    assert(s.subrange(8, 8 + x.len() as int) =~= x);
    assert((enc_path(y) + r2).subrange(8, 8 + y.len() as int) =~= y);
    assert(s.subrange(8 + x.len() as int, s.len() as int) =~= r1);
    assert((enc_path(y) + r2).subrange(8 + y.len() as int, s.len() as int) =~= r2);
}

proof fn lemma_one_prefix_free(x: TransformView, y: TransformView, r1: Seq<u8>, r2: Seq<u8>)
    requires
        fits_one(x),
        fits_one(y),
        enc_one(x) + r1 == enc_one(y) + r2,
    ensures
        x == y,
        r1 == r2,
{
    let s = enc_one(x) + r1;
    let tx: u32 = if x is Deletion { 0 } else { 1 };
    let ty: u32 = if y is Deletion { 0 } else { 1 };
    assert(s.subrange(0, 4) =~= le32(tx));
    assert((enc_one(y) + r2).subrange(0, 4) =~= le32(ty));
    lemma_le32_eq(tx, ty);
    match x {
        TransformView::Deletion { target: a } => {
            let b = y->target;
            assert(s.subrange(4, s.len() as int) =~= enc_path(a) + r1);
            assert((enc_one(y) + r2).subrange(4, s.len() as int) =~= enc_path(b) + r2);
            lemma_path_prefix_free(a, b, r1, r2);
        },
        TransformView::Relocation { from: a1, to: a2 } => {
            let b1 = y->from;
            let b2 = y->to;
            assert(s.subrange(4, s.len() as int) =~= enc_path(a1) + (enc_path(a2) + r1));
            assert((enc_one(y) + r2).subrange(4, s.len() as int) =~= enc_path(b1) + (enc_path(b2) + r2));
            lemma_path_prefix_free(a1, b1, enc_path(a2) + r1, enc_path(b2) + r2);
            lemma_path_prefix_free(a2, b2, r1, r2);
        },
    }
}

proof fn lemma_enc_all_injective(a: Seq<TransformView>, b: Seq<TransformView>)
    requires
        fits(a),
        fits(b),
        a.len() == b.len(),
        enc_all(a) == enc_all(b),
    ensures
        a == b,
    decreases a.len(),
{
    if a.len() > 0 {
        assert(fits_one(a[0]) && fits_one(b[0]));
        lemma_one_prefix_free(a[0], b[0], enc_all(a.drop_first()), enc_all(b.drop_first()));
        assert forall|i: int| 0 <= i < a.drop_first().len() implies #[trigger] fits_one(a.drop_first()[i]) by {
            assert(fits_one(a[i + 1]));
        }
        assert forall|i: int| 0 <= i < b.drop_first().len() implies #[trigger] fits_one(b.drop_first()[i]) by {
            assert(fits_one(b[i + 1]));
        }
        lemma_enc_all_injective(a.drop_first(), b.drop_first());
        assert forall|i: int| 0 <= i < a.len() implies a[i] == b[i] by {
            if i > 0 {
                assert(a[i] == a.drop_first()[i - 1] && b[i] == b.drop_first()[i - 1]);
            }
        }
        assert(a =~= b);
    } else {
        assert(a =~= b);
    }
}

/// Reading back what was written gives the list that was written: no two
/// lists whose lengths fit the encoding share their bytes, so the list that
/// `decode` finds for the bytes of `encode(list)` is `list`.
pub proof fn lemma_cache_round_trip(a: Seq<TransformView>, b: Seq<TransformView>)
    requires
        fits(a),
        fits(b),
        encoding(a) == encoding(b),
    ensures
        a == b,
{
    assert(encoding(a).subrange(0, 8) =~= le64(a.len() as u64));
    assert(encoding(b).subrange(0, 8) =~= le64(b.len() as u64));
    lemma_le64_eq(a.len() as u64, b.len() as u64);
    assert(enc_all(a) =~= encoding(a).subrange(8, encoding(a).len() as int));
    assert(enc_all(b) =~= encoding(b).subrange(8, encoding(b).len() as int));
    lemma_enc_all_injective(a, b);
}

fn push_u64(out: &mut Vec<u8>, n: u64)
    ensures
        final(out)@ == old(out)@ + le64(n),
{
    out.push(n as u8);
    out.push((n >> 8) as u8);
    out.push((n >> 16) as u8);
    out.push((n >> 24) as u8);
    out.push((n >> 32) as u8);
    out.push((n >> 40) as u8);
    out.push((n >> 48) as u8);
    out.push((n >> 56) as u8);
    assert(out@ =~= old(out)@ + le64(n));
}

fn push_u32(out: &mut Vec<u8>, n: u32)
    ensures
        final(out)@ == old(out)@ + le32(n),
{
    out.push(n as u8);
    out.push((n >> 8) as u8);
    out.push((n >> 16) as u8);
    out.push((n >> 24) as u8);
    assert(out@ =~= old(out)@ + le32(n));
}

fn push_path(out: &mut Vec<u8>, p: &Vec<u8>)
    ensures
        final(out)@ == old(out)@ + enc_path(p@),
{
    push_u64(out, p.len() as u64);
    let ghost base = out@;
    let mut i: usize = 0;
    while i < p.len()
        invariant
            0 <= i <= p.len(),
            out@ == base + p@.take(i as int),
        decreases p.len() - i,
    {
        out.push(p[i]);
        i += 1;
        assert(out@ =~= base + p@.take(i as int));
    }
    assert(p@.take(p@.len() as int) =~= p@);
    assert(out@ =~= old(out)@ + enc_path(p@));
}

/// The bytes of a cache file that holds `list`.
pub fn encode(list: &Vec<VirtualFileTransformation>) -> (r: Vec<u8>)
    ensures
        r@ == encoding(views_of(list@)),
{
    let mut out: Vec<u8> = Vec::new();
    push_u64(&mut out, list.len() as u64);
    let mut i: usize = 0;
    while i < list.len()
        invariant
            0 <= i <= list.len(),
            out@ == le64(list@.len() as u64) + enc_all(views_of(list@.take(i as int))),
        decreases list.len() - i,
    {
        let ghost before = out@;
        match &list[i] {
            VirtualFileTransformation::Deletion { target } => {
                push_u32(&mut out, 0);
                push_path(&mut out, target);
            },
            VirtualFileTransformation::Relocation { from, to } => {
                push_u32(&mut out, 1);
                push_path(&mut out, from);
                push_path(&mut out, to);
            },
        }
        proof {
            assert(views_of(list@.take(i + 1)) =~= views_of(list@.take(i as int)).push(list@[i as int]@));
            lemma_enc_all_push(views_of(list@.take(i as int)), list@[i as int]@);
            assert(out@ =~= before + enc_one(list@[i as int]@));
        }
        i += 1;
    }
    assert(list@.take(list@.len() as int) =~= list@);
    out
}

fn read_u64(b: &Vec<u8>, pos: usize) -> (r: Option<u64>)
    ensures
        r is Some <==> pos + 8 <= b@.len(),
        r matches Some(n) ==> b@.subrange(pos as int, pos + 8) == le64(n),
{
    if b.len() < 8 || pos > b.len() - 8 {
        return None;
    }
    let n: u64 = (b[pos] as u64) | ((b[pos + 1] as u64) << 8) | ((b[pos + 2] as u64) << 16) | ((b[pos + 3] as u64) << 24)
        | ((b[pos + 4] as u64) << 32) | ((b[pos + 5] as u64) << 40) | ((b[pos + 6] as u64) << 48) | ((b[pos + 7] as u64) << 56);
    proof {
        lemma_le64_bytes(b@[pos as int], b@[pos + 1], b@[pos + 2], b@[pos + 3], b@[pos + 4], b@[pos + 5], b@[pos + 6], b@[pos + 7], n);
        assert(b@.subrange(pos as int, pos + 8) =~= le64(n));
    }
    Some(n)
}

fn read_u32(b: &Vec<u8>, pos: usize) -> (r: Option<u32>)
    ensures
        r is Some <==> pos + 4 <= b@.len(),
        r matches Some(n) ==> b@.subrange(pos as int, pos + 4) == le32(n),
{
    if b.len() < 4 || pos > b.len() - 4 {
        return None;
    }
    let n: u32 = (b[pos] as u32) | ((b[pos + 1] as u32) << 8) | ((b[pos + 2] as u32) << 16) | ((b[pos + 3] as u32) << 24);
    proof {
        lemma_le32_bytes(b@[pos as int], b@[pos + 1], b@[pos + 2], b@[pos + 3], n);
        assert(b@.subrange(pos as int, pos + 4) =~= le32(n));
    }
    Some(n)
}

/// Reads a path at `pos`; hands back the path and the position after it.
fn read_path(b: &Vec<u8>, pos: usize) -> (r: Option<(Vec<u8>, usize)>)
    ensures
        r matches Some((p, q)) ==> q <= b@.len() && q == pos + enc_path(p@).len() && b@.subrange(pos as int, q as int) == enc_path(p@),
        forall|x: Seq<u8>| #![trigger enc_path(x)] pos + enc_path(x).len() <= b@.len() && b@.subrange(pos as int, pos + enc_path(x).len()) == enc_path(x)
            ==> (r matches Some((p, q)) && p@ == x),
{
    let blen = b.len();
    let rn = read_u64(b, pos);
    if rn.is_none() {
        return None;
    }
    let n = rn.unwrap();
    assert(pos + 8 <= b@.len());
    proof {
        assert forall|x: Seq<u8>| #![trigger enc_path(x)] pos + enc_path(x).len() <= b@.len() && b@.subrange(pos as int, pos + enc_path(x).len()) == enc_path(x)
            implies n == x.len() as u64 && x.len() == (x.len() as u64) by {
            assert(x.len() <= blen);
            assert(b@.subrange(pos as int, pos + 8) =~= b@.subrange(pos as int, pos + enc_path(x).len()).subrange(0, 8));
            assert(enc_path(x).subrange(0, 8) =~= le64(x.len() as u64));
            lemma_le64_eq(n, x.len() as u64);
        }
    }
    let start = pos + 8;
    if n > (b.len() - start) as u64 {
        return None;
    }
    let end = start + n as usize;
    let mut p: Vec<u8> = Vec::new();
    let mut i: usize = start;
    while i < end
        invariant
            start <= i <= end <= b@.len(),
            p@ == b@.subrange(start as int, i as int),
        decreases end - i,
    {
        p.push(b[i]);
        i += 1;
        assert(p@ =~= b@.subrange(start as int, i as int));
    }
    assert(b@.subrange(pos as int, end as int) =~= b@.subrange(pos as int, pos + 8) + p@);
    assert(p@.len() as u64 == n);
    proof {
        assert forall|x: Seq<u8>| #![trigger enc_path(x)] pos + enc_path(x).len() <= b@.len() && b@.subrange(pos as int, pos + enc_path(x).len()) == enc_path(x)
            implies p@ == x by {
            assert(x =~= enc_path(x).subrange(8, enc_path(x).len() as int));
            assert(enc_path(x).subrange(8, enc_path(x).len() as int) =~= b@.subrange(start as int, start + x.len()));
            assert(p@ =~= x);
        }
    }
    Some((p, end))
}


/// Reads one transformation at `pos`; hands back it and the position after
/// it.
#[verifier::rlimit(50)]
fn read_one(b: &Vec<u8>, pos: usize) -> (r: Option<(VirtualFileTransformation, usize)>)
    ensures
        r matches Some((t, q)) ==> q <= b@.len() && q == pos + enc_one(t@).len() && b@.subrange(pos as int, q as int) == enc_one(t@),
        forall|x: TransformView| #![trigger enc_one(x)] pos + enc_one(x).len() <= b@.len() && b@.subrange(pos as int, pos + enc_one(x).len()) == enc_one(x)
            ==> (r matches Some((t, q)) && t@ == x),
{
    let blen = b.len();
    let rt = read_u32(b, pos);
    if rt.is_none() {
        return None;
    }
    let tag = rt.unwrap();
    let p1 = pos + 4;
    proof {
        assert forall|x: TransformView| #![trigger enc_one(x)] pos + enc_one(x).len() <= b@.len() && b@.subrange(pos as int, pos + enc_one(x).len()) == enc_one(x)
            implies (tag == 0 <==> x is Deletion) && (tag == 1 <==> x is Relocation) by {
            assert(b@.subrange(pos as int, pos + 4) =~= enc_one(x).subrange(0, 4));
            match x {
                TransformView::Deletion { target } => {
                    assert(enc_one(x).subrange(0, 4) =~= le32(0));
                    lemma_le32_eq(tag, 0);
                },
                TransformView::Relocation { from, to } => {
                    assert(enc_one(x).subrange(0, 4) =~= le32(1));
                    lemma_le32_eq(tag, 1);
                },
            }
        }
    }
    if tag == 0 {
        proof {
            assert forall|x: TransformView| #![trigger enc_one(x)] pos + enc_one(x).len() <= b@.len() && b@.subrange(pos as int, pos + enc_one(x).len()) == enc_one(x)
                implies x is Deletion && p1 + enc_path(x->target).len() <= b@.len()
                    && b@.subrange(p1 as int, p1 + enc_path(x->target).len()) == enc_path(x->target) by {
                assert(b@.subrange(p1 as int, p1 + enc_path(x->target).len()) =~= enc_one(x).subrange(4, enc_one(x).len() as int));
            }
        }
        let rp = read_path(b, p1);
        if rp.is_none() {
            return None;
        }
        let (target, q) = rp.unwrap();
        let t = VirtualFileTransformation::Deletion { target };
        assert(b@.subrange(pos as int, q as int) =~= b@.subrange(pos as int, p1 as int) + b@.subrange(p1 as int, q as int));
        assert(b@.subrange(pos as int, q as int) =~= enc_one(t@));
        Some((t, q))
    } else if tag == 1 {
        proof {
            assert forall|x: TransformView| #![trigger enc_one(x)] pos + enc_one(x).len() <= b@.len() && b@.subrange(pos as int, pos + enc_one(x).len()) == enc_one(x)
                implies x is Relocation && p1 + enc_path(x->from).len() <= b@.len()
                    && b@.subrange(p1 as int, p1 + enc_path(x->from).len()) == enc_path(x->from) by {
                assert(b@.subrange(p1 as int, p1 + enc_path(x->from).len()) =~= enc_one(x).subrange(4, 4 + enc_path(x->from).len() as int));
            }
        }
        let rf = read_path(b, p1);
        if rf.is_none() {
            return None;
        }
        let (from, q1) = rf.unwrap();
        proof {
            assert forall|x: TransformView| #![trigger enc_one(x)] pos + enc_one(x).len() <= b@.len() && b@.subrange(pos as int, pos + enc_one(x).len()) == enc_one(x)
                implies x is Relocation && from@ == x->from && q1 + enc_path(x->to).len() <= b@.len()
                    && b@.subrange(q1 as int, q1 + enc_path(x->to).len()) == enc_path(x->to) by {
                assert(b@.subrange(p1 as int, p1 + enc_path(x->from).len()) =~= enc_one(x).subrange(4, 4 + enc_path(x->from).len() as int));
                assert(b@.subrange(q1 as int, q1 + enc_path(x->to).len()) =~= enc_one(x).subrange(4 + enc_path(x->from).len() as int, enc_one(x).len() as int));
            }
        }
        let rto = read_path(b, q1);
        if rto.is_none() {
            return None;
        }
        let (to, q2) = rto.unwrap();
        let t = VirtualFileTransformation::Relocation { from, to };
        assert(b@.subrange(pos as int, q2 as int) =~= b@.subrange(pos as int, p1 as int) + b@.subrange(p1 as int, q1 as int) + b@.subrange(q1 as int, q2 as int));
        assert(b@.subrange(pos as int, q2 as int) =~= enc_one(t@));
        Some((t, q2))
    } else {
        None
    }
}

/// The list held by a cache file's bytes; `None` where the bytes are not the
/// encoding of any list.
pub fn decode(b: &Vec<u8>) -> (r: Option<Vec<VirtualFileTransformation>>)
    ensures
        r matches Some(v) ==> encoding(views_of(v@)) == b@,
        forall|ts: Seq<TransformView>| #![trigger encoding(ts)] encoding(ts) == b@ ==> (r matches Some(v) && views_of(v@) == ts),
{
    let blen = b.len();
    let rc = read_u64(b, 0);
    if rc.is_none() {
        return None;
    }
    let count = rc.unwrap();
    proof {
        assert forall|ts: Seq<TransformView>| #![trigger encoding(ts)] encoding(ts) == b@ implies ts.len() == count && ts.take(0) =~= Seq::<TransformView>::empty() by {
            assert(b@.subrange(0, 8) =~= le64(ts.len() as u64));
            lemma_enc_all_len(ts);
            assert(ts.len() <= blen);
            lemma_le64_eq(count, ts.len() as u64);
        }
    }
    let mut pos: usize = 8;
    let mut v: Vec<VirtualFileTransformation> = Vec::new();
    let mut k: u64 = 0;
    assert(b@.subrange(0, 8) =~= le64(count) + enc_all(views_of(v@)));
    while k < count
        invariant
            8 <= pos <= blen,
            blen == b@.len(),
            v@.len() == k,
            k <= count,
            b@.subrange(0, pos as int) == le64(count) + enc_all(views_of(v@)),
            forall|ts: Seq<TransformView>| #![trigger encoding(ts)] encoding(ts) == b@ ==> ts.len() == count && views_of(v@) == ts.take(k as int)
                && pos == 8 + enc_all(ts.take(k as int)).len(),
        decreases count - k,
    {
        proof {
            assert forall|ts: Seq<TransformView>| #![trigger encoding(ts)] encoding(ts) == b@ implies pos + enc_one(ts[k as int]).len() <= b@.len()
                && b@.subrange(pos as int, pos + enc_one(ts[k as int]).len()) == enc_one(ts[k as int]) by {
                lemma_enc_all_split(ts, k as int);
                assert(b@.subrange(pos as int, pos + enc_one(ts[k as int]).len()) =~= enc_one(ts[k as int]));
            }
        }
        let ro = read_one(b, pos);
        if ro.is_none() {
            proof {
                assert forall|ts: Seq<TransformView>| #![trigger encoding(ts)] encoding(ts) == b@ implies false by {
                    assert(enc_one(ts[k as int]) == enc_one(ts[k as int]));
                }
            }
            return None;
        }
        let (t, q) = ro.unwrap();
        let ghost v0 = views_of(v@);
        v.push(t);
        proof {
            assert(views_of(v@) =~= v0.push(v@[k as int]@));
            lemma_enc_all_push(v0, v@[k as int]@);
            assert(b@.subrange(0, q as int) =~= b@.subrange(0, pos as int) + b@.subrange(pos as int, q as int));
            assert forall|ts: Seq<TransformView>| #![trigger encoding(ts)] encoding(ts) == b@ implies ts.len() == count && views_of(v@) == ts.take(k + 1)
                && q == 8 + enc_all(ts.take(k + 1)).len() by {
                assert(enc_one(ts[k as int]) == enc_one(ts[k as int]));
                assert(ts.take(k + 1) =~= ts.take(k as int).push(ts[k as int]));
                lemma_enc_all_push(ts.take(k as int), ts[k as int]);
            }
        }
        pos = q;
        k += 1;
    }
    if pos != blen {
        proof {
            assert forall|ts: Seq<TransformView>| #![trigger encoding(ts)] encoding(ts) == b@ implies false by {
                assert(ts.take(k as int) =~= ts);
            }
        }
        return None;
    }
    assert(b@.subrange(0, pos as int) =~= b@);
    Some(v)
}

} // verus!
