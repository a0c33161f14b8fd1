//! Canonical binary encoding of the persisted parameter record.
//!
//! Every value has exactly one encoding: integers are eight bytes
//! little-endian, byte strings and vectors carry a length prefix, and the
//! record's fields follow in a fixed order. Decoding accepts exactly the
//! canonical encodings, so that the digest and any independently written
//! decoder agree byte for byte.

use vstd::prelude::*;

verus! {

use crate::params::{
    blobs_view, entries_view, MatrixEntry, MatrixEntryV, PPDisk, PPDiskV, R1CSShape, R1CSShapeV,
    ROConfig, ROConfigV,
};

/// `pat` occupies `buf` from `pos` on.
pub open spec fn starts_at(buf: Seq<u8>, pos: int, pat: Seq<u8>) -> bool {
    &&& 0 <= pos
    &&& pos + pat.len() <= buf.len()
    &&& buf.subrange(pos, pos + pat.len() as int) == pat
}

/// Canonical encoding of a 64-bit integer: eight bytes, little-endian.
pub open spec fn enc_u64(x: u64) -> Seq<u8> {
    seq![
        (x & 0xff) as u8,
        ((x >> 8) & 0xff) as u8,
        ((x >> 16) & 0xff) as u8,
        ((x >> 24) & 0xff) as u8,
        ((x >> 32) & 0xff) as u8,
        ((x >> 40) & 0xff) as u8,
        ((x >> 48) & 0xff) as u8,
        ((x >> 56) & 0xff) as u8,
    ]
}

pub proof fn lemma_enc_u64_injective(a: u64, b: u64)
    requires
        enc_u64(a) == enc_u64(b),
    ensures
        a == b,
{
    assert(enc_u64(a)[0] == enc_u64(b)[0]);
    assert(enc_u64(a)[1] == enc_u64(b)[1]);
    assert(enc_u64(a)[2] == enc_u64(b)[2]);
    assert(enc_u64(a)[3] == enc_u64(b)[3]);
    assert(enc_u64(a)[4] == enc_u64(b)[4]);
    assert(enc_u64(a)[5] == enc_u64(b)[5]);
    assert(enc_u64(a)[6] == enc_u64(b)[6]);
    assert(enc_u64(a)[7] == enc_u64(b)[7]);
    assert((a & 0xff) < 256 && ((a >> 8) & 0xff) < 256 && ((a >> 16) & 0xff) < 256
        && ((a >> 24) & 0xff) < 256 && ((a >> 32) & 0xff) < 256 && ((a >> 40) & 0xff) < 256
        && ((a >> 48) & 0xff) < 256 && ((a >> 56) & 0xff) < 256) by (bit_vector);
    assert((b & 0xff) < 256 && ((b >> 8) & 0xff) < 256 && ((b >> 16) & 0xff) < 256
        && ((b >> 24) & 0xff) < 256 && ((b >> 32) & 0xff) < 256 && ((b >> 40) & 0xff) < 256
        && ((b >> 48) & 0xff) < 256 && ((b >> 56) & 0xff) < 256) by (bit_vector);
    assert((a & 0xff == b & 0xff && (a >> 8) & 0xff == (b >> 8) & 0xff
        && (a >> 16) & 0xff == (b >> 16) & 0xff && (a >> 24) & 0xff == (b >> 24) & 0xff
        && (a >> 32) & 0xff == (b >> 32) & 0xff && (a >> 40) & 0xff == (b >> 40) & 0xff
        && (a >> 48) & 0xff == (b >> 48) & 0xff && (a >> 56) & 0xff == (b >> 56) & 0xff)
        ==> a == b) by (bit_vector);
}

/// Joining adjacent subranges of one buffer.
pub proof fn lemma_subrange_concat(buf: Seq<u8>, a: int, b: int, c: int)
    requires
        0 <= a <= b <= c <= buf.len(),
    ensures
        buf.subrange(a, c) == buf.subrange(a, b) + buf.subrange(b, c),
{
    assert(buf.subrange(a, c) =~= buf.subrange(a, b) + buf.subrange(b, c));
}

/// A concatenation sitting at `pos` splits into its two parts.
pub proof fn lemma_starts_at_concat(buf: Seq<u8>, pos: int, s1: Seq<u8>, s2: Seq<u8>)
    requires
        starts_at(buf, pos, s1 + s2),
    ensures
        starts_at(buf, pos, s1),
        starts_at(buf, pos + s1.len(), s2),
{
    let whole = buf.subrange(pos, pos + s1.len() + s2.len());
    assert(whole == s1 + s2);
    assert(buf.subrange(pos, pos + s1.len() as int) =~= s1) by {
        assert forall|i: int| 0 <= i < s1.len() implies
            buf.subrange(pos, pos + s1.len() as int)[i] == s1[i] by {
            assert(whole[i] == (s1 + s2)[i]);
        }
    }
    assert(buf.subrange(pos + s1.len(), pos + s1.len() + s2.len() as int) =~= s2) by {
        assert forall|i: int| 0 <= i < s2.len() implies
            buf.subrange(pos + s1.len(), pos + s1.len() + s2.len() as int)[i] == s2[i] by {
            assert(whole[s1.len() + i] == (s1 + s2)[s1.len() + i]);
        }
    }
}

/// Appends the canonical encoding of `x` to `out`.
pub fn write_u64(out: &mut Vec<u8>, x: u64)
    ensures
        final(out)@ == old(out)@ + enc_u64(x),
{
    proof {
        assert((x & 0xff) < 256 && ((x >> 8) & 0xff) < 256 && ((x >> 16) & 0xff) < 256
            && ((x >> 24) & 0xff) < 256 && ((x >> 32) & 0xff) < 256 && ((x >> 40) & 0xff) < 256
            && ((x >> 48) & 0xff) < 256 && ((x >> 56) & 0xff) < 256) by (bit_vector);
    }
    out.push((x & 0xff) as u8);
    out.push(((x >> 8) & 0xff) as u8);
    out.push(((x >> 16) & 0xff) as u8);
    out.push(((x >> 24) & 0xff) as u8);
    out.push(((x >> 32) & 0xff) as u8);
    out.push(((x >> 40) & 0xff) as u8);
    out.push(((x >> 48) & 0xff) as u8);
    out.push(((x >> 56) & 0xff) as u8);
    proof {
        assert(out@ =~= old(out)@ + enc_u64(x));
    }
}

/// Reads one canonically encoded 64-bit integer at `pos`.
///
/// Succeeds exactly when eight bytes are available; the encoding is
/// injective, so the integer whose encoding sits at `pos` is unique.
pub fn read_u64(buf: &Vec<u8>, pos: usize) -> (r: Option<(u64, usize)>)
    ensures
        r matches Some(p) ==> p.1 == pos + 8 && starts_at(buf@, pos as int, enc_u64(p.0)),
        r is None ==> pos + 8 > buf@.len(),
        forall|x: u64| starts_at(buf@, pos as int, enc_u64(x))
            ==> (r matches Some(p) && p.0 == x && p.1 == pos + 8),
{
    if buf.len() < 8 || pos > buf.len() - 8 {
        return None;
    }
    let b0 = buf[pos];
    let b1 = buf[pos + 1];
    let b2 = buf[pos + 2];
    let b3 = buf[pos + 3];
    let b4 = buf[pos + 4];
    let b5 = buf[pos + 5];
    let b6 = buf[pos + 6];
    let b7 = buf[pos + 7];
    let v: u64 = (b0 as u64) | ((b1 as u64) << 8) | ((b2 as u64) << 16) | ((b3 as u64) << 24)
        | ((b4 as u64) << 32) | ((b5 as u64) << 40) | ((b6 as u64) << 48) | ((b7 as u64) << 56);
    proof {
        let g0 = b0 as u64;
        let g1 = b1 as u64;
        let g2 = b2 as u64;
        let g3 = b3 as u64;
        let g4 = b4 as u64;
        let g5 = b5 as u64;
        let g6 = b6 as u64;
        let g7 = b7 as u64;
        assert((v == g0 | (g1 << 8) | (g2 << 16) | (g3 << 24) | (g4 << 32) | (g5 << 40)
            | (g6 << 48) | (g7 << 56) && g0 < 256 && g1 < 256 && g2 < 256 && g3 < 256
            && g4 < 256 && g5 < 256 && g6 < 256 && g7 < 256)
            ==> (v & 0xff == g0 && (v >> 8) & 0xff == g1 && (v >> 16) & 0xff == g2
                && (v >> 24) & 0xff == g3 && (v >> 32) & 0xff == g4 && (v >> 40) & 0xff == g5
                && (v >> 48) & 0xff == g6 && (v >> 56) & 0xff == g7)) by (bit_vector);
        assert(enc_u64(v) =~= buf@.subrange(pos as int, pos as int + 8));
    }
    let r = Some((v, pos + 8));
    proof {
        assert forall|x: u64| starts_at(buf@, pos as int, enc_u64(x)) implies
            (r matches Some(p) && p.0 == x && p.1 == pos + 8) by {
            assert(enc_u64(x) == buf@.subrange(pos as int, pos as int + 8));
            lemma_enc_u64_injective(x, v);
        }
    }
    r
}

/// A byte string short enough for its length prefix.
pub open spec fn blob_ok(s: Seq<u8>) -> bool {
    s.len() <= u64::MAX
}

/// Canonical encoding of a byte string: length prefix, then the bytes.
pub open spec fn enc_blob(s: Seq<u8>) -> Seq<u8> {
    enc_u64(s.len() as u64) + s
}

/// Every byte string of the vector is short enough, and so is the vector.
pub open spec fn blobs_ok(ss: Seq<Seq<u8>>) -> bool {
    &&& ss.len() <= u64::MAX
    &&& forall|i: int| 0 <= i < ss.len() ==> blob_ok(#[trigger] ss[i])
}

/// Back-to-back encodings of the byte strings of `ss`, without a count.
pub open spec fn enc_blob_seq(ss: Seq<Seq<u8>>) -> Seq<u8>
    decreases ss.len(),
{
    if ss.len() == 0 {
        Seq::empty()
    } else {
        enc_blob(ss[0]) + enc_blob_seq(ss.skip(1))
    }
}

/// Canonical encoding of a vector of byte strings: count, then each string.
pub open spec fn enc_blobs(ss: Seq<Seq<u8>>) -> Seq<u8> {
    enc_u64(ss.len() as u64) + enc_blob_seq(ss)
}

/// Encoding one more element extends the back-to-back encoding at the end.
pub proof fn lemma_enc_blob_seq_snoc(s: Seq<Seq<u8>>, i: int)
    requires
        0 <= i < s.len(),
    ensures
        enc_blob_seq(s.take(i + 1)) == enc_blob_seq(s.take(i)) + enc_blob(s[i]),
    decreases i,
{
    if i == 0 {
        assert(s.take(0) =~= Seq::<Seq<u8>>::empty());
        assert(s.take(1).skip(1) =~= Seq::<Seq<u8>>::empty());
        assert(s.take(1)[0] == s[0]);
        assert(enc_blob_seq(s.take(1)) =~= enc_blob_seq(s.take(0)) + enc_blob(s[0]));
    } else {
        lemma_enc_blob_seq_snoc(s.skip(1), i - 1);
        assert(s.take(i + 1).skip(1) =~= s.skip(1).take(i));
        assert(s.take(i).skip(1) =~= s.skip(1).take(i - 1));
        assert(s.take(i + 1)[0] == s[0]);
        assert(s.take(i)[0] == s[0]);
        assert(s.skip(1)[i - 1] == s[i]);
        assert(enc_blob_seq(s.take(i + 1)) == enc_blob(s[0]) + enc_blob_seq(s.skip(1).take(i)));
        assert(enc_blob_seq(s.take(i)) == enc_blob(s[0]) + enc_blob_seq(s.skip(1).take(i - 1)));
        assert(enc_blob_seq(s.take(i + 1)) =~= enc_blob_seq(s.take(i)) + enc_blob(s[i]));
    }
}

/// The back-to-back encoding splits at any element boundary.
pub proof fn lemma_enc_blob_seq_split(s: Seq<Seq<u8>>, i: int)
    requires
        0 <= i <= s.len(),
    ensures
        enc_blob_seq(s) == enc_blob_seq(s.take(i)) + enc_blob_seq(s.skip(i)),
    decreases i,
{
    if i == 0 {
        assert(s.take(0) =~= Seq::<Seq<u8>>::empty());
        assert(s.skip(0) =~= s);
        assert(enc_blob_seq(s) =~= enc_blob_seq(s.take(0)) + enc_blob_seq(s.skip(0)));
    } else {
        lemma_enc_blob_seq_split(s, i - 1);
        lemma_enc_blob_seq_snoc(s, i - 1);
        assert(s.skip(i - 1).skip(1) =~= s.skip(i));
        assert(s.skip(i - 1)[0] == s[i - 1]);
        assert(s.skip(i - 1).len() > 0);
        assert(enc_blob_seq(s.skip(i - 1)) == enc_blob(s[i - 1]) + enc_blob_seq(s.skip(i)));
        assert(enc_blob_seq(s) =~= enc_blob_seq(s.take(i)) + enc_blob_seq(s.skip(i)));
    }
}

/// Two back-to-back encodings that begin at the same place agree on their
/// common prefix of elements: the shorter vector is a prefix of the longer.
pub proof fn lemma_blob_seq_prefix_take(buf: Seq<u8>, pos: int, x: Seq<Seq<u8>>, y: Seq<Seq<u8>>)
    requires
        x.len() <= y.len(),
        forall|i: int| 0 <= i < x.len() ==> blob_ok(#[trigger] x[i]),
        forall|i: int| 0 <= i < y.len() ==> blob_ok(#[trigger] y[i]),
        starts_at(buf, pos, enc_blob_seq(x)),
        starts_at(buf, pos, enc_blob_seq(y)),
    ensures
        x == y.take(x.len() as int),
    decreases x.len(),
{
    if x.len() == 0 {
        assert(x =~= y.take(0));
    } else {
        assert(enc_blob_seq(x) == enc_blob(x[0]) + enc_blob_seq(x.skip(1)));
        assert(enc_blob_seq(y) == enc_blob(y[0]) + enc_blob_seq(y.skip(1)));
        lemma_starts_at_concat(buf, pos, enc_blob(x[0]), enc_blob_seq(x.skip(1)));
        lemma_starts_at_concat(buf, pos, enc_blob(y[0]), enc_blob_seq(y.skip(1)));
        lemma_starts_at_concat(buf, pos, enc_u64(x[0].len() as u64), x[0]);
        lemma_starts_at_concat(buf, pos, enc_u64(y[0].len() as u64), y[0]);
        assert(enc_u64(x[0].len() as u64) == buf.subrange(pos, pos + 8));
        assert(enc_u64(y[0].len() as u64) == buf.subrange(pos, pos + 8));
        lemma_enc_u64_injective(x[0].len() as u64, y[0].len() as u64);
        assert(x[0].len() == y[0].len());
        assert(x[0] == buf.subrange(pos + 8, pos + 8 + x[0].len()));
        assert(y[0] == buf.subrange(pos + 8, pos + 8 + y[0].len()));
        assert(x[0] == y[0]);
        lemma_blob_seq_prefix_take(buf, pos + 8 + x[0].len(), x.skip(1), y.skip(1));
        assert forall|i: int| 0 <= i < x.len() implies x[i] == y.take(x.len() as int)[i] by {
            if i > 0 {
                assert(x.skip(1)[i - 1] == y.skip(1).take(x.len() - 1)[i - 1]);
            }
        }
        assert(x =~= y.take(x.len() as int));
    }
}

/// Appends the canonical encoding of `b` to `out`.
pub fn write_blob(out: &mut Vec<u8>, b: &Vec<u8>)
    ensures
        final(out)@ == old(out)@ + enc_blob(b@),
        blob_ok(b@),
{
    let l: usize = b.len();
    write_u64(out, l as u64);
    let mut i: usize = 0;
    #[verifier::loop_isolation(false)]
    while i < l
        invariant
            i <= l,
            out@ == old(out)@ + enc_u64(l as u64) + b@.take(i as int),
        decreases l - i,
    {
        out.push(b[i]);
        proof {
            assert(b@.take(i + 1) =~= b@.take(i as int).push(b@[i as int]));
            assert(out@ =~= old(out)@ + enc_u64(l as u64) + b@.take(i + 1));
        }
        i += 1;
    }
    proof {
        assert(b@.take(l as int) =~= b@);
        assert(out@ =~= old(out)@ + enc_blob(b@));
    }
}

/// Reads one canonically encoded byte string at `pos`.
pub fn read_blob(buf: &Vec<u8>, pos: usize) -> (r: Option<(Vec<u8>, usize)>)
    ensures
        r matches Some(p) ==> pos + 8 <= p.1 <= buf@.len() && blob_ok(p.0@)
            && buf@.subrange(pos as int, p.1 as int) == enc_blob(p.0@),
        forall|x: Seq<u8>| blob_ok(x) && starts_at(buf@, pos as int, enc_blob(x))
            ==> (r matches Some(p) && p.0@ == x && p.1 == pos + enc_blob(x).len()),
{
    let r0 = read_u64(buf, pos);
    match r0 {
        None => {
            proof {
                assert forall|x: Seq<u8>| blob_ok(x) && starts_at(buf@, pos as int, enc_blob(x))
                    implies false by {
                    lemma_starts_at_concat(buf@, pos as int, enc_u64(x.len() as u64), x);
                }
            }
            None
        },
        Some((n, m)) => {
            if n > (buf.len() - m) as u64 {
                proof {
                    assert forall|x: Seq<u8>| blob_ok(x) && starts_at(buf@, pos as int, enc_blob(x))
                        implies false by {
                        lemma_starts_at_concat(buf@, pos as int, enc_u64(x.len() as u64), x);
                        assert(enc_u64(x.len() as u64) == buf@.subrange(pos as int, pos as int + 8));
                        lemma_enc_u64_injective(x.len() as u64, n);
                    }
                }
                return None;
            }
            let l = n as usize;
            let mut v: Vec<u8> = Vec::new();
            let mut i: usize = 0;
            #[verifier::loop_isolation(false)]
            while i < l
                invariant
                    i <= l,
                    v@ == buf@.subrange(m as int, m + i as int),
                decreases l - i,
            {
                v.push(buf[m + i]);
                proof {
                    assert(v@ =~= buf@.subrange(m as int, m + i + 1));
                }
                i += 1;
            }
            let r = Some((v, m + l));
            proof {
                assert(buf@.subrange(pos as int, m + l as int) =~= enc_u64(n) + v@) by {
                    lemma_subrange_concat(buf@, pos as int, m as int, m + l as int);
                }
                assert(v@.len() as u64 == n);
                assert(buf@.subrange(pos as int, m + l as int) == enc_blob(v@));
                assert forall|x: Seq<u8>| blob_ok(x) && starts_at(buf@, pos as int, enc_blob(x))
                    implies (r matches Some(p) && p.0@ == x && p.1 == pos + enc_blob(x).len()) by {
                    lemma_starts_at_concat(buf@, pos as int, enc_u64(x.len() as u64), x);
                    assert(enc_u64(x.len() as u64) == buf@.subrange(pos as int, pos as int + 8));
                    lemma_enc_u64_injective(x.len() as u64, n);
                    assert(x.len() == l);
                    assert(x == buf@.subrange(pos + 8, pos + 8 + x.len() as int));
                }
            }
            r
        },
    }
}

/// Appends the canonical encoding of the vector `bs` to `out`.
pub fn write_blobs(out: &mut Vec<u8>, bs: &Vec<Vec<u8>>)
    ensures
        final(out)@ == old(out)@ + enc_blobs(blobs_view(*bs)),
        blobs_ok(blobs_view(*bs)),
{
    let n: usize = bs.len();
    write_u64(out, n as u64);
    proof {
        assert(blobs_view(*bs).len() == n);
    }
    let mut i: usize = 0;
    #[verifier::loop_isolation(false)]
    while i < n
        invariant
            i <= n,
            out@ == old(out)@ + enc_u64(n as u64) + enc_blob_seq(blobs_view(*bs).take(i as int)),
            forall|j: int| 0 <= j < i ==> blob_ok(#[trigger] blobs_view(*bs)[j]),
        decreases n - i,
    {
        write_blob(out, &bs[i]);
        proof {
            assert(blobs_view(*bs)[i as int] == bs@[i as int]@);
            lemma_enc_blob_seq_snoc(blobs_view(*bs), i as int);
            assert(out@ =~= old(out)@ + enc_u64(n as u64)
                + enc_blob_seq(blobs_view(*bs).take(i + 1)));
        }
        i += 1;
    }
    proof {
        assert(blobs_view(*bs).take(n as int) =~= blobs_view(*bs));
        assert(out@ =~= old(out)@ + enc_blobs(blobs_view(*bs)));
    }
}

/// Reads one canonically encoded vector of byte strings at `pos`.
pub fn read_blobs(buf: &Vec<u8>, pos: usize) -> (r: Option<(Vec<Vec<u8>>, usize)>)
    ensures
        r matches Some(p) ==> pos <= p.1 <= buf@.len() && blobs_ok(blobs_view(p.0))
            && buf@.subrange(pos as int, p.1 as int) == enc_blobs(blobs_view(p.0)),
        forall|x: Seq<Seq<u8>>| blobs_ok(x) && starts_at(buf@, pos as int, enc_blobs(x))
            ==> (r matches Some(p) && blobs_view(p.0) == x && p.1 == pos + enc_blobs(x).len()),
{
    let r0 = read_u64(buf, pos);
    match r0 {
        None => {
            proof {
                assert forall|x: Seq<Seq<u8>>| blobs_ok(x) && starts_at(buf@, pos as int, enc_blobs(x))
                    implies false by {
                    lemma_starts_at_concat(buf@, pos as int, enc_u64(x.len() as u64),
                        enc_blob_seq(x));
                }
            }
            None
        },
        Some((n, base)) => {
            let mut vs: Vec<Vec<u8>> = Vec::new();
            let mut p: usize = base;
            let mut i: u64 = 0;
            #[verifier::loop_isolation(false)]
            while i < n
                invariant
                    i <= n,
                    base <= p <= buf@.len(),
                    blobs_view(vs).len() == i,
                    forall|j: int| 0 <= j < i ==> blob_ok(#[trigger] blobs_view(vs)[j]),
                    buf@.subrange(base as int, p as int) == enc_blob_seq(blobs_view(vs)),
                decreases n - i,
            {
                let rb = read_blob(buf, p);
                match rb {
                    None => {
                        proof {
                            assert forall|x: Seq<Seq<u8>>| blobs_ok(x)
                                && starts_at(buf@, pos as int, enc_blobs(x)) implies false by {
                                lemma_read_blobs_step(buf@, pos as int, base as int, p as int, n,
                                    i, blobs_view(vs), x);
                            }
                        }
                        return None;
                    },
                    Some((b, p2)) => {
                        let ghost vsv0 = blobs_view(vs);
                        let ghost bv = b@;
                        vs.push(b);
                        proof {
                            assert(blobs_view(vs) =~= vsv0.push(bv));
                            assert(blobs_view(vs).take(i as int) =~= vsv0);
                            lemma_enc_blob_seq_snoc(blobs_view(vs), i as int);
                            assert(blobs_view(vs).take(i + 1) =~= blobs_view(vs));
                            lemma_subrange_concat(buf@, base as int, p as int, p2 as int);
                            assert(buf@.subrange(base as int, p2 as int)
                                == enc_blob_seq(vsv0) + enc_blob(bv));
                            assert(buf@.subrange(base as int, p2 as int)
                                == enc_blob_seq(blobs_view(vs)));
                            assert forall|j: int| 0 <= j < i + 1 implies
                                blob_ok(#[trigger] blobs_view(vs)[j]) by {
                                if j < i {
                                    assert(blobs_view(vs)[j] == vsv0[j]);
                                }
                            }
                        }
                        p = p2;
                        i += 1;
                    },
                }
            }
            let r = Some((vs, p));
            proof {
                lemma_subrange_concat(buf@, pos as int, base as int, p as int);
                assert(blobs_view(vs).len() as u64 == n);
                assert(buf@.subrange(pos as int, p as int) == enc_blobs(blobs_view(vs)));
                assert forall|x: Seq<Seq<u8>>| blobs_ok(x) && starts_at(buf@, pos as int, enc_blobs(x))
                    implies (r matches Some(q) && blobs_view(q.0) == x
                        && q.1 == pos + enc_blobs(x).len()) by {
                    lemma_starts_at_concat(buf@, pos as int, enc_u64(x.len() as u64),
                        enc_blob_seq(x));
                    assert(enc_u64(x.len() as u64) == buf@.subrange(pos as int, pos as int + 8));
                    lemma_enc_u64_injective(x.len() as u64, n);
                    assert(x.len() == n);
                    assert(starts_at(buf@, base as int, enc_blob_seq(blobs_view(vs))));
                    lemma_blob_seq_prefix_take(buf@, base as int, blobs_view(vs), x);
                    assert(x.take(x.len() as int) =~= x);
                    assert(blobs_view(vs) == x);
                }
            }
            r
        },
    }
}

/// A matrix entry whose field-element bytes are short enough.
pub open spec fn entry_ok(e: MatrixEntryV) -> bool {
    blob_ok(e.value)
}

/// Canonical encoding of a matrix entry: row, column, then the value bytes.
pub open spec fn enc_entry(e: MatrixEntryV) -> Seq<u8> {
    enc_u64(e.row) + enc_u64(e.col) + enc_blob(e.value)
}

/// Every entry of the vector is short enough, and so is the vector.
pub open spec fn entries_ok(es: Seq<MatrixEntryV>) -> bool {
    &&& es.len() <= u64::MAX
    &&& forall|i: int| 0 <= i < es.len() ==> entry_ok(#[trigger] es[i])
}

/// Back-to-back encodings of the entries of `es`, without a count.
pub open spec fn enc_entry_seq(es: Seq<MatrixEntryV>) -> Seq<u8>
    decreases es.len(),
{
    if es.len() == 0 {
        Seq::empty()
    } else {
        enc_entry(es[0]) + enc_entry_seq(es.skip(1))
    }
}

/// Canonical encoding of a sparse matrix: entry count, then each entry.
pub open spec fn enc_entries(es: Seq<MatrixEntryV>) -> Seq<u8> {
    enc_u64(es.len() as u64) + enc_entry_seq(es)
}

/// Encoding one more entry extends the back-to-back encoding at the end.
pub proof fn lemma_enc_entry_seq_snoc(s: Seq<MatrixEntryV>, i: int)
    requires
        0 <= i < s.len(),
    ensures
        enc_entry_seq(s.take(i + 1)) == enc_entry_seq(s.take(i)) + enc_entry(s[i]),
    decreases i,
{
    if i == 0 {
        assert(s.take(0) =~= Seq::<MatrixEntryV>::empty());
        assert(s.take(1).skip(1) =~= Seq::<MatrixEntryV>::empty());
        assert(s.take(1)[0] == s[0]);
        assert(enc_entry_seq(s.take(1)) =~= enc_entry_seq(s.take(0)) + enc_entry(s[0]));
    } else {
        lemma_enc_entry_seq_snoc(s.skip(1), i - 1);
        assert(s.take(i + 1).skip(1) =~= s.skip(1).take(i));
        assert(s.take(i).skip(1) =~= s.skip(1).take(i - 1));
        assert(s.take(i + 1)[0] == s[0]);
        assert(s.take(i)[0] == s[0]);
        assert(s.skip(1)[i - 1] == s[i]);
        assert(enc_entry_seq(s.take(i + 1)) == enc_entry(s[0]) + enc_entry_seq(s.skip(1).take(i)));
        assert(enc_entry_seq(s.take(i)) == enc_entry(s[0]) + enc_entry_seq(s.skip(1).take(i - 1)));
        assert(enc_entry_seq(s.take(i + 1)) =~= enc_entry_seq(s.take(i)) + enc_entry(s[i]));
    }
}

/// The back-to-back entry encoding splits at any entry boundary.
pub proof fn lemma_enc_entry_seq_split(s: Seq<MatrixEntryV>, i: int)
    requires
        0 <= i <= s.len(),
    ensures
        enc_entry_seq(s) == enc_entry_seq(s.take(i)) + enc_entry_seq(s.skip(i)),
    decreases i,
{
    if i == 0 {
        assert(s.take(0) =~= Seq::<MatrixEntryV>::empty());
        assert(s.skip(0) =~= s);
        assert(enc_entry_seq(s) =~= enc_entry_seq(s.take(0)) + enc_entry_seq(s.skip(0)));
    } else {
        lemma_enc_entry_seq_split(s, i - 1);
        lemma_enc_entry_seq_snoc(s, i - 1);
        assert(s.skip(i - 1).skip(1) =~= s.skip(i));
        assert(s.skip(i - 1)[0] == s[i - 1]);
        assert(s.skip(i - 1).len() > 0);
        assert(enc_entry_seq(s.skip(i - 1)) == enc_entry(s[i - 1]) + enc_entry_seq(s.skip(i)));
        assert(enc_entry_seq(s) =~= enc_entry_seq(s.take(i)) + enc_entry_seq(s.skip(i)));
    }
}

/// Two back-to-back entry encodings that begin at the same place agree on
/// their common prefix of entries.
pub proof fn lemma_entry_seq_prefix_take(
    buf: Seq<u8>,
    pos: int,
    x: Seq<MatrixEntryV>,
    y: Seq<MatrixEntryV>,
)
    requires
        x.len() <= y.len(),
        forall|i: int| 0 <= i < x.len() ==> entry_ok(#[trigger] x[i]),
        forall|i: int| 0 <= i < y.len() ==> entry_ok(#[trigger] y[i]),
        starts_at(buf, pos, enc_entry_seq(x)),
        starts_at(buf, pos, enc_entry_seq(y)),
    ensures
        x == y.take(x.len() as int),
    decreases x.len(),
{
    if x.len() == 0 {
        assert(x =~= y.take(0));
    } else {
        assert(enc_entry_seq(x) == enc_entry(x[0]) + enc_entry_seq(x.skip(1)));
        assert(enc_entry_seq(y) == enc_entry(y[0]) + enc_entry_seq(y.skip(1)));
        lemma_starts_at_concat(buf, pos, enc_entry(x[0]), enc_entry_seq(x.skip(1)));
        lemma_starts_at_concat(buf, pos, enc_entry(y[0]), enc_entry_seq(y.skip(1)));
        lemma_starts_at_concat(buf, pos, enc_u64(x[0].row) + enc_u64(x[0].col),
            enc_blob(x[0].value));
        lemma_starts_at_concat(buf, pos, enc_u64(y[0].row) + enc_u64(y[0].col),
            enc_blob(y[0].value));
        lemma_starts_at_concat(buf, pos, enc_u64(x[0].row), enc_u64(x[0].col));
        lemma_starts_at_concat(buf, pos, enc_u64(y[0].row), enc_u64(y[0].col));
        assert(enc_u64(x[0].row) == buf.subrange(pos, pos + 8));
        assert(enc_u64(y[0].row) == buf.subrange(pos, pos + 8));
        lemma_enc_u64_injective(x[0].row, y[0].row);
        assert(enc_u64(x[0].col) == buf.subrange(pos + 8, pos + 16));
        assert(enc_u64(y[0].col) == buf.subrange(pos + 8, pos + 16));
        lemma_enc_u64_injective(x[0].col, y[0].col);
        lemma_starts_at_concat(buf, pos + 16, enc_u64(x[0].value.len() as u64), x[0].value);
        lemma_starts_at_concat(buf, pos + 16, enc_u64(y[0].value.len() as u64), y[0].value);
        assert(enc_u64(x[0].value.len() as u64) == buf.subrange(pos + 16, pos + 24));
        assert(enc_u64(y[0].value.len() as u64) == buf.subrange(pos + 16, pos + 24));
        lemma_enc_u64_injective(x[0].value.len() as u64, y[0].value.len() as u64);
        assert(x[0].value.len() == y[0].value.len());
        assert(x[0].value == buf.subrange(pos + 24, pos + 24 + x[0].value.len()));
        assert(y[0].value == buf.subrange(pos + 24, pos + 24 + y[0].value.len()));
        assert(x[0] =~= y[0]);
        lemma_entry_seq_prefix_take(buf, pos + 24 + x[0].value.len(), x.skip(1), y.skip(1));
        assert forall|i: int| 0 <= i < x.len() implies x[i] == y.take(x.len() as int)[i] by {
            if i > 0 {
                assert(x.skip(1)[i - 1] == y.skip(1).take(x.len() - 1)[i - 1]);
            }
        }
        assert(x =~= y.take(x.len() as int));
    }
}

/// Appends the canonical encoding of entry `e` to `out`.
pub fn write_entry(out: &mut Vec<u8>, e: &MatrixEntry)
    ensures
        final(out)@ == old(out)@ + enc_entry(e@),
        entry_ok(e@),
{
    write_u64(out, e.row);
    write_u64(out, e.col);
    write_blob(out, &e.value);
    proof {
        assert(out@ =~= old(out)@ + enc_entry(e@));
    }
}

/// Reads one canonically encoded matrix entry at `pos`.
pub fn read_entry(buf: &Vec<u8>, pos: usize) -> (r: Option<(MatrixEntry, usize)>)
    ensures
        r matches Some(p) ==> pos <= p.1 <= buf@.len() && entry_ok(p.0@)
            && buf@.subrange(pos as int, p.1 as int) == enc_entry(p.0@),
        forall|x: MatrixEntryV| entry_ok(x) && starts_at(buf@, pos as int, enc_entry(x))
            ==> (r matches Some(p) && p.0@ == x && p.1 == pos + enc_entry(x).len()),
{
    proof {
        assert forall|x: MatrixEntryV| entry_ok(x) && starts_at(buf@, pos as int, enc_entry(x))
            implies starts_at(buf@, pos as int, enc_u64(x.row))
                && starts_at(buf@, pos as int + 8, enc_u64(x.col))
                && starts_at(buf@, pos as int + 16, enc_blob(x.value)) by {
            lemma_starts_at_concat(buf@, pos as int, enc_u64(x.row) + enc_u64(x.col),
                enc_blob(x.value));
            lemma_starts_at_concat(buf@, pos as int, enc_u64(x.row), enc_u64(x.col));
        }
    }
    let r0 = read_u64(buf, pos);
    let (row, m1) = match r0 {
        None => {
            return None;
        },
        Some(p) => p,
    };
    let r1 = read_u64(buf, m1);
    let (col, m2) = match r1 {
        None => {
            return None;
        },
        Some(p) => p,
    };
    let r2 = read_blob(buf, m2);
    let (value, end) = match r2 {
        None => {
            return None;
        },
        Some(p) => p,
    };
    let ghost vv = value@;
    let e = MatrixEntry { row, col, value };
    let r = Some((e, end));
    proof {
        lemma_subrange_concat(buf@, pos as int, m1 as int, m2 as int);
        lemma_subrange_concat(buf@, pos as int, m2 as int, end as int);
        assert(buf@.subrange(pos as int, end as int) == enc_entry(e@));
        assert forall|x: MatrixEntryV| entry_ok(x) && starts_at(buf@, pos as int, enc_entry(x))
            implies (r matches Some(p) && p.0@ == x && p.1 == pos + enc_entry(x).len()) by {
            assert(e@ =~= x);
        }
    }
    r
}

/// Appends the canonical encoding of the sparse matrix `es` to `out`.
pub fn write_entries(out: &mut Vec<u8>, es: &Vec<MatrixEntry>)
    ensures
        final(out)@ == old(out)@ + enc_entries(entries_view(*es)),
        entries_ok(entries_view(*es)),
{
    let n: usize = es.len();
    write_u64(out, n as u64);
    proof {
        assert(entries_view(*es).len() == n);
    }
    let mut i: usize = 0;
    #[verifier::loop_isolation(false)]
    while i < n
        invariant
            i <= n,
            out@ == old(out)@ + enc_u64(n as u64) + enc_entry_seq(entries_view(*es).take(i as int)),
            forall|j: int| 0 <= j < i ==> entry_ok(#[trigger] entries_view(*es)[j]),
        decreases n - i,
    {
        write_entry(out, &es[i]);
        proof {
            assert(entries_view(*es)[i as int] == es@[i as int]@);
            lemma_enc_entry_seq_snoc(entries_view(*es), i as int);
            assert(out@ =~= old(out)@ + enc_u64(n as u64)
                + enc_entry_seq(entries_view(*es).take(i + 1)));
        }
        i += 1;
    }
    proof {
        assert(entries_view(*es).take(n as int) =~= entries_view(*es));
        assert(out@ =~= old(out)@ + enc_entries(entries_view(*es)));
    }
}

/// Reads one canonically encoded sparse matrix at `pos`.
pub fn read_entries(buf: &Vec<u8>, pos: usize) -> (r: Option<(Vec<MatrixEntry>, usize)>)
    ensures
        r matches Some(p) ==> pos <= p.1 <= buf@.len() && entries_ok(entries_view(p.0))
            && buf@.subrange(pos as int, p.1 as int) == enc_entries(entries_view(p.0)),
        forall|x: Seq<MatrixEntryV>| entries_ok(x) && starts_at(buf@, pos as int, enc_entries(x))
            ==> (r matches Some(p) && entries_view(p.0) == x && p.1 == pos + enc_entries(x).len()),
{
    let r0 = read_u64(buf, pos);
    match r0 {
        None => {
            proof {
                assert forall|x: Seq<MatrixEntryV>| entries_ok(x)
                    && starts_at(buf@, pos as int, enc_entries(x)) implies false by {
                    lemma_starts_at_concat(buf@, pos as int, enc_u64(x.len() as u64),
                        enc_entry_seq(x));
                }
            }
            None
        },
        Some((n, base)) => {
            let mut vs: Vec<MatrixEntry> = Vec::new();
            let mut p: usize = base;
            let mut i: u64 = 0;
            #[verifier::loop_isolation(false)]
            while i < n
                invariant
                    i <= n,
                    base <= p <= buf@.len(),
                    entries_view(vs).len() == i,
                    forall|j: int| 0 <= j < i ==> entry_ok(#[trigger] entries_view(vs)[j]),
                    buf@.subrange(base as int, p as int) == enc_entry_seq(entries_view(vs)),
                decreases n - i,
            {
                let rb = read_entry(buf, p);
                match rb {
                    None => {
                        proof {
                            assert forall|x: Seq<MatrixEntryV>| entries_ok(x)
                                && starts_at(buf@, pos as int, enc_entries(x)) implies false by {
                                lemma_read_entries_step(buf@, pos as int, base as int, p as int,
                                    n, i, entries_view(vs), x);
                            }
                        }
                        return None;
                    },
                    Some((b, p2)) => {
                        let ghost vsv0 = entries_view(vs);
                        let ghost bv = b@;
                        vs.push(b);
                        proof {
                            assert(entries_view(vs) =~= vsv0.push(bv));
                            assert(entries_view(vs).take(i as int) =~= vsv0);
                            lemma_enc_entry_seq_snoc(entries_view(vs), i as int);
                            assert(entries_view(vs).take(i + 1) =~= entries_view(vs));
                            lemma_subrange_concat(buf@, base as int, p as int, p2 as int);
                            assert(buf@.subrange(base as int, p2 as int)
                                == enc_entry_seq(vsv0) + enc_entry(bv));
                            assert(buf@.subrange(base as int, p2 as int)
                                == enc_entry_seq(entries_view(vs)));
                            assert forall|j: int| 0 <= j < i + 1 implies
                                entry_ok(#[trigger] entries_view(vs)[j]) by {
                                if j < i {
                                    assert(entries_view(vs)[j] == vsv0[j]);
                                }
                            }
                        }
                        p = p2;
                        i += 1;
                    },
                }
            }
            let r = Some((vs, p));
            proof {
                lemma_subrange_concat(buf@, pos as int, base as int, p as int);
                assert(entries_view(vs).len() as u64 == n);
                assert(buf@.subrange(pos as int, p as int) == enc_entries(entries_view(vs)));
                assert forall|x: Seq<MatrixEntryV>| entries_ok(x)
                    && starts_at(buf@, pos as int, enc_entries(x))
                    implies (r matches Some(q) && entries_view(q.0) == x
                        && q.1 == pos + enc_entries(x).len()) by {
                    lemma_starts_at_concat(buf@, pos as int, enc_u64(x.len() as u64),
                        enc_entry_seq(x));
                    assert(enc_u64(x.len() as u64) == buf@.subrange(pos as int, pos as int + 8));
                    lemma_enc_u64_injective(x.len() as u64, n);
                    assert(x.len() == n);
                    assert(starts_at(buf@, base as int, enc_entry_seq(entries_view(vs))));
                    lemma_entry_seq_prefix_take(buf@, base as int, entries_view(vs), x);
                    assert(x.take(x.len() as int) =~= x);
                    assert(entries_view(vs) == x);
                }
            }
            r
        },
    }
}

/// In the middle of reading a matrix whose full encoding sits at `pos`,
/// the next entry encoding must sit at the cursor.
proof fn lemma_read_entries_step(
    buf: Seq<u8>,
    pos: int,
    base: int,
    p: int,
    n: u64,
    i: u64,
    parsed: Seq<MatrixEntryV>,
    x: Seq<MatrixEntryV>,
)
    requires
        base == pos + 8,
        base <= p <= buf.len(),
        i < n,
        parsed.len() == i,
        forall|j: int| 0 <= j < i ==> entry_ok(#[trigger] parsed[j]),
        buf.subrange(base, p) == enc_entry_seq(parsed),
        starts_at(buf, pos, enc_u64(n)),
        entries_ok(x),
        starts_at(buf, pos, enc_entries(x)),
    ensures
        starts_at(buf, p, enc_entry(x[i as int])),
        x.take(i as int) == parsed,
        p == base + enc_entry_seq(x.take(i as int)).len(),
{
    lemma_starts_at_concat(buf, pos, enc_u64(x.len() as u64), enc_entry_seq(x));
    assert(enc_u64(x.len() as u64) == buf.subrange(pos, pos + 8));
    assert(enc_u64(n) == buf.subrange(pos, pos + 8));
    lemma_enc_u64_injective(x.len() as u64, n);
    assert(x.len() == n);
    assert(starts_at(buf, base, enc_entry_seq(x)));
    assert(starts_at(buf, base, enc_entry_seq(parsed)));
    lemma_entry_seq_prefix_take(buf, base, parsed, x);
    assert(x.take(i as int) == parsed);
    lemma_enc_entry_seq_split(x, i as int);
    lemma_starts_at_concat(buf, base, enc_entry_seq(x.take(i as int)),
        enc_entry_seq(x.skip(i as int)));
    assert(p == base + enc_entry_seq(x.take(i as int)).len());
    assert(x.skip(i as int).len() > 0);
    assert(enc_entry_seq(x.skip(i as int))
        == enc_entry(x.skip(i as int)[0]) + enc_entry_seq(x.skip(i as int).skip(1)));
    assert(x.skip(i as int)[0] == x[i as int]);
    lemma_starts_at_concat(buf, p, enc_entry(x[i as int]),
        enc_entry_seq(x.skip(i as int).skip(1)));
}

/// In the middle of reading a vector whose full encoding sits at `pos`,
/// the next byte-string encoding must sit at the cursor.
proof fn lemma_read_blobs_step(
    buf: Seq<u8>,
    pos: int,
    base: int,
    p: int,
    n: u64,
    i: u64,
    parsed: Seq<Seq<u8>>,
    x: Seq<Seq<u8>>,
)
    requires
        base == pos + 8,
        base <= p <= buf.len(),
        i < n,
        parsed.len() == i,
        forall|j: int| 0 <= j < i ==> blob_ok(#[trigger] parsed[j]),
        buf.subrange(base, p) == enc_blob_seq(parsed),
        starts_at(buf, pos, enc_u64(n)),
        blobs_ok(x),
        starts_at(buf, pos, enc_blobs(x)),
    ensures
        starts_at(buf, p, enc_blob(x[i as int])),
        x.take(i as int) == parsed,
        p == base + enc_blob_seq(x.take(i as int)).len(),
{
    lemma_starts_at_concat(buf, pos, enc_u64(x.len() as u64), enc_blob_seq(x));
    assert(enc_u64(x.len() as u64) == buf.subrange(pos, pos + 8));
    assert(enc_u64(n) == buf.subrange(pos, pos + 8));
    lemma_enc_u64_injective(x.len() as u64, n);
    assert(x.len() == n);
    assert(starts_at(buf, base, enc_blob_seq(x)));
    assert(starts_at(buf, base, enc_blob_seq(parsed)));
    lemma_blob_seq_prefix_take(buf, base, parsed, x);
    assert(x.take(i as int) == parsed);
    lemma_enc_blob_seq_split(x, i as int);
    lemma_starts_at_concat(buf, base, enc_blob_seq(x.take(i as int)),
        enc_blob_seq(x.skip(i as int)));
    assert(p == base + enc_blob_seq(x.take(i as int)).len());
    assert(x.skip(i as int).len() > 0);
    assert(enc_blob_seq(x.skip(i as int))
        == enc_blob(x.skip(i as int)[0]) + enc_blob_seq(x.skip(i as int).skip(1)));
    assert(x.skip(i as int)[0] == x[i as int]);
    lemma_starts_at_concat(buf, p, enc_blob(x[i as int]),
        enc_blob_seq(x.skip(i as int).skip(1)));
}

/// A random-oracle configuration whose vectors are short enough.
pub open spec fn ro_ok(c: ROConfigV) -> bool {
    &&& blobs_ok(c.round_constants)
    &&& blobs_ok(c.mds)
}

/// Canonical encoding of the random-oracle configuration.
pub open spec fn enc_ro(c: ROConfigV) -> Seq<u8> {
    enc_u64(c.full_rounds) + enc_u64(c.partial_rounds) + enc_u64(c.rate) + enc_u64(c.capacity)
        + enc_blobs(c.round_constants) + enc_blobs(c.mds)
}

/// Where each component of an encoded random-oracle configuration sits.
proof fn lemma_ro_parts(buf: Seq<u8>, pos: int, x: ROConfigV)
    requires
        starts_at(buf, pos, enc_ro(x)),
    ensures
        starts_at(buf, pos, enc_u64(x.full_rounds)),
        starts_at(buf, pos + 8, enc_u64(x.partial_rounds)),
        starts_at(buf, pos + 16, enc_u64(x.rate)),
        starts_at(buf, pos + 24, enc_u64(x.capacity)),
        starts_at(buf, pos + 32, enc_blobs(x.round_constants)),
        starts_at(buf, pos + 32 + enc_blobs(x.round_constants).len(), enc_blobs(x.mds)),
{
    let a = enc_u64(x.full_rounds);
    let b = enc_u64(x.partial_rounds);
    let c = enc_u64(x.rate);
    let d = enc_u64(x.capacity);
    let e = enc_blobs(x.round_constants);
    let f = enc_blobs(x.mds);
    lemma_starts_at_concat(buf, pos, a + b + c + d + e, f);
    lemma_starts_at_concat(buf, pos, a + b + c + d, e);
    lemma_starts_at_concat(buf, pos, a + b + c, d);
    lemma_starts_at_concat(buf, pos, a + b, c);
    lemma_starts_at_concat(buf, pos, a, b);
}

/// Appends the canonical encoding of the configuration `c` to `out`.
pub fn write_ro(out: &mut Vec<u8>, c: &ROConfig)
    ensures
        final(out)@ == old(out)@ + enc_ro(c@),
        ro_ok(c@),
{
    write_u64(out, c.full_rounds);
    write_u64(out, c.partial_rounds);
    write_u64(out, c.rate);
    write_u64(out, c.capacity);
    write_blobs(out, &c.round_constants);
    write_blobs(out, &c.mds);
    proof {
        assert(out@ =~= old(out)@ + enc_ro(c@));
    }
}

/// Reads one canonically encoded random-oracle configuration at `pos`.
#[verifier::rlimit(100)]
pub fn read_ro(buf: &Vec<u8>, pos: usize) -> (r: Option<(ROConfig, usize)>)
    ensures
        r matches Some(p) ==> pos <= p.1 <= buf@.len() && ro_ok(p.0@)
            && buf@.subrange(pos as int, p.1 as int) == enc_ro(p.0@),
        forall|x: ROConfigV| ro_ok(x) && starts_at(buf@, pos as int, enc_ro(x))
            ==> (r matches Some(p) && p.0@ == x && p.1 == pos + enc_ro(x).len()),
{
    proof {
        assert forall|x: ROConfigV| ro_ok(x) && starts_at(buf@, pos as int, enc_ro(x))
            implies starts_at(buf@, pos as int, enc_u64(x.full_rounds))
                && starts_at(buf@, pos as int + 8, enc_u64(x.partial_rounds))
                && starts_at(buf@, pos as int + 16, enc_u64(x.rate))
                && starts_at(buf@, pos as int + 24, enc_u64(x.capacity))
                && starts_at(buf@, pos as int + 32, enc_blobs(x.round_constants))
                && starts_at(buf@, pos as int + 32 + enc_blobs(x.round_constants).len(),
                    enc_blobs(x.mds)) by {
            lemma_ro_parts(buf@, pos as int, x);
        }
    }
    let r0 = read_u64(buf, pos);
    let (full_rounds, m1) = match r0 {
        None => {
            return None;
        },
        Some(p) => p,
    };
    let r1 = read_u64(buf, m1);
    let (partial_rounds, m2) = match r1 {
        None => {
            return None;
        },
        Some(p) => p,
    };
    let r2 = read_u64(buf, m2);
    let (rate, m3) = match r2 {
        None => {
            return None;
        },
        Some(p) => p,
    };
    let r3 = read_u64(buf, m3);
    let (capacity, m4) = match r3 {
        None => {
            return None;
        },
        Some(p) => p,
    };
    let r4 = read_blobs(buf, m4);
    let (round_constants, m5) = match r4 {
        None => {
            return None;
        },
        Some(p) => p,
    };
    let r5 = read_blobs(buf, m5);
    let (mds, end) = match r5 {
        None => {
            return None;
        },
        Some(p) => p,
    };
    let c = ROConfig { full_rounds, partial_rounds, rate, capacity, round_constants, mds };
    let r = Some((c, end));
    proof {
        lemma_subrange_concat(buf@, pos as int, m1 as int, m2 as int);
        lemma_subrange_concat(buf@, pos as int, m2 as int, m3 as int);
        lemma_subrange_concat(buf@, pos as int, m3 as int, m4 as int);
        lemma_subrange_concat(buf@, pos as int, m4 as int, m5 as int);
        lemma_subrange_concat(buf@, pos as int, m5 as int, end as int);
        assert(buf@.subrange(pos as int, end as int) == enc_ro(c@));
        assert forall|x: ROConfigV| ro_ok(x) && starts_at(buf@, pos as int, enc_ro(x))
            implies (r matches Some(p) && p.0@ == x && p.1 == pos + enc_ro(x).len()) by {
            assert(c@ =~= x);
        }
    }
    r
}

/// A constraint shape whose matrices are short enough.
pub open spec fn shape_ok(s: R1CSShapeV) -> bool {
    &&& entries_ok(s.a)
    &&& entries_ok(s.b)
    &&& entries_ok(s.c)
}

/// Canonical encoding of a constraint shape.
pub open spec fn enc_shape(s: R1CSShapeV) -> Seq<u8> {
    enc_u64(s.num_constraints) + enc_u64(s.num_vars) + enc_u64(s.num_io) + enc_entries(s.a)
        + enc_entries(s.b) + enc_entries(s.c)
}

/// Where each component of an encoded constraint shape sits.
proof fn lemma_shape_parts(buf: Seq<u8>, pos: int, x: R1CSShapeV)
    requires
        starts_at(buf, pos, enc_shape(x)),
    ensures
        starts_at(buf, pos, enc_u64(x.num_constraints)),
        starts_at(buf, pos + 8, enc_u64(x.num_vars)),
        starts_at(buf, pos + 16, enc_u64(x.num_io)),
        starts_at(buf, pos + 24, enc_entries(x.a)),
        starts_at(buf, pos + 24 + enc_entries(x.a).len(), enc_entries(x.b)),
        starts_at(buf, pos + 24 + enc_entries(x.a).len() + enc_entries(x.b).len(),
            enc_entries(x.c)),
{
    let a = enc_u64(x.num_constraints);
    let b = enc_u64(x.num_vars);
    let c = enc_u64(x.num_io);
    let d = enc_entries(x.a);
    let e = enc_entries(x.b);
    let f = enc_entries(x.c);
    lemma_starts_at_concat(buf, pos, a + b + c + d + e, f);
    lemma_starts_at_concat(buf, pos, a + b + c + d, e);
    lemma_starts_at_concat(buf, pos, a + b + c, d);
    lemma_starts_at_concat(buf, pos, a + b, c);
    lemma_starts_at_concat(buf, pos, a, b);
}

/// Appends the canonical encoding of the shape `s` to `out`.
pub fn write_shape(out: &mut Vec<u8>, s: &R1CSShape)
    ensures
        final(out)@ == old(out)@ + enc_shape(s@),
        shape_ok(s@),
{
    write_u64(out, s.num_constraints);
    write_u64(out, s.num_vars);
    write_u64(out, s.num_io);
    write_entries(out, &s.a);
    write_entries(out, &s.b);
    write_entries(out, &s.c);
    proof {
        assert(out@ =~= old(out)@ + enc_shape(s@));
    }
}

/// Reads one canonically encoded constraint shape at `pos`.
#[verifier::rlimit(100)]
pub fn read_shape(buf: &Vec<u8>, pos: usize) -> (r: Option<(R1CSShape, usize)>)
    ensures
        r matches Some(p) ==> pos <= p.1 <= buf@.len() && shape_ok(p.0@)
            && buf@.subrange(pos as int, p.1 as int) == enc_shape(p.0@),
        forall|x: R1CSShapeV| shape_ok(x) && starts_at(buf@, pos as int, enc_shape(x))
            ==> (r matches Some(p) && p.0@ == x && p.1 == pos + enc_shape(x).len()),
{
    proof {
        assert forall|x: R1CSShapeV| shape_ok(x) && starts_at(buf@, pos as int, enc_shape(x))
            implies starts_at(buf@, pos as int, enc_u64(x.num_constraints))
                && starts_at(buf@, pos as int + 8, enc_u64(x.num_vars))
                && starts_at(buf@, pos as int + 16, enc_u64(x.num_io))
                && starts_at(buf@, pos as int + 24, enc_entries(x.a))
                && starts_at(buf@, pos as int + 24 + enc_entries(x.a).len(), enc_entries(x.b))
                && starts_at(buf@,
                    pos as int + 24 + enc_entries(x.a).len() + enc_entries(x.b).len(),
                    enc_entries(x.c)) by {
            lemma_shape_parts(buf@, pos as int, x);
        }
    }
    let r0 = read_u64(buf, pos);
    let (num_constraints, m1) = match r0 {
        None => {
            return None;
        },
        Some(p) => p,
    };
    let r1 = read_u64(buf, m1);
    let (num_vars, m2) = match r1 {
        None => {
            return None;
        },
        Some(p) => p,
    };
    let r2 = read_u64(buf, m2);
    let (num_io, m3) = match r2 {
        None => {
            return None;
        },
        Some(p) => p,
    };
    let r3 = read_entries(buf, m3);
    let (a, m4) = match r3 {
        None => {
            return None;
        },
        Some(p) => p,
    };
    let r4 = read_entries(buf, m4);
    let (b, m5) = match r4 {
        None => {
            return None;
        },
        Some(p) => p,
    };
    let r5 = read_entries(buf, m5);
    let (c, end) = match r5 {
        None => {
            return None;
        },
        Some(p) => p,
    };
    let s = R1CSShape { num_constraints, num_vars, num_io, a, b, c };
    let r = Some((s, end));
    proof {
        lemma_subrange_concat(buf@, pos as int, m1 as int, m2 as int);
        lemma_subrange_concat(buf@, pos as int, m2 as int, m3 as int);
        lemma_subrange_concat(buf@, pos as int, m3 as int, m4 as int);
        lemma_subrange_concat(buf@, pos as int, m4 as int, m5 as int);
        lemma_subrange_concat(buf@, pos as int, m5 as int, end as int);
        assert(buf@.subrange(pos as int, end as int) == enc_shape(s@));
        assert forall|x: R1CSShapeV| shape_ok(x) && starts_at(buf@, pos as int, enc_shape(x))
            implies (r matches Some(p) && p.0@ == x && p.1 == pos + enc_shape(x).len()) by {
            assert(s@ =~= x);
        }
    }
    r
}

/// A record whose vectors are all short enough for their length prefixes.
pub open spec fn record_ok(r: PPDiskV) -> bool {
    &&& ro_ok(r.ro_config)
    &&& shape_ok(r.circuit1)
    &&& shape_ok(r.circuit2)
    &&& blobs_ok(r.pp1)
    &&& blobs_ok(r.pp2)
    &&& blob_ok(r.digest)
}

/// Canonical encoding of the whole persisted parameter record, in the fixed
/// field order: random-oracle configuration, primary shape, secondary shape,
/// primary commitment vector, secondary commitment vector, digest.
pub open spec fn enc_record(r: PPDiskV) -> Seq<u8> {
    enc_ro(r.ro_config) + enc_shape(r.circuit1) + enc_shape(r.circuit2) + enc_blobs(r.pp1)
        + enc_blobs(r.pp2) + enc_blob(r.digest)
}

/// Where each field of an encoded record sits.
proof fn lemma_record_parts(buf: Seq<u8>, pos: int, x: PPDiskV)
    requires
        starts_at(buf, pos, enc_record(x)),
    ensures
        starts_at(buf, pos, enc_ro(x.ro_config)),
        starts_at(buf, pos + enc_ro(x.ro_config).len(), enc_shape(x.circuit1)),
        starts_at(buf, pos + enc_ro(x.ro_config).len() + enc_shape(x.circuit1).len(),
            enc_shape(x.circuit2)),
        starts_at(buf,
            pos + enc_ro(x.ro_config).len() + enc_shape(x.circuit1).len()
                + enc_shape(x.circuit2).len(), enc_blobs(x.pp1)),
        starts_at(buf,
            pos + enc_ro(x.ro_config).len() + enc_shape(x.circuit1).len()
                + enc_shape(x.circuit2).len() + enc_blobs(x.pp1).len(), enc_blobs(x.pp2)),
        starts_at(buf,
            pos + enc_ro(x.ro_config).len() + enc_shape(x.circuit1).len()
                + enc_shape(x.circuit2).len() + enc_blobs(x.pp1).len() + enc_blobs(x.pp2).len(),
            enc_blob(x.digest)),
{
    let a = enc_ro(x.ro_config);
    let b = enc_shape(x.circuit1);
    let c = enc_shape(x.circuit2);
    let d = enc_blobs(x.pp1);
    let e = enc_blobs(x.pp2);
    let f = enc_blob(x.digest);
    lemma_starts_at_concat(buf, pos, a + b + c + d + e, f);
    lemma_starts_at_concat(buf, pos, a + b + c + d, e);
    lemma_starts_at_concat(buf, pos, a + b + c, d);
    lemma_starts_at_concat(buf, pos, a + b, c);
    lemma_starts_at_concat(buf, pos, a, b);
}

/// Two byte-string encodings at the same place encode the same string.
proof fn lemma_blob_prefix_unique(buf: Seq<u8>, pos: int, x: Seq<u8>, y: Seq<u8>)
    requires
        blob_ok(x),
        blob_ok(y),
        starts_at(buf, pos, enc_blob(x)),
        starts_at(buf, pos, enc_blob(y)),
    ensures
        x == y,
{
    lemma_starts_at_concat(buf, pos, enc_u64(x.len() as u64), x);
    lemma_starts_at_concat(buf, pos, enc_u64(y.len() as u64), y);
    assert(enc_u64(x.len() as u64) == buf.subrange(pos, pos + 8));
    assert(enc_u64(y.len() as u64) == buf.subrange(pos, pos + 8));
    lemma_enc_u64_injective(x.len() as u64, y.len() as u64);
    assert(x == buf.subrange(pos + 8, pos + 8 + x.len()));
    assert(y == buf.subrange(pos + 8, pos + 8 + y.len()));
}

/// Two vector-of-byte-strings encodings at the same place encode the same
/// vector.
proof fn lemma_blobs_prefix_unique(buf: Seq<u8>, pos: int, x: Seq<Seq<u8>>, y: Seq<Seq<u8>>)
    requires
        blobs_ok(x),
        blobs_ok(y),
        starts_at(buf, pos, enc_blobs(x)),
        starts_at(buf, pos, enc_blobs(y)),
    ensures
        x == y,
{
    lemma_starts_at_concat(buf, pos, enc_u64(x.len() as u64), enc_blob_seq(x));
    lemma_starts_at_concat(buf, pos, enc_u64(y.len() as u64), enc_blob_seq(y));
    assert(enc_u64(x.len() as u64) == buf.subrange(pos, pos + 8));
    assert(enc_u64(y.len() as u64) == buf.subrange(pos, pos + 8));
    lemma_enc_u64_injective(x.len() as u64, y.len() as u64);
    lemma_blob_seq_prefix_take(buf, pos + 8, x, y);
    assert(y.take(x.len() as int) =~= y);
}

/// Two sparse-matrix encodings at the same place encode the same matrix.
proof fn lemma_entries_prefix_unique(
    buf: Seq<u8>,
    pos: int,
    x: Seq<MatrixEntryV>,
    y: Seq<MatrixEntryV>,
)
    requires
        entries_ok(x),
        entries_ok(y),
        starts_at(buf, pos, enc_entries(x)),
        starts_at(buf, pos, enc_entries(y)),
    ensures
        x == y,
{
    lemma_starts_at_concat(buf, pos, enc_u64(x.len() as u64), enc_entry_seq(x));
    lemma_starts_at_concat(buf, pos, enc_u64(y.len() as u64), enc_entry_seq(y));
    assert(enc_u64(x.len() as u64) == buf.subrange(pos, pos + 8));
    assert(enc_u64(y.len() as u64) == buf.subrange(pos, pos + 8));
    lemma_enc_u64_injective(x.len() as u64, y.len() as u64);
    lemma_entry_seq_prefix_take(buf, pos + 8, x, y);
    assert(y.take(x.len() as int) =~= y);
}

/// Two configuration encodings at the same place encode the same
/// configuration.
proof fn lemma_ro_prefix_unique(buf: Seq<u8>, pos: int, x: ROConfigV, y: ROConfigV)
    requires
        ro_ok(x),
        ro_ok(y),
        starts_at(buf, pos, enc_ro(x)),
        starts_at(buf, pos, enc_ro(y)),
    ensures
        x == y,
{
    lemma_ro_parts(buf, pos, x);
    lemma_ro_parts(buf, pos, y);
    assert(enc_u64(x.full_rounds) == buf.subrange(pos, pos + 8));
    assert(enc_u64(y.full_rounds) == buf.subrange(pos, pos + 8));
    lemma_enc_u64_injective(x.full_rounds, y.full_rounds);
    assert(enc_u64(x.partial_rounds) == buf.subrange(pos + 8, pos + 16));
    assert(enc_u64(y.partial_rounds) == buf.subrange(pos + 8, pos + 16));
    lemma_enc_u64_injective(x.partial_rounds, y.partial_rounds);
    assert(enc_u64(x.rate) == buf.subrange(pos + 16, pos + 24));
    assert(enc_u64(y.rate) == buf.subrange(pos + 16, pos + 24));
    lemma_enc_u64_injective(x.rate, y.rate);
    assert(enc_u64(x.capacity) == buf.subrange(pos + 24, pos + 32));
    assert(enc_u64(y.capacity) == buf.subrange(pos + 24, pos + 32));
    lemma_enc_u64_injective(x.capacity, y.capacity);
    lemma_blobs_prefix_unique(buf, pos + 32, x.round_constants, y.round_constants);
    lemma_blobs_prefix_unique(buf, pos + 32 + enc_blobs(x.round_constants).len(), x.mds, y.mds);
    assert(x =~= y);
}

/// Two shape encodings at the same place encode the same shape.
proof fn lemma_shape_prefix_unique(buf: Seq<u8>, pos: int, x: R1CSShapeV, y: R1CSShapeV)
    requires
        shape_ok(x),
        shape_ok(y),
        starts_at(buf, pos, enc_shape(x)),
        starts_at(buf, pos, enc_shape(y)),
    ensures
        x == y,
{
    lemma_shape_parts(buf, pos, x);
    lemma_shape_parts(buf, pos, y);
    assert(enc_u64(x.num_constraints) == buf.subrange(pos, pos + 8));
    assert(enc_u64(y.num_constraints) == buf.subrange(pos, pos + 8));
    lemma_enc_u64_injective(x.num_constraints, y.num_constraints);
    assert(enc_u64(x.num_vars) == buf.subrange(pos + 8, pos + 16));
    assert(enc_u64(y.num_vars) == buf.subrange(pos + 8, pos + 16));
    lemma_enc_u64_injective(x.num_vars, y.num_vars);
    assert(enc_u64(x.num_io) == buf.subrange(pos + 16, pos + 24));
    assert(enc_u64(y.num_io) == buf.subrange(pos + 16, pos + 24));
    lemma_enc_u64_injective(x.num_io, y.num_io);
    lemma_entries_prefix_unique(buf, pos + 24, x.a, y.a);
    lemma_entries_prefix_unique(buf, pos + 24 + enc_entries(x.a).len(), x.b, y.b);
    lemma_entries_prefix_unique(buf,
        pos + 24 + enc_entries(x.a).len() + enc_entries(x.b).len(), x.c, y.c);
    assert(x =~= y);
}

/// The encoding is canonical: no two records share a byte representation,
/// so a parameter file determines its record completely.
pub proof fn lemma_enc_record_injective(x: PPDiskV, y: PPDiskV)
    requires
        record_ok(x),
        record_ok(y),
        enc_record(x) == enc_record(y),
    ensures
        x == y,
{
    let buf = enc_record(x);
    assert(buf.subrange(0, enc_record(x).len() as int) =~= buf);
    assert(starts_at(buf, 0, enc_record(x)));
    assert(starts_at(buf, 0, enc_record(y)));
    lemma_record_parts(buf, 0, x);
    lemma_record_parts(buf, 0, y);
    lemma_ro_prefix_unique(buf, 0, x.ro_config, y.ro_config);
    let m1 = enc_ro(x.ro_config).len() as int;
    lemma_shape_prefix_unique(buf, m1, x.circuit1, y.circuit1);
    let m2 = m1 + enc_shape(x.circuit1).len();
    lemma_shape_prefix_unique(buf, m2, x.circuit2, y.circuit2);
    let m3 = m2 + enc_shape(x.circuit2).len();
    lemma_blobs_prefix_unique(buf, m3, x.pp1, y.pp1);
    let m4 = m3 + enc_blobs(x.pp1).len();
    lemma_blobs_prefix_unique(buf, m4, x.pp2, y.pp2);
    let m5 = m4 + enc_blobs(x.pp2).len();
    lemma_blob_prefix_unique(buf, m5, x.digest, y.digest);
    assert(x =~= y);
}

/// Encodes a record into its canonical byte string.
pub fn encode_record(r: &PPDisk) -> (out: Vec<u8>)
    ensures
        out@ == enc_record(r@),
        record_ok(r@),
{
    let mut out: Vec<u8> = Vec::new();
    write_ro(&mut out, &r.ro_config);
    write_shape(&mut out, &r.circuit1);
    write_shape(&mut out, &r.circuit2);
    write_blobs(&mut out, &r.pp1);
    write_blobs(&mut out, &r.pp2);
    write_blob(&mut out, &r.digest);
    proof {
        assert(out@ =~= enc_record(r@));
    }
    out
}

/// Decodes a canonical record encoding, rejecting anything else.
///
/// This is where the round-trip law lives: together with `encode_record`'s
/// postcondition, the second `ensures` clause says that decoding the
/// encoding of any record yields that record again, field for field; the
/// first says decoding accepts only the exact canonical encoding of what it
/// returns, with no bytes left over.
#[verifier::rlimit(100)]
pub fn decode_record(buf: &Vec<u8>) -> (r: Option<PPDisk>)
    ensures
        r matches Some(rec) ==> buf@ == enc_record(rec@) && record_ok(rec@),
        forall|x: PPDiskV| record_ok(x) && buf@ == enc_record(x)
            ==> (r matches Some(rec) && rec@ == x),
{
    proof {
        assert forall|x: PPDiskV| record_ok(x) && buf@ == enc_record(x)
            implies starts_at(buf@, 0, enc_ro(x.ro_config))
                && starts_at(buf@, enc_ro(x.ro_config).len() as int, enc_shape(x.circuit1))
                && starts_at(buf@, enc_ro(x.ro_config).len() as int + enc_shape(x.circuit1).len(),
                    enc_shape(x.circuit2))
                && starts_at(buf@,
                    enc_ro(x.ro_config).len() as int + enc_shape(x.circuit1).len()
                        + enc_shape(x.circuit2).len(), enc_blobs(x.pp1))
                && starts_at(buf@,
                    enc_ro(x.ro_config).len() as int + enc_shape(x.circuit1).len()
                        + enc_shape(x.circuit2).len() + enc_blobs(x.pp1).len(),
                    enc_blobs(x.pp2))
                && starts_at(buf@,
                    enc_ro(x.ro_config).len() as int + enc_shape(x.circuit1).len()
                        + enc_shape(x.circuit2).len() + enc_blobs(x.pp1).len()
                        + enc_blobs(x.pp2).len(), enc_blob(x.digest)) by {
            assert(buf@.subrange(0, enc_record(x).len() as int) =~= buf@);
            assert(starts_at(buf@, 0, enc_record(x)));
            lemma_record_parts(buf@, 0, x);
        }
    }
    let r0 = read_ro(buf, 0);
    let (ro_config, m1) = match r0 {
        None => {
            return None;
        },
        Some(p) => p,
    };
    let r1 = read_shape(buf, m1);
    let (circuit1, m2) = match r1 {
        None => {
            return None;
        },
        Some(p) => p,
    };
    let r2 = read_shape(buf, m2);
    let (circuit2, m3) = match r2 {
        None => {
            return None;
        },
        Some(p) => p,
    };
    let r3 = read_blobs(buf, m3);
    let (pp1, m4) = match r3 {
        None => {
            return None;
        },
        Some(p) => p,
    };
    let r4 = read_blobs(buf, m4);
    let (pp2, m5) = match r4 {
        None => {
            return None;
        },
        Some(p) => p,
    };
    let r5 = read_blob(buf, m5);
    let (digest, end) = match r5 {
        None => {
            return None;
        },
        Some(p) => p,
    };
    if end != buf.len() {
        return None;
    }
    let rec = PPDisk { ro_config, circuit1, circuit2, pp1, pp2, digest };
    let r = Some(rec);
    proof {
        lemma_subrange_concat(buf@, 0, m1 as int, m2 as int);
        lemma_subrange_concat(buf@, 0, m2 as int, m3 as int);
        lemma_subrange_concat(buf@, 0, m3 as int, m4 as int);
        lemma_subrange_concat(buf@, 0, m4 as int, m5 as int);
        lemma_subrange_concat(buf@, 0, m5 as int, end as int);
        assert(buf@.subrange(0, end as int) =~= buf@);
        assert(buf@ == enc_record(rec@));
        assert forall|x: PPDiskV| record_ok(x) && buf@ == enc_record(x)
            implies (r matches Some(q) && q@ == x) by {
            assert(rec@ =~= x);
        }
    }
    r
}

} // verus!
