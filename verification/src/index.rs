//! The binary index: a 4-byte magic tag, a 2-byte format version, then the
//! 20-byte content identifiers of the canonical set in ascending order —
//! no length prefix, no delimiters, no paths.

use vstd::prelude::*;
use crate::asset::{Asset, SpecAsset, views, all_wf};
use crate::hashing::DIGEST_LEN;

verus! {

/// The six header bytes: ASCII "MTHS", then major version 0, minor 1.
pub open spec fn spec_magic() -> Seq<u8> {
    seq![77u8, 84u8, 72u8, 83u8, 0u8, 1u8]
}

/// The content identifiers of a sequence of assets, in order.
pub open spec fn hashes_of(s: Seq<SpecAsset>) -> Seq<Seq<u8>> {
    s.map_values(|a: SpecAsset| a.hash)
}

/// The byte strings of a sequence of byte vectors.
pub open spec fn bytes_views(s: Seq<Vec<u8>>) -> Seq<Seq<u8>> {
    s.map_values(|v: Vec<u8>| v@)
}

/// The concatenation of a sequence of byte strings.
pub open spec fn spec_concat(hs: Seq<Seq<u8>>) -> Seq<u8>
    decreases hs.len(),
{
    if hs.len() == 0 {
        Seq::<u8>::empty()
    } else {
        hs[0] + spec_concat(hs.drop_first())
    }
}

/// The serialized index of a sequence of content identifiers.
pub open spec fn spec_encode(hs: Seq<Seq<u8>>) -> Seq<u8> {
    spec_magic() + spec_concat(hs)
}

/// Splits a byte string into consecutive 20-byte content identifiers.
pub open spec fn spec_chunks(t: Seq<u8>) -> Seq<Seq<u8>>
    decreases t.len(),
{
    if t.len() < DIGEST_LEN {
        Seq::<Seq<u8>>::empty()
    } else {
        seq![t.subrange(0, DIGEST_LEN as int)] + spec_chunks(t.skip(DIGEST_LEN as int))
    }
}

/// The parse of a serialized index: its content identifiers, or nothing
/// when the header is wrong or the payload is not a whole number of
/// 20-byte entries.
pub open spec fn spec_decode(b: Seq<u8>) -> Option<Seq<Seq<u8>>> {
    if b.len() < 6 {
        None
    } else if b.subrange(0, 6) != spec_magic() {
        None
    } else if (b.len() - 6) % (DIGEST_LEN as int) != 0 {
        None
    } else {
        Some(spec_chunks(b.skip(6)))
    }
}

/// Unfolds the concatenation at the right end.
proof fn lemma_concat_snoc(hs: Seq<Seq<u8>>)
    requires
        hs.len() > 0,
    ensures
        spec_concat(hs) == spec_concat(hs.drop_last()) + hs.last(),
    decreases hs.len(),
{
    if hs.len() == 1 {
        assert(hs.drop_last() =~= Seq::<Seq<u8>>::empty());
        assert(hs.drop_first() =~= Seq::<Seq<u8>>::empty());
        assert(spec_concat(hs) =~= spec_concat(hs.drop_last()) + hs.last());
    } else {
        let hd = hs.drop_last();
        let hf = hs.drop_first();
        lemma_concat_snoc(hf);
        assert(hf.drop_last() =~= hd.drop_first());
        assert(hf.last() == hs.last());
        assert(hd[0] == hs[0]);
        assert(spec_concat(hs) == hs[0] + spec_concat(hf));
        assert(spec_concat(hd) == hd[0] + spec_concat(hd.drop_first()));
        assert(spec_concat(hs) =~= spec_concat(hd) + hs.last());
    }
}

/// Law: the manifest's byte length is exactly six header bytes plus
/// twenty per canonical entry.
pub proof fn lemma_encode_len(hs: Seq<Seq<u8>>)
    requires
        forall|i: int| 0 <= i < hs.len() ==> (#[trigger] hs[i]).len() == DIGEST_LEN,
    ensures
        spec_encode(hs).len() == 6 + (DIGEST_LEN as int) * hs.len(),
    decreases hs.len(),
{
    lemma_concat_len(hs);
}

/// The concatenation of 20-byte identifiers is twenty bytes per entry.
proof fn lemma_concat_len(hs: Seq<Seq<u8>>)
    requires
        forall|i: int| 0 <= i < hs.len() ==> (#[trigger] hs[i]).len() == DIGEST_LEN,
    ensures
        spec_concat(hs).len() == (DIGEST_LEN as int) * hs.len(),
    decreases hs.len(),
{
    if hs.len() > 0 {
        let hf = hs.drop_first();
        assert forall|i: int| 0 <= i < hf.len() implies (#[trigger] hf[i]).len() == DIGEST_LEN by {
            assert(hf[i] == hs[i + 1]);
        }
        lemma_concat_len(hf);
        assert((DIGEST_LEN as int) * hs.len() == DIGEST_LEN + (DIGEST_LEN as int) * hf.len())
            by (nonlinear_arith)
            requires
                hs.len() == hf.len() + 1,
        ;
    }
}

/// Splitting the concatenation of 20-byte identifiers gives them back.
proof fn lemma_chunks_of_concat(hs: Seq<Seq<u8>>)
    requires
        forall|i: int| 0 <= i < hs.len() ==> (#[trigger] hs[i]).len() == DIGEST_LEN,
    ensures
        spec_chunks(spec_concat(hs)) == hs,
    decreases hs.len(),
{
    let t = spec_concat(hs);
    lemma_concat_len(hs);
    if hs.len() == 0 {
        assert(spec_chunks(t) =~= hs);
    } else {
        let hf = hs.drop_first();
        assert forall|i: int| 0 <= i < hf.len() implies (#[trigger] hf[i]).len() == DIGEST_LEN by {
            assert(hf[i] == hs[i + 1]);
        }
        lemma_concat_len(hf);
        assert((DIGEST_LEN as int) * hs.len() >= DIGEST_LEN) by (nonlinear_arith)
            requires
                hs.len() >= 1,
        ;
        assert(t.len() >= DIGEST_LEN);
        assert(hs[0].len() == DIGEST_LEN);
        assert(t.subrange(0, DIGEST_LEN as int) =~= hs[0]);
        assert(t.skip(DIGEST_LEN as int) =~= spec_concat(hf));
        lemma_chunks_of_concat(hf);
        assert(spec_chunks(t) =~= hs);
    }
}

/// Law: decoding is the exact inverse of encoding — the parse of a
/// serialized canonical set gives back exactly its content identifiers.
pub proof fn lemma_index_round_trip(hs: Seq<Seq<u8>>)
    requires
        forall|i: int| 0 <= i < hs.len() ==> (#[trigger] hs[i]).len() == DIGEST_LEN,
    ensures
        spec_decode(spec_encode(hs)) == Some(hs),
{
    let b = spec_encode(hs);
    lemma_encode_len(hs);
    lemma_concat_len(hs);
    assert((DIGEST_LEN as int) * hs.len() % (DIGEST_LEN as int) == 0) by (nonlinear_arith);
    assert(b.subrange(0, 6) =~= spec_magic());
    assert(b.skip(6) =~= spec_concat(hs));
    lemma_chunks_of_concat(hs);
}

/// Serializes the canonical set: the six header bytes, then each content
/// identifier in canonical order.
pub fn encode_index(ms: &Vec<Asset>) -> (r: Vec<u8>)
    requires
        all_wf(ms@),
    ensures
        r@ == spec_encode(hashes_of(views(ms@))),
        r@.len() == 6 + (DIGEST_LEN as int) * ms@.len(),
{
    let ghost hs = hashes_of(views(ms@));
    let mut out: Vec<u8> = Vec::new();
    out.push(77);
    out.push(84);
    out.push(72);
    out.push(83);
    out.push(0);
    out.push(1);
    proof {
        assert(out@ =~= spec_magic());
        assert(hs.subrange(0, 0) =~= Seq::<Seq<u8>>::empty());
        assert(out@ =~= spec_magic() + spec_concat(hs.subrange(0, 0)));
    }
    let mut i: usize = 0;
    while i < ms.len()
        invariant
            i <= ms.len(),
            all_wf(ms@),
            hs == hashes_of(views(ms@)),
            hs.len() == ms@.len(),
            out@ == spec_magic() + spec_concat(hs.subrange(0, i as int)),
        decreases ms.len() - i,
    {
        let h = &ms[i].hash;
        proof {
            assert(hs[i as int] == ms@[i as int]@.hash);
        }
        let mut k: usize = 0;
        while k < h.len()
            invariant
                k <= h.len(),
                out@ == spec_magic() + spec_concat(hs.subrange(0, i as int))
                    + h@.subrange(0, k as int),
            decreases h.len() - k,
        {
            out.push(h[k]);
            k = k + 1;
            proof {
                assert(h@.subrange(0, k as int) =~= h@.subrange(0, k - 1).push(h@[k - 1]));
                assert(out@ =~= spec_magic() + spec_concat(hs.subrange(0, i as int))
                    + h@.subrange(0, k as int));
            }
        }
        i = i + 1;
        proof {
            let p = hs.subrange(0, i as int);
            lemma_concat_snoc(p);
            assert(p.drop_last() =~= hs.subrange(0, i - 1));
            assert(p.last() == hs[i - 1]);
            assert(h@.subrange(0, h@.len() as int) =~= h@);
            assert(out@ =~= spec_magic() + spec_concat(hs.subrange(0, i as int)));
        }
    }
    proof {
        assert(hs.subrange(0, hs.len() as int) =~= hs);
        assert forall|n: int| 0 <= n < hs.len() implies (#[trigger] hs[n]).len() == DIGEST_LEN by {
            assert(hs[n] == ms@[n]@.hash);
            assert(ms@[n].wf());
        }
        lemma_encode_len(hs);
    }
    out
}

/// Parses a serialized index back into its content identifiers; nothing
/// when the header or the payload length is wrong.
pub fn decode_index(b: &Vec<u8>) -> (r: Option<Vec<Vec<u8>>>)
    ensures
        r is Some <==> spec_decode(b@) is Some,
        r matches Some(v) ==> Some(bytes_views(v@)) == spec_decode(b@),
{
    if b.len() < 6 {
        return None;
    }
    if b[0] != 77 || b[1] != 84 || b[2] != 72 || b[3] != 83 || b[4] != 0 || b[5] != 1 {
        proof {
            assert(b@.subrange(0, 6) != spec_magic()) by {
                if b@.subrange(0, 6) == spec_magic() {
                    assert(b@.subrange(0, 6)[0] == 77u8);
                    assert(b@.subrange(0, 6)[1] == 84u8);
                    assert(b@.subrange(0, 6)[2] == 72u8);
                    assert(b@.subrange(0, 6)[3] == 83u8);
                    assert(b@.subrange(0, 6)[4] == 0u8);
                    assert(b@.subrange(0, 6)[5] == 1u8);
                }
            }
        }
        return None;
    }
    proof {
        assert(b@.subrange(0, 6) =~= spec_magic());
    }
    if (b.len() - 6) % DIGEST_LEN != 0 {
        return None;
    }
    let mut out: Vec<Vec<u8>> = Vec::new();
    let mut pos: usize = 6;
    proof {
        assert(bytes_views(out@) =~= Seq::<Seq<u8>>::empty());
    }
    while pos < b.len()
        invariant
            6 <= pos <= b.len(),
            (b@.len() - 6) % (DIGEST_LEN as int) == 0,
            (pos - 6) % (DIGEST_LEN as int) == 0,
            spec_chunks(b@.skip(6)) == bytes_views(out@) + spec_chunks(b@.skip(pos as int)),
        decreases b.len() - pos,
    {
        proof {
            assert(b@.len() - pos >= DIGEST_LEN) by (nonlinear_arith)
                requires
                    (b@.len() - 6) % (DIGEST_LEN as int) == 0,
                    ((pos as int) - 6) % (DIGEST_LEN as int) == 0,
                    6 <= pos < b@.len(),
                    DIGEST_LEN == 20,
            ;
        }
        let mut chunk: Vec<u8> = Vec::new();
        let mut k: usize = 0;
        while k < DIGEST_LEN
            invariant
                k <= DIGEST_LEN,
                pos + DIGEST_LEN <= b.len(),
                chunk@ == b@.subrange(pos as int, pos + k as int),
            decreases DIGEST_LEN - k,
        {
            chunk.push(b[pos + k]);
            k = k + 1;
            proof {
                assert(b@.subrange(pos as int, pos + k as int)
                    =~= b@.subrange(pos as int, pos + (k - 1) as int).push(b@[pos + k - 1]));
            }
        }
        out.push(chunk);
        proof {
            let t = b@.skip(pos as int);
            assert(t.len() >= DIGEST_LEN);
            assert(t.subrange(0, DIGEST_LEN as int) =~= b@.subrange(pos as int, pos + DIGEST_LEN));
            assert(t.skip(DIGEST_LEN as int) =~= b@.skip(pos + DIGEST_LEN));
            assert(spec_chunks(t) == seq![b@.subrange(pos as int, pos + DIGEST_LEN)]
                + spec_chunks(b@.skip(pos + DIGEST_LEN)));
            assert(bytes_views(out@) =~= bytes_views(out@.drop_last()) + seq![
                b@.subrange(pos as int, pos + DIGEST_LEN),
            ]);
        }
        pos = pos + DIGEST_LEN;
        proof {
            assert(spec_chunks(b@.skip(6)) =~= bytes_views(out@) + spec_chunks(
                b@.skip(pos as int),
            ));
        }
    }
    proof {
        assert(b@.skip(pos as int).len() == 0);
        assert(spec_chunks(b@.skip(pos as int)) =~= Seq::<Seq<u8>>::empty());
        assert(bytes_views(out@) =~= spec_chunks(b@.skip(6)));
    }
    Some(out)
}

} // verus!
