//! Payload codecs of the four known section kinds: the label hash table
//! (`LBL1`), the attribute table (`ATR1`), the style index (`NLI1`) and the
//! text section (`TXT2`).
//!
//! Each payload's byte layout is fixed by a spec function; the executable
//! encoders are proved to produce exactly those bytes.

use vstd::prelude::*;

use crate::bytes::append_bytes;
use crate::endian::u16_at;
use crate::endian::u16_bytes;
use crate::endian::u32_bytes;
use crate::endian::write_u16;
use crate::endian::write_u32;
use crate::endian::ByteOrder;
use crate::endian::Encoding;
use crate::hash::bucket_of;
use crate::hash::compute_bucket;
use crate::model::MsbtEntry;
use crate::model::SpecEntry;
use crate::runs::encode_runs;
use crate::runs::run_sizes_ok;
use crate::runs::runs_bytes;
use crate::runs::runs_view;

verus! {

/// The models of a list of entries.
pub open spec fn entries_view(es: Seq<MsbtEntry>) -> Seq<SpecEntry> {
    es.map_values(|e: MsbtEntry| e@)
}

/// The labels of a list of entries, in order.
pub open spec fn spec_labels(es: Seq<SpecEntry>) -> Seq<Seq<u8>> {
    es.map_values(|e: SpecEntry| e.label)
}

/// The attribute blobs of a list of entries, in order.
pub open spec fn spec_attrs(es: Seq<SpecEntry>) -> Seq<Seq<u8>> {
    es.map_values(|e: SpecEntry| e.attributes)
}

/// The encoded text payload of every entry, in order.
pub open spec fn spec_blobs(bo: ByteOrder, enc: Encoding, es: Seq<SpecEntry>) -> Seq<Seq<u8>> {
    es.map_values(|e: SpecEntry| runs_bytes(bo, enc, e.contents))
}

/// The `(label, entry index)` pairs that land in bucket `k`, in entry order.
pub open spec fn bucket_pairs(labels: Seq<Seq<u8>>, bc: u32, k: u32) -> Seq<(Seq<u8>, u32)>
    decreases labels.len(),
{
    if labels.len() == 0 {
        Seq::empty()
    } else {
        let init = bucket_pairs(labels.drop_last(), bc, k);
        if bucket_of(labels.last(), bc) == k {
            init + seq![(labels.last(), ((labels.len() - 1) as u32))]
        } else {
            init
        }
    }
}

/// One label table pair: 16-bit label length, label bytes, 32-bit entry
/// index.
pub open spec fn pair_bytes(bo: ByteOrder, p: (Seq<u8>, u32)) -> Seq<u8> {
    u16_bytes(bo, (p.0.len() % 0x10000) as u16) + p.0 + u32_bytes(bo, p.1)
}

/// The pairs of one bucket, concatenated.
pub open spec fn pairs_bytes(bo: ByteOrder, ps: Seq<(Seq<u8>, u32)>) -> Seq<u8>
    decreases ps.len(),
{
    if ps.len() == 0 {
        Seq::empty()
    } else {
        pairs_bytes(bo, ps.drop_last()) + pair_bytes(bo, ps.last())
    }
}

/// One bucket: 32-bit pair count, then its pairs.
pub open spec fn bucket_bytes(bo: ByteOrder, ps: Seq<(Seq<u8>, u32)>) -> Seq<u8> {
    u32_bytes(bo, (ps.len() % 0x100000000) as u32) + pairs_bytes(bo, ps)
}

/// Buckets `0..k`, concatenated.
pub open spec fn buckets_bytes(labels: Seq<Seq<u8>>, bo: ByteOrder, bc: u32, k: int) -> Seq<u8>
    decreases k,
{
    if k <= 0 {
        Seq::empty()
    } else {
        buckets_bytes(labels, bo, bc, k - 1) + bucket_bytes(
            bo,
            bucket_pairs(labels, bc, (k - 1) as u32),
        )
    }
}

/// The whole label table payload: 32-bit bucket count, then every bucket.
pub open spec fn lbl1_payload(bo: ByteOrder, labels: Seq<Seq<u8>>, bc: u32) -> Seq<u8> {
    u32_bytes(bo, bc) + buckets_bytes(labels, bo, bc, bc as int)
}

/// Every pair of bucket `k` was placed there by the hash: bucket placement
/// is a pure function of the label and the bucket count.
pub proof fn lemma_bucket_pairs_hash(labels: Seq<Seq<u8>>, bc: u32, k: u32)
    requires
        bc > 0,
        labels.len() < 0x100000000,
    ensures
        forall|p: (Seq<u8>, u32)|
            bucket_pairs(labels, bc, k).contains(p) ==> bucket_of(p.0, bc) == k && p.1
                < labels.len() && labels[p.1 as int] == p.0,
    decreases labels.len(),
{
    if labels.len() > 0 {
        lemma_bucket_pairs_hash(labels.drop_last(), bc, k);
        let init = bucket_pairs(labels.drop_last(), bc, k);
        if bucket_of(labels.last(), bc) == k {
            let pl = (labels.last(), ((labels.len() - 1) as u32));
            let whole = init + seq![pl];
            assert(bucket_pairs(labels, bc, k) == whole);
            assert forall|p: (Seq<u8>, u32)| whole.contains(p) implies bucket_of(p.0, bc) == k
                && p.1 < labels.len() && labels[p.1 as int] == p.0 by {
                let i = choose|i: int| 0 <= i < whole.len() && whole[i] == p;
                if i < init.len() {
                    assert(init[i] == p);
                    assert(init.contains(p));
                    assert(labels.drop_last()[p.1 as int] == labels[p.1 as int]);
                } else {
                    assert(p == pl);
                }
            }
        } else {
            assert(bucket_pairs(labels, bc, k) == init);
            assert forall|p: (Seq<u8>, u32)| init.contains(p) implies bucket_of(p.0, bc) == k
                && p.1 < labels.len() && labels[p.1 as int] == p.0 by {
                assert(labels.drop_last()[p.1 as int] == labels[p.1 as int]);
            }
        }
    }
}

/// Appends the label table payload for `entries`, bucketing every label by
/// its hash.
#[verifier::rlimit(100)]
pub fn encode_lbl1(out: &mut Vec<u8>, bo: ByteOrder, entries: &Vec<MsbtEntry>, bc: u32)
    requires
        bc > 0,
        entries@.len() < 0x100000000,
        forall|i: int|
            0 <= i < entries@.len() ==> (#[trigger] entries@[i]).label@.len() < 0x10000,
    ensures
        final(out)@ == old(out)@ + lbl1_payload(bo, spec_labels(entries_view(entries@)), bc),
{
    let lbls = Ghost(spec_labels(entries_view(entries@)));
    write_u32(out, bo, bc);
    let mut k: u32 = 0;
    while k < bc
        invariant
            0 <= k <= bc,
            bc > 0,
            entries@.len() < 0x100000000,
            forall|i: int|
                0 <= i < entries@.len() ==> (#[trigger] entries@[i]).label@.len() < 0x10000,
            lbls@ == spec_labels(entries_view(entries@)),
            lbls@.len() == entries@.len(),
            out@ == old(out)@ + u32_bytes(bo, bc) + buckets_bytes(lbls@, bo, bc, k as int),
        decreases bc - k,
    {
        // first pass: how many labels land in bucket k
        let mut c: u32 = 0;
        let mut i: usize = 0;
        while i < entries.len()
            invariant
                0 <= i <= entries@.len(),
                entries@.len() < 0x100000000,
                lbls@ == spec_labels(entries_view(entries@)),
                lbls@.len() == entries@.len(),
                bc > 0,
                c as int == bucket_pairs(lbls@.take(i as int), bc, k).len(),
                c <= i,
            decreases entries@.len() - i,
        {
            proof {
                assert(lbls@.take(i + 1).drop_last() =~= lbls@.take(i as int));
                assert(lbls@.take(i + 1).last() == lbls@[i as int]);
                assert(lbls@[i as int] == entries@[i as int].label@);
            }
            if compute_bucket(&entries[i].label, bc) == k {
                c = c + 1;
            }
            i = i + 1;
        }
        proof {
            assert(lbls@.take(lbls@.len() as int) =~= lbls@);
        }
        write_u32(out, bo, c);
        // second pass: the pairs of bucket k, in entry order
        let base = Ghost(out@);
        let mut i2: usize = 0;
        while i2 < entries.len()
            invariant
                0 <= i2 <= entries@.len(),
                entries@.len() < 0x100000000,
                forall|j: int|
                    0 <= j < entries@.len() ==> (#[trigger] entries@[j]).label@.len() < 0x10000,
                lbls@ == spec_labels(entries_view(entries@)),
                lbls@.len() == entries@.len(),
                bc > 0,
                out@ == base@ + pairs_bytes(bo, bucket_pairs(lbls@.take(i2 as int), bc, k)),
            decreases entries@.len() - i2,
        {
            proof {
                assert(lbls@.take(i2 + 1).drop_last() =~= lbls@.take(i2 as int));
                assert(lbls@.take(i2 + 1).last() == lbls@[i2 as int]);
                assert(lbls@[i2 as int] == entries@[i2 as int].label@);
            }
            if compute_bucket(&entries[i2].label, bc) == k {
                let lab = &entries[i2].label;
                write_u16(out, bo, (lab.len() % 0x10000) as u16);
                append_bytes(out, lab);
                write_u32(out, bo, i2 as u32);
                proof {
                    let prev = bucket_pairs(lbls@.take(i2 as int), bc, k);
                    let p = (lbls@[i2 as int], i2 as u32);
                    assert(bucket_pairs(lbls@.take(i2 + 1), bc, k) == prev + seq![p]);
                    assert((prev + seq![p]).drop_last() =~= prev);
                    assert((prev + seq![p]).last() == p);
                    assert(out@ =~= base@ + pairs_bytes(bo, bucket_pairs(lbls@.take(i2 + 1), bc, k)));
                }
            } else {
                proof {
                    assert(bucket_pairs(lbls@.take(i2 + 1), bc, k) == bucket_pairs(
                        lbls@.take(i2 as int),
                        bc,
                        k,
                    ));
                }
            }
            i2 = i2 + 1;
        }
        proof {
            assert(lbls@.take(lbls@.len() as int) =~= lbls@);
            assert(out@ =~= old(out)@ + u32_bytes(bo, bc) + buckets_bytes(lbls@, bo, bc, k + 1));
        }
        k = k + 1;
    }
}


/// The bytes of buckets `lo` and beyond, peeled from the front.
pub open spec fn buckets_from(labels: Seq<Seq<u8>>, bo: ByteOrder, bc: u32, lo: int) -> Seq<u8>
    decreases bc - lo,
{
    if lo < 0 || lo >= bc {
        Seq::empty()
    } else {
        bucket_bytes(bo, bucket_pairs(labels, bc, lo as u32)) + buckets_from(labels, bo, bc, lo + 1)
    }
}

/// The encoder's bucket walk from bucket `lo` on: every bucket's pairs,
/// flattened in bucket order.
pub open spec fn bucket_walk(labels: Seq<Seq<u8>>, bc: u32, lo: int) -> Seq<(Seq<u8>, u32)>
    decreases bc - lo,
{
    if lo < 0 || lo >= bc {
        Seq::empty()
    } else {
        bucket_pairs(labels, bc, lo as u32) + bucket_walk(labels, bc, lo + 1)
    }
}

/// The prefix form and the front form of the bucket bytes agree.
proof fn lemma_buckets_flip(labels: Seq<Seq<u8>>, bo: ByteOrder, bc: u32, k: int)
    requires
        0 <= k <= bc,
    ensures
        buckets_bytes(labels, bo, bc, k) + buckets_from(labels, bo, bc, k) == buckets_from(
            labels,
            bo,
            bc,
            0,
        ),
    decreases k,
{
    if k == 0 {
        assert(buckets_bytes(labels, bo, bc, 0) =~= Seq::<u8>::empty());
        assert(Seq::<u8>::empty() + buckets_from(labels, bo, bc, 0) =~= buckets_from(
            labels,
            bo,
            bc,
            0,
        ));
    } else {
        lemma_buckets_flip(labels, bo, bc, k - 1);
        assert(buckets_from(labels, bo, bc, k - 1) == bucket_bytes(
            bo,
            bucket_pairs(labels, bc, (k - 1) as u32),
        ) + buckets_from(labels, bo, bc, k));
        assert((buckets_bytes(labels, bo, bc, k - 1) + bucket_bytes(
            bo,
            bucket_pairs(labels, bc, (k - 1) as u32),
        )) + buckets_from(labels, bo, bc, k) =~= buckets_bytes(labels, bo, bc, k - 1) + (
        bucket_bytes(bo, bucket_pairs(labels, bc, (k - 1) as u32)) + buckets_from(
            labels,
            bo,
            bc,
            k,
        )));
    }
}

/// Peeling the first pair off the pair bytes.
proof fn lemma_pairs_bytes_cons(bo: ByteOrder, ps: Seq<(Seq<u8>, u32)>)
    requires
        ps.len() > 0,
    ensures
        pairs_bytes(bo, ps) == pair_bytes(bo, ps[0]) + pairs_bytes(bo, ps.drop_first()),
    decreases ps.len(),
{
    if ps.len() == 1 {
        assert(ps.drop_last() =~= Seq::<(Seq<u8>, u32)>::empty());
        assert(ps.drop_first() =~= Seq::<(Seq<u8>, u32)>::empty());
        assert(ps.last() == ps[0]);
        assert(Seq::<u8>::empty() + pair_bytes(bo, ps[0]) =~= pair_bytes(bo, ps[0]) + Seq::<
            u8,
        >::empty());
    } else {
        let init = ps.drop_last();
        lemma_pairs_bytes_cons(bo, init);
        assert(init[0] == ps[0]);
        assert(ps.drop_first().drop_last() =~= init.drop_first());
        assert(ps.drop_first().last() == ps.last());
        assert(pairs_bytes(bo, ps.drop_first()) == pairs_bytes(bo, init.drop_first())
            + pair_bytes(bo, ps.last()));
        assert((pair_bytes(bo, ps[0]) + pairs_bytes(bo, init.drop_first())) + pair_bytes(
            bo,
            ps.last(),
        ) =~= pair_bytes(bo, ps[0]) + (pairs_bytes(bo, init.drop_first()) + pair_bytes(
            bo,
            ps.last(),
        )));
    }
}

/// Reads `cnt` label pairs off the front of `b`.
pub open spec fn parse_pairs(bo: ByteOrder, b: Seq<u8>, cnt: int) -> Option<
    (Seq<(Seq<u8>, u32)>, Seq<u8>),
>
    decreases cnt,
{
    if cnt <= 0 {
        Some((Seq::empty(), b))
    } else if b.len() < 2 {
        None
    } else {
        let ll = u16_at(bo, b, 0) as int;
        if b.len() < 2 + ll + 4 {
            None
        } else {
            let lab = b.subrange(2, 2 + ll);
            let idx = crate::endian::u32_at(bo, b, 2 + ll);
            match parse_pairs(bo, b.skip(2 + ll + 4), cnt - 1) {
                None => None,
                Some((ps, rest)) => Some((seq![(lab, idx)] + ps, rest)),
            }
        }
    }
}

/// Reads `k` buckets off the front of `b`: each a 32-bit count then its
/// pairs, flattened in order.
pub open spec fn parse_buckets(bo: ByteOrder, b: Seq<u8>, k: int) -> Option<
    (Seq<(Seq<u8>, u32)>, Seq<u8>),
>
    decreases k,
{
    if k <= 0 {
        Some((Seq::empty(), b))
    } else if b.len() < 4 {
        None
    } else {
        let cnt = crate::endian::u32_at(bo, b, 0) as int;
        match parse_pairs(bo, b.skip(4), cnt) {
            None => None,
            Some((ps, rest)) => match parse_buckets(bo, rest, k - 1) {
                None => None,
                Some((ps2, rest2)) => Some((ps + ps2, rest2)),
            },
        }
    }
}

/// Parses a whole label table payload into its flattened bucket walk.
pub open spec fn parse_lbl1_table(bo: ByteOrder, b: Seq<u8>) -> Option<Seq<(Seq<u8>, u32)>> {
    if b.len() < 4 {
        None
    } else {
        let bc = crate::endian::u32_at(bo, b, 0) as int;
        match parse_buckets(bo, b.skip(4), bc) {
            None => None,
            Some((ps, _)) => Some(ps),
        }
    }
}

/// Parsing encoded pairs recovers them exactly and resumes after them.
#[verifier::rlimit(100)]
proof fn lemma_parse_pairs_round(bo: ByteOrder, ps: Seq<(Seq<u8>, u32)>, rest: Seq<u8>)
    requires
        forall|i: int| 0 <= i < ps.len() ==> (#[trigger] ps[i]).0.len() < 0x10000,
    ensures
        parse_pairs(bo, pairs_bytes(bo, ps) + rest, ps.len() as int) == Some((ps, rest)),
    decreases ps.len(),
{
    if ps.len() == 0 {
        assert(pairs_bytes(bo, ps) == Seq::<u8>::empty());
        assert(pairs_bytes(bo, ps) + rest =~= rest);
    } else {
        lemma_pairs_bytes_cons(bo, ps);
        let p0 = ps[0];
        let ll16 = (p0.0.len() % 0x10000) as u16;
        assert(ll16 as int == p0.0.len());
        let b = pairs_bytes(bo, ps) + rest;
        let tail = p0.0 + u32_bytes(bo, p0.1) + (pairs_bytes(bo, ps.drop_first()) + rest);
        assert(b =~= u16_bytes(bo, ll16) + tail);
        assert(b[0] == u16_bytes(bo, ll16)[0]);
        assert(b[1] == u16_bytes(bo, ll16)[1]);
        crate::endian::lemma_u16_round(bo, ll16);
        assert(u16_at(bo, b, 0) == ll16);
        let ll = ll16 as int;
        assert(b.len() >= 2 + ll + 4);
        assert(b.subrange(2, 2 + ll) =~= p0.0);
        assert(b[2 + ll] == u32_bytes(bo, p0.1)[0]);
        assert(b[2 + ll + 1] == u32_bytes(bo, p0.1)[1]);
        assert(b[2 + ll + 2] == u32_bytes(bo, p0.1)[2]);
        assert(b[2 + ll + 3] == u32_bytes(bo, p0.1)[3]);
        crate::endian::lemma_u32_round(bo, p0.1);
        assert(crate::endian::u32_at(bo, b, 2 + ll) == p0.1);
        assert(b.skip(2 + ll + 4) =~= pairs_bytes(bo, ps.drop_first()) + rest);
        assert forall|i: int| 0 <= i < ps.drop_first().len() implies (
        #[trigger] ps.drop_first()[i]).0.len() < 0x10000 by {
            assert(ps.drop_first()[i] == ps[i + 1]);
        }
        lemma_parse_pairs_round(bo, ps.drop_first(), rest);
        assert((p0.0, p0.1) == p0);
        assert(seq![p0] + ps.drop_first() =~= ps);
    }
}

/// Byte-level facts of one framed bucket: its count field and where its
/// pairs begin.
proof fn lemma_bucket_header(bo: ByteOrder, ps: Seq<(Seq<u8>, u32)>, r: Seq<u8>)
    ensures
        crate::endian::u32_at(bo, bucket_bytes(bo, ps) + r, 0) == (ps.len()
            % 0x100000000) as u32,
        (bucket_bytes(bo, ps) + r).skip(4) == pairs_bytes(bo, ps) + r,
        (bucket_bytes(bo, ps) + r).len() >= 4,
{
    let cnt32 = (ps.len() % 0x100000000) as u32;
    let b = bucket_bytes(bo, ps) + r;
    assert(b[0] == u32_bytes(bo, cnt32)[0]);
    assert(b[1] == u32_bytes(bo, cnt32)[1]);
    assert(b[2] == u32_bytes(bo, cnt32)[2]);
    assert(b[3] == u32_bytes(bo, cnt32)[3]);
    crate::endian::lemma_u32_round(bo, cnt32);
    assert(b.skip(4) =~= pairs_bytes(bo, ps) + r);
}

/// Parsing `k` encoded buckets recovers the flattened walk of buckets
/// `lo..bc` and resumes after them.
#[verifier::rlimit(100)]
#[verifier::spinoff_prover]
proof fn lemma_parse_buckets_round(
    labels: Seq<Seq<u8>>,
    bo: ByteOrder,
    bc: u32,
    lo: int,
    rest: Seq<u8>,
)
    requires
        0 <= lo <= bc,
        bc > 0,
        labels.len() < 0x100000000,
        forall|i: int| 0 <= i < labels.len() ==> (#[trigger] labels[i]).len() < 0x10000,
    ensures
        parse_buckets(bo, buckets_from(labels, bo, bc, lo) + rest, bc - lo) == Some(
            (bucket_walk(labels, bc, lo), rest),
        ),
    decreases bc - lo,
{
    if lo == bc {
        assert(buckets_from(labels, bo, bc, lo) == Seq::<u8>::empty());
        assert(bucket_walk(labels, bc, lo) == Seq::<(Seq<u8>, u32)>::empty());
        assert(buckets_from(labels, bo, bc, lo) + rest =~= rest);
    } else {
        let ps = bucket_pairs(labels, bc, lo as u32);
        lemma_bucket_pairs_len(labels, bc, lo as u32);
        let cnt32 = (ps.len() % 0x100000000) as u32;
        assert(cnt32 as int == ps.len());
        let b = buckets_from(labels, bo, bc, lo) + rest;
        let r2 = buckets_from(labels, bo, bc, lo + 1) + rest;
        assert(b =~= bucket_bytes(bo, ps) + r2);
        lemma_bucket_header(bo, ps, r2);
        assert(crate::endian::u32_at(bo, b, 0) == cnt32);
        assert(b.skip(4) == pairs_bytes(bo, ps) + r2);
        assert forall|i: int| 0 <= i < ps.len() implies (#[trigger] ps[i]).0.len() < 0x10000 by {
            lemma_bucket_pairs_hash(labels, bc, lo as u32);
            assert(ps.contains(ps[i]));
        }
        lemma_parse_pairs_round(bo, ps, r2);
        lemma_parse_buckets_round(labels, bo, bc, lo + 1, rest);
        assert(bucket_walk(labels, bc, lo) == ps + bucket_walk(labels, bc, lo + 1));
    }
}

/// A bucket never holds more pairs than there are labels.
proof fn lemma_bucket_pairs_len(labels: Seq<Seq<u8>>, bc: u32, k: u32)
    ensures
        bucket_pairs(labels, bc, k).len() <= labels.len(),
    decreases labels.len(),
{
    if labels.len() > 0 {
        lemma_bucket_pairs_len(labels.drop_last(), bc, k);
    }
}

/// The label hash table round-trips: parsing an encoded table recovers
/// exactly the encoder's bucket walk, and every recovered pair's label
/// hashes to the bucket it was found in — bucket placement is a pure
/// function of the label and the bucket count, recomputed identically on
/// both sides.
#[verifier::rlimit(100)]
#[verifier::spinoff_prover]
pub proof fn lemma_lbl1_round_trip(labels: Seq<Seq<u8>>, bo: ByteOrder, bc: u32)
    requires
        bc > 0,
        labels.len() < 0x100000000,
        forall|i: int| 0 <= i < labels.len() ==> (#[trigger] labels[i]).len() < 0x10000,
    ensures
        parse_lbl1_table(bo, lbl1_payload(bo, labels, bc)) == Some(bucket_walk(labels, bc, 0)),
        forall|k: u32, p: (Seq<u8>, u32)|
            k < bc && #[trigger] bucket_pairs(labels, bc, k).contains(p) ==> bucket_of(p.0, bc)
                == k && p.1 < labels.len() && labels[p.1 as int] == p.0,
{
    let b = lbl1_payload(bo, labels, bc);
    lemma_buckets_flip(labels, bo, bc, bc as int);
    assert(buckets_from(labels, bo, bc, bc as int) == Seq::<u8>::empty());
    assert(buckets_bytes(labels, bo, bc, bc as int) + Seq::<u8>::empty() =~= buckets_bytes(
        labels,
        bo,
        bc,
        bc as int,
    ));
    assert(b =~= u32_bytes(bo, bc) + buckets_from(labels, bo, bc, 0));
    assert(b[0] == u32_bytes(bo, bc)[0]);
    assert(b[1] == u32_bytes(bo, bc)[1]);
    assert(b[2] == u32_bytes(bo, bc)[2]);
    assert(b[3] == u32_bytes(bo, bc)[3]);
    crate::endian::lemma_u32_round(bo, bc);
    assert(crate::endian::u32_at(bo, b, 0) == bc);
    assert(b.skip(4) =~= buckets_from(labels, bo, bc, 0) + Seq::<u8>::empty());
    lemma_parse_buckets_round(labels, bo, bc, 0, Seq::<u8>::empty());
    assert forall|k: u32, p: (Seq<u8>, u32)|
        k < bc && #[trigger] bucket_pairs(labels, bc, k).contains(p) implies bucket_of(p.0, bc)
        == k && p.1 < labels.len() && labels[p.1 as int] == p.0 by {
        lemma_bucket_pairs_hash(labels, bc, k);
    }
}

/// The concatenation of a list of byte blobs.
pub open spec fn concat_bytes(ss: Seq<Seq<u8>>) -> Seq<u8>
    decreases ss.len(),
{
    if ss.len() == 0 {
        Seq::empty()
    } else {
        concat_bytes(ss.drop_last()) + ss.last()
    }
}

/// The total length of the first `i` blobs.
pub open spec fn len_sum(ss: Seq<Seq<u8>>, i: int) -> int
    decreases i,
{
    if i <= 0 {
        0
    } else {
        len_sum(ss, i - 1) + ss[i - 1].len()
    }
}

/// Blob length sums grow with the prefix length.
pub proof fn lemma_len_sum_mono(ss: Seq<Seq<u8>>, i: int, j: int)
    requires
        i <= j,
    ensures
        len_sum(ss, i) <= len_sum(ss, j),
    decreases j - i,
{
    if i < j {
        lemma_len_sum_mono(ss, i, j - 1);
    }
}

/// The attribute table payload: 32-bit per-entry width, 32-bit entry count,
/// then every blob in entry order. A zero width with entries present is
/// valid: it declares that every entry carries an empty attribute blob.
pub open spec fn atr1_payload(bo: ByteOrder, width: u32, blobs: Seq<Seq<u8>>) -> Seq<u8> {
    u32_bytes(bo, width) + u32_bytes(bo, (blobs.len() % 0x100000000) as u32) + concat_bytes(blobs)
}

/// Appends the attribute table payload for `entries`.
pub fn encode_atr1(out: &mut Vec<u8>, bo: ByteOrder, width: u32, entries: &Vec<MsbtEntry>)
    requires
        entries@.len() < 0x100000000,
    ensures
        final(out)@ == old(out)@ + atr1_payload(bo, width, spec_attrs(entries_view(entries@))),
{
    let blobs = Ghost(spec_attrs(entries_view(entries@)));
    write_u32(out, bo, width);
    write_u32(out, bo, entries.len() as u32);
    let mut i: usize = 0;
    while i < entries.len()
        invariant
            0 <= i <= entries@.len(),
            blobs@ == spec_attrs(entries_view(entries@)),
            blobs@.len() == entries@.len(),
            out@ == old(out)@ + u32_bytes(bo, width) + u32_bytes(
                bo,
                (entries@.len() % 0x100000000) as u32,
            ) + concat_bytes(blobs@.take(i as int)),
        decreases entries@.len() - i,
    {
        append_bytes(out, &entries[i].attributes);
        proof {
            assert(blobs@.take(i + 1).drop_last() =~= blobs@.take(i as int));
            assert(blobs@.take(i + 1).last() == blobs@[i as int]);
            assert(blobs@[i as int] == entries@[i as int].attributes@);
            assert(out@ =~= old(out)@ + u32_bytes(bo, width) + u32_bytes(
                bo,
                (entries@.len() % 0x100000000) as u32,
            ) + concat_bytes(blobs@.take(i + 1)));
        }
        i = i + 1;
    }
    proof {
        assert(blobs@.take(blobs@.len() as int) =~= blobs@);
    }
}

/// The `(entry index, style id)` pairs of the entries that carry a style, in
/// entry order.
pub open spec fn style_pairs(es: Seq<SpecEntry>) -> Seq<(u32, u32)>
    decreases es.len(),
{
    if es.len() == 0 {
        Seq::empty()
    } else {
        let init = style_pairs(es.drop_last());
        match es.last().style {
            Some(s) => init + seq![(((es.len() - 1) as u32), s)],
            None => init,
        }
    }
}

/// The style pairs, concatenated as 32-bit index then 32-bit style id.
pub open spec fn spairs_bytes(bo: ByteOrder, ps: Seq<(u32, u32)>) -> Seq<u8>
    decreases ps.len(),
{
    if ps.len() == 0 {
        Seq::empty()
    } else {
        spairs_bytes(bo, ps.drop_last()) + u32_bytes(bo, ps.last().0) + u32_bytes(
            bo,
            ps.last().1,
        )
    }
}

/// The style index payload: 32-bit pair count, then every pair.
pub open spec fn nli1_payload(bo: ByteOrder, ps: Seq<(u32, u32)>) -> Seq<u8> {
    u32_bytes(bo, (ps.len() % 0x100000000) as u32) + spairs_bytes(bo, ps)
}

/// Counts the entries that carry a style id.
pub fn count_styles(entries: &Vec<MsbtEntry>) -> (r: usize)
    requires
        entries@.len() < 0x100000000,
    ensures
        r == style_pairs(entries_view(entries@)).len(),
        r <= entries@.len(),
{
    let es = Ghost(entries_view(entries@));
    let mut c: usize = 0;
    let mut i: usize = 0;
    while i < entries.len()
        invariant
            0 <= i <= entries@.len(),
            es@ == entries_view(entries@),
            es@.len() == entries@.len(),
            c as int == style_pairs(es@.take(i as int)).len(),
            c <= i,
        decreases entries@.len() - i,
    {
        proof {
            assert(es@.take(i + 1).drop_last() =~= es@.take(i as int));
            assert(es@.take(i + 1).last() == es@[i as int]);
            assert(es@[i as int] == entries@[i as int]@);
        }
        if entries[i].style.is_some() {
            c = c + 1;
        }
        i = i + 1;
    }
    proof {
        assert(es@.take(es@.len() as int) =~= es@);
    }
    c
}

/// Appends the style index payload for `entries`.
pub fn encode_nli1(out: &mut Vec<u8>, bo: ByteOrder, entries: &Vec<MsbtEntry>)
    requires
        entries@.len() < 0x100000000,
    ensures
        final(out)@ == old(out)@ + nli1_payload(bo, style_pairs(entries_view(entries@))),
{
    let es = Ghost(entries_view(entries@));
    let c = count_styles(entries);
    proof {
        assert(c < 0x100000000);
    }
    write_u32(out, bo, c as u32);
    proof {
        assert(c as u32 == (style_pairs(es@).len() % 0x100000000) as u32);
    }
    let mut i: usize = 0;
    while i < entries.len()
        invariant
            0 <= i <= entries@.len(),
            es@ == entries_view(entries@),
            es@.len() == entries@.len(),
            entries@.len() < 0x100000000,
            out@ == old(out)@ + u32_bytes(bo, (style_pairs(es@).len() % 0x100000000) as u32)
                + spairs_bytes(bo, style_pairs(es@.take(i as int))),
        decreases entries@.len() - i,
    {
        proof {
            assert(es@.take(i + 1).drop_last() =~= es@.take(i as int));
            assert(es@.take(i + 1).last() == es@[i as int]);
            assert(es@[i as int] == entries@[i as int]@);
        }
        match entries[i].style {
            Some(s) => {
                write_u32(out, bo, i as u32);
                write_u32(out, bo, s);
                proof {
                    let prev = style_pairs(es@.take(i as int));
                    let p = (i as u32, s);
                    assert(style_pairs(es@.take(i + 1)) == prev + seq![p]);
                    assert((prev + seq![p]).drop_last() =~= prev);
                    assert((prev + seq![p]).last() == p);
                    assert(out@ =~= old(out)@ + u32_bytes(
                        bo,
                        (style_pairs(es@).len() % 0x100000000) as u32,
                    ) + spairs_bytes(bo, style_pairs(es@.take(i + 1))));
                }
            }
            None => {
                proof {
                    assert(style_pairs(es@.take(i + 1)) == style_pairs(es@.take(i as int)));
                }
            }
        }
        i = i + 1;
    }
    proof {
        assert(es@.take(es@.len() as int) =~= es@);
    }
}

/// The offset table of the text section: for each entry, the 32-bit offset
/// of its payload from the start of the section payload.
pub open spec fn offsets_bytes(bo: ByteOrder, ss: Seq<Seq<u8>>, i: int) -> Seq<u8>
    decreases i,
{
    if i <= 0 {
        Seq::empty()
    } else {
        offsets_bytes(bo, ss, i - 1) + u32_bytes(
            bo,
            ((4 + 4 * ss.len() + len_sum(ss, i - 1)) % 0x100000000) as u32,
        )
    }
}

/// The text section payload: 32-bit entry count, the offset table, then
/// every entry's encoded contents. Offsets are recomputed from the actual
/// emitted lengths, never carried over.
pub open spec fn txt2_payload(bo: ByteOrder, ss: Seq<Seq<u8>>) -> Seq<u8> {
    u32_bytes(bo, (ss.len() % 0x100000000) as u32) + offsets_bytes(bo, ss, ss.len() as int)
        + concat_bytes(ss)
}

/// Appends the text section payload for `entries`.
#[verifier::rlimit(100)]
pub fn encode_txt2(out: &mut Vec<u8>, bo: ByteOrder, enc: Encoding, entries: &Vec<MsbtEntry>)
    requires
        entries@.len() < 0x100000000,
        forall|i: int, k: int|
            0 <= i < entries@.len() && 0 <= k < entries@[i].contents@.len() ==> run_sizes_ok(
                #[trigger] entries_view(entries@)[i].contents[k],
            ),
        4 + 4 * entries@.len() + len_sum(
            spec_blobs(bo, enc, entries_view(entries@)),
            entries@.len() as int,
        ) < 0x100000000,
    ensures
        final(out)@ == old(out)@ + txt2_payload(bo, spec_blobs(bo, enc, entries_view(entries@))),
{
    let ss = Ghost(spec_blobs(bo, enc, entries_view(entries@)));
    let n = entries.len();
    write_u32(out, bo, n as u32);
    // first pass: encode every entry's contents
    let mut blobs: Vec<Vec<u8>> = Vec::new();
    let mut i: usize = 0;
    while i < n
        invariant
            0 <= i <= n,
            n == entries@.len(),
            ss@ == spec_blobs(bo, enc, entries_view(entries@)),
            ss@.len() == n,
            forall|j: int, k: int|
                0 <= j < entries@.len() && 0 <= k < entries@[j].contents@.len() ==> run_sizes_ok(
                    #[trigger] entries_view(entries@)[j].contents[k],
                ),
            blobs@.len() == i,
            forall|j: int| 0 <= j < i ==> (#[trigger] blobs@[j])@ == ss@[j],
        decreases n - i,
    {
        let mut blob: Vec<u8> = Vec::new();
        proof {
            assert(entries_view(entries@)[i as int] == entries@[i as int]@);
            assert(entries@[i as int]@.contents == runs_view(entries@[i as int].contents@));
            assert forall|k: int|
                0 <= k < entries@[i as int].contents@.len() implies run_sizes_ok(
                #[trigger] runs_view(entries@[i as int].contents@)[k],
            ) by {
                assert(runs_view(entries@[i as int].contents@)[k] == entries_view(entries@)[
                    i as int
                ].contents[k]);
            }
        }
        encode_runs(&mut blob, bo, enc, &entries[i].contents);
        proof {
            assert(blob@ == runs_bytes(bo, enc, runs_view(entries@[i as int].contents@)));
            assert(ss@[i as int] == runs_bytes(bo, enc, entries_view(entries@)[i as int].contents));
        }
        blobs.push(blob);
        i = i + 1;
    }
    // second pass: the offset table, from the actual blob lengths
    let mut cum: u64 = 4 + 4 * (n as u64);
    let mut i2: usize = 0;
    while i2 < n
        invariant
            0 <= i2 <= n,
            n == entries@.len(),
            n < 0x100000000,
            ss@ == spec_blobs(bo, enc, entries_view(entries@)),
            ss@.len() == n,
            blobs@.len() == n,
            forall|j: int| 0 <= j < n ==> (#[trigger] blobs@[j])@ == ss@[j],
            4 + 4 * (n as int) + len_sum(ss@, n as int) < 0x100000000,
            cum as int == 4 + 4 * (n as int) + len_sum(ss@, i2 as int),
            out@ == old(out)@ + u32_bytes(bo, ((n as int) % 0x100000000) as u32) + offsets_bytes(
                bo,
                ss@,
                i2 as int,
            ),
        decreases n - i2,
    {
        proof {
            lemma_len_sum_mono(ss@, i2 as int, n as int);
        }
        write_u32(out, bo, cum as u32);
        proof {
            lemma_len_sum_mono(ss@, i2 + 1, n as int);
            assert(len_sum(ss@, i2 + 1) == len_sum(ss@, i2 as int) + ss@[i2 as int].len());
        }
        cum = cum + (blobs[i2].len() as u64);
        i2 = i2 + 1;
    }
    // third pass: the blobs themselves
    let base = Ghost(out@);
    let mut i3: usize = 0;
    while i3 < n
        invariant
            0 <= i3 <= n,
            n == entries@.len(),
            ss@ == spec_blobs(bo, enc, entries_view(entries@)),
            ss@.len() == n,
            blobs@.len() == n,
            forall|j: int| 0 <= j < n ==> (#[trigger] blobs@[j])@ == ss@[j],
            out@ == base@ + concat_bytes(ss@.take(i3 as int)),
        decreases n - i3,
    {
        append_bytes(out, &blobs[i3]);
        proof {
            assert(ss@.take(i3 + 1).drop_last() =~= ss@.take(i3 as int));
            assert(ss@.take(i3 + 1).last() == ss@[i3 as int]);
            assert(out@ =~= base@ + concat_bytes(ss@.take(i3 + 1)));
        }
        i3 = i3 + 1;
    }
    proof {
        assert(ss@.take(ss@.len() as int) =~= ss@);
    }
}

} // verus!
