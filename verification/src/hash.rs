//! The format's label hash and the bucket-count policy.
//!
//! A label is placed in bucket `hash(label) % bucket_count`, where the hash
//! starts at zero and folds each byte in as `h = h * 0x492 + byte`, wrapping
//! at 32 bits. Hash collisions inside a bucket are expected: a bucket holds a
//! list. The bucket count is chosen from the entry count alone, so both sides
//! of a round trip compute the same placement.

use vstd::prelude::*;

verus! {

/// One step of the rolling hash: fold byte `b` into state `h`, wrapping at 32
/// bits.
pub open spec fn hash_step(h: u32, b: u8) -> u32 {
    ((h * 0x492 + b) % 0x100000000) as u32
}

/// The rolling hash of a whole label.
///
/// The hash folds the label's stored bytes. Labels are modelled as the byte
/// strings of the label table, so for the ASCII labels the format uses this
/// is the same fold as one over code points, and encoder and decoder agree
/// by construction.
pub open spec fn label_hash(s: Seq<u8>) -> u32
    decreases s.len(),
{
    if s.len() == 0 {
        0
    } else {
        hash_step(label_hash(s.drop_last()), s.last())
    }
}

/// The bucket a label lands in for a table of `bc` buckets.
pub open spec fn bucket_of(label: Seq<u8>, bc: u32) -> u32
    recommends
        bc > 0,
{
    label_hash(label) % bc
}

/// The bucket count an encoder uses for `n` entries: a fixed small table for
/// few entries, one bucket per entry beyond that.
pub open spec fn spec_bucket_count(n: int) -> u32
    recommends
        0 <= n < 0x100000000,
{
    if n < 101 {
        101
    } else {
        n as u32
    }
}

/// Computes [`label_hash`] of `label`.
pub fn compute_label_hash(label: &Vec<u8>) -> (r: u32)
    ensures
        r == label_hash(label@),
{
    let mut h: u32 = 0;
    let mut i: usize = 0;
    while i < label.len()
        invariant
            0 <= i <= label@.len(),
            h == label_hash(label@.take(i as int)),
        decreases label@.len() - i,
    {
        let wide: u64 = (h as u64) * 0x492 + (label[i] as u64);
        let next: u32 = (wide % 0x100000000) as u32;
        proof {
            assert(label@.take(i + 1).drop_last() =~= label@.take(i as int));
            assert(label@.take(i + 1).last() == label@[i as int]);
        }
        h = next;
        i = i + 1;
    }
    proof {
        assert(label@.take(label@.len() as int) =~= label@);
    }
    h
}

/// Computes [`spec_bucket_count`] of `n`.
pub fn bucket_count(n: usize) -> (r: u32)
    requires
        n < 0x100000000,
    ensures
        r == spec_bucket_count(n as int),
{
    if n < 101 {
        101
    } else {
        n as u32
    }
}

/// Computes [`bucket_of`] for a label.
pub fn compute_bucket(label: &Vec<u8>, bc: u32) -> (r: u32)
    requires
        bc > 0,
    ensures
        r == bucket_of(label@, bc),
{
    compute_label_hash(label) % bc
}

} // verus!
