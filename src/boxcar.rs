//! Index arithmetic of the append-only item store: items live in buckets
//! whose capacities double (32, 64, 128, ...), and an index names a bucket
//! and an entry in it.
use vstd::prelude::*;

verus! {

/// Indices are shifted by this amount, which skips the smallest buckets.
pub const SKIP: u32 = 32;

/// `log2(SKIP)`.
pub const SKIP_BUCKET: u32 = 5;

/// Number of buckets.
pub const BUCKETS: u32 = 32 - SKIP_BUCKET;

/// Largest index the store hands out.
pub const MAX_ENTRIES: u32 = u32::MAX - SKIP;

/// `2^n`.
pub open spec fn pow2(n: nat) -> nat
    decreases n,
{
    if n == 0 {
        1
    } else {
        2 * pow2((n - 1) as nat)
    }
}

proof fn lemma_pow2_mono(a: nat, b: nat)
    requires
        a <= b,
    ensures
        pow2(a) <= pow2(b),
    decreases b,
{
    if a < b {
        lemma_pow2_mono(a, (b - 1) as nat);
    }
}

proof fn lemma_pow2_32()
    ensures
        pow2(32) == 0x1_0000_0000,
{
    reveal_with_fuel(pow2, 33);
}

/// Where an index lives in the store.
#[derive(Clone, Copy, Debug, PartialEq, Eq, Structural)]
pub struct Location {
    /// The bucket.
    pub bucket: u32,
    /// The capacity of the bucket.
    pub bucket_len: u32,
    /// The entry in the bucket.
    pub entry: u32,
}

impl Location {
    /// The location of `index`: bucket `b` holds the indices `i` with
    /// `2^(b+5) <= i + 32 < 2^(b+6)`.
    pub fn of(index: u32) -> (r: Location)
        requires
            index <= MAX_ENTRIES,
        ensures
            r.bucket < BUCKETS,
            r.bucket_len == pow2((r.bucket + SKIP_BUCKET) as nat),
            r.bucket_len <= index + SKIP < 2 * r.bucket_len,
            r.entry == index + SKIP - r.bucket_len,
    {
        let skipped = index + SKIP;
        let mut bucket: u32 = 0;
        let mut len: u32 = SKIP;
        proof {
            reveal_with_fuel(pow2, 6);
        }
        while len <= skipped / 2
            invariant
                len == pow2((bucket + SKIP_BUCKET) as nat),
                SKIP <= len <= skipped,
                bucket < BUCKETS,
            decreases skipped - len,
        {
            proof {
                lemma_pow2_32();
                if bucket + 1 >= BUCKETS {
                    lemma_pow2_mono(32, (bucket + 1 + SKIP_BUCKET) as nat);
                }
            }
            len = len * 2;
            bucket = bucket + 1;
        }
        Location { bucket, bucket_len: len, entry: skipped - len }
    }

    /// Capacity of bucket `bucket`: `2^(bucket+5)`.
    pub fn bucket_len(bucket: u32) -> (r: u32)
        requires
            bucket < BUCKETS,
        ensures
            r == pow2((bucket + SKIP_BUCKET) as nat),
    {
        let mut len: u32 = SKIP;
        let mut b: u32 = 0;
        proof {
            reveal_with_fuel(pow2, 6);
            lemma_pow2_32();
            lemma_pow2_mono((bucket + SKIP_BUCKET) as nat, 31);
        }
        while b < bucket
            invariant
                b <= bucket < BUCKETS,
                len == pow2((b + SKIP_BUCKET) as nat),
                pow2((bucket + SKIP_BUCKET) as nat) <= pow2(31),
                pow2(32) == 0x1_0000_0000,
            decreases bucket - b,
        {
            proof {
                lemma_pow2_mono((b + 1 + SKIP_BUCKET) as nat, (bucket + SKIP_BUCKET) as nat);
            }
            len = len * 2;
            b = b + 1;
        }
        len
    }
}

} // verus!
