//! Finding records and paths again without comparing with every one of
//! them: places are kept in buckets by a hash of what stands at them.
//!
//! The hash only says where to look. Whether what stands at a place is what
//! was looked for is decided by comparing, so the answer does not depend on
//! the hash.

use std::collections::HashMap;
use vstd::prelude::*;

verus! {

broadcast use vstd::std_specs::hash::group_hash_axioms;

/// The value with which the hash of no bytes starts.
pub const HASH_START: u64 = 0xcbf29ce484222325;

/// The factor by which the hash is multiplied after each byte.
pub const HASH_FACTOR: u64 = 0x100000001b3;

/// The hash of a byte string: each byte in turn is mixed into the hash so
/// far, which is then multiplied by a fixed factor, in 64 bits.
pub open spec fn hash_of(s: Seq<u8>) -> u64
    decreases s.len(),
{
    if s.len() == 0 {
        HASH_START
    } else {
        (hash_of(s.drop_last()) ^ (s.last() as u64)).wrapping_mul(HASH_FACTOR)
    }
}

/// Computes the hash of a byte string.
pub fn hash_bytes(s: &[u8]) -> (r: u64)
    ensures
        r == hash_of(s@),
{
    let mut h: u64 = HASH_START;
    let mut i: usize = 0;
    proof {
        assert(s@.take(0) =~= Seq::<u8>::empty());
    }
    while i < s.len()
        invariant
            i <= s@.len(),
            h == hash_of(s@.take(i as int)),
        decreases s@.len() - i,
    {
        proof {
            let now = s@.take(i + 1);
            assert(now.drop_last() =~= s@.take(i as int));
            assert(now.last() == s@[i as int]);
        }
        h = (h ^ (s[i] as u64)).wrapping_mul(HASH_FACTOR);
        i += 1;
    }
    proof {
        assert(s@.take(i as int) =~= s@);
    }
    h
}

/// Places in buckets, one bucket for each hash.
#[derive(Debug)]
pub struct HashIndex {
    buckets: HashMap<u64, Vec<usize>>,
}

impl HashIndex {
    /// No bucket is kept without a place in it.
    #[verifier::type_invariant]
    spec fn no_empty_bucket(self) -> bool {
        forall|hash: u64| #[trigger]
            self.buckets@.contains_key(hash) ==> self.buckets@[hash]@.len() > 0
    }

    /// The places in the bucket of `hash`, in the order in which they were
    /// put there.
    pub closed spec fn bucket(&self, hash: u64) -> Seq<usize> {
        if self.buckets@.contains_key(hash) {
            self.buckets@[hash]@
        } else {
            Seq::empty()
        }
    }

    /// An index without places.
    pub fn new() -> (r: HashIndex)
        ensures
            forall|hash: u64| #[trigger] r.bucket(hash) == Seq::<usize>::empty(),
    {
        HashIndex { buckets: HashMap::new() }
    }

    /// The index with `place` put into the bucket of `hash`.
    pub fn with(self, hash: u64, place: usize) -> (r: HashIndex)
        ensures
            r.bucket(hash) == self.bucket(hash).push(place),
            forall|other: u64| other != hash ==> #[trigger] r.bucket(other) == self.bucket(other),
    {
        proof {
            use_type_invariant(&self);
        }
        let mut buckets = self.buckets;
        let ghost before = buckets@;
        let mut bucket = match buckets.remove(&hash) {
            Some(b) => b,
            None => Vec::new(),
        };
        proof {
            assert(bucket@ =~= self.bucket(hash));
        }
        bucket.push(place);
        buckets.insert(hash, bucket);
        let r = HashIndex { buckets };
        proof {
            assert forall|other: u64| other != hash implies #[trigger] r.bucket(other)
                == self.bucket(other) by {
                assert(r.buckets@.contains_key(other) == before.contains_key(other));
            }
        }
        r
    }

    /// The bucket of `hash`, where a place has been put into it.
    pub fn get(&self, hash: u64) -> (r: Option<&Vec<usize>>)
        ensures
            match r {
                Some(b) => b@ == self.bucket(hash) && b@.len() > 0,
                None => self.bucket(hash) == Seq::<usize>::empty(),
            },
    {
        proof {
            use_type_invariant(self);
        }
        self.buckets.get(&hash)
    }
}

} // verus!
