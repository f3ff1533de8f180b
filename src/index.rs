//! A hash-bucket index from 64-bit hashes to positions in an external
//! sequence of entries. The entries themselves live elsewhere; the index
//! only remembers, for every position, the hash it was filed under.
//!
//! The words and state keys of a chain are strings and id sequences. std's
//! `HashMap` is specified for integer keys, so those keys are hashed to
//! integers here, and a lookup compares the few entries filed under a hash.

use std::collections::HashMap;
use vstd::prelude::*;

verus! {

broadcast use vstd::std_specs::hash::group_hash_axioms;

pub struct BucketIndex {
    buckets: HashMap<u64, Vec<usize>>,
    /// The hash of each entry, by position.
    filed: Ghost<Seq<u64>>,
}

impl BucketIndex {
    /// The hash under which each position was filed.
    pub closed spec fn hashes(&self) -> Seq<u64> {
        self.filed@
    }

    pub closed spec fn wf(&self) -> bool {
        &&& self.filed@.len() <= usize::MAX + 1
        &&& forall|i: int|
            0 <= i < self.filed@.len() ==> {
                &&& #[trigger] self.buckets@.contains_key(self.filed@[i])
                &&& self.buckets@[self.filed@[i]]@.contains(i as usize)
            }
        &&& forall|h: u64, k: int|
            #![trigger self.buckets@[h]@[k]]
            self.buckets@.contains_key(h) && 0 <= k < self.buckets@[h]@.len() ==> {
                &&& (self.buckets@[h]@[k] as int) < self.filed@.len()
                &&& self.filed@[self.buckets@[h]@[k] as int] == h
            }
    }

    pub fn new() -> (r: Self)
        ensures
            r.wf(),
            r.hashes() == Seq::<u64>::empty(),
    {
        BucketIndex { buckets: HashMap::new(), filed: Ghost(Seq::empty()) }
    }

    /// Files the next position, `pos == hashes().len()`, under `h`.
    pub fn push(&mut self, h: u64, pos: usize)
        requires
            old(self).wf(),
            pos == old(self).hashes().len(),
        ensures
            final(self).wf(),
            final(self).hashes() == old(self).hashes().push(h),
    {
        let ghost prev = self.buckets@;
        let mut bucket: Vec<usize> = match self.buckets.remove(&h) {
            Some(b) => b,
            None => Vec::new(),
        };
        proof {
            if prev.contains_key(h) {
                assert(bucket@ == prev[h]@);
            } else {
                assert(bucket@.len() == 0);
            }
        }
        bucket.push(pos);
        self.buckets.insert(h, bucket);
        self.filed = Ghost(self.filed@.push(h));
        assert forall|i: int| 0 <= i < self.filed@.len() implies {
            &&& #[trigger] self.buckets@.contains_key(self.filed@[i])
            &&& self.buckets@[self.filed@[i]]@.contains(i as usize)
        } by {
            if i < pos {
                let hi = self.filed@[i];
                if hi != h {
                    assert(prev.contains_key(hi));
                } else {
                    let k = choose|k: int| 0 <= k < prev[h]@.len() && prev[h]@[k] == i as usize;
                    assert(self.buckets@[h]@[k] == i as usize);
                }
            } else {
                assert(self.buckets@[h]@[bucket@.len() - 1] == pos);
            }
        }
        assert forall|g: u64, k: int|
            self.buckets@.contains_key(g) && 0 <= k < self.buckets@[g]@.len() implies {
            &&& (#[trigger] self.buckets@[g]@[k] as int) < self.filed@.len()
            &&& self.filed@[self.buckets@[g]@[k] as int] == g
        } by {
            if g != h {
                assert(prev.contains_key(g) && prev[g]@[k] == self.buckets@[g]@[k]);
            } else if k + 1 < self.buckets@[g]@.len() {
                assert(prev.contains_key(g) && prev[g]@[k] == self.buckets@[g]@[k]);
            }
        }
    }

    /// The positions filed under `h`: every one of them, and no other.
    pub fn candidates(&self, h: u64) -> (r: Vec<usize>)
        requires
            self.wf(),
        ensures
            forall|k: int| 0 <= k < r@.len() ==> (#[trigger] r@[k] as int) < self.hashes().len()
                && self.hashes()[r@[k] as int] == h,
            forall|i: int|
                0 <= i < self.hashes().len() && #[trigger] self.hashes()[i] == h ==> exists|k: int|
                    0 <= k < r@.len() && r@[k] as int == i,
    {
        match self.buckets.get(&h) {
            Some(b) => {
                let mut out: Vec<usize> = Vec::new();
                let mut k: usize = 0;
                while k < b.len()
                    invariant
                        self.wf(),
                        self.buckets@.contains_key(h),
                        *b == self.buckets@[h],
                        k <= b@.len(),
                        out@ == b@.subrange(0, k as int),
                    decreases b@.len() - k,
                {
                    out.push(b[k]);
                    k = k + 1;
                }
                assert(out@ == b@);
                proof {
                    assert forall|i: int|
                        0 <= i < self.hashes().len() && #[trigger] self.hashes()[i] == h implies exists|k: int|
                            0 <= k < out@.len() && out@[k] as int == i by {
                        assert(out@.contains(i as usize));
                    }
                    assert forall|k: int| 0 <= k < out@.len() implies (#[trigger] out@[k] as int) < self.hashes().len()
                        && self.hashes()[out@[k] as int] == h by {
                        assert(self.buckets@[h]@[k] == out@[k]);
                    }
                }
                out
            },
            None => Vec::new(),
        }
    }
}

/// The modulus of the polynomial hashes below, a prime under 2^30.
pub const HASH_MODULUS: u64 = 1_000_000_007;

/// Polynomial hash of a character sequence.
pub open spec fn chars_hash(s: Seq<char>) -> u64
    decreases s.len(),
{
    if s.len() == 0 {
        0
    } else {
        ((chars_hash(s.drop_last()) as nat * 31 + (s.last() as u32) as nat) % (HASH_MODULUS as nat)) as u64
    }
}

/// Polynomial hash of a sequence of ids.
pub open spec fn ids_hash(s: Seq<usize>) -> u64
    decreases s.len(),
{
    if s.len() == 0 {
        0
    } else {
        ((ids_hash(s.drop_last()) as nat * 31 + (s.last() as nat) % (HASH_MODULUS as nat)) % (HASH_MODULUS as nat)) as u64
    }
}

pub fn hash_chars(s: &Vec<char>) -> (r: u64)
    ensures
        r == chars_hash(s@),
{
    let mut h: u64 = 0;
    let mut i: usize = 0;
    while i < s.len()
        invariant
            i <= s@.len(),
            h == chars_hash(s@.subrange(0, i as int)),
            h < HASH_MODULUS,
        decreases s@.len() - i,
    {
        assert(s@.subrange(0, i + 1).drop_last() == s@.subrange(0, i as int));
        let c = s[i] as u32;
        h = (h * 31 + c as u64) % HASH_MODULUS;
        i = i + 1;
    }
    assert(s@.subrange(0, s@.len() as int) == s@);
    h
}

pub fn hash_ids(s: &[usize]) -> (r: u64)
    ensures
        r == ids_hash(s@),
{
    let mut h: u64 = 0;
    let mut i: usize = 0;
    while i < s.len()
        invariant
            i <= s@.len(),
            h == ids_hash(s@.subrange(0, i as int)),
            h < HASH_MODULUS,
        decreases s@.len() - i,
    {
        assert(s@.subrange(0, i + 1).drop_last() == s@.subrange(0, i as int));
        let x = (s[i] as u64) % HASH_MODULUS;
        h = (h * 31 + x) % HASH_MODULUS;
        i = i + 1;
    }
    assert(s@.subrange(0, s@.len() as int) == s@);
    h
}

} // verus!
