//! A hash index over a list of strings: finds the first position of a
//! string in constant expected time, so the loader's vocabulary checks stay
//! linear in the size of a real vocabulary.

use std::collections::HashMap;
use vstd::prelude::*;
use vstd::string::*;
use vstd::utf8::*;

use crate::loader::vocab::{distinct, index_of, lemma_index_of, views};
use crate::text::str_eq;

verus! {

broadcast use vstd::std_specs::hash::group_hash_axioms;

/// The modulus of the string hash, the Mersenne prime 2^61 - 1.
pub const HASH_MODULUS: u64 = 0x1FFF_FFFF_FFFF_FFFF;

/// One step of the polynomial string hash.
pub open spec fn hash_step(h: u64, b: u8) -> u64 {
    ((h as int * 257 + b as int + 1) % (HASH_MODULUS as int)) as u64
}

/// The polynomial hash of a byte string.
pub open spec fn bytes_hash(s: Seq<u8>) -> u64
    decreases s.len(),
{
    if s.len() == 0 {
        0
    } else {
        hash_step(bytes_hash(s.drop_last()), s.last())
    }
}

/// The bucket a string lands in: the hash of its UTF-8 bytes.
pub open spec fn key_of(s: Seq<char>) -> u64 {
    bytes_hash(encode_utf8(s))
}

/// The hash of `b`.
pub fn hash_bytes(b: &[u8]) -> (h: u64)
    ensures
        h == bytes_hash(b@),
{
    let mut h: u64 = 0;
    let mut i: usize = 0;
    while i < b.len()
        invariant
            i <= b@.len(),
            h == bytes_hash(b@.take(i as int)),
            h < HASH_MODULUS,
        decreases b.len() - i,
    {
        proof {
            assert(b@.take(i + 1).drop_last() =~= b@.take(i as int));
        }
        let wide: u128 = (h as u128) * 257 + (b[i] as u128) + 1;
        h = (wide % (HASH_MODULUS as u128)) as u64;
        i = i + 1;
    }
    proof {
        assert(b@.take(b@.len() as int) =~= b@);
    }
    h
}

/// Positions of a list of strings, grouped by hash.
pub struct VocabIndex {
    buckets: HashMap<u64, Vec<usize>>,
}

/// Every bucket holds increasing positions below `n`, each of a string
/// that hashes to that bucket.
pub open spec fn buckets_sound(m: Map<u64, Vec<usize>>, v: Seq<Seq<char>>, n: int) -> bool {
    forall|h: u64|
        #![trigger m.contains_key(h)]
        m.contains_key(h) ==> {
            let b = m[h]@;
            &&& forall|p: int| 0 <= p < b.len() ==> #[trigger] b[p] < n && key_of(v[b[p] as int]) == h
            &&& forall|p: int, q: int| 0 <= p < q < b.len() ==> b[p] < b[q]
        }
}

/// Every position below `n` sits in the bucket of its string.
pub open spec fn buckets_complete(m: Map<u64, Vec<usize>>, v: Seq<Seq<char>>, n: int) -> bool {
    forall|i: int|
        0 <= i < n ==> m.contains_key(#[trigger] key_of(v[i])) && m[key_of(v[i])]@.contains(
            i as usize,
        )
}

impl VocabIndex {
    /// The index covers exactly the strings of `v`.
    pub closed spec fn indexes(&self, v: Seq<Seq<char>>) -> bool {
        &&& v.len() <= usize::MAX
        &&& buckets_sound(self.buckets@, v, v.len() as int)
        &&& buckets_complete(self.buckets@, v, v.len() as int)
    }

    /// Index every string of `v`.
    pub fn build(v: &Vec<String>) -> (r: VocabIndex)
        ensures
            r.indexes(views(v@)),
    {
        let ghost w = views(v@);
        let mut buckets: HashMap<u64, Vec<usize>> = HashMap::new();
        let mut i: usize = 0;
        while i < v.len()
            invariant
                i <= v@.len(),
                w == views(v@),
                buckets_sound(buckets@, w, i as int),
                buckets_complete(buckets@, w, i as int),
            decreases v.len() - i,
        {
            let h = hash_bytes(v[i].as_str().as_bytes());
            proof {
                assert(w[i as int] == v@[i as int]@);
            }
            let ghost before = buckets@;
            let mut bucket = match buckets.remove(&h) {
                Some(b) => b,
                None => Vec::new(),
            };
            let ghost old_bucket = bucket@;
            bucket.push(i);
            buckets.insert(h, bucket);
            proof {
                assert forall|g: u64| #![trigger buckets@.contains_key(g)] buckets@.contains_key(g) implies {
                    let b = buckets@[g]@;
                    &&& forall|p: int|
                        0 <= p < b.len() ==> #[trigger] b[p] < i + 1 && key_of(w[b[p] as int]) == g
                    &&& forall|p: int, q: int| 0 <= p < q < b.len() ==> b[p] < b[q]
                } by {
                    if g != h {
                        assert(before.contains_key(g));
                    } else {
                        let b = buckets@[g]@;
                        assert(b == old_bucket.push(i));
                        if before.contains_key(h) {
                            assert(old_bucket == before[h]@);
                        }
                    }
                }
                assert forall|k: int| 0 <= k < i + 1 implies buckets@.contains_key(
                    #[trigger] key_of(w[k]),
                ) && buckets@[key_of(w[k])]@.contains(k as usize) by {
                    if k == i {
                        assert(buckets@[h]@[old_bucket.len() as int] == i);
                    } else if key_of(w[k]) == h {
                        let p = choose|p: int| 0 <= p < before[h]@.len() && before[h]@[p] == k as usize;
                        assert(buckets@[h]@[p] == k as usize);
                    } else {
                        assert(buckets@[key_of(w[k])] == before[key_of(w[k])]);
                    }
                }
            }
            i = i + 1;
        }
        VocabIndex { buckets }
    }

    /// The first position of `s` in `v`.
    pub fn find(&self, v: &Vec<String>, s: &str) -> (r: Option<usize>)
        requires
            self.indexes(views(v@)),
        ensures
            r matches Some(i) ==> index_of(views(v@), s@) == Some(i as int),
            r is None ==> index_of(views(v@), s@) is None,
    {
        let ghost w = views(v@);
        proof {
            lemma_index_of(w, s@);
        }
        let h = hash_bytes(s.as_bytes());
        match self.buckets.get(&h) {
            None => {
                proof {
                    if w.contains(s@) {
                        let k = choose|k: int| 0 <= k < w.len() && w[k] == s@;
                        assert(self.buckets@.contains_key(key_of(w[k])));
                    }
                }
                None
            },
            Some(b) => {
                let mut p: usize = 0;
                while p < b.len()
                    invariant
                        self.indexes(w),
                        w == views(v@),
                        self.buckets@.contains_key(h),
                        self.buckets@[h] == *b,
                        h == key_of(s@),
                        p <= b@.len(),
                        forall|q: int| 0 <= q < p ==> w[b@[q] as int] != s@,
                    decreases b.len() - p,
                {
                    let j = b[p];
                    proof {
                        assert(b@[p as int] < w.len());
                    }
                    if str_eq(v[j].as_str(), s) {
                        proof {
                            assert(w[j as int] == s@);
                            assert forall|k: int| 0 <= k < j implies w[k] != s@ by {
                                if w[k] == s@ {
                                    assert(self.buckets@[key_of(w[k])]@.contains(k as usize));
                                    let q = choose|q: int|
                                        0 <= q < b@.len() && b@[q] == k as usize;
                                    if q >= p {
                                        if q > p {
                                            assert(b@[p as int] < b@[q]);
                                        }
                                    }
                                }
                            }
                            lemma_index_of(w, s@);
                            assert(w.contains(s@));
                            let f = index_of(w, s@)->Some_0;
                            assert(f == j) by {
                                if f < j {
                                } else if f > j {
                                }
                            }
                        }
                        return Some(j);
                    }
                    p = p + 1;
                }
                proof {
                    lemma_index_of(w, s@);
                    if w.contains(s@) {
                        let k = choose|k: int| 0 <= k < w.len() && w[k] == s@;
                        assert(self.buckets@[key_of(w[k])]@.contains(k as usize));
                        let q = choose|q: int| 0 <= q < b@.len() && b@[q] == k as usize;
                        assert(w[b@[q] as int] != s@);
                    }
                }
                None
            },
        }
    }
}

/// The first position whose string repeats an earlier one.
pub fn first_repeat(v: &Vec<String>, index: &VocabIndex) -> (r: Option<usize>)
    requires
        index.indexes(views(v@)),
    ensures
        r is None <==> distinct(views(v@)),
        r matches Some(j) ==> j < v@.len() && distinct(views(v@).take(j as int))
            && exists|i: int| 0 <= i < j && v@[i]@ == v@[j as int]@,
{
    let ghost w = views(v@);
    let mut j: usize = 0;
    while j < v.len()
        invariant
            index.indexes(views(v@)),
            w == views(v@),
            j <= v@.len(),
            forall|a: int, b: int| 0 <= a < b < j ==> w[a] != w[b],
        decreases v.len() - j,
    {
        let first = index.find(v, v[j].as_str());
        proof {
            lemma_index_of(w, w[j as int]);
            assert(w.contains(w[j as int]));
        }
        match first {
            Some(f) => {
                if f != j {
                    proof {
                        assert(f < j);
                        assert(w[f as int] == w[j as int]);
                        assert forall|a: int, b: int| 0 <= a < b < w.take(j as int).len() implies w.take(
                            j as int,
                        )[a] != w.take(j as int)[b] by {
                            assert(w.take(j as int)[a] == w[a]);
                            assert(w.take(j as int)[b] == w[b]);
                        }
                    }
                    return Some(j);
                }
                proof {
                    assert forall|a: int| 0 <= a < j implies w[a] != w[j as int] by {}
                }
            },
            None => {},
        }
        j = j + 1;
    }
    None
}

/// How many of the first `n` positions hold the first occurrence of their
/// string: the number of distinct strings among them.
pub open spec fn distinct_count(v: Seq<Seq<char>>, n: int) -> nat
    decreases n,
{
    if n <= 0 {
        0
    } else {
        distinct_count(v, n - 1) + if index_of(v, v[n - 1]) == Some(n - 1) {
            1nat
        } else {
            0nat
        }
    }
}

/// The number of distinct strings in `v`.
pub fn count_distinct(v: &Vec<String>, index: &VocabIndex) -> (r: usize)
    requires
        index.indexes(views(v@)),
    ensures
        r == distinct_count(views(v@), v@.len() as int),
{
    let mut count: usize = 0;
    let mut i: usize = 0;
    while i < v.len()
        invariant
            index.indexes(views(v@)),
            i <= v@.len(),
            count == distinct_count(views(v@), i as int),
            count <= i,
        decreases v.len() - i,
    {
        proof {
            assert(views(v@)[i as int] == v@[i as int]@);
        }
        match index.find(v, v[i].as_str()) {
            Some(j) => {
                if j == i {
                    count = count + 1;
                }
            },
            None => {},
        }
        i = i + 1;
    }
    count
}

} // verus!
