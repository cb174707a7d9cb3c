//! The stable FNV-1a hash that fingerprints expressions and names, and an
//! index from names to positions built on it.
use vstd::prelude::*;
use vstd::utf8::encode_utf8;
use vstd::wrapping::u64_specs;
use crate::strings::text_eq;

verus! {

pub const FNV_OFFSET: u64 = 0xcbf29ce484222325;

pub const FNV_PRIME: u64 = 0x100000001b3;

/// One FNV-1a round.
pub open spec fn fnv_byte(h: u64, byte: u8) -> u64 {
    u64_specs::wrapping_mul(h ^ (byte as u64), FNV_PRIME)
}

/// FNV-1a rounds over `bytes`, first to last.
pub open spec fn fnv_bytes(h: u64, bytes: Seq<u8>) -> u64
    decreases bytes.len(),
{
    if bytes.len() == 0 {
        h
    } else {
        fnv_byte(fnv_bytes(h, bytes.drop_last()), bytes.last())
    }
}

/// The rounds over `bytes` followed by a terminating 0xff round, so that
/// consecutive fields cannot run into each other.
pub open spec fn feed_spec(h: u64, bytes: Seq<u8>) -> u64 {
    fnv_byte(fnv_bytes(h, bytes), 0xff)
}

/// Feeds `bytes` and a terminator into the running hash.
pub fn feed(hash: &mut u64, bytes: &[u8])
    ensures
        *final(hash) == feed_spec(*old(hash), bytes@),
{
    let ghost start = *hash;
    let mut i: usize = 0;
    while i < bytes.len()
        invariant
            i <= bytes@.len(),
            *hash == fnv_bytes(start, bytes@.take(i as int)),
        decreases bytes@.len() - i,
    {
        assert(bytes@.take(i + 1).drop_last() =~= bytes@.take(i as int));
        *hash = (*hash ^ (bytes[i] as u64)).wrapping_mul(FNV_PRIME);
        i = i + 1;
    }
    assert(bytes@.take(bytes@.len() as int) =~= bytes@);
    *hash = (*hash ^ 0xffu64).wrapping_mul(FNV_PRIME);
}

/// The hash of a name: its UTF-8 bytes fed into a fresh hash.
pub open spec fn name_hash(name: Seq<char>) -> u64 {
    feed_spec(FNV_OFFSET, encode_utf8(name))
}

/// Hashes a name.
pub fn hash_name(name: &str) -> (r: u64)
    ensures
        r == name_hash(name@),
{
    let mut h = FNV_OFFSET;
    feed(&mut h, name.as_bytes());
    h
}

/// An index from names to their positions in a list, bucketed by hash.
pub struct NameIndex {
    buckets: Vec<Vec<usize>>,
}

impl NameIndex {
    /// The index lists every position of `names` exactly in the bucket of its
    /// name's hash.
    #[verifier::opaque]
    pub closed spec fn indexes(&self, names: Seq<Seq<char>>) -> bool {
        let n = self.buckets@.len();
        &&& n > 0
        &&& forall|b: int, j: int| 0 <= b < n && 0 <= j < self.buckets@[b]@.len() ==> {
            let k = #[trigger] self.buckets@[b]@[j];
            k < names.len() && name_hash(names[k as int]) % (n as u64) == b
        }
        &&& forall|k: int| 0 <= k < names.len() ==> self.buckets@[(name_hash(#[trigger] names[k]) % (n as u64)) as int]@.contains(k as usize)
    }

    proof fn lemma_member(&self, names: Seq<Seq<char>>, k: int)
        requires
            self.indexes(names),
            0 <= k < names.len(),
        ensures
            self.buckets@.len() > 0,
            self.buckets@[(name_hash(names[k]) % (self.buckets@.len() as u64)) as int]@.contains(k as usize),
    {
        reveal(NameIndex::indexes);
    }

    proof fn lemma_entry(&self, names: Seq<Seq<char>>, b: int, j: int)
        requires
            self.indexes(names),
            0 <= b < self.buckets@.len(),
            0 <= j < self.buckets@[b]@.len(),
        ensures
            self.buckets@[b]@[j] < names.len(),
    {
        reveal(NameIndex::indexes);
    }

    proof fn lemma_nonempty(&self, names: Seq<Seq<char>>)
        requires
            self.indexes(names),
        ensures
            self.buckets@.len() > 0,
    {
        reveal(NameIndex::indexes);
    }

    /// Indexes the names of a list.
    pub fn build(names: &Vec<String>) -> (r: NameIndex)
        ensures
            r.indexes(names@.map_values(|s: String| s@)),
    {
        let ghost view = names@.map_values(|s: String| s@);
        let count: usize = if names.len() < 16 {
            16
        } else if names.len() > 0x1000_0000 {
            0x1000_0000
        } else {
            names.len()
        };
        let mut buckets: Vec<Vec<usize>> = Vec::new();
        let mut b: usize = 0;
        while b < count
            invariant
                b <= count,
                buckets@.len() == b,
                forall|x: int| 0 <= x < b ==> #[trigger] buckets@[x]@.len() == 0,
            decreases count - b,
        {
            buckets.push(Vec::new());
            b = b + 1;
        }
        let mut k: usize = 0;
        while k < names.len()
            invariant
                count > 0,
                view == names@.map_values(|s: String| s@),
                buckets@.len() == count,
                k <= names@.len(),
                forall|b: int, j: int| 0 <= b < count && 0 <= j < buckets@[b]@.len() ==> {
                    let x = #[trigger] buckets@[b]@[j];
                    x < k && name_hash(view[x as int]) % (count as u64) == b
                },
                forall|x: int| 0 <= x < k ==> buckets@[(name_hash(#[trigger] view[x]) % (count as u64)) as int]@.contains(x as usize),
            decreases names@.len() - k,
        {
            let h = hash_name(names[k].as_str());
            let slot = (h % (count as u64)) as usize;
            let ghost before = buckets@;
            buckets[slot].push(k);
            proof {
                assert(view[k as int] == names@[k as int]@);
                assert forall|x: int| 0 <= x < k + 1 implies buckets@[(name_hash(#[trigger] view[x]) % (count as u64)) as int]@.contains(x as usize) by {
                    let s = (name_hash(view[x]) % (count as u64)) as int;
                    if x < k {
                        let j = choose|j: int| 0 <= j < before[s]@.len() && before[s]@[j] == x as usize;
                        if s == slot {
                            assert(buckets@[s]@[j] == x as usize);
                        } else {
                            assert(buckets@[s] == before[s]);
                        }
                    } else {
                        assert(buckets@[slot as int]@[before[slot as int]@.len() as int] == k);
                    }
                }
                assert forall|b: int, j: int| 0 <= b < count && 0 <= j < buckets@[b]@.len() implies {
                    let x = #[trigger] buckets@[b]@[j];
                    x < k + 1 && name_hash(view[x as int]) % (count as u64) == b
                } by {
                    if b != slot {
                        assert(buckets@[b] == before[b]);
                    } else if j < before[b]@.len() {
                        assert(buckets@[b]@[j] == before[b]@[j]);
                    }
                }
            }
            k = k + 1;
        }
        let r = NameIndex { buckets };
        proof {
            reveal(NameIndex::indexes);
        }
        r
    }

    /// The position of `name` in the indexed list, where it occurs there.
    pub fn find(&self, names: &Vec<String>, name: &str) -> (r: Option<usize>)
        requires
            self.indexes(names@.map_values(|s: String| s@)),
        ensures
            r matches Some(k) ==> k < names@.len() && names@[k as int]@ == name@,
            r is None ==> forall|k: int| 0 <= k < names@.len() ==> #[trigger] names@[k]@ != name@,
    {
        let ghost view = names@.map_values(|s: String| s@);
        proof {
            self.lemma_nonempty(view);
        }
        let count = self.buckets.len();
        let total = names.len();
        let h = hash_name(name);
        let slot = (h % (count as u64)) as usize;
        let bucket = &self.buckets[slot];
        proof {
            assert forall|x: int| 0 <= x < bucket@.len() implies #[trigger] bucket@[x] < names@.len() by {
                self.lemma_entry(view, slot as int, x);
            }
        }
        let mut j: usize = 0;
        while j < bucket.len()
            invariant
                j <= bucket@.len(),
                forall|x: int| 0 <= x < j ==> names@[#[trigger] bucket@[x] as int]@ != name@,
                forall|x: int| 0 <= x < bucket@.len() ==> #[trigger] bucket@[x] < names@.len(),
            decreases bucket@.len() - j,
        {
            let k = bucket[j];
            if text_eq(names[k].as_str(), name) {
                return Some(k);
            }
            j = j + 1;
        }
        proof {
            assert forall|k: int| 0 <= k < names@.len() implies #[trigger] names@[k]@ != name@ by {
                if names@[k]@ == name@ {
                    assert(view[k] == name@);
                    self.lemma_member(view, k);
                    assert(name_hash(view[k]) == h);
                    assert((name_hash(view[k]) % (self.buckets@.len() as u64)) as int == slot as int);
                    assert(self.buckets@[slot as int]@.contains(k as usize));
                    assert(bucket@ == self.buckets@[slot as int]@);
                    let kk = k as usize;
                    assert(bucket@.contains(kk));
                    let x = choose|x: int| 0 <= x < bucket@.len() && bucket@[x] == kk;
                    assert(0 <= x < j);
                    assert(names@[bucket@[x] as int]@ != name@);

                }
            }
        }
        None
    }
}

} // verus!
