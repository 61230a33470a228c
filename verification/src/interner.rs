//! Numbers for texts: each gets the next number when it is first seen.

use std::collections::HashMap;
use vstd::prelude::*;
use vstd::utf8::encode_utf8;
use crate::text::same_text;

verus! {

/// Where a key stands, seen from the end.
pub open spec fn position_of<K>(keys: Seq<K>, key: K) -> Option<int>
    decreases keys.len(),
{
    if keys.len() == 0 {
        None
    } else if keys.last() == key {
        Some(keys.len() - 1)
    } else {
        position_of(keys.drop_last(), key)
    }
}

/// The position of a key is one where it stands, unless it stands nowhere.
pub proof fn lemma_position<K>(keys: Seq<K>, key: K)
    ensures
        match position_of(keys, key) {
            Some(i) => 0 <= i < keys.len() && keys[i] == key,
            None => forall|i: int| 0 <= i < keys.len() ==> keys[i] != key,
        },
    decreases keys.len(),
{
    if keys.len() > 0 && keys.last() != key {
        lemma_position(keys.drop_last(), key);
        if position_of(keys.drop_last(), key) is None {
            assert forall|i: int| 0 <= i < keys.len() implies keys[i] != key by {
                if i < keys.len() - 1 {
                    assert(keys.drop_last()[i] == keys[i]);
                }
            }
        }
    }
}

/// Each key stands only once.
pub open spec fn all_differ<K>(keys: Seq<K>) -> bool {
    forall|i: int, j: int| 0 <= i < j < keys.len() ==> keys[i] != keys[j]
}

/// Where each key stands once, the position of a key is the one where it stands.
pub proof fn lemma_position_unique<K>(keys: Seq<K>, i: int)
    requires
        all_differ(keys),
        0 <= i < keys.len(),
    ensures
        position_of(keys, keys[i]) == Some(i),
{
    lemma_position(keys, keys[i]);
}

/// The keys that have numbers: pairs of a number and a text.
pub struct Interner {
    keys: Vec<(u64, String)>,
    buckets: HashMap<u64, Vec<usize>>,
}

/// The hash of the first `n` bytes of a text, from `seed` on.
spec fn hash_upto(seed: u64, bytes: Seq<u8>, n: int) -> u64
    decreases n,
{
    if n <= 0 {
        seed
    } else {
        hash_upto(seed, bytes, n - 1).wrapping_mul(0x100_0000_01b3).wrapping_add(
            bytes[n - 1] as u64,
        )
    }
}

/// The hash of a key.
spec fn hash_of(key: (u64, Seq<char>)) -> u64 {
    hash_upto(key.0, encode_utf8(key.1), encode_utf8(key.1).len() as int)
}

fn hash_key(number: u64, text: &str) -> (r: u64)
    ensures
        r == hash_of((number, text@)),
{
    let bytes: &[u8] = text.as_bytes();
    let mut hash: u64 = number;
    let mut i: usize = 0;
    while i < bytes.len()
        invariant
            i <= bytes.len(),
            hash == hash_upto(number, bytes@, i as int),
        decreases bytes.len() - i,
    {
        hash = hash.wrapping_mul(0x100_0000_01b3).wrapping_add(bytes[i] as u64);
        i = i + 1;
    }
    hash
}

impl View for Interner {
    type V = Seq<(u64, Seq<char>)>;

    /// The keys in the order of their numbers.
    closed spec fn view(&self) -> Seq<(u64, Seq<char>)> {
        Seq::new(self.keys@.len(), |i: int| (self.keys@[i].0, self.keys@[i].1@))
    }
}

impl Interner {
    /// The bucket of the hash of the key number `i` has its number.
    spec fn is_in_bucket(&self, i: int) -> bool {
        self.buckets@.contains_key(hash_of(self@[i])) && self.buckets@[hash_of(
            self@[i],
        )]@.contains(i as usize)
    }

    /// Each key stands once, and the bucket of its hash has its number.
    pub closed spec fn wf(&self) -> bool {
        &&& all_differ(self@)
        &&& forall|i: int| 0 <= i < self@.len() ==> #[trigger] self.is_in_bucket(i)
        &&& forall|h: u64, k: int|
            #![trigger self.buckets@[h]@[k]]
            self.buckets@.contains_key(h) && 0 <= k < self.buckets@[h]@.len()
                ==> self.buckets@[h]@[k] < self.keys@.len()
    }

    /// Creates a table without keys.
    pub fn new() -> (r: Self)
        ensures
            r@ == Seq::<(u64, Seq<char>)>::empty(),
            r.wf(),
    {
        let r: Interner = Interner { keys: Vec::new(), buckets: HashMap::new() };
        assert(r@ =~= Seq::empty());
        r
    }

    /// Searches a bucket for a key.
    fn find_in(&self, bucket: &Vec<usize>, number: u64, text: &str) -> (r: Option<usize>)
        requires
            forall|k: int| 0 <= k < bucket@.len() ==> #[trigger] bucket@[k] < self@.len(),
        ensures
            match r {
                Some(i) => i < self@.len() && self@[i as int] == (number, text@),
                None => forall|k: int|
                    0 <= k < bucket@.len() ==> self@[#[trigger] bucket@[k] as int] != (
                        number,
                        text@,
                    ),
            },
    {
        let mut k: usize = 0;
        while k < bucket.len()
            invariant
                k <= bucket.len(),
                forall|m: int| 0 <= m < bucket@.len() ==> #[trigger] bucket@[m] < self@.len(),
                forall|m: int|
                    0 <= m < k ==> self@[#[trigger] bucket@[m] as int] != (number, text@),
            decreases bucket.len() - k,
        {
            let i: usize = bucket[k];
            if self.keys[i].0 == number && same_text(self.keys[i].1.as_str(), text) {
                return Some(i);
            }
            k = k + 1;
        }
        None
    }

    /// Gets the number of a key.
    pub fn find(&self, number: u64, text: &str) -> (r: Option<usize>)
        requires
            self.wf(),
        ensures
            match r {
                Some(i) => position_of(self@, (number, text@)) == Some(i as int) && i < self@.len(),
                None => position_of(self@, (number, text@)) is None,
            },
    {
        let ghost key = (number, text@);
        let hash: u64 = hash_key(number, text);
        match self.buckets.get(&hash) {
            Some(bucket) => {
                assert forall|k: int| 0 <= k < bucket@.len() implies #[trigger] bucket@[k]
                    < self@.len() by {
                    assert(self.buckets@[hash]@[k] < self.keys@.len());
                }
                let r: Option<usize> = self.find_in(bucket, number, text);
                proof {
                    match r {
                        Some(i) => {
                            lemma_position_unique(self@, i as int);
                        },
                        None => {
                            self.lemma_bucket(key);
                            if let Some(i) = position_of(self@, key) {
                                let k = choose|k: int|
                                    0 <= k < bucket@.len() && bucket@[k] == i as usize;
                                assert(self@[bucket@[k] as int] != key);
                            }
                        },
                    }
                }
                r
            },
            None => {
                proof {
                    self.lemma_bucket(key);
                }
                None
            },
        }
    }

    /// A key that has a number has it in its bucket.
    proof fn lemma_bucket(&self, key: (u64, Seq<char>))
        requires
            self.wf(),
        ensures
            match position_of(self@, key) {
                Some(i) => {
                    &&& 0 <= i <= usize::MAX
                    &&& self@[i] == key
                    &&& self.buckets@.contains_key(hash_of(key))
                    &&& self.buckets@[hash_of(key)]@.contains(i as usize)
                },
                None => true,
            },
    {
        lemma_position(self@, key);
        if let Some(i) = position_of(self@, key) {
            assert(self.is_in_bucket(i));
            assert(self.keys.len() <= usize::MAX);
        }
    }

    /// Gives a key the next number.
    pub fn insert(&mut self, number: u64, text: &str)
        requires
            old(self).wf(),
            position_of(old(self)@, (number, text@)) is None,
        ensures
            final(self)@ == old(self)@.push((number, text@)),
            final(self).wf(),
    {
        let ghost key = (number, text@);
        let ghost before = *self;
        proof {
            lemma_position(self@, key);
        }
        let hash: u64 = hash_key(number, text);
        let i: usize = self.keys.len();
        let mut bucket: Vec<usize> = match self.buckets.remove(&hash) {
            Some(bucket) => bucket,
            None => Vec::new(),
        };
        let ghost old_bucket = bucket@;
        bucket.push(i);
        let ghost new_bucket = bucket@;
        self.buckets.insert(hash, bucket);
        self.keys.push((number, text.to_owned()));
        proof {
            assert(self@ =~= before@.push(key));
            assert forall|p: int| 0 <= p < self@.len() implies #[trigger] self.is_in_bucket(p) by {
                if p < before@.len() {
                    assert(self@[p] == before@[p]);
                    assert(before.is_in_bucket(p));
                    let h = hash_of(before@[p]);
                    assert(before.buckets@[h]@.contains(p as usize));
                    if h == hash {
                        let m = choose|m: int|
                            0 <= m < old_bucket.len() && old_bucket[m] == p as usize;
                        assert(new_bucket[m] == p as usize);
                    }
                } else {
                    assert(new_bucket[old_bucket.len() as int] == i);
                }
            }
            assert forall|h: u64, k: int|
                #![trigger self.buckets@[h]@[k]]
                self.buckets@.contains_key(h) && 0 <= k < self.buckets@[h]@.len() implies
                self.buckets@[h]@[k] < self.keys@.len() by {
                if h == hash {
                    if k < old_bucket.len() {
                        assert(before.buckets@[h]@[k] < before.keys@.len());
                    }
                } else {
                    assert(before.buckets@[h]@[k] < before.keys@.len());
                }
            }
        }
    }
}

} // verus!
