//! A small chained hash map over 64-bit keys, with the kernel's own
//! FNV-style hasher. Buckets are vectors; the number of buckets doubles when
//! the load factor passes three quarters.
use vstd::prelude::*;
use vstd::wrapping::u64_specs;

verus! {

/// The FNV offset basis the hasher starts from.
pub open spec fn spec_fnv_offset() -> u64 {
    0xcbf29ce484222325
}

/// The FNV prime the hasher multiplies by.
pub open spec fn spec_fnv_prime() -> u64 {
    0x100000001b3
}

/// The hasher state after seeding.
pub open spec fn spec_seed_state(seed: u64) -> u64 {
    u64_specs::wrapping_mul(u64_specs::wrapping_add(spec_fnv_offset(), seed), spec_fnv_prime())
}

/// One step of the hasher: multiply by the prime, fold one byte in.
pub open spec fn spec_hash_step(state: u64, byte: u8) -> u64 {
    u64_specs::wrapping_mul(state, spec_fnv_prime()) ^ (byte as u64)
}

/// The hasher state after a whole byte sequence.
pub open spec fn spec_hash_bytes(state: u64, bytes: Seq<u8>) -> u64
    decreases bytes.len(),
{
    if bytes.len() == 0 {
        state
    } else {
        spec_hash_bytes(spec_hash_step(state, bytes[0]), bytes.skip(1))
    }
}

/// The final mixing of the hasher state.
pub open spec fn spec_finish(state: u64) -> u64 {
    let x1 = state ^ (state >> 30);
    let x2 = u64_specs::wrapping_mul(x1, 0xbf58476d1ce4e5b9);
    let x3 = x2 ^ (x2 >> 27);
    let x4 = u64_specs::wrapping_mul(x3, 0x94d049bb133111eb);
    x4 ^ (x4 >> 31)
}

/// The little-endian bytes of a key.
pub open spec fn spec_key_bytes(k: u64) -> Seq<u8> {
    Seq::new(8, |i: int| ((k >> (8 * i)) & 0xff) as u8)
}

/// The full hash of a key under a seed.
#[verifier::opaque]
pub open spec fn spec_key_hash(seed: u64, k: u64) -> u64 {
    spec_finish(spec_hash_bytes(spec_seed_state(seed), spec_key_bytes(k)))
}

/// The hash state builder. The kernel's build seeds each hasher from its
/// random source; here the seed is a plain value of the builder, fixed at
/// construction, so that one map always hashes one key the same way.
pub struct AxRandomState {
    pub seed: u64,
}

impl AxRandomState {
    /// A builder with the fixed default seed.
    pub fn new() -> (r: AxRandomState)
        ensures
            r.seed == 0,
    {
        AxRandomState { seed: 0 }
    }

    /// A builder with a caller-chosen seed.
    pub fn with_seed(seed: u64) -> (r: AxRandomState)
        ensures
            r.seed == seed,
    {
        AxRandomState { seed }
    }

    /// A fresh hasher seeded from this builder.
    pub fn build_hasher(&self) -> (r: SimpleHasher)
        ensures
            r.state == spec_seed_state(self.seed),
    {
        SimpleHasher::new(self.seed)
    }
}

/// A very small FNV-style hasher.
pub struct SimpleHasher {
    pub state: u64,
}

impl SimpleHasher {
    /// A hasher whose state is the seeded offset basis.
    pub fn new(seed: u64) -> (r: SimpleHasher)
        ensures
            r.state == spec_seed_state(seed),
    {
        let state = 0xcbf29ce484222325u64.wrapping_add(seed).wrapping_mul(0x100000001b3u64);
        SimpleHasher { state }
    }

    /// Folds the given bytes into the state, one at a time.
    pub fn write(&mut self, bytes: &[u8])
        ensures
            final(self).state == spec_hash_bytes(old(self).state, bytes@),
    {
        let n = bytes.len();
        let mut i: usize = 0;
        proof {
            assert(bytes@.skip(0) =~= bytes@);
        }
        while i < n
            invariant
                i <= n,
                n == bytes@.len(),
                spec_hash_bytes(self.state, bytes@.skip(i as int)) == spec_hash_bytes(
                    old(self).state,
                    bytes@,
                ),
            decreases n - i,
        {
            let ghost pre = self.state;
            self.state = self.state.wrapping_mul(0x100000001b3u64) ^ (bytes[i] as u64);
            proof {
                assert(self.state == spec_hash_step(pre, bytes@[i as int]));
                assert(bytes@.skip(i as int)[0] == bytes@[i as int]);
                assert(bytes@.skip(i as int).skip(1) =~= bytes@.skip(i + 1));
            }
            i += 1;
        }
        proof {
            assert(bytes@.skip(n as int).len() == 0);
        }
    }

    /// The mixed final hash of the state.
    pub fn finish(&self) -> (r: u64)
        ensures
            r == spec_finish(self.state),
    {
        let mut x = self.state;
        x ^= x >> 30;
        x = x.wrapping_mul(0xbf58476d1ce4e5b9u64);
        x ^= x >> 27;
        x = x.wrapping_mul(0x94d049bb133111ebu64);
        x ^= x >> 31;
        x
    }
}

/// The bucket count a map starts with.
pub const INITIAL_CAPACITY: usize = 8;

/// One chain of the table.
pub struct Bucket<V> {
    pub items: Vec<(u64, V)>,
}

impl<V> Bucket<V> {
    fn new() -> (r: Bucket<V>)
        ensures
            r.items@.len() == 0,
    {
        Bucket { items: Vec::new() }
    }
}

/// A chained hash map from 64-bit keys to values. Its image is the map of
/// the entries it holds.
pub struct HashMap<V> {
    pub buckets: Vec<Bucket<V>>,
    pub len: usize,
    pub hasher_builder: AxRandomState,
    pub contents: Ghost<Map<u64, V>>,
}

/// The entries of one bucket, as a map.
pub open spec fn bkt_as_map<V>(s: Seq<(u64, V)>) -> Map<u64, V>
    decreases s.len(),
{
    if s.len() == 0 {
        Map::empty()
    } else {
        bkt_as_map(s.drop_last()).insert(s.last().0, s.last().1)
    }
}

/// The entries of a sequence of buckets, as one map.
pub open spec fn bkts_as_map<V>(bs: Seq<Bucket<V>>) -> Map<u64, V>
    decreases bs.len(),
{
    if bs.len() == 0 {
        Map::empty()
    } else {
        bkts_as_map(bs.drop_last()).union_prefer_right(bkt_as_map(bs.last().items@))
    }
}

proof fn lemma_bkt_as_map_dom<V>(s: Seq<(u64, V)>)
    ensures
        forall|k: u64|
            bkt_as_map(s).contains_key(k) <==> exists|j: int| 0 <= j < s.len() && (#[trigger] s[j]).0
                == k,
    decreases s.len(),
{
    if s.len() > 0 {
        lemma_bkt_as_map_dom(s.drop_last());
        assert forall|k: u64| bkt_as_map(s).contains_key(k) implies exists|j: int|
            0 <= j < s.len() && (#[trigger] s[j]).0 == k by {
            if k == s.last().0 {
                assert(s[s.len() - 1].0 == k);
            } else {
                assert(bkt_as_map(s.drop_last()).contains_key(k));
                let j = choose|j: int|
                    0 <= j < s.drop_last().len() && (#[trigger] s.drop_last()[j]).0 == k;
                assert(s.drop_last()[j] == s[j]);
                assert(s[j].0 == k);
            }
        }
        assert forall|k: u64|
            exists|j: int| 0 <= j < s.len() && (#[trigger] s[j]).0 == k implies bkt_as_map(
            s,
        ).contains_key(k) by {
            let j = choose|j: int| 0 <= j < s.len() && (#[trigger] s[j]).0 == k;
            if j < s.len() - 1 {
                assert(s.drop_last()[j] == s[j]);
                assert(s.drop_last()[j].0 == k);
                assert(bkt_as_map(s.drop_last()).contains_key(k));
            }
        }
    }
}

proof fn lemma_bkts_as_map_dom<V>(bs: Seq<Bucket<V>>)
    ensures
        forall|k: u64|
            bkts_as_map(bs).contains_key(k) <==> exists|bi: int, j: int|
                0 <= bi < bs.len() && 0 <= j < bs[bi].items@.len() && (#[trigger] bs[bi].items@[j]).0
                    == k,
    decreases bs.len(),
{
    if bs.len() > 0 {
        lemma_bkts_as_map_dom(bs.drop_last());
        lemma_bkt_as_map_dom(bs.last().items@);
        assert forall|k: u64| bkts_as_map(bs).contains_key(k) implies exists|bi: int, j: int|
            0 <= bi < bs.len() && 0 <= j < bs[bi].items@.len() && (#[trigger] bs[bi].items@[j]).0
                == k by {
            if bkt_as_map(bs.last().items@).contains_key(k) {
                let j = choose|j: int|
                    0 <= j < bs.last().items@.len() && (#[trigger] bs.last().items@[j]).0 == k;
                assert(bs[bs.len() - 1].items@[j].0 == k);
            } else {
                assert(bkts_as_map(bs.drop_last()).contains_key(k));
                let (bi, j) = choose|bi: int, j: int|
                    0 <= bi < bs.drop_last().len() && 0 <= j < bs.drop_last()[bi].items@.len() && (
                    #[trigger] bs.drop_last()[bi].items@[j]).0 == k;
                assert(bs.drop_last()[bi] == bs[bi]);
                assert(bs[bi].items@[j].0 == k);
            }
        }
        assert forall|k: u64|
            exists|bi: int, j: int|
                0 <= bi < bs.len() && 0 <= j < bs[bi].items@.len() && (#[trigger] bs[bi].items@[j]).0
                    == k implies bkts_as_map(bs).contains_key(k) by {
            let (bi, j) = choose|bi: int, j: int|
                0 <= bi < bs.len() && 0 <= j < bs[bi].items@.len() && (#[trigger] bs[bi].items@[j]).0
                    == k;
            if bi < bs.len() - 1 {
                assert(bs.drop_last()[bi] == bs[bi]);
                assert(bs.drop_last()[bi].items@[j].0 == k);
                assert(bkts_as_map(bs.drop_last()).contains_key(k));
                assert(bkt_as_map(bs.last().items@).contains_key(k) || bkts_as_map(
                    bs.drop_last(),
                ).contains_key(k));
            } else {
                assert(bs.last().items@[j].0 == k);
                assert(bkt_as_map(bs.last().items@).contains_key(k));
            }
        }
    }
}

impl<V> HashMap<V> {
    /// The map this table holds.
    pub open spec fn view(&self) -> Map<u64, V> {
        self.contents@
    }

    /// The bucket a key belongs to under the current bucket count.
    pub open spec fn spec_bucket_of(&self, k: u64) -> int {
        (spec_key_hash(self.hasher_builder.seed, k) & ((self.buckets@.len() - 1) as u64)) as int
    }

    /// The internal soundness of the table: at least one bucket; every item
    /// sits in the bucket its key hashes to; keys are unique within a
    /// bucket; and the items are exactly the entries of the map image.
    pub open spec fn wf(&self) -> bool {
        &&& self.buckets@.len() >= 1
        &&& self.contents@.dom().finite()
        &&& self.len == self.contents@.dom().len()
        &&& forall|bi: int, j: int|
            0 <= bi < self.buckets@.len() && 0 <= j < self.buckets@[bi].items@.len()
                ==> self.spec_bucket_of((#[trigger] self.buckets@[bi].items@[j]).0) == bi
        &&& forall|bi: int, j1: int, j2: int|
            0 <= bi < self.buckets@.len() && 0 <= j1 < j2 < self.buckets@[bi].items@.len() ==> (
            #[trigger] self.buckets@[bi].items@[j1]).0 != (#[trigger] self.buckets@[bi].items@[j2]).0
        &&& forall|bi: int, j: int|
            0 <= bi < self.buckets@.len() && 0 <= j < self.buckets@[bi].items@.len()
                ==> self.contents@.contains_key((#[trigger] self.buckets@[bi].items@[j]).0)
                && self.contents@[self.buckets@[bi].items@[j].0] == self.buckets@[bi].items@[j].1
        &&& forall|k: u64|
            self.contents@.contains_key(k) ==> exists|j: int|
                0 <= j < self.buckets@[self.spec_bucket_of(k)].items@.len() && (
                #[trigger] self.buckets@[self.spec_bucket_of(k)].items@[j]).0 == k
    }

    /// A fresh, empty map with the default seed and starting capacity.
    pub fn new() -> (r: HashMap<V>)
        ensures
            r.wf(),
            r@ == Map::<u64, V>::empty(),
            r.buckets@.len() == INITIAL_CAPACITY,
    {
        Self::with_capacity_and_hasher(INITIAL_CAPACITY, AxRandomState::new())
    }

    /// A fresh, empty map with at least the given capacity.
    fn with_capacity_and_hasher(capacity: usize, hasher_builder: AxRandomState) -> (r: HashMap<V>)
        ensures
            r.wf(),
            r@ == Map::<u64, V>::empty(),
            r.buckets@.len() == if capacity < INITIAL_CAPACITY {
                INITIAL_CAPACITY as int
            } else {
                capacity as int
            },
            r.hasher_builder == hasher_builder,
    {
        let cap = if capacity < INITIAL_CAPACITY {
            INITIAL_CAPACITY
        } else {
            capacity
        };
        let mut buckets: Vec<Bucket<V>> = Vec::new();
        let mut i: usize = 0;
        while i < cap
            invariant
                i <= cap,
                buckets@.len() == i,
                forall|b: int| 0 <= b < i ==> (#[trigger] buckets@[b]).items@.len() == 0,
            decreases cap - i,
        {
            buckets.push(Bucket::new());
            i += 1;
        }
        let r = HashMap { buckets, len: 0, hasher_builder, contents: Ghost(Map::empty()) };
        proof {
            assert(r.contents@.dom() =~= Set::empty());
        }
        r
    }

    /// The hash of a key under this map's seed.
    fn make_hash(&self, key: u64) -> (r: u64)
        ensures
            r == spec_key_hash(self.hasher_builder.seed, key),
    {
        let mut bytes: Vec<u8> = Vec::new();
        let mut i: u32 = 0;
        while i < 8
            invariant
                i <= 8,
                bytes@.len() == i,
                forall|j: int| 0 <= j < i ==> bytes@[j] == spec_key_bytes(key)[j],
            decreases 8 - i,
        {
            bytes.push(((key >> (8 * i)) & 0xff) as u8);
            i += 1;
        }
        proof {
            assert(bytes@ =~= spec_key_bytes(key));
            reveal(spec_key_hash);
        }
        let mut hasher = self.hasher_builder.build_hasher();
        hasher.write(bytes.as_slice());
        hasher.finish()
    }

    /// The index of the bucket for a hash under the current bucket count.
    fn bucket_index(&self, hash: u64) -> (r: usize)
        requires
            self.buckets@.len() >= 1,
        ensures
            r as int == (hash & ((self.buckets@.len() - 1) as u64)) as int,
            r < self.buckets@.len(),
    {
        let n = self.buckets.len() as u64;
        let mask = n - 1;
        let r = hash & mask;
        proof {
            assert(forall|h: u64, m: u64| #[trigger] (h & m) <= m) by (bit_vector);
            assert((hash & mask) <= mask);
        }
        r as usize
    }

    /// The number of entries.
    pub fn len(&self) -> (r: usize)
        requires
            self.wf(),
        ensures
            r == self@.len(),
    {
        self.len
    }

    /// Whether the map has no entries.
    pub fn is_empty(&self) -> (r: bool)
        requires
            self.wf(),
        ensures
            r == (self@.len() == 0),
    {
        self.len == 0
    }

    /// The value stored under a key, if any.
    pub fn get(&self, key: u64) -> (r: Option<&V>)
        requires
            self.wf(),
        ensures
            match r {
                Some(v) => self@.contains_key(key) && *v == self@[key],
                None => !self@.contains_key(key),
            },
    {
        if self.is_empty() {
            proof {
                if self@.contains_key(key) {
                    vstd::set_lib::lemma_set_empty_equivalency_len(self@.dom());
                }
            }
            return None;
        }
        let hash = self.make_hash(key);
        let index = self.bucket_index(hash);
        let n = self.buckets[index].items.len();
        let mut j: usize = 0;
        while j < n
            invariant
                j <= n,
                self.wf(),
                index < self.buckets@.len(),
                index as int == self.spec_bucket_of(key),
                n == self.buckets@[index as int].items@.len(),
                forall|t: int|
                    0 <= t < j ==> (#[trigger] self.buckets@[index as int].items@[t]).0 != key,
            decreases n - j,
        {
            if self.buckets[index].items[j].0 == key {
                proof {
                    assert(self.buckets@[index as int].items@[j as int].0 == key);
                }
                return Some(&self.buckets[index].items[j].1);
            }
            j += 1;
        }
        proof {
            if self@.contains_key(key) {
                let t = choose|t: int|
                    0 <= t < self.buckets@[self.spec_bucket_of(key)].items@.len() && (
                #[trigger] self.buckets@[self.spec_bucket_of(key)].items@[t]).0 == key;
                assert(false);
            }
        }
        None
    }

    /// Puts a value under a key without growing the table: the core of
    /// insertion. Returns the value the key held before, if any.
    #[verifier::rlimit(100)]
    fn insert_core(&mut self, key: u64, value: V) -> (r: Option<V>)
        requires
            old(self).wf(),
            old(self)@.len() < usize::MAX,
        ensures
            final(self).wf(),
            final(self)@ == old(self)@.insert(key, value),
            final(self).buckets@.len() == old(self).buckets@.len(),
            final(self).hasher_builder == old(self).hasher_builder,
            match r {
                Some(v) => old(self)@.contains_key(key) && v == old(self)@[key],
                None => !old(self)@.contains_key(key),
            },
    {
        let ghost m0 = self.contents@;
        let hash = self.make_hash(key);
        let index = self.bucket_index(hash);
        let mut bucket = self.buckets.remove(index);
        proof {
            assert(bucket.items@ == old(self).buckets@[index as int].items@);
        }
        let n = bucket.items.len();
        let mut j: usize = 0;
        let mut found: Option<usize> = None;
        while j < n
            invariant
                j <= n,
                n == bucket.items@.len(),
                match found {
                    Some(f) => f < n && bucket.items@[f as int].0 == key,
                    None => forall|t: int| 0 <= t < j ==> (#[trigger] bucket.items@[t]).0 != key,
                },
            decreases n - j,
        {
            if bucket.items[j].0 == key {
                found = Some(j);
                j = n;
            } else {
                j += 1;
            }
        }
        let ghost items0 = bucket.items@;
        let r: Option<V>;
        match found {
            Some(f) => {
                let (_, old_v) = bucket.items.remove(f);
                bucket.items.insert(f, (key, value));
                proof {
                    assert(bucket.items@ =~= items0.update(f as int, (key, value)));
                }
                r = Some(old_v);
            },
            None => {
                bucket.items.push((key, value));
                self.len = self.len + 1;
                r = None;
            },
        }
        self.buckets.insert(index, bucket);
        proof {
            self.contents@ = m0.insert(key, value);
        }
        proof {
            let bs = self.buckets@;
            let obs = old(self).buckets@;
            let bi0 = index as int;
            assert(bs =~= obs.update(bi0, bs[bi0]));
            assert(forall|k: u64| self.spec_bucket_of(k) == old(self).spec_bucket_of(k));
            assert(old(self)@.contains_key(key) == (found is Some)) by {
                if found is Some {
                    let f = found->0;
                    assert(obs[bi0].items@[f as int].0 == key);
                } else {
                    if old(self)@.contains_key(key) {
                        let j2 = choose|j2: int|
                            0 <= j2 < obs[old(self).spec_bucket_of(key)].items@.len() && (
                            #[trigger] obs[old(self).spec_bucket_of(key)].items@[j2]).0 == key;
                        assert(obs[bi0].items@[j2].0 == key);
                    }
                }
            }
            if found is None {
                assert(self@.dom() =~= m0.dom().insert(key));
            } else {
                assert(self@.dom() =~= m0.dom());
                let f = found->0;
                assert(m0[key] == items0[f as int].1) by {
                    assert(obs[bi0].items@[f as int].0 == key);
                }
            }
            let ghost fi: int = match found {
                Some(f) => f as int,
                None => items0.len() as int,
            };
            assert forall|k2: u64| 0 <= #[trigger] old(self).spec_bucket_of(k2)
                < obs.len() by {
                let hsh = spec_key_hash(old(self).hasher_builder.seed, k2);
                let m = (obs.len() - 1) as u64;
                assert((hsh & m) <= m) by (bit_vector);
            }
            assert(bs[bi0].items@.len() == items0.len() + if found is Some {
                0int
            } else {
                1int
            });
            assert(bs[bi0].items@[fi] == (key, value));
            assert(forall|j2: int|
                0 <= j2 < bs[bi0].items@.len() && j2 != fi ==> #[trigger] bs[bi0].items@[j2]
                    == obs[bi0].items@[j2]);
            assert forall|bi: int, j2: int|
                0 <= bi < bs.len() && 0 <= j2 < bs[bi].items@.len() implies {
                &&& self.spec_bucket_of((#[trigger] bs[bi].items@[j2]).0) == bi
                &&& self.contents@.contains_key(bs[bi].items@[j2].0)
                &&& self.contents@[bs[bi].items@[j2].0] == bs[bi].items@[j2].1
            } by {
                if bi == bi0 {
                    if j2 == fi {
                        assert(bs[bi].items@[j2] == (key, value));
                    } else {
                        assert(bs[bi].items@[j2] == obs[bi0].items@[j2]);
                        assert(obs[bi0].items@[j2].0 != key) by {
                            match found {
                                Some(f) => {
                                    assert(obs[bi0].items@[f as int].0 == key);
                                },
                                None => {
                                },
                            }
                        }
                    }
                } else {
                    assert(bs[bi] == obs[bi]);
                    assert(obs[bi].items@[j2].0 != key) by {
                        assert(old(self).spec_bucket_of(obs[bi].items@[j2].0) == bi);
                        if obs[bi].items@[j2].0 == key {
                            assert(old(self).spec_bucket_of(key) == bi0);
                        }
                    }
                }
            }
            assert forall|bi: int, j1: int, j2: int|
                0 <= bi < bs.len() && 0 <= j1 < j2 < bs[bi].items@.len() implies (
            #[trigger] bs[bi].items@[j1]).0 != (#[trigger] bs[bi].items@[j2]).0 by {
                if bi == bi0 {
                    if j1 != fi && j2 != fi {
                        assert(bs[bi].items@[j1] == obs[bi0].items@[j1]);
                        assert(bs[bi].items@[j2] == obs[bi0].items@[j2]);
                    } else {
                        let jo = if j1 == fi {
                            j2
                        } else {
                            j1
                        };
                        assert(bs[bi].items@[jo] == obs[bi0].items@[jo]);
                        assert(obs[bi0].items@[jo].0 != key) by {
                            match found {
                                Some(f) => {
                                    assert(obs[bi0].items@[f as int].0 == key);
                                },
                                None => {
                                },
                            }
                        }
                    }
                } else {
                    assert(bs[bi] == obs[bi]);
                }
            }
            assert forall|k: u64| self.contents@.contains_key(k) implies exists|j2: int|
                0 <= j2 < bs[self.spec_bucket_of(k)].items@.len() && (
            #[trigger] bs[self.spec_bucket_of(k)].items@[j2]).0 == k by {
                if k == key {
                    assert(bs[bi0].items@[fi].0 == k);
                } else {
                    let bk = old(self).spec_bucket_of(k);
                    let j2 = choose|j2: int|
                        0 <= j2 < obs[bk].items@.len() && (#[trigger] obs[bk].items@[j2]).0 == k;
                    if bk != bi0 {
                        assert(bs[bk] == obs[bk]);
                        assert(bs[bk].items@[j2].0 == k);
                    } else {
                        assert(j2 != fi || found is None);
                        assert(bs[bi0].items@[j2] == obs[bi0].items@[j2]) by {
                            if found is None {
                                assert(j2 < items0.len());
                            } else {
                                assert(obs[bi0].items@[fi].0 == key);
                                assert(j2 != fi);
                            }
                        }
                        assert(bs[bi0].items@[j2].0 == k);
                    }
                }
            }
        }
        r
    }

    /// Doubles the bucket count and rehashes every entry; the entries
    /// themselves do not change. Doubling saturates at the largest count,
    /// and a table already there stays as it is.
    fn resize(&mut self)
        requires
            old(self).wf(),
        ensures
            final(self).wf(),
            final(self)@ == old(self)@,
            final(self).hasher_builder == old(self).hasher_builder,
            final(self).buckets@.len() == ({
                let cur = old(self).buckets@.len() as int;
                let doubled = if 2 * cur <= usize::MAX {
                    2 * cur
                } else {
                    usize::MAX as int
                };
                if doubled == cur {
                    cur
                } else if doubled < INITIAL_CAPACITY {
                    INITIAL_CAPACITY as int
                } else {
                    doubled
                }
            }),
    {
        let current_capacity = self.buckets.len();
        let new_capacity = match current_capacity.checked_mul(2) {
            Some(x) => x,
            None => usize::MAX,
        };
        if new_capacity == current_capacity {
            return ;
        }
        let mut fresh: HashMap<V> = Self::with_capacity_and_hasher(
            new_capacity,
            AxRandomState { seed: self.hasher_builder.seed },
        );
        proof {
            lemma_bkts_as_map_dom(self.buckets@);
        }
        let ghost fresh_cap = fresh.buckets@.len() as int;
        let ghost whole = self.buckets@;
        let ghost m0 = self.contents@;
        // The entries of the whole table are the map image.
        proof {
            lemma_hashmap_buckets_as_map(self);
        }
        while self.buckets.len() > 0
            invariant
                self.buckets@ == whole.take(self.buckets@.len() as int),
                self.buckets@.len() <= whole.len(),
                m0.dom().len() <= usize::MAX,
                fresh.wf(),
                fresh.hasher_builder.seed == old(self).hasher_builder.seed,
                fresh.buckets@.len() == fresh_cap,
                fresh.buckets@.len() >= 1,
                m0 == bkts_as_map(self.buckets@).union_prefer_right(fresh.contents@),
                m0.dom().finite(),
                forall|k: u64|
                    fresh.contents@.contains_key(k) ==> !bkts_as_map(
                        self.buckets@,
                    ).contains_key(k),
                forall|bi: int, j1: int, j2: int|
                    0 <= bi < self.buckets@.len() && 0 <= j1 < j2 < self.buckets@[bi].items@.len()
                        ==> (#[trigger] self.buckets@[bi].items@[j1]).0 != (
                    #[trigger] self.buckets@[bi].items@[j2]).0,
                forall|bi: int, j: int|
                    0 <= bi < self.buckets@.len() && 0 <= j < self.buckets@[bi].items@.len()
                        ==> old(self).spec_bucket_of((#[trigger] self.buckets@[bi].items@[j]).0)
                        == bi,
                fresh.contents@.dom().finite(),
                fresh.contents@.dom().len() <= m0.dom().len(),
            decreases self.buckets@.len(),
        {
            let mut bucket = match self.buckets.pop() {
                Some(b) => b,
                None => {
                    return ;
                },
            };
            let ghost nb = self.buckets@.len() as int;
            proof {
                assert(whole.take(nb + 1).drop_last() =~= whole.take(nb));
                assert(self.buckets@ =~= whole.take(nb));
            }
            while bucket.items.len() > 0
                invariant
                    self.buckets@ == whole.take(self.buckets@.len() as int),
                    self.buckets@.len() <= whole.len(),
                    m0.dom().len() <= usize::MAX,
                    fresh.wf(),
                    fresh.hasher_builder.seed == old(self).hasher_builder.seed,
                    fresh.buckets@.len() == fresh_cap,
                    m0 == bkts_as_map(self.buckets@).union_prefer_right(
                        bkt_as_map(bucket.items@),
                    ).union_prefer_right(fresh.contents@),
                    m0.dom().finite(),
                    forall|k: u64|
                        fresh.contents@.contains_key(k) ==> !bkts_as_map(
                            self.buckets@,
                        ).contains_key(k) && !bkt_as_map(bucket.items@).contains_key(k),
                    forall|j1: int, j2: int|
                        0 <= j1 < j2 < bucket.items@.len() ==> (#[trigger] bucket.items@[j1]).0 != (
                        #[trigger] bucket.items@[j2]).0,
                    forall|j: int|
                        0 <= j < bucket.items@.len() ==> old(self).spec_bucket_of(
                            (#[trigger] bucket.items@[j]).0,
                        ) == self.buckets@.len() as int,
                    forall|bi: int, j1: int, j2: int|
                        0 <= bi < self.buckets@.len() && 0 <= j1 < j2 < self.buckets@[bi].items@.len()
                            ==> (#[trigger] self.buckets@[bi].items@[j1]).0 != (
                        #[trigger] self.buckets@[bi].items@[j2]).0,
                    forall|bi: int, j: int|
                        0 <= bi < self.buckets@.len() && 0 <= j < self.buckets@[bi].items@.len()
                            ==> old(self).spec_bucket_of(
                            (#[trigger] self.buckets@[bi].items@[j]).0,
                        ) == bi,
                    fresh.contents@.dom().finite(),
                    fresh.contents@.dom().len() <= m0.dom().len(),
                decreases bucket.items@.len(),
            {
                let ghost items_before = bucket.items@;
                let (k, v) = match bucket.items.pop() {
                    Some(kv) => kv,
                    None => {
                        return ;
                    },
                };
                proof {
                    lemma_bkt_as_map_dom(bucket.items@);
                    lemma_bkts_as_map_dom(self.buckets@);
                    assert(!bkt_as_map(bucket.items@).contains_key(k)) by {
                        if bkt_as_map(bucket.items@).contains_key(k) {
                            let j = choose|j: int|
                                0 <= j < bucket.items@.len() && (#[trigger] bucket.items@[j]).0
                                    == k;
                            assert(items_before[j].0 != items_before[items_before.len() - 1].0);
                        }
                    }
                    assert(!bkts_as_map(self.buckets@).contains_key(k)) by {
                        if bkts_as_map(self.buckets@).contains_key(k) {
                            let (bi, j) = choose|bi: int, j: int|
                                0 <= bi < self.buckets@.len() && 0 <= j
                                    < self.buckets@[bi].items@.len() && (
                                #[trigger] self.buckets@[bi].items@[j]).0 == k;
                            assert(old(self).spec_bucket_of(k) == bi);
                            assert(old(self).spec_bucket_of(k) == self.buckets@.len() as int);
                        }
                    }
                    assert(!fresh.contents@.contains_key(k)) by {
                        assert(bkt_as_map(items_before).contains_key(k)) by {
                            lemma_bkt_as_map_dom(items_before);
                            assert(items_before[items_before.len() - 1].0 == k);
                        }
                    }
                    assert(m0.contains_key(k) && m0[k] == v) by {
                        assert(bkt_as_map(items_before) == bkt_as_map(bucket.items@).insert(k, v));
                    }
                    assert(fresh.contents@.dom().len() < m0.dom().len()) by {
                        assert(fresh.contents@.dom() <= m0.dom().remove(k)) by {
                            assert forall|k2: u64|
                                fresh.contents@.dom().contains(k2) implies m0.dom().remove(
                                k,
                            ).contains(k2) by {
                                assert(m0.contains_key(k2));
                            }
                        }
                        vstd::set_lib::lemma_len_subset(
                            fresh.contents@.dom(),
                            m0.dom().remove(k),
                        );
                    }
                }
                fresh.insert_core(k, v);
                proof {
                    assert(m0 =~= bkts_as_map(self.buckets@).union_prefer_right(
                        bkt_as_map(bucket.items@),
                    ).union_prefer_right(fresh.contents@));
                }
            }
            proof {
                assert(bkt_as_map(bucket.items@) =~= Map::<u64, V>::empty());
                assert(m0 =~= bkts_as_map(self.buckets@).union_prefer_right(fresh.contents@));
            }
        }
        proof {
            assert(bkts_as_map(self.buckets@) =~= Map::<u64, V>::empty());
            assert(m0 =~= fresh.contents@);
        }
        *self = fresh;
    }

    /// Grows the table when more than three quarters of the buckets are
    /// spoken for.
    fn resize_if_needed(&mut self)
        requires
            old(self).wf(),
        ensures
            final(self).wf(),
            final(self)@ == old(self)@,
            final(self).hasher_builder == old(self).hasher_builder,
    {
        let load_exceeded = (self.len as u128) * 4 > (self.buckets.len() as u128) * 3;
        if load_exceeded {
            self.resize();
        }
    }

    /// Inserts a key-value pair. An existing value under the key is
    /// replaced and returned; otherwise the map grows by one entry.
    pub fn insert(&mut self, key: u64, value: V) -> (r: Option<V>)
        requires
            old(self).wf(),
            old(self)@.len() < usize::MAX,
        ensures
            final(self).wf(),
            final(self)@ == old(self)@.insert(key, value),
            match r {
                Some(v) => old(self)@.contains_key(key) && v == old(self)@[key],
                None => !old(self)@.contains_key(key),
            },
    {
        self.resize_if_needed();
        self.insert_core(key, value)
    }
}

/// A cursor over the entries of a map, walking the buckets in order. Each
/// step yields one entry of the map; the order is the table layout, not the
/// key order.
pub struct Iter<'a, V> {
    pub map_buckets: &'a Vec<Bucket<V>>,
    pub current_bucket_idx: usize,
    pub current_item_idx_in_bucket: usize,
    pub entries: Ghost<Map<u64, V>>,
}

impl<'a, V> Iter<'a, V> {
    /// What the cursor relies on: every item of the walked buckets is an
    /// entry of the map it was made from.
    pub open spec fn wf(&self) -> bool {
        forall|bi: int, j: int|
            0 <= bi < self.map_buckets@.len() && 0 <= j < self.map_buckets@[bi].items@.len()
                ==> self.entries@.contains_key((#[trigger] self.map_buckets@[bi].items@[j]).0)
                && self.entries@[self.map_buckets@[bi].items@[j].0]
                == self.map_buckets@[bi].items@[j].1
    }

    /// The map the cursor was made from.
    pub open spec fn map_view(&self) -> Map<u64, V> {
        self.entries@
    }

    fn new(map: &'a HashMap<V>) -> (r: Iter<'a, V>)
        requires
            map.wf(),
        ensures
            r.wf(),
            r.map_view() == map@,
            r.map_buckets == &map.buckets,
            r.current_bucket_idx == 0,
            r.current_item_idx_in_bucket == 0,
    {
        Iter {
            map_buckets: &map.buckets,
            current_bucket_idx: 0,
            current_item_idx_in_bucket: 0,
            entries: Ghost(map.contents@),
        }
    }

    /// The number of items the cursor still owes from a bucket: all of
    /// them, except that the bucket the cursor stands in starts at the
    /// cursor's item index.
    pub open spec fn resume_at(&self, bi: int) -> int {
        if bi == self.current_bucket_idx as int {
            self.current_item_idx_in_bucket as int
        } else {
            0
        }
    }

    /// The next entry, or nothing once every bucket is walked. The entry is
    /// exactly the first one at or after the cursor's position; buckets the
    /// cursor skips hold nothing at or after it.
    pub fn next(&mut self) -> (r: Option<(u64, &'a V)>)
        requires
            old(self).wf(),
        ensures
            final(self).wf(),
            final(self).map_view() == old(self).map_view(),
            final(self).map_buckets == old(self).map_buckets,
            match r {
                Some(kv) => {
                    let bi = final(self).current_bucket_idx as int;
                    let j = final(self).current_item_idx_in_bucket - 1;
                    &&& old(self).current_bucket_idx as int <= bi
                        < old(self).map_buckets@.len()
                    &&& j == old(self).resume_at(bi)
                    &&& 0 <= j < old(self).map_buckets@[bi].items@.len()
                    &&& kv.0 == old(self).map_buckets@[bi].items@[j].0
                    &&& *kv.1 == old(self).map_buckets@[bi].items@[j].1
                    &&& old(self).map_view().contains_key(kv.0) && *kv.1 == old(
                        self,
                    ).map_view()[kv.0]
                    &&& forall|b2: int|
                        old(self).current_bucket_idx <= b2 < bi ==> (#[trigger] old(
                            self,
                        ).map_buckets@[b2]).items@.len() <= old(self).resume_at(b2)
                },
                None => forall|b2: int|
                    old(self).current_bucket_idx <= b2 < old(self).map_buckets@.len() ==> (
                    #[trigger] old(self).map_buckets@[b2]).items@.len() <= old(self).resume_at(
                        b2,
                    ),
            },
    {
        let b = self.map_buckets;
        let nb = b.len();
        loop
            invariant
                self.wf(),
                self.map_buckets == old(self).map_buckets,
                self.entries == old(self).entries,
                b == self.map_buckets,
                nb == b@.len(),
                old(self).current_bucket_idx <= self.current_bucket_idx,
                self.current_item_idx_in_bucket as int == old(self).resume_at(
                    self.current_bucket_idx as int,
                ),
                forall|b2: int|
                    old(self).current_bucket_idx <= b2 < self.current_bucket_idx ==> (
                    #[trigger] old(self).map_buckets@[b2]).items@.len() <= old(self).resume_at(
                        b2,
                    ),
            decreases nb - self.current_bucket_idx,
        {
            if self.current_bucket_idx >= nb {
                return None;
            }
            let items_len = b[self.current_bucket_idx].items.len();
            if self.current_item_idx_in_bucket < items_len {
                let bi = self.current_bucket_idx;
                let j = self.current_item_idx_in_bucket;
                self.current_item_idx_in_bucket = j + 1;
                let entry = &b[bi].items[j];
                proof {
                    assert(self.map_buckets@[bi as int].items@[j as int] == *entry);
                }
                return Some((entry.0, &entry.1));
            } else {
                self.current_bucket_idx = self.current_bucket_idx + 1;
                self.current_item_idx_in_bucket = 0;
            }
        }
    }
}

impl<V> HashMap<V> {
    /// A cursor over all entries, starting at the first bucket.
    pub fn iter(&self) -> (r: Iter<'_, V>)
        requires
            self.wf(),
        ensures
            r.wf(),
            r.map_view() == self@,
            r.map_buckets == &self.buckets,
            r.current_bucket_idx == 0,
            r.current_item_idx_in_bucket == 0,
    {
        Iter::new(self)
    }
}

/// In a well-formed table the buckets, read as one map, are exactly the
/// map image.
proof fn lemma_hashmap_buckets_as_map<V>(m: &HashMap<V>)
    requires
        m.wf(),
    ensures
        bkts_as_map(m.buckets@) == m.contents@,
{
    lemma_bkts_as_map_dom(m.buckets@);
    assert forall|k2: u64| 0 <= #[trigger] m.spec_bucket_of(k2) < m.buckets@.len() by {
        let hsh = spec_key_hash(m.hasher_builder.seed, k2);
        let mk = (m.buckets@.len() - 1) as u64;
        assert((hsh & mk) <= mk) by (bit_vector);
    }
    assert(m.buckets@.take(m.buckets@.len() as int) =~= m.buckets@);
    lemma_bkts_as_map_values(m.buckets@, m.contents@, m);
    assert(bkts_as_map(m.buckets@) =~= m.contents@);
}

/// Every prefix of a well-formed table's buckets reads back the values the
/// map image gives its keys.
proof fn lemma_bkts_as_map_values<V>(bs: Seq<Bucket<V>>, m: Map<u64, V>, h: &HashMap<V>)
    requires
        h.wf(),
        bs == h.buckets@.take(bs.len() as int),
        bs.len() <= h.buckets@.len(),
        m == h.contents@,
    ensures
        forall|k: u64| #[trigger]
            bkts_as_map(bs).contains_key(k) ==> m.contains_key(k) && bkts_as_map(bs)[k] == m[k],
    decreases bs.len(),
{
    if bs.len() > 0 {
        assert(bs.drop_last() =~= h.buckets@.take(bs.len() - 1));
        lemma_bkts_as_map_values(bs.drop_last(), m, h);
        assert(bs.last() == h.buckets@[bs.len() - 1]);
        assert(bs.last().items@.take(bs.last().items@.len() as int) =~= bs.last().items@);
        lemma_bkt_as_map_values(bs.last().items@, bs.len() - 1, h);
        assert forall|k: u64| #[trigger] bkts_as_map(bs).contains_key(k) implies m.contains_key(k)
            && bkts_as_map(bs)[k] == m[k] by {
            if bkt_as_map(bs.last().items@).contains_key(k) {
                assert(bkts_as_map(bs)[k] == bkt_as_map(bs.last().items@)[k]);
            } else {
                assert(bkts_as_map(bs.drop_last()).contains_key(k));
            }
        }
    }
}

/// One bucket of a well-formed table reads back the values the map image
/// gives its keys.
proof fn lemma_bkt_as_map_values<V>(s: Seq<(u64, V)>, bi: int, h: &HashMap<V>)
    requires
        h.wf(),
        0 <= bi < h.buckets@.len(),
        s == h.buckets@[bi].items@.take(s.len() as int),
        s.len() <= h.buckets@[bi].items@.len(),
    ensures
        forall|k: u64| #[trigger]
            bkt_as_map(s).contains_key(k) ==> h.contents@.contains_key(k) && bkt_as_map(s)[k]
                == h.contents@[k],
    decreases s.len(),
{
    if s.len() > 0 {
        assert(s.drop_last() =~= h.buckets@[bi].items@.take(s.len() - 1));
        lemma_bkt_as_map_values(s.drop_last(), bi, h);
        assert(s.last() == h.buckets@[bi].items@[s.len() - 1]);
        assert(h.contents@.contains_key(s.last().0) && h.contents@[s.last().0] == s.last().1);
        assert forall|k: u64| #[trigger] bkt_as_map(s).contains_key(k) implies h.contents@.contains_key(
            k,
        ) && bkt_as_map(s)[k] == h.contents@[k] by {
            if k != s.last().0 {
                assert(bkt_as_map(s.drop_last()).contains_key(k));
            }
        }
    }
}

} // verus!
