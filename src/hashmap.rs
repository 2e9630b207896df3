use std::collections::hash_map::DefaultHasher;
use std::hash::Hasher;
use vstd::prelude::*;
use vstd::std_specs::hash::DefaultHasherAdditionalSpecFns;

verus! {

/// The bytes that stand for a key when it is hashed: a tag naming the kind of
/// key, then the payload in little-endian order.
pub open spec fn key_bytes(tag: u8, payload: u64) -> Seq<u8> {
    seq![
        tag,
        payload as u8,
        (payload >> 8u64) as u8,
        (payload >> 16u64) as u8,
        (payload >> 24u64) as u8,
        (payload >> 32u64) as u8,
        (payload >> 40u64) as u8,
        (payload >> 48u64) as u8,
        (payload >> 56u64) as u8,
    ]
}

/// What `DefaultHasher` yields after one write of `key_bytes(tag, payload)`.
pub open spec fn tagged_hash(tag: u8, payload: u64) -> u64 {
    DefaultHasher::spec_finish(seq![key_bytes(tag, payload)])
}

/// Hashes a tagged 64-bit payload with the standard library's `DefaultHasher`.
pub fn hash_tagged(tag: u8, payload: u64) -> (r: u64)
    ensures
        r == tagged_hash(tag, payload),
{
    let bytes: Vec<u8> = vec![
        tag,
        payload as u8,
        (payload >> 8u64) as u8,
        (payload >> 16u64) as u8,
        (payload >> 24u64) as u8,
        (payload >> 32u64) as u8,
        (payload >> 40u64) as u8,
        (payload >> 48u64) as u8,
        (payload >> 56u64) as u8,
    ];
    assert(bytes@ == key_bytes(tag, payload));
    let mut hasher = DefaultHasher::new();
    hasher.write(bytes.as_slice());
    proof {
        assert(hasher@ == seq![key_bytes(tag, payload)]);
    }
    hasher.finish()
}


/// A key that the map can hold: a deterministic hash, and an equality test
/// that agrees with equality of values.
pub trait HashKey: Sized {
    spec fn hash_spec(&self) -> u64;

    fn hash_key(&self) -> (r: u64)
        ensures
            r == self.hash_spec(),
    ;

    fn key_eq(&self, other: &Self) -> (r: bool)
        ensures
            r == (*self == *other),
    ;
}

impl HashKey for isize {
    open spec fn hash_spec(&self) -> u64 {
        tagged_hash(0, *self as u64)
    }

    fn hash_key(&self) -> (r: u64) {
        hash_tagged(0, *self as u64)
    }

    fn key_eq(&self, other: &isize) -> (r: bool) {
        *self == *other
    }
}

/// One slot of the open-addressing table.
pub enum Bucket<K, V> {
    Empty,
    Full(K, V),
    /// Was full once; keeps probe chains that ran through it intact.
    Tombstone,
}

pub open spec fn count_full<K, V>(s: Seq<Bucket<K, V>>) -> nat
    decreases s.len(),
{
    if s.len() == 0 {
        0
    } else {
        count_full(s.drop_last()) + if s.last() is Full {
            1nat
        } else {
            0nat
        }
    }
}

proof fn lemma_count_full_bounded<K, V>(s: Seq<Bucket<K, V>>)
    ensures
        count_full(s) <= s.len(),
        count_full(s) == s.len() <==> forall|i: int| 0 <= i < s.len() ==> (#[trigger] s[i]) is Full,
    decreases s.len(),
{
    if s.len() > 0 {
        lemma_count_full_bounded(s.drop_last());
        if count_full(s) == s.len() {
            assert forall|i: int| 0 <= i < s.len() implies (#[trigger] s[i]) is Full by {
                if i < s.len() - 1 {
                    assert(s.drop_last()[i] == s[i]);
                }
            }
        }
        if forall|i: int| 0 <= i < s.len() ==> (#[trigger] s[i]) is Full {
            assert forall|i: int| 0 <= i < s.drop_last().len() implies (#[trigger] s.drop_last()[i]) is Full by {
                assert(s.drop_last()[i] == s[i]);
            }
        }
    }
}

proof fn lemma_count_full_update<K, V>(s: Seq<Bucket<K, V>>, i: int, b: Bucket<K, V>)
    requires
        0 <= i < s.len(),
    ensures
        count_full(s.update(i, b)) + (if s[i] is Full { 1int } else { 0int }) == count_full(s) + (
        if b is Full {
            1int
        } else {
            0int
        }),
    decreases s.len(),
{
    if i < s.len() - 1 {
        assert(s.update(i, b).drop_last() == s.drop_last().update(i, b));
        lemma_count_full_update(s.drop_last(), i, b);
    } else {
        assert(s.update(i, b).drop_last() == s.drop_last());
    }
}

/// Where a probe that starts at `home` stands after `d` steps, wrapping at `cap`.
pub open spec fn probe(home: int, d: int, cap: int) -> int {
    if home + d < cap {
        home + d
    } else {
        home + d - cap
    }
}

/// How many steps a probe from `home` takes to reach slot `j`.
pub open spec fn dist(home: int, j: int, cap: int) -> int {
    if j >= home {
        j - home
    } else {
        j + cap - home
    }
}

pub open spec fn home_of<K: HashKey>(k: K, cap: usize) -> int {
    (k.hash_spec() % (cap as u64)) as int
}

pub open spec fn key_at<K, V>(s: Seq<Bucket<K, V>>, j: int) -> K {
    s[j]->Full_0
}

pub open spec fn val_at<K, V>(s: Seq<Bucket<K, V>>, j: int) -> V {
    s[j]->Full_1
}

/// No slot on the probe path from the home of the key in slot `j` up to `j` is empty.
pub open spec fn chain_intact<K: HashKey, V>(s: Seq<Bucket<K, V>>, cap: usize, j: int) -> bool {
    let h = home_of(key_at(s, j), cap);
    forall|d: int|
        0 <= d < dist(h, j, cap as int) ==> !(#[trigger] s[probe(h, d, cap as int)] is Empty)
}

/// `items` lists the pairs of `m`, each key once.
pub open spec fn pairs_of<K, V>(items: Seq<(K, V)>, m: Map<K, V>) -> bool {
    &&& items.len() == m.len()
    &&& forall|i: int|
        0 <= i < items.len() ==> m.contains_key((#[trigger] items[i]).0) && m[items[i].0]
            == items[i].1
    &&& forall|i: int, j: int|
        0 <= i < items.len() && 0 <= j < items.len() && (#[trigger] items[i]).0 == (
        #[trigger] items[j]).0 ==> i == j
    &&& forall|k: K|
        #[trigger] m.contains_key(k) ==> exists|i: int|
            0 <= i < items.len() && (#[trigger] items[i]).0 == k
}

/// No slot of `s` is a tombstone.
pub open spec fn tombstone_free<K, V>(s: Seq<Bucket<K, V>>) -> bool {
    forall|j: int| 0 <= j < s.len() ==> !(#[trigger] s[j] is Tombstone)
}

/// A slot array of fixed size with linear probing. It never grows by itself.
#[verifier::reject_recursive_types(K)]
pub struct BucketStore<K, V> {
    buckets: Vec<Bucket<K, V>>,
    num_items: usize,
    capacity: usize,
    contents: Ghost<Map<K, V>>,
}

impl<K: HashKey, V> BucketStore<K, V> {
    /// The key-value pairs held.
    pub closed spec fn view(&self) -> Map<K, V> {
        self.contents@
    }

    /// The number of slots.
    pub closed spec fn slot_count(&self) -> nat {
        self.capacity as nat
    }

    /// The number of pairs held.
    pub closed spec fn item_count(&self) -> nat {
        self.num_items as nat
    }

    /// Whether no slot is a tombstone.
    pub closed spec fn is_compact(&self) -> bool {
        tombstone_free(self.buckets@)
    }

    pub closed spec fn wf(&self) -> bool {
        let s = self.buckets@;
        let cap = self.capacity;
        &&& cap > 0
        &&& s.len() == cap
        &&& self.num_items == count_full(s)
        &&& self.contents@.dom().finite()
        &&& self.num_items == self.contents@.len()
        &&& forall|j: int|
            0 <= j < cap && (#[trigger] s[j]) is Full ==> self.contents@.contains_key(key_at(s, j))
                && self.contents@[key_at(s, j)] == val_at(s, j)
        &&& forall|k: K|
            #[trigger] self.contents@.contains_key(k) ==> exists|j: int|
                0 <= j < cap && (#[trigger] s[j]) is Full && key_at(s, j) == k
        &&& forall|i: int, j: int|
            0 <= i < cap && 0 <= j < cap && (#[trigger] s[i]) is Full && (#[trigger] s[j]) is Full
                && key_at(s, i) == key_at(s, j) ==> i == j
        &&& forall|j: int| 0 <= j < cap && (#[trigger] s[j]) is Full ==> chain_intact(s, cap, j)
    }

    fn with_capacity(capacity: usize) -> (r: Self)
        requires
            capacity > 0,
        ensures
            r.wf(),
            r.capacity == capacity,
            r.contents@ == Map::<K, V>::empty(),
            r.is_compact(),
    {
        let mut buckets: Vec<Bucket<K, V>> = Vec::new();
        let mut i: usize = 0;
        while i < capacity
            invariant
                i <= capacity,
                buckets@.len() == i,
                forall|j: int| 0 <= j < i ==> (#[trigger] buckets@[j]) is Empty,
                count_full(buckets@) == 0,
            decreases capacity - i,
        {
            let ghost prev = buckets@;
            buckets.push(Bucket::Empty);
            assert(buckets@.drop_last() =~= prev);
            i = i + 1;
        }
        BucketStore { buckets, num_items: 0, capacity, contents: Ghost(Map::empty()) }
    }

    proof fn lemma_probe_reaches(&self, h: int, j: int)
        requires
            self.wf(),
            0 <= h < self.capacity,
            0 <= j < self.capacity,
        ensures
            0 <= dist(h, j, self.capacity as int) < self.capacity,
            probe(h, dist(h, j, self.capacity as int), self.capacity as int) == j,
    {
    }

    /// A key is absent when the probe from its home met an empty slot, or went
    /// all the way round, without meeting it.
    proof fn lemma_absent(&self, k: K, d: int)
        requires
            self.wf(),
            0 <= d <= self.capacity,
            forall|d2: int|
                0 <= d2 < d ==> {
                    let b = #[trigger] self.buckets@[probe(
                        home_of(k, self.capacity),
                        d2,
                        self.capacity as int,
                    )];
                    !(b is Empty) && !(b is Full && b->Full_0 == k)
                },
            d == self.capacity || self.buckets@[probe(
                home_of(k, self.capacity),
                d,
                self.capacity as int,
            )] is Empty,
        ensures
            !self.contents@.contains_key(k),
    {
        let s = self.buckets@;
        let cap = self.capacity;
        let h = home_of(k, cap);
        if self.contents@.contains_key(k) {
            let j = choose|j: int| 0 <= j < cap && (#[trigger] s[j]) is Full && key_at(s, j) == k;
            self.lemma_probe_reaches(h, j);
            let dj = dist(h, j, cap as int);
            if dj < d {
                assert(s[probe(h, dj, cap as int)] == s[j]);
            } else if dj > d {
                assert(chain_intact(s, cap, j));
                assert(!(s[probe(h, d, cap as int)] is Empty));
            }
        }
    }

    proof fn lemma_dist_of_probe(h: int, d: int, cap: int)
        requires
            0 <= h < cap,
            0 <= d < cap,
        ensures
            dist(h, probe(h, d, cap), cap) == d,
            0 <= probe(h, d, cap) < cap,
    {
    }

    /// A chain stays intact when no slot becomes empty and the slot keeps its key.
    proof fn lemma_chain_kept(s1: Seq<Bucket<K, V>>, s2: Seq<Bucket<K, V>>, cap: usize, j: int)
        requires
            s1.len() == cap,
            s2.len() == cap,
            0 <= j < cap,
            s1[j] is Full,
            s2[j] is Full,
            key_at(s1, j) == key_at(s2, j),
            chain_intact(s1, cap, j),
            forall|x: int| 0 <= x < cap && !(s1[x] is Empty) ==> !(#[trigger] s2[x] is Empty),
        ensures
            chain_intact(s2, cap, j),
    {
        let h = home_of(key_at(s1, j), cap);
        assert forall|d: int| 0 <= d < dist(h, j, cap as int) implies !(#[trigger] s2[probe(
            h,
            d,
            cap as int,
        )] is Empty) by {
            assert(!(s1[probe(h, d, cap as int)] is Empty));
        }
    }

    /// Puts `(k, v)` in its place: replaces the value of an equal key, or fills
    /// a free slot. The store must have a free slot.
    pub fn insert(&mut self, k: K, v: V) -> (r: Option<V>)
        requires
            old(self).wf(),
            old(self).item_count() < old(self).slot_count(),
        ensures
            final(self).wf(),
            final(self).slot_count() == old(self).slot_count(),
            final(self)@ == old(self)@.insert(k, v),
            final(self).item_count() == final(self)@.len(),
            final(self).item_count() == old(self).item_count() + if old(self)@.contains_key(k) {
                0nat
            } else {
                1nat
            },
            old(self).is_compact() ==> final(self).is_compact(),
            r == if old(self)@.contains_key(k) {
                Some(old(self)@[k])
            } else {
                None::<V>
            },
    {
        let ghost gk = k;
        let ghost gv = v;
        let cap = self.capacity;
        let h = (k.hash_key() % (cap as u64)) as usize;
        let mut idx = h;
        let mut d: usize = 0;
        let mut free: Option<usize> = None;
        let ghost mut fd: int = 0;
        let mut stop = false;
        while !stop && d < cap
            invariant
                self.wf(),
                cap == self.capacity,
                self == old(self),
                gk == k,
                gv == v,
                h == home_of(k, cap),
                d <= cap,
                d < cap ==> idx == probe(h as int, d as int, cap as int),
                stop ==> d < cap && self.buckets@[idx as int] is Empty,
                forall|d2: int|
                    0 <= d2 < d ==> {
                        let b = #[trigger] self.buckets@[probe(h as int, d2, cap as int)];
                        !(b is Empty) && !(b is Full && b->Full_0 == k)
                    },
                free matches Some(f) ==> 0 <= fd < d && f == probe(h as int, fd, cap as int)
                    && !(self.buckets@[f as int] is Full),
                free is None ==> forall|d2: int|
                    0 <= d2 < d ==> (#[trigger] self.buckets@[probe(
                        h as int,
                        d2,
                        cap as int,
                    )]) is Full,
            decreases cap - d, if stop { 0int } else { 1int },
        {
            let state: u8 = match &self.buckets[idx] {
                Bucket::Empty => 0,
                Bucket::Full(bk, _) => if bk.key_eq(&k) {
                    1
                } else {
                    2
                },
                Bucket::Tombstone => 3,
            };
            if state == 1 {
                let ghost s0 = self.buckets@;
                let ghost m0 = self.contents@;
                proof {
                    assert(self.contents@.contains_key(k));
                }
                self.buckets.push(Bucket::Full(k, v));
                assert(self.buckets@ == s0.push(Bucket::Full(gk, gv)));
                let old_bucket = self.buckets.swap_remove(idx);
                assert(self.buckets@ =~= s0.update(idx as int, Bucket::Full(gk, gv)));
                self.contents = Ghost(self.contents@.insert(gk, gv));
                proof {
                    let s1 = self.buckets@;
                    lemma_count_full_update(s0, idx as int, Bucket::Full(gk, gv));
                    assert forall|x: int| 0 <= x < cap && !(s0[x] is Empty) implies !(
                    #[trigger] s1[x] is Empty) by {}
                    assert forall|j: int| 0 <= j < cap && (#[trigger] s1[j]) is Full implies chain_intact(
                        s1,
                        cap,
                        j,
                    ) by {
                        assert(s0[j] is Full);
                        Self::lemma_chain_kept(s0, s1, cap, j);
                    }
                    assert forall|kk: K| #[trigger] self.contents@.contains_key(kk) implies exists|j: int|
                        0 <= j < cap && (#[trigger] s1[j]) is Full && key_at(s1, j) == kk by {
                        assert(m0.contains_key(kk));
                        let j = choose|j: int|
                            0 <= j < cap && (#[trigger] s0[j]) is Full && key_at(s0, j) == kk;
                        assert(s1[j] is Full);
                    }
                    assert(self.contents@.len() == old(self).contents@.len());
                    if tombstone_free(s0) {
                        assert forall|j: int| 0 <= j < s1.len() implies !(#[trigger] s1[j] is Tombstone) by {
                            assert(!(s0[j] is Tombstone));
                        }
                    }
                }
                return match old_bucket {
                    Bucket::Full(_, ov) => Some(ov),
                    _ => vstd::pervasive::unreached(),
                };
            }
            if state == 0 {
                stop = true;
            } else {
                if state == 3 && free.is_none() {
                    free = Some(idx);
                    proof {
                        fd = d as int;
                    }
                }
                idx = idx + 1;
                if idx == cap {
                    idx = 0;
                }
                d = d + 1;
            }
        }
        proof {
            self.lemma_absent(k, d as int);
            if free is None && !stop {
                assert forall|j: int| 0 <= j < cap implies (#[trigger] self.buckets@[j]) is Full by {
                    self.lemma_probe_reaches(h as int, j);
                    assert(self.buckets@[probe(
                        h as int,
                        dist(h as int, j, cap as int),
                        cap as int,
                    )] is Full);
                }
                lemma_count_full_bounded(self.buckets@);
            }
        }
        let ghost pd: int = if free is Some {
            fd
        } else {
            d as int
        };
        let p = match free {
            Some(f) => f,
            None => idx,
        };
        let ghost s0 = self.buckets@;
        self.buckets.set(p, Bucket::Full(k, v));
        self.num_items = self.num_items + 1;
        self.contents = Ghost(self.contents@.insert(gk, gv));
        proof {
            let s1 = self.buckets@;
            assert(s1 == s0.update(p as int, Bucket::Full(gk, gv)));
            Self::lemma_dist_of_probe(h as int, pd, cap as int);
            lemma_count_full_update(s0, p as int, Bucket::Full(gk, gv));
            assert forall|x: int| 0 <= x < cap && !(s0[x] is Empty) implies !(
            #[trigger] s1[x] is Empty) by {}
            assert forall|j: int| 0 <= j < cap && (#[trigger] s1[j]) is Full implies chain_intact(
                s1,
                cap,
                j,
            ) by {
                if j != p {
                    Self::lemma_chain_kept(s0, s1, cap, j);
                } else {
                    assert forall|d2: int| 0 <= d2 < dist(h as int, j, cap as int) implies !(
                    #[trigger] s1[probe(h as int, d2, cap as int)] is Empty) by {
                        assert(!(s0[probe(h as int, d2, cap as int)] is Empty));
                    }
                }
            }
            assert forall|kk: K| #[trigger] self.contents@.contains_key(kk) implies exists|j: int|
                0 <= j < cap && (#[trigger] s1[j]) is Full && key_at(s1, j) == kk by {
                if kk == gk {
                    assert(s1[p as int] is Full);
                } else {
                    let j = choose|j: int|
                        0 <= j < cap && (#[trigger] s0[j]) is Full && key_at(s0, j) == kk;
                    assert(s1[j] is Full);
                }
            }
            if tombstone_free(s0) {
                assert forall|j: int| 0 <= j < s1.len() implies !(#[trigger] s1[j] is Tombstone) by {
                    assert(!(s0[j] is Tombstone));
                }
            }
            assert forall|i: int, j: int|
                0 <= i < cap && 0 <= j < cap && (#[trigger] s1[i]) is Full && (#[trigger] s1[j]) is Full
                    && key_at(s1, i) == key_at(s1, j) implies i == j by {
                if i != p && j != p {
                    assert(s0[i] is Full && s0[j] is Full);
                } else if i != p {
                    assert(s0[i] is Full);
                } else if j != p {
                    assert(s0[j] is Full);
                }
            }
        }
        None
    }

    /// Empties slot `j`, leaving a tombstone, and hands back its value.
    fn take(&mut self, j: usize) -> (r: V)
        requires
            old(self).wf(),
            j < old(self).capacity,
            old(self).buckets@[j as int] is Full,
        ensures
            final(self).wf(),
            final(self).capacity == old(self).capacity,
            final(self).buckets@ == old(self).buckets@.update(j as int, Bucket::Tombstone),
            final(self)@ == old(self)@.remove(key_at(old(self).buckets@, j as int)),
            r == old(self)@[key_at(old(self).buckets@, j as int)],
    {
        let ghost s0 = self.buckets@;
        let ghost m0 = self.contents@;
        let ghost k = key_at(s0, j as int);
        let cap = self.capacity;
        self.buckets.push(Bucket::Tombstone);
        assert(self.buckets@ == s0.push(Bucket::Tombstone));
        let old_bucket = self.buckets.swap_remove(j);
        self.num_items = self.num_items - 1;
        self.contents = Ghost(m0.remove(k));
        proof {
            let s1 = self.buckets@;
            assert(s1 =~= s0.update(j as int, Bucket::Tombstone));
            lemma_count_full_update(s0, j as int, Bucket::<K, V>::Tombstone);
            assert forall|x: int| 0 <= x < cap && !(s0[x] is Empty) implies !(
            #[trigger] s1[x] is Empty) by {}
            assert forall|i: int| 0 <= i < cap && (#[trigger] s1[i]) is Full implies chain_intact(
                s1,
                cap,
                i,
            ) by {
                Self::lemma_chain_kept(s0, s1, cap, i);
            }
            assert forall|i: int| 0 <= i < cap && (#[trigger] s1[i]) is Full implies self.contents@.contains_key(
                key_at(s1, i),
            ) && self.contents@[key_at(s1, i)] == val_at(s1, i) by {
                assert(s0[i] is Full);
                assert(key_at(s0, i) != k);
            }
            assert forall|kk: K| #[trigger] self.contents@.contains_key(kk) implies exists|i: int|
                0 <= i < cap && (#[trigger] s1[i]) is Full && key_at(s1, i) == kk by {
                assert(m0.contains_key(kk));
                let i = choose|i: int| 0 <= i < cap && (#[trigger] s0[i]) is Full && key_at(s0, i) == kk;
                assert(s1[i] is Full);
            }
        }
        match old_bucket {
            Bucket::Full(_, v) => v,
            _ => vstd::pervasive::unreached(),
        }
    }

    /// Consumes the store, handing out each pair it holds once.
    pub fn into_pairs(self) -> (r: Vec<(K, V)>)
        requires
            self.wf(),
        ensures
            pairs_of(r@, self@),
    {
        let ghost s0 = self.buckets@;
        let ghost m0 = self.contents@;
        let ghost cap = self.capacity as int;
        let mut rest = self.buckets;
        let mut out: Vec<(K, V)> = Vec::new();
        while rest.len() > 0
            invariant
                self.wf(),
                s0 == self.buckets@,
                m0 == self.contents@,
                cap == s0.len(),
                rest@.len() <= cap,
                rest@ == s0.subrange(0, rest@.len() as int),
                out@.len() + count_full(rest@) == count_full(s0),
                forall|i: int|
                    0 <= i < out@.len() ==> m0.contains_key((#[trigger] out@[i]).0) && m0[out@[i].0]
                        == out@[i].1,
                forall|i: int, j: int|
                    0 <= i < out@.len() && 0 <= j < out@.len() && (#[trigger] out@[i]).0 == (
                    #[trigger] out@[j]).0 ==> i == j,
                forall|i: int, j: int|
                    0 <= i < out@.len() && 0 <= j < rest@.len() && (#[trigger] s0[j]) is Full
                        ==> (#[trigger] out@[i]).0 != key_at(s0, j),
                forall|k: K|
                    #[trigger] m0.contains_key(k) ==> (exists|i: int|
                        0 <= i < out@.len() && (#[trigger] out@[i]).0 == k) || (exists|j: int|
                        0 <= j < rest@.len() && (#[trigger] s0[j]) is Full && key_at(s0, j) == k),
            decreases rest@.len(),
        {
            let ghost r0 = rest@;
            let ghost o0 = out@;
            let ghost n = rest@.len() - 1;
            let b = rest.pop();
            proof {
                assert(r0.drop_last() == rest@);
                assert(rest@ =~= s0.subrange(0, n));
            }
            match b {
                Some(Bucket::Full(k, v)) => {
                    out.push((k, v));
                    proof {
                        assert(s0[n] is Full);
                        assert forall|i: int, j: int|
                            0 <= i < out@.len() && 0 <= j < rest@.len() && (#[trigger] s0[j]) is Full
                                implies (#[trigger] out@[i]).0 != key_at(s0, j) by {
                            if i == o0.len() {
                                assert(s0[n] is Full);
                            } else {
                                assert(o0[i] == out@[i]);
                            }
                        }
                        assert forall|i: int, j: int|
                            0 <= i < out@.len() && 0 <= j < out@.len() && (#[trigger] out@[i]).0 == (
                            #[trigger] out@[j]).0 implies i == j by {
                            if i < o0.len() && j == o0.len() {
                                assert(o0[i] == out@[i]);
                            }
                            if j < o0.len() && i == o0.len() {
                                assert(o0[j] == out@[j]);
                            }
                            if i < o0.len() && j < o0.len() {
                                assert(o0[i] == out@[i]);
                                assert(o0[j] == out@[j]);
                            }
                        }
                        assert forall|k: K| #[trigger] m0.contains_key(k) implies (exists|i: int|
                            0 <= i < out@.len() && (#[trigger] out@[i]).0 == k) || (exists|j: int|
                            0 <= j < rest@.len() && (#[trigger] s0[j]) is Full && key_at(s0, j) == k) by {
                            if exists|i: int| 0 <= i < o0.len() && (#[trigger] o0[i]).0 == k {
                                let i = choose|i: int| 0 <= i < o0.len() && (#[trigger] o0[i]).0 == k;
                                assert(out@[i] == o0[i]);
                            } else {
                                let j = choose|j: int|
                                    0 <= j < r0.len() && (#[trigger] s0[j]) is Full && key_at(s0, j) == k;
                                if j == n {
                                    assert(out@[o0.len() as int].0 == k);
                                }
                            }
                        }
                        assert forall|i: int|
                            0 <= i < out@.len() implies m0.contains_key((#[trigger] out@[i]).0) && m0[out@[i].0]
                                == out@[i].1 by {
                            if i < o0.len() {
                                assert(o0[i] == out@[i]);
                            }
                        }
                    }
                },
                _ => {
                    proof {
                        assert forall|k: K| #[trigger] m0.contains_key(k) implies (exists|i: int|
                            0 <= i < out@.len() && (#[trigger] out@[i]).0 == k) || (exists|j: int|
                            0 <= j < rest@.len() && (#[trigger] s0[j]) is Full && key_at(s0, j) == k) by {
                            if !exists|i: int| 0 <= i < out@.len() && (#[trigger] out@[i]).0 == k {
                                let j = choose|j: int|
                                    0 <= j < r0.len() && (#[trigger] s0[j]) is Full && key_at(s0, j) == k;
                                assert(j != n);
                            }
                        }
                    }
                },
            }
        }
        proof {
            assert(count_full(rest@) == 0);
        }
        out
    }

    /// The slot that holds `k`, if any.
    fn find(&self, k: &K) -> (r: Option<usize>)
        requires
            self.wf(),
        ensures
            match r {
                Some(j) => j < self.capacity && self.buckets@[j as int] is Full && key_at(
                    self.buckets@,
                    j as int,
                ) == *k,
                None => !self.contents@.contains_key(*k),
            },
    {
        let cap = self.capacity;
        let h = (k.hash_key() % (cap as u64)) as usize;
        let mut idx = h;
        let mut d: usize = 0;
        while d < cap
            invariant
                self.wf(),
                cap == self.capacity,
                h == home_of(*k, cap),
                d <= cap,
                d < cap ==> idx == probe(h as int, d as int, cap as int),
                forall|d2: int|
                    0 <= d2 < d ==> {
                        let b = #[trigger] self.buckets@[probe(h as int, d2, cap as int)];
                        !(b is Empty) && !(b is Full && b->Full_0 == *k)
                    },
            decreases cap - d,
        {
            match &self.buckets[idx] {
                Bucket::Empty => {
                    proof {
                        self.lemma_absent(*k, d as int);
                    }
                    return None;
                },
                Bucket::Full(bk, _) => {
                    if bk.key_eq(k) {
                        return Some(idx);
                    }
                },
                Bucket::Tombstone => {},
            }
            idx = idx + 1;
            if idx == cap {
                idx = 0;
            }
            d = d + 1;
        }
        proof {
            self.lemma_absent(*k, d as int);
        }
        None
    }
}

/// The map that inserting `items` from last to first into an empty map gives.
pub open spec fn map_of_pairs<K, V>(items: Seq<(K, V)>) -> Map<K, V>
    decreases items.len(),
{
    if items.len() == 0 {
        Map::empty()
    } else {
        map_of_pairs(items.drop_first()).insert(items[0].0, items[0].1)
    }
}

proof fn lemma_map_of_pairs_size<K, V>(items: Seq<(K, V)>)
    ensures
        map_of_pairs(items).dom().finite(),
        map_of_pairs(items).len() <= items.len(),
    decreases items.len(),
{
    if items.len() > 0 {
        lemma_map_of_pairs_size(items.drop_first());
    }
}

proof fn lemma_map_of_pairs_contents<K, V>(items: Seq<(K, V)>, m: Map<K, V>)
    requires
        forall|i: int|
            0 <= i < items.len() ==> m.contains_key((#[trigger] items[i]).0) && m[items[i].0]
                == items[i].1,
    ensures
        forall|k: K|
            #[trigger] map_of_pairs(items).contains_key(k) <==> exists|i: int|
                0 <= i < items.len() && (#[trigger] items[i]).0 == k,
        forall|k: K| #[trigger]
            map_of_pairs(items).contains_key(k) ==> map_of_pairs(items)[k] == m[k],
    decreases items.len(),
{
    if items.len() > 0 {
        let rest = items.drop_first();
        let mp = map_of_pairs(items);
        let mr = map_of_pairs(rest);
        assert(mp == mr.insert(items[0].0, items[0].1));
        assert forall|i: int|
            0 <= i < rest.len() implies m.contains_key((#[trigger] rest[i]).0) && m[rest[i].0]
                == rest[i].1 by {
            assert(rest[i] == items[i + 1]);
        }
        lemma_map_of_pairs_contents(rest, m);
        assert forall|k: K| #[trigger] mp.contains_key(k) implies exists|i: int|
            0 <= i < items.len() && (#[trigger] items[i]).0 == k by {
            if k != items[0].0 {
                assert(mr.contains_key(k));
                let i = choose|i: int| 0 <= i < rest.len() && (#[trigger] rest[i]).0 == k;
                assert(items[i + 1] == rest[i]);
            } else {
                assert(items[0].0 == k);
            }
        }
        assert forall|k: K|
            (exists|i: int| 0 <= i < items.len() && (#[trigger] items[i]).0 == k) implies #[trigger]
            mp.contains_key(k) by {
            let i = choose|i: int| 0 <= i < items.len() && (#[trigger] items[i]).0 == k;
            if i > 0 {
                assert(rest[i - 1] == items[i]);
                assert(mr.contains_key(k));
            }
        }
    }
}

/// Putting every pair that a draining pass yields into a fresh map gives the
/// same keys with the same values.
pub proof fn lemma_reinsert_all<K, V>(items: Seq<(K, V)>, m: Map<K, V>)
    requires
        pairs_of(items, m),
    ensures
        map_of_pairs(items) == m,
{
    lemma_map_of_pairs_contents(items, m);
    assert(map_of_pairs(items) =~= m);
}

pub open spec fn is_power_of_two(n: nat) -> bool
    decreases n,
{
    if n <= 1 {
        n == 1
    } else {
        n % 2 == 0 && is_power_of_two(n / 2)
    }
}

proof fn lemma_power_of_two_facts(n: nat)
    requires
        is_power_of_two(n),
        n >= 4,
    ensures
        n % 4 == 0,
        is_power_of_two(2 * n),
{
    assert(is_power_of_two(n / 2));
    assert((2 * n) / 2 == n);
}

/// The smallest number of slots a map has.
pub const MIN_CAPACITY: usize = 8;

/// A growable map over a `BucketStore`, kept at most three quarters full.
#[verifier::reject_recursive_types(K)]
pub struct HashMap<K, V> {
    buckets: BucketStore<K, V>,
}

impl<K: HashKey, V> HashMap<K, V> {
    pub closed spec fn view(&self) -> Map<K, V> {
        self.buckets@
    }

    /// The pair in slot `j`, when that slot is full.
    pub closed spec fn slot(&self, j: int) -> Option<(K, V)> {
        if 0 <= j < self.buckets.buckets@.len() && self.buckets.buckets@[j] is Full {
            Some((key_at(self.buckets.buckets@, j), val_at(self.buckets.buckets@, j)))
        } else {
            None
        }
    }

    /// The number of slots.
    pub closed spec fn capacity_spec(&self) -> nat {
        self.buckets.capacity as nat
    }

    pub closed spec fn wf(&self) -> bool {
        &&& self.buckets.wf()
        &&& self.buckets.capacity >= MIN_CAPACITY
        &&& is_power_of_two(self.buckets.capacity as nat)
        &&& self.buckets.num_items * 4 <= self.buckets.capacity * 3
    }

    /// What holds of every map: its size counts its keys, and its slot count
    /// is a power of two, at least the minimum, and at least four thirds of
    /// its size.
    pub proof fn lemma_size_and_capacity(&self)
        requires
            self.wf(),
        ensures
            self@.dom().finite(),
            is_power_of_two(self.capacity_spec()),
            self.capacity_spec() >= MIN_CAPACITY,
            self@.len() * 4 <= self.capacity_spec() * 3,
    {
    }

    pub fn new() -> (r: Self)
        ensures
            r.wf(),
            r@ == Map::<K, V>::empty(),
            r.capacity_spec() == MIN_CAPACITY,
    {
        assert(is_power_of_two(1));
        assert(is_power_of_two(2));
        assert(is_power_of_two(4));
        assert(is_power_of_two(8));
        HashMap { buckets: BucketStore::with_capacity(MIN_CAPACITY) }
    }

    /// Moves every pair into a fresh store of `capacity` slots, which also
    /// clears out the tombstones.
    fn do_resize(&mut self, capacity: usize)
        requires
            old(self).buckets.wf(),
            old(self).buckets.num_items < capacity,
        ensures
            final(self).buckets.wf(),
            final(self)@ == old(self)@,
            final(self).buckets.capacity == capacity,
            final(self).buckets.num_items == old(self).buckets.num_items,
            final(self).buckets.is_compact(),
    {
        let ghost m0 = self.buckets@;
        let mut old_store = BucketStore::with_capacity(capacity);
        std::mem::swap(&mut self.buckets, &mut old_store);
        let mut pairs = old_store.into_pairs();
        let ghost p0 = pairs@;
        let ghost n = p0.len();
        while pairs.len() > 0
            invariant
                self.buckets.wf(),
                self.buckets.is_compact(),
                self.buckets.capacity == capacity,
                pairs_of(p0, m0),
                m0.len() < capacity,
                n == p0.len(),
                pairs@.len() <= n,
                pairs@ == p0.subrange(0, pairs@.len() as int),
                self.buckets@ == map_of_pairs(p0.subrange(pairs@.len() as int, n as int)),
            decreases pairs@.len(),
        {
            let ghost len0 = pairs@.len() as int;
            let pr = pairs.pop();
            match pr {
                Some((k, v)) => {
                    proof {
                        let sub = p0.subrange(len0, n as int);
                        lemma_map_of_pairs_size(sub);
                        assert(pairs@ =~= p0.subrange(0, len0 - 1));
                        let sub2 = p0.subrange(len0 - 1, n as int);
                        assert(sub2.drop_first() =~= sub);
                        assert(sub2[0] == (k, v));
                    }
                    self.buckets.insert(k, v);
                },
                None => {},
            }
        }
        proof {
            assert(p0.subrange(0, n as int) =~= p0);
            lemma_reinsert_all(p0, m0);
        }
    }

    pub fn len(&self) -> (r: usize)
        requires
            self.wf(),
        ensures
            r == self@.len(),
    {
        self.buckets.num_items
    }

    pub fn is_empty(&self) -> (r: bool)
        requires
            self.wf(),
        ensures
            r == (self@.len() == 0),
    {
        self.len() == 0
    }

    /// The number of slots.
    pub fn capacity(&self) -> (r: usize)
        requires
            self.wf(),
        ensures
            r == self.capacity_spec(),
    {
        self.buckets.capacity
    }

    /// Whether one more key fits without the slots being doubled.
    pub fn has_spare_capacity(&self) -> (r: bool)
        requires
            self.wf(),
        ensures
            r == (self@.len() * 4 < self.capacity_spec() * 3),
    {
        proof {
            lemma_power_of_two_facts(self.buckets.capacity as nat);
        }
        self.buckets.num_items < self.buckets.capacity - self.buckets.capacity / 4
    }

    /// Sets the value of `k`, and hands back the value it replaced. Slots are
    /// doubled first when the map is three quarters full.
    pub fn insert(&mut self, k: K, v: V) -> (r: Option<V>)
        requires
            old(self).wf(),
            old(self)@.len() <= usize::MAX / 4,
        ensures
            final(self).wf(),
            final(self)@ == old(self)@.insert(k, v),
            r == if old(self)@.contains_key(k) {
                Some(old(self)@[k])
            } else {
                None::<V>
            },
            final(self).capacity_spec() >= old(self).capacity_spec(),
    {
        let cap = self.buckets.capacity;
        proof {
            lemma_power_of_two_facts(cap as nat);
        }
        if self.buckets.num_items >= cap - cap / 4 {
            self.do_resize(cap * 2);
        }
        self.buckets.insert(k, v)
    }

    /// The value of `k`, if it has one.
    pub fn get(&self, k: &K) -> (r: Option<&V>)
        requires
            self.wf(),
        ensures
            match r {
                Some(v) => self@.contains_key(*k) && *v == self@[*k],
                None => !self@.contains_key(*k),
            },
    {
        match self.buckets.find(k) {
            Some(j) => match &self.buckets.buckets[j] {
                Bucket::Full(_, v) => Some(v),
                _ => None,
            },
            None => None,
        }
    }

    pub fn contains_key(&self, k: &K) -> (r: bool)
        requires
            self.wf(),
        ensures
            r == self@.contains_key(*k),
    {
        self.buckets.find(k).is_some()
    }

    /// Takes `k` out, and hands back its value. The slot count stays.
    pub fn remove(&mut self, k: &K) -> (r: Option<V>)
        requires
            old(self).wf(),
        ensures
            final(self).wf(),
            final(self)@ == old(self)@.remove(*k),
            r == if old(self)@.contains_key(*k) {
                Some(old(self)@[*k])
            } else {
                None::<V>
            },
            final(self).capacity_spec() == old(self).capacity_spec(),
    {
        match self.buckets.find(k) {
            Some(j) => Some(self.buckets.take(j)),
            None => {
                assert(old(self)@.remove(*k) =~= old(self)@);
                None
            },
        }
    }

    /// Consumes the map, handing out each pair once, in no particular order.
    pub fn into_items(self) -> (r: Vec<(K, V)>)
        requires
            self.wf(),
        ensures
            pairs_of(r@, self@),
    {
        self.buckets.into_pairs()
    }
    /// Makes room for `additional` more keys without further growth. The slot
    /// count never shrinks, and when the map had no spare room and at least as
    /// many keys are asked for as it holds, it at least doubles.
    pub fn reserve(&mut self, additional: usize)
        requires
            old(self).wf(),
            old(self)@.len() + additional <= usize::MAX / 4,
        ensures
            final(self).wf(),
            final(self)@ == old(self)@,
            final(self).capacity_spec() >= old(self).capacity_spec(),
            (final(self)@.len() + additional) * 4 <= final(self).capacity_spec() * 3,
            old(self)@.len() * 4 >= old(self).capacity_spec() * 3 && additional >= old(self)@.len()
                ==> final(self).capacity_spec() >= 2 * old(self).capacity_spec(),
    {
        let needed = self.buckets.num_items + additional;
        let mut c = self.buckets.capacity;
        while c - c / 4 < needed
            invariant
                self.wf(),
                needed == self@.len() + additional,
                needed <= usize::MAX / 4,
                c >= self.buckets.capacity,
                c >= MIN_CAPACITY,
                is_power_of_two(c as nat),
                c * 3 < needed * 4 + 4 * c,
            decreases usize::MAX - c,
        {
            proof {
                lemma_power_of_two_facts(c as nat);
            }
            c = c * 2;
        }
        proof {
            lemma_power_of_two_facts(c as nat);
        }
        if c > self.buckets.capacity {
            self.do_resize(c);
        }
    }

    /// Keeps the pairs for which `keep` says yes, and drops the others.
    pub fn retain<F: Fn(&K, &V) -> bool>(&mut self, keep: F)
        requires
            old(self).wf(),
            forall|k: &K, v: &V| #[trigger] keep.requires((k, v)),
        ensures
            final(self).wf(),
            final(self).capacity_spec() == old(self).capacity_spec(),
            forall|k: K| #[trigger]
                final(self)@.contains_key(k) ==> old(self)@.contains_key(k) && final(self)@[k]
                    == old(self)@[k] && keep.ensures((&k, &old(self)@[k]), true),
            forall|k: K|
                old(self)@.contains_key(k) && !(#[trigger] final(self)@.contains_key(k))
                    ==> keep.ensures((&k, &old(self)@[k]), false),
    {
        let ghost s0 = self.buckets.buckets@;
        let ghost m0 = self@;
        let cap = self.buckets.capacity;
        let mut j: usize = 0;
        while j < cap
            invariant
                self.wf(),
                old(self).wf(),
                s0 == old(self).buckets.buckets@,
                m0 == old(self)@,
                cap == self.buckets.capacity,
                cap == old(self).buckets.capacity,
                forall|k: &K, v: &V| #[trigger] keep.requires((k, v)),
                j <= cap,
                forall|jj: int| j <= jj < cap ==> #[trigger] self.buckets.buckets@[jj] == s0[jj],
                forall|k: K| #[trigger]
                    self@.contains_key(k) ==> m0.contains_key(k) && self@[k] == m0[k],
                forall|k: K|
                    m0.contains_key(k) && !(#[trigger] self@.contains_key(k)) ==> keep.ensures(
                        (&k, &m0[k]),
                        false,
                    ),
                forall|jj: int|
                    0 <= jj < j && (#[trigger] s0[jj]) is Full && self@.contains_key(key_at(s0, jj))
                        ==> keep.ensures((&key_at(s0, jj), &m0[key_at(s0, jj)]), true),
            decreases cap - j,
        {
            let ghost kj = key_at(s0, j as int);
            proof {
                if s0[j as int] is Full {
                    assert(m0.contains_key(kj) && m0[kj] == val_at(s0, j as int));
                }
            }
            let verdict = match &self.buckets.buckets[j] {
                Bucket::Full(k, v) => keep(k, v),
                _ => true,
            };
            if !verdict {
                let ghost prev = self@;
                assert(self.buckets.buckets@[j as int] == s0[j as int]);
                self.buckets.take(j);
                proof {
                    assert(self@ == prev.remove(kj));
                    assert forall|k: K| #[trigger]
                        self@.contains_key(k) implies m0.contains_key(k) && self@[k] == m0[k] by {
                        assert(prev.contains_key(k));
                    }
                    assert forall|k: K|
                        m0.contains_key(k) && !(#[trigger] self@.contains_key(k)) implies keep.ensures(
                            (&k, &m0[k]),
                            false,
                        ) by {
                        if k != kj {
                            assert(!prev.contains_key(k));
                        }
                    }
                }
            }
            proof {
                if s0[j as int] is Full && verdict {
                    assert(keep.ensures((&key_at(s0, j as int), &m0[key_at(s0, j as int)]), true));
                }
            }
            j = j + 1;
        }
        proof {
            assert forall|k: K| #[trigger]
                self@.contains_key(k) implies keep.ensures((&k, &m0[k]), true) by {
                let jj = choose|jj: int| 0 <= jj < cap && (#[trigger] s0[jj]) is Full && key_at(s0, jj) == k;
            }
        }
    }
}

impl<K: HashKey + Copy, V> HashMap<K, V> {
    /// Every key, each once, in slot order.
    pub fn keys(&self) -> (r: Vec<K>)
        requires
            self.wf(),
        ensures
            r@.len() == self@.len(),
            r@.no_duplicates(),
            forall|i: int| 0 <= i < r@.len() ==> self@.contains_key(#[trigger] r@[i]),
            forall|k: K| #[trigger] self@.contains_key(k) ==> r@.contains(k),
    {
        let ghost s = self.buckets.buckets@;
        let cap = self.buckets.capacity;
        let mut out: Vec<K> = Vec::new();
        let ghost mut slots: Seq<int> = Seq::empty();
        let mut j: usize = 0;
        while j < cap
            invariant
                self.wf(),
                s == self.buckets.buckets@,
                cap == self.buckets.capacity,
                j <= cap,
                slots.len() == out@.len(),
                out@.len() == count_full(s.subrange(0, j as int)),
                forall|i: int|
                    0 <= i < slots.len() ==> 0 <= #[trigger] slots[i] < j && s[slots[i]] is Full
                        && out@[i] == key_at(s, slots[i]),
                forall|i: int, i2: int| 0 <= i < i2 < slots.len() ==> #[trigger] slots[i] < #[trigger] slots[i2],
                forall|jj: int|
                    0 <= jj < j && (#[trigger] s[jj]) is Full ==> exists|i: int|
                        0 <= i < slots.len() && #[trigger] slots[i] == jj,
            decreases cap - j,
        {
            assert(s.subrange(0, j + 1).drop_last() =~= s.subrange(0, j as int));
            match &self.buckets.buckets[j] {
                Bucket::Full(k, _) => {
                    out.push(*k);
                    proof {
                        let sl0 = slots;
                        slots = slots.push(j as int);
                        assert forall|jj: int|
                            0 <= jj < j + 1 && (#[trigger] s[jj]) is Full implies exists|i: int|
                                0 <= i < slots.len() && #[trigger] slots[i] == jj by {
                            if jj == j {
                                assert(slots[sl0.len() as int] == jj);
                            } else {
                                let i = choose|i: int| 0 <= i < sl0.len() && #[trigger] sl0[i] == jj;
                                assert(slots[i] == jj);
                            }
                        }
                    }
                },
                _ => {},
            }
            j = j + 1;
        }
        proof {
            assert(s.subrange(0, cap as int) =~= s);
            assert forall|i: int| 0 <= i < out@.len() implies self@.contains_key(#[trigger] out@[i]) by {
                assert(s[slots[i]] is Full);
            }
            assert forall|i: int, i2: int| 0 <= i < out@.len() && 0 <= i2 < out@.len() && i != i2 implies out@[i] != out@[i2] by {
                if i < i2 {
                    assert(slots[i] < slots[i2]);
                } else {
                    assert(slots[i2] < slots[i]);
                }
            }
            assert forall|k: K| #[trigger] self@.contains_key(k) implies out@.contains(k) by {
                let jj = choose|jj: int| 0 <= jj < cap && (#[trigger] s[jj]) is Full && key_at(s, jj) == k;
                let i = choose|i: int| 0 <= i < slots.len() && #[trigger] slots[i] == jj;
                assert(out@[i] == k);
            }
        }
        out
    }
}

impl<K: HashKey, V> Default for HashMap<K, V> {
    fn default() -> (r: Self)
        ensures
            r.wf(),
            r@ == Map::<K, V>::empty(),
            r.capacity_spec() == MIN_CAPACITY,
    {
        HashMap::new()
    }
}

/// Setting a key that is already present leaves the number of keys as it
/// was; reading a key after setting it gives the value set, and after
/// removing it gives nothing.
pub proof fn lemma_set_existing_keeps_len<K, V>(m: Map<K, V>, k: K, v: V)
    requires
        m.dom().finite(),
    ensures
        m.contains_key(k) ==> m.insert(k, v).len() == m.len(),
        m.insert(k, v).len() <= m.len() + 1,
        m.insert(k, v)[k] == v,
        !m.remove(k).contains_key(k),
{
    if m.contains_key(k) {
        assert(m.insert(k, v).dom() =~= m.dom());
    }
}

/// Walks the pairs of a map in slot order.
#[verifier::reject_recursive_types(K)]
pub struct HashMapIter<'a, K, V> {
    map: &'a HashMap<K, V>,
    idx: usize,
}

impl<'a, K: HashKey, V> HashMapIter<'a, K, V> {
    /// The map walked.
    pub closed spec fn source(&self) -> HashMap<K, V> {
        *self.map
    }

    /// The slot the walk looks at next.
    pub closed spec fn position(&self) -> nat {
        self.idx as nat
    }

    /// The keys not handed out yet.
    pub closed spec fn remaining(&self) -> Set<K> {
        Set::new(
            |k: K|
                exists|j: int|
                    self.idx <= j < self.map.buckets.capacity && (#[trigger] self.map.buckets.buckets@[j]) is Full
                        && key_at(self.map.buckets.buckets@, j) == k,
        )
    }

    pub closed spec fn wf(&self) -> bool {
        self.map.wf() && self.idx <= self.map.buckets.capacity
    }

    /// The next pair, or `None` once every pair was handed out.
    pub fn next(&mut self) -> (r: Option<(&'a K, &'a V)>)
        requires
            old(self).wf(),
        ensures
            final(self).wf(),
            final(self).source() == old(self).source(),
            old(self).position() <= final(self).position() <= old(self).source().capacity_spec(),
            forall|j: int|
                old(self).position() <= j < final(self).position() - (if r is Some {
                    1int
                } else {
                    0int
                }) ==> #[trigger] old(self).source().slot(j) is None,
            r is None ==> final(self).position() == old(self).source().capacity_spec(),
            r matches Some(p) ==> final(self).position() > old(self).position() && old(self).source().slot(
                final(self).position() - 1,
            ) == Some((*p.0, *p.1)),
            match r {
                Some(p) => old(self).remaining().contains(*p.0) && final(self).remaining()
                    == old(self).remaining().remove(*p.0) && old(self).source()@.contains_key(*p.0)
                    && old(self).source()@[*p.0] == *p.1,
                None => old(self).remaining() == Set::<K>::empty() && final(self).remaining()
                    == Set::<K>::empty(),
            },
    {
        let ghost r0 = self.remaining();
        let map = self.map;
        assert(map == old(self).map);
        let cap = map.buckets.capacity;
        while self.idx < cap
            invariant
                self.wf(),
                self.map == map,
                map == old(self).map,
                r0 == old(self).remaining(),
                cap == map.buckets.capacity,
                old(self).idx <= self.idx <= cap,
                forall|j: int| old(self).idx <= j < self.idx ==> #[trigger] map.slot(j) is None,
                self.remaining() == r0,
            decreases cap - self.idx,
        {
            let j = self.idx;
            self.idx = self.idx + 1;
            match &map.buckets.buckets[j] {
                Bucket::Full(k, v) => {
                    proof {
                        let s = map.buckets.buckets@;
                        assert(s[j as int] is Full);
                        assert(r0.contains(*k));
                        assert forall|kk: K| #[trigger] self.remaining().contains(kk) == r0.remove(*k).contains(kk) by {
                            if r0.contains(kk) && kk != *k {
                                let jj = choose|jj: int|
                                    j <= jj < cap && (#[trigger] s[jj]) is Full && key_at(s, jj) == kk;
                                assert(jj != j);
                            }
                            if self.remaining().contains(kk) {
                                let jj = choose|jj: int|
                                    j + 1 <= jj < cap && (#[trigger] s[jj]) is Full && key_at(s, jj) == kk;
                                assert(jj != j);
                            }
                        }
                        assert(self.remaining() =~= r0.remove(*k));
                    }
                    proof {
                        assert(old(self).source()@.contains_key(*k));
                    }
                    return Some((k, v));
                },
                _ => {
                    proof {
                        let s = map.buckets.buckets@;
                        assert forall|kk: K| #[trigger] self.remaining().contains(kk) == r0.contains(kk) by {
                            if r0.contains(kk) {
                                let jj = choose|jj: int|
                                    j <= jj < cap && (#[trigger] s[jj]) is Full && key_at(s, jj) == kk;
                                assert(jj != j);
                            }
                        }
                        assert(self.remaining() =~= r0);
                    }
                },
            }
        }
        proof {
            assert(self.remaining() =~= Set::<K>::empty());
        }
        None
    }
}

impl<K: HashKey, V> HashMap<K, V> {
    /// A walk over every pair, from the first slot.
    pub fn iter(&self) -> (r: HashMapIter<'_, K, V>)
        requires
            self.wf(),
        ensures
            r.wf(),
            r.source() == *self,
            r.position() == 0,
            r.remaining() == self@.dom(),
    {
        let it = HashMapIter { map: self, idx: 0 };
        proof {
            let s = self.buckets.buckets@;
            assert forall|k: K| #[trigger] it.remaining().contains(k) == self@.dom().contains(k) by {
                if self@.contains_key(k) {
                    let j = choose|j: int|
                        0 <= j < self.buckets.capacity && (#[trigger] s[j]) is Full && key_at(s, j) == k;
                }
            }
            assert(it.remaining() =~= self@.dom());
        }
        it
    }
}

} // verus!
