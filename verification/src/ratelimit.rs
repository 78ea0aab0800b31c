//! Whom a limit on requests watches: clients by a key, spread over shards, and
//! forgotten when they have been idle while too many are watched.

use std::collections::HashMap;

use vstd::prelude::*;
use vstd::std_specs::hash::*;
use vstd::std_specs::iter::*;
use vstd::utf8::*;

verus! {

broadcast use vstd::std_specs::hash::group_hash_axioms;

/// How many shards there are.
pub const SHARDS: usize = 64;

/// How many clients a shard watches before it forgets the idle ones.
pub const MAX_KEYS: usize = 4096;

/// How long a client is not idle, in ms.
pub const IDLE_MS: u64 = 60000;

/// The FNV-1a hash of some bytes.
pub open spec fn fnv(b: Seq<u8>) -> u64
    decreases b.len(),
{
    if b.len() == 0 {
        0xcbf29ce484222325
    } else {
        (fnv(b.drop_last()) ^ (b.last() as u64)).wrapping_mul(0x100000001b3)
    }
}

/// The key of a client.
pub fn ip_key(ip: &str) -> (r: u64)
    ensures
        r == fnv(encode_utf8(ip@)),
{
    let b: &[u8] = ip.as_bytes();
    let mut h: u64 = 0xcbf29ce484222325;
    let mut i: usize = 0;
    assert(b@.take(0) =~= Seq::empty());
    while i < b.len()
        invariant
            i <= b@.len(),
            h == fnv(b@.take(i as int)),
        decreases b@.len() - i,
    {
        assert(b@.take(i + 1).drop_last() =~= b@.take(i as int));
        h = (h ^ (b[i] as u64)).wrapping_mul(0x100000001b3);
        i += 1;
    }
    assert(b@.take(i as int) =~= b@);
    h
}

/// The shard of a key.
pub fn shard_of(key: u64) -> (r: usize)
    ensures
        r == key % 64,
        r < SHARDS,
{
    assert(key & 63 == key % 64) by (bit_vector);
    (key & 63) as usize
}

/// Whether a client who was last seen then is idle.
pub open spec fn idle(last: u64, now: u64) -> bool {
    now.wrapping_sub(last) >= IDLE_MS
}

/// The clients of a shard: when each was last seen.
pub struct Shard {
    last: HashMap<u64, u64>,
}

impl View for Shard {
    type V = Map<u64, u64>;

    closed spec fn view(&self) -> Map<u64, u64> {
        self.last@
    }
}

/// The clients that are still watched: all, or, where there are too many, those
/// who are not idle.
pub open spec fn watched(s: Map<u64, u64>, now: u64) -> Map<u64, u64> {
    if s.len() >= MAX_KEYS {
        s.restrict(s.dom().filter(|k: u64| !idle(s[k], now)))
    } else {
        s
    }
}

impl Shard {
    /// A shard that watches nobody.
    pub fn new() -> (r: Shard)
        ensures
            r@ == Map::<u64, u64>::empty(),
    {
        Shard { last: HashMap::new() }
    }

    fn keys(&self) -> (r: Vec<u64>)
        ensures
            r@.no_duplicates(),
            r@.to_set() == self@.dom(),
    {
        let mut r: Vec<u64> = Vec::new();
        let ghost all = IteratorSpec::remaining(&self.last.keys()).unref();
        for k in it: self.last.keys()
            invariant
                it.seq().unref() == all,
                all.no_duplicates(),
                r@ == all.take(it.index() as int),
        {
            r.push(*k);
            assert(r@ =~= all.take(it.index() + 1));
        }
        assert(r@ =~= all);
        r
    }

    fn idle_keys(&self, now: u64) -> (r: Vec<u64>)
        ensures
            r@.no_duplicates(),
            r@.to_set() == self@.dom().filter(|k: u64| idle(self@[k], now)),
    {
        let all: Vec<u64> = self.keys();
        let mut r: Vec<u64> = Vec::new();
        let mut i: usize = 0;
        while i < all.len()
            invariant
                i <= all@.len(),
                all@.no_duplicates(),
                all@.to_set() == self@.dom(),
                r@.no_duplicates(),
                forall|j: int|
                    0 <= j < r@.len() ==> all@.take(i as int).contains(#[trigger] r@[j]) && idle(
                        self@[r@[j]],
                        now,
                    ),
                forall|j: int|
                    0 <= j < i && idle(self@[#[trigger] all@[j]], now) ==> r@.contains(all@[j]),
            decreases all@.len() - i,
        {
            let ghost before = r@;
            let k: u64 = all[i];
            assert(all@.to_set().contains(k));
            assert(all@.take(i + 1)[i as int] == k);
            assert forall|x: u64| all@.take(i as int).contains(x) implies all@.take(
                i + 1,
            ).contains(x) by {
                let j = all@.take(i as int).index_of(x);
                assert(all@.take(i + 1)[j] == x);
            }
            assert(!all@.take(i as int).contains(k));
            if let Some(t) = self.last.get(&k) {
                if now.wrapping_sub(*t) >= IDLE_MS {
                    r.push(k);
                    assert(r@[before.len() as int] == k);
                    assert forall|x: u64| before.contains(x) implies r@.contains(x) by {
                        let j = before.index_of(x);
                        assert(r@[j] == x);
                    }
                }
            }
            i += 1;
        }
        assert(all@.take(i as int) =~= all@);
        assert forall|k: u64| r@.to_set().contains(k) == self@.dom().filter(
            |k: u64| idle(self@[k], now),
        ).contains(k) by {
            if r@.contains(k) {
                let j = r@.index_of(k);
                assert(all@.to_set().contains(k));
            }
            if self@.dom().contains(k) && idle(self@[k], now) {
                assert(all@.to_set().contains(k));
                let j = all@.index_of(k);
                assert(all@[j] == k);
            }
        }
        assert(r@.to_set() =~= self@.dom().filter(|k: u64| idle(self@[k], now)));
        r
    }

    /// A client comes. First, where too many are watched, the idle ones are
    /// forgotten; their keys come back. So does how long ago the client was last
    /// seen, in ms, if it is watched.
    pub fn visit(&mut self, key: u64, now: u64) -> (r: (Vec<u64>, Option<u64>))
        ensures
            final(self)@ == watched(old(self)@, now).insert(key, now),
            r.0@.no_duplicates(),
            r.0@.to_set() == old(self)@.dom().difference(watched(old(self)@, now).dom()),
            r.1 == (if watched(old(self)@, now).contains_key(key) {
                Some(now.wrapping_sub(watched(old(self)@, now)[key]))
            } else {
                None
            }),
    {
        let mut gone: Vec<u64> = Vec::new();
        if self.last.len() >= MAX_KEYS {
            gone = self.idle_keys(now);
            let mut i: usize = 0;
            assert(gone@.take(0).to_set() =~= Set::empty());
            assert(self.last@ =~= old(self)@.remove_keys(gone@.take(0).to_set()));
            while i < gone.len()
                invariant
                    i <= gone@.len(),
                    self.last@ == old(self)@.remove_keys(gone@.take(i as int).to_set()),
                decreases gone@.len() - i,
            {
                let ghost front = gone@.take(i as int);
                assert(gone@.take(i + 1) =~= front.push(gone@[i as int]));
                proof {
                    front.lemma_push_to_set_commute(gone@[i as int]);
                }
                self.last.remove(&gone[i]);
                assert(self.last@ =~= old(self)@.remove_keys(gone@.take(i + 1).to_set()));
                i += 1;
            }
            assert(gone@.take(i as int) =~= gone@);
            assert(self.last@ =~= watched(old(self)@, now));
        }
        assert(gone@.to_set() =~= old(self)@.dom().difference(watched(old(self)@, now).dom()));
        let seen: Option<u64> = match self.last.get(&key) {
            Some(t) => Some(now.wrapping_sub(*t)),
            None => None,
        };
        self.last.insert(key, now);
        (gone, seen)
    }
}

/// As long as less than 4096 clients are watched nobody is forgotten; from then on all who
/// were not seen for 60000 ms are, and nobody else. Who is watched keeps the time at which
/// they were last seen.
pub proof fn law_only_the_idle_are_forgotten(s: Map<u64, u64>, now: u64, k: u64)
    requires
        s.contains_key(k),
        s[k] <= now,
    ensures
        watched(s, now).contains_key(k) <==> s.len() < 4096 || now - s[k] < 60000,
        watched(s, now).contains_key(k) ==> watched(s, now)[k] == s[k],
{
}

} // verus!
