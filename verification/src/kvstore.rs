//! The key/value store: a single shared keyspace mapping byte-string keys to
//! values stamped with their creation time and an optional time-to-live in
//! milliseconds. A read answers found, not found, or expired; expiry is
//! judged against the clock reading passed in (or sampled at call time), and
//! a clock that stepped backwards never expires an entry. An expired entry
//! is not removed; it answers expired on every later read until overwritten.
use crate::bytes::bytes_eq;
use crate::bytes::copy_bytes;
use vstd::prelude::*;

verus! {

broadcast use vstd::seq::group_seq_axioms, vstd::std_specs::vec::group_vec_axioms, vstd::map::group_map_axioms;

/// One stored value: the bytes, the clock reading at the store, and the
/// time-to-live in milliseconds, if any.
pub struct Value {
    pub value: Vec<u8>,
    timestamp: u128,
    expiry: Option<u64>,
}

/// The model of a stored value.
pub struct ValueV {
    pub value: Seq<u8>,
    pub timestamp: u128,
    pub expiry: Option<u64>,
}

impl Value {
    pub closed spec fn view(self) -> ValueV {
        ValueV { value: self.value@, timestamp: self.timestamp, expiry: self.expiry }
    }
}

/// The answer of a read.
#[derive(Debug, PartialEq)]
pub enum KvStatus {
    Found(Vec<u8>),
    KeyNotFound,
    KeyExpired,
}

/// An entry is fresh at clock reading `now` when it has no time-to-live, or
/// the time elapsed since it was stored does not exceed its time-to-live.
/// A clock reading before the entry's timestamp counts as no elapsed time.
pub open spec fn fresh(v: ValueV, now: u128) -> bool {
    match v.expiry {
        None => true,
        Some(ttl) => now <= v.timestamp || now - v.timestamp <= ttl,
    }
}

/// What a read must answer about the store `m` at key `k` and clock `now`:
/// the stored bytes of a fresh entry, `KeyNotFound` for an absent key, and
/// `KeyExpired` for an entry past its time-to-live.
pub open spec fn get_matches(r: KvStatus, m: Map<Seq<u8>, ValueV>, k: Seq<u8>, now: u128) -> bool {
    match r {
        KvStatus::Found(v) => m.contains_key(k) && fresh(m[k], now) && v@ == m[k].value,
        KvStatus::KeyNotFound => !m.contains_key(k),
        KvStatus::KeyExpired => m.contains_key(k) && !fresh(m[k], now),
    }
}

/// The store: a map from key to stored value, held as an association list
/// whose keys are unique.
pub struct KvStore {
    entries: Vec<(Vec<u8>, Value)>,
}

spec fn keys_unique(es: Seq<(Vec<u8>, Value)>) -> bool {
    forall|i: int, j: int|
        0 <= i < j < es.len() ==> (#[trigger] es[i]).0@ != (#[trigger] es[j]).0@
}

/// The map an association list stands for; a later entry for a key would
/// win, but the store keeps keys unique.
spec fn map_of(es: Seq<(Vec<u8>, Value)>) -> Map<Seq<u8>, ValueV>
    decreases es.len(),
{
    if es.len() == 0 {
        Map::empty()
    } else {
        map_of(es.drop_last()).insert(es.last().0@, es.last().1@)
    }
}

/// A key is in the map exactly when some entry holds it.
proof fn lemma_map_of_contains(es: Seq<(Vec<u8>, Value)>, k: Seq<u8>)
    ensures
        map_of(es).contains_key(k) <==> exists|i: int| 0 <= i < es.len() && (#[trigger] es[i]).0@
            == k,
    decreases es.len(),
{
    if es.len() > 0 {
        lemma_map_of_contains(es.drop_last(), k);
        if es.last().0@ == k {
            assert(es[es.len() - 1].0@ == k);
        } else {
            if exists|i: int| 0 <= i < es.len() && (#[trigger] es[i]).0@ == k {
                let i = choose|i: int| 0 <= i < es.len() && (#[trigger] es[i]).0@ == k;
                assert(es.drop_last()[i].0@ == k);
            }
            if exists|i: int|
                0 <= i < es.drop_last().len() && (#[trigger] es.drop_last()[i]).0@ == k {
                let i = choose|i: int|
                    0 <= i < es.drop_last().len() && (#[trigger] es.drop_last()[i]).0@ == k;
                assert(es[i].0@ == k);
            }
        }
    }
}

/// With unique keys, the entry holding a key gives the map's value at it.
proof fn lemma_map_of_at(es: Seq<(Vec<u8>, Value)>, i: int)
    requires
        keys_unique(es),
        0 <= i < es.len(),
    ensures
        map_of(es).contains_key(es[i].0@),
        map_of(es)[es[i].0@] == es[i].1@,
    decreases es.len(),
{
    if i == es.len() - 1 {
    } else {
        assert(es[i].0@ != es.last().0@);
        assert forall|a: int, b: int|
            0 <= a < b < es.drop_last().len() implies (#[trigger] es.drop_last()[a]).0@ != (
        #[trigger] es.drop_last()[b]).0@ by {
            assert(es[a].0@ != es[b].0@);
        }
        lemma_map_of_at(es.drop_last(), i);
        assert(es.drop_last()[i] == es[i]);
    }
}

/// Replacing the entry that holds a key updates the map at that key alone.
proof fn lemma_map_of_update(es: Seq<(Vec<u8>, Value)>, i: int, p: (Vec<u8>, Value))
    requires
        keys_unique(es),
        0 <= i < es.len(),
        p.0@ == es[i].0@,
    ensures
        map_of(es.update(i, p)) == map_of(es).insert(p.0@, p.1@),
        keys_unique(es.update(i, p)),
    decreases es.len(),
{
    let k = p.0@;
    let up = es.update(i, p);
    assert forall|a: int, b: int|
        0 <= a < b < up.len() implies (#[trigger] up[a]).0@ != (#[trigger] up[b]).0@ by {
        assert(es[a].0@ != es[b].0@);
    }
    if i == es.len() - 1 {
        assert(up.drop_last() =~= es.drop_last());
        assert(map_of(up) =~= map_of(es).insert(k, p.1@));
    } else {
        assert(up.drop_last() =~= es.drop_last().update(i, p));
        assert(up.last() == es.last());
        assert forall|a: int, b: int|
            0 <= a < b < es.drop_last().len() implies (#[trigger] es.drop_last()[a]).0@ != (
        #[trigger] es.drop_last()[b]).0@ by {
            assert(es[a].0@ != es[b].0@);
        }
        lemma_map_of_update(es.drop_last(), i, p);
        assert(es[i].0@ != es.last().0@);
        assert(map_of(up) =~= map_of(es).insert(k, p.1@));
    }
}

/// Appending an entry under a new key inserts it into the map.
proof fn lemma_map_of_push(es: Seq<(Vec<u8>, Value)>, p: (Vec<u8>, Value))
    requires
        keys_unique(es),
        forall|j: int| 0 <= j < es.len() ==> (#[trigger] es[j]).0@ != p.0@,
    ensures
        map_of(es.push(p)) == map_of(es).insert(p.0@, p.1@),
        keys_unique(es.push(p)),
{
    assert(es.push(p).drop_last() =~= es);
    assert(es.push(p).last() == p);
    assert forall|a: int, b: int|
        0 <= a < b < es.push(p).len() implies (#[trigger] es.push(p)[a]).0@ != (#[trigger] es.push(
        p,
    )[b]).0@ by {
        if b < es.len() {
            assert(es[a].0@ != es[b].0@);
        } else {
            assert(es[a].0@ != p.0@);
        }
    }
}

/// The wall clock, in milliseconds since the Unix epoch. Relies on
/// `std::time::SystemTime::now` and `duration_since`: a reading before the
/// epoch is reported as zero. Nothing is assumed of the reading; every
/// caller states what holds for any clock value.
#[verifier::external_body]
pub(crate) fn current_time() -> u128 {
    match std::time::SystemTime::now().duration_since(std::time::UNIX_EPOCH) {
        Ok(d) => d.as_millis(),
        Err(_) => 0,
    }
}

/// The index of the entry holding `key`, if any.
fn find_key(es: &Vec<(Vec<u8>, Value)>, key: &Vec<u8>) -> (r: Option<usize>)
    ensures
        match r {
            Some(i) => i < es@.len() && es@[i as int].0@ == key@,
            None => forall|j: int| 0 <= j < es@.len() ==> (#[trigger] es@[j]).0@ != key@,
        },
{
    let mut i: usize = 0;
    while i < es.len()
        invariant
            i <= es@.len(),
            forall|j: int| 0 <= j < i ==> (#[trigger] es@[j]).0@ != key@,
        decreases es@.len() - i,
    {
        if bytes_eq(&es[i].0, key) {
            return Some(i);
        }
        i = i + 1;
    }
    None
}

impl KvStore {
    #[verifier::type_invariant]
    spec fn inv(self) -> bool {
        keys_unique(self.entries@)
    }

    pub closed spec fn view(self) -> Map<Seq<u8>, ValueV> {
        map_of(self.entries@)
    }

    /// An empty store.
    pub fn new() -> (r: KvStore)
        ensures
            r@ == Map::<Seq<u8>, ValueV>::empty(),
    {
        KvStore { entries: Vec::new() }
    }

    /// Stores `value` under `key` with the given time-to-live, stamping it
    /// with the clock reading `now`; inserts or overwrites, never fails.
    pub fn set_at(&mut self, key: Vec<u8>, value: Vec<u8>, expiry: Option<u64>, now: u128)
        ensures
            final(self)@ == old(self)@.insert(
                key@,
                ValueV { value: value@, timestamp: now, expiry },
            ),
    {
        proof {
            use_type_invariant(&*self);
        }
        let entry = Value { value, timestamp: now, expiry };
        let ghost es0 = self.entries@;
        let mut es: Vec<(Vec<u8>, Value)> = Vec::new();
        core::mem::swap(&mut self.entries, &mut es);
        match find_key(&es, &key) {
            Some(i) => {
                proof {
                    lemma_map_of_update(es0, i as int, (key, entry));
                }
                es.set(i, (key, entry));
            },
            None => {
                proof {
                    lemma_map_of_push(es0, (key, entry));
                }
                es.push((key, entry));
            },
        }
        core::mem::swap(&mut self.entries, &mut es);
    }

    /// Stores `value` under `key`, stamped with the wall clock read at call
    /// time; some clock reading governs the entry's later expiry.
    pub fn set(&mut self, key: Vec<u8>, value: Vec<u8>, expiry: Option<u64>)
        ensures
            exists|now: u128|
                final(self)@ == old(self)@.insert(
                    key@,
                    ValueV { value: value@, timestamp: now, expiry },
                ),
    {
        let now = current_time();
        self.set_at(key, value, expiry, now);
    }

    /// Reads `key` as of the clock reading `now`: the stored bytes while the
    /// entry is fresh, `KeyNotFound` for an absent key, `KeyExpired` once
    /// the time-to-live has passed.
    pub fn get_at(&self, key: &Vec<u8>, now: u128) -> (r: KvStatus)
        ensures
            get_matches(r, self@, key@, now),
    {
        proof {
            use_type_invariant(self);
        }
        match find_key(&self.entries, key) {
            None => {
                proof {
                    lemma_map_of_contains(self.entries@, key@);
                }
                KvStatus::KeyNotFound
            },
            Some(i) => {
                proof {
                    lemma_map_of_at(self.entries@, i as int);
                }
                let entry = &self.entries[i].1;
                match entry.expiry {
                    None => KvStatus::Found(copy_bytes(&entry.value)),
                    Some(ttl) => {
                        if now <= entry.timestamp {
                            KvStatus::Found(copy_bytes(&entry.value))
                        } else if now - entry.timestamp > ttl as u128 {
                            KvStatus::KeyExpired
                        } else {
                            KvStatus::Found(copy_bytes(&entry.value))
                        }
                    },
                }
            },
        }
    }

    /// Reads `key` as of the wall clock read at call time.
    pub fn get(&self, key: Vec<u8>) -> (r: KvStatus)
        ensures
            exists|now: u128| get_matches(r, self@, key@, now),
    {
        let now = current_time();
        let r = self.get_at(&key, now);
        proof {
            assert(get_matches(r, self@, key@, now));
        }
        r
    }
}

} // verus!
