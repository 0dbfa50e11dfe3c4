//! The key space: each key holds a byte value and, optionally, the instant
//! (in milliseconds of a monotonic clock) at which it expires.
//!
//! Expiry is lazy: every operation that looks at a key first drops it if its
//! deadline has passed, so no caller ever sees an expired value, whether or
//! not a sweep has run.
use vstd::prelude::*;
use dashmap::DashMap;
use crate::decimal::{decimal_of, format_i64, lemma_i64_round_trip, parse_i64, parse_i64_spec};

verus! {

#[verifier::external_type_specification]
#[verifier::external_body]
#[verifier::reject_recursive_types(K)]
#[verifier::reject_recursive_types(V)]
#[verifier::reject_recursive_types(S)]
pub struct ExDashMap<K, V, S>(DashMap<K, V, S>);

/// A stored value and its deadline, if it has one.
pub type Slot = (Vec<u8>, Option<u64>);

/// The key space as the store sees it: key, value, deadline.
pub type Space = Map<Seq<char>, (Seq<u8>, Option<u64>)>;

pub open spec fn empty_space() -> Space {
    Map::empty()
}

/// What a concurrent map of slots holds.
pub uninterp spec fn slots_of(m: DashMap<String, Slot>) -> Space;

/// Relies on `DashMap::new`: a new map is empty.
#[verifier::external_body]
fn slots_new() -> (r: DashMap<String, Slot>)
    ensures
        slots_of(r) == empty_space(),
{
    DashMap::new()
}

/// Relies on `DashMap::get`: the entry of `k`, if any; its value is cloned.
#[verifier::external_body]
fn slots_get(m: &DashMap<String, Slot>, k: &str) -> (r: Option<Slot>)
    ensures
        match r {
            Some(s) => slots_of(*m).contains_key(k@) && slots_of(*m)[k@] == (s.0@, s.1),
            None => !slots_of(*m).contains_key(k@),
        },
{
    m.get(k).map(|e| e.value().clone())
}

/// Relies on `DashMap::insert`: `k` maps to `s` afterwards, the rest stays.
#[verifier::external_body]
fn slots_insert(m: &mut DashMap<String, Slot>, k: String, s: Slot)
    ensures
        slots_of(*final(m)) == slots_of(*old(m)).insert(k@, (s.0@, s.1)),
{
    m.insert(k, s);
}

/// Relies on `DashMap::remove`: `k` is gone afterwards, the rest stays; the
/// result says whether it was there.
#[verifier::external_body]
fn slots_remove(m: &mut DashMap<String, Slot>, k: &str) -> (r: bool)
    ensures
        slots_of(*final(m)) == slots_of(*old(m)).remove(k@),
        r == slots_of(*old(m)).contains_key(k@),
{
    m.remove(k).is_some()
}

/// Relies on `DashMap::clear`: the map is empty afterwards.
#[verifier::external_body]
fn slots_clear(m: &mut DashMap<String, Slot>)
    ensures
        slots_of(*final(m)) == empty_space(),
{
    m.clear();
}

/// Relies on `DashMap::iter`: every entry once, key and deadline, in some
/// order.
#[verifier::external_body]
fn slots_deadlines(m: &DashMap<String, Slot>) -> (r: Vec<(String, Option<u64>)>)
    ensures
        forall|i: int|
            0 <= i < r@.len() ==> slots_of(*m).contains_key(#[trigger] r@[i].0@) && slots_of(
                *m,
            )[r@[i].0@].1 == r@[i].1,
        forall|k: Seq<char>|
            slots_of(*m).contains_key(k) ==> exists|i: int| 0 <= i < r@.len() && #[trigger] r@[i].0@ == k,
{
    m.iter().map(|e| (e.key().clone(), e.value().1)).collect()
}

/// Whether `k` holds a value at `now`: it is there and its deadline, if
/// any, lies after `now`.
pub open spec fn live(m: Space, k: Seq<char>, now: u64) -> bool {
    m.contains_key(k) && match m[k].1 {
        Some(d) => now < d,
        None => true,
    }
}

/// `m` after the lazy expiry of `k` at `now`.
pub open spec fn purge(m: Space, k: Seq<char>, now: u64) -> Space {
    if m.contains_key(k) && !live(m, k, now) {
        m.remove(k)
    } else {
        m
    }
}

/// The value of `k` at `now`.
pub open spec fn value_at(m: Space, k: Seq<char>, now: u64) -> Option<Seq<u8>> {
    if live(m, k, now) {
        Some(m[k].0)
    } else {
        None
    }
}

/// `now + ms`, held at the largest instant.
pub open spec fn later(now: u64, ms: u64) -> u64 {
    if now + ms > u64::MAX {
        u64::MAX
    } else {
        (now + ms) as u64
    }
}

/// `s` seconds in milliseconds, held at the largest count.
pub open spec fn seconds_ms(s: u64) -> u64 {
    if s * 1000 > u64::MAX {
        u64::MAX
    } else {
        (s * 1000) as u64
    }
}

/// What `ttl_seconds` reports of `k` at `now`.
pub open spec fn ttl_at(m: Space, k: Seq<char>, now: u64) -> i64 {
    if !live(m, k, now) {
        -2i64
    } else {
        match m[k].1 {
            None => -1i64,
            Some(d) => ((d - now) / 1000) as i64,
        }
    }
}

/// How many of `keys` are live at `now`, each occurrence counted.
pub open spec fn count_live(m: Space, keys: Seq<Seq<char>>, now: u64) -> nat
    decreases keys.len(),
{
    if keys.len() == 0 {
        0
    } else {
        count_live(m, keys.drop_last(), now) + if live(m, keys.last(), now) {
            1nat
        } else {
            0nat
        }
    }
}

/// `m` after the lazy expiry of each of `keys`.
pub open spec fn purge_all(m: Space, keys: Seq<Seq<char>>, now: u64) -> Space
    decreases keys.len(),
{
    if keys.len() == 0 {
        m
    } else {
        purge(purge_all(m, keys.drop_last(), now), keys.last(), now)
    }
}

/// The key space and the count after deleting `keys` in order at `now`: a
/// key counts when it was live just before its own deletion.
pub open spec fn delete_all(m: Space, keys: Seq<Seq<char>>, now: u64) -> (Space, nat)
    decreases keys.len(),
{
    if keys.len() == 0 {
        (m, 0)
    } else {
        let (m1, c) = delete_all(m, keys.drop_last(), now);
        (m1.remove(keys.last()), c + if live(m1, keys.last(), now) {
            1nat
        } else {
            0nat
        })
    }
}

/// `a + b`, held at the bounds of `i64`.
pub open spec fn saturating_sum(a: i64, b: i64) -> i64 {
    if a + b > i64::MAX {
        i64::MAX
    } else if a + b < i64::MIN {
        i64::MIN
    } else {
        (a + b) as i64
    }
}

/// The message of a failed increment.
pub open spec fn not_an_integer() -> Seq<char> {
    "value is not an integer or out of range"@
}

/// The outcome of adding `delta` to `k` at `now`: the new key space and the
/// new count, or `None` where the value is not a decimal `i64`.
pub open spec fn incr_at(m: Space, k: Seq<char>, delta: i64, now: u64) -> (Space, Option<i64>) {
    let m1 = purge(m, k, now);
    if !m1.contains_key(k) {
        (m1.insert(k, (decimal_of(delta as int), None)), Some(delta))
    } else {
        match parse_i64_spec(m1[k].0) {
            Some(c) => {
                let n = saturating_sum(c, delta);
                (m1.insert(k, (decimal_of(n as int), m1[k].1)), Some(n))
            },
            None => (m1, None),
        }
    }
}

/// The key-value store.
pub struct Database {
    slots: DashMap<String, Slot>,
}

impl View for Database {
    type V = Space;

    closed spec fn view(&self) -> Space {
        slots_of(self.slots)
    }
}

impl Database {
    /// An empty store.
    pub fn new() -> (r: Database)
        ensures
            r@ == empty_space(),
    {
        Database { slots: slots_new() }
    }

    /// Drops `key` if its deadline has passed at `now`; says whether it did.
    fn remove_if_expired(&mut self, key: &str, now: u64) -> (r: bool)
        ensures
            final(self)@ == purge(old(self)@, key@, now),
            r == (old(self)@.contains_key(key@) && !live(old(self)@, key@, now)),
    {
        match slots_get(&self.slots, key) {
            Some(s) => {
                match s.1 {
                    Some(d) => {
                        if now >= d {
                            slots_remove(&mut self.slots, key);
                            return true;
                        }
                    },
                    None => {},
                }
            },
            None => {},
        }
        false
    }

    /// The value of `key` at `now`; an expired key is dropped on the way.
    pub fn get(&mut self, key: &str, now: u64) -> (r: Option<Vec<u8>>)
        ensures
            final(self)@ == purge(old(self)@, key@, now),
            match r {
                Some(v) => value_at(old(self)@, key@, now) == Some(v@),
                None => value_at(old(self)@, key@, now) == None::<Seq<u8>>,
            },
    {
        if self.remove_if_expired(key, now) {
            return None;
        }
        match slots_get(&self.slots, key) {
            Some(s) => Some(s.0),
            None => None,
        }
    }

    /// Stores `value` under `key`. With `ttl_ms` the key expires that many
    /// milliseconds after `now`; without, it keeps no deadline.
    pub fn set(&mut self, key: String, value: Vec<u8>, ttl_ms: Option<u64>, now: u64)
        ensures
            final(self)@ == old(self)@.insert(
                key@,
                (
                    value@,
                    match ttl_ms {
                        Some(t) => Some(later(now, t)),
                        None => None,
                    },
                ),
            ),
    {
        let deadline = match ttl_ms {
            Some(t) => Some(now.saturating_add(t)),
            None => None,
        };
        slots_insert(&mut self.slots, key, (value, deadline));
    }

    /// Deletes each of `keys` in turn; counts those that were live.
    pub fn del(&mut self, keys: &[String], now: u64) -> (r: usize)
        ensures
            (final(self)@, r as nat) == delete_all(old(self)@, keys@.map_values(|k: String| k@), now),
    {
        let ghost names = keys@.map_values(|k: String| k@);
        let mut deleted: usize = 0;
        let mut i: usize = 0;
        while i < keys.len()
            invariant
                i <= keys@.len(),
                names == keys@.map_values(|k: String| k@),
                (self@, deleted as nat) == delete_all(old(self)@, names.subrange(0, i as int), now),
                deleted <= i,
            decreases keys@.len() - i,
        {
            let ghost prefix = names.subrange(0, i as int);
            let ghost next = names.subrange(0, i + 1);
            proof {
                assert(next.drop_last() =~= prefix);
                assert(next.last() == keys@[i as int]@);
            }
            let was_live = !self.remove_if_expired(keys[i].as_str(), now);
            let present = slots_remove(&mut self.slots, keys[i].as_str());
            if was_live && present {
                deleted = deleted + 1;
            }
            proof {
                assert(purge(delete_all(old(self)@, prefix, now).0, keys@[i as int]@, now).remove(keys@[i as int]@)
                    =~= delete_all(old(self)@, prefix, now).0.remove(keys@[i as int]@));
            }
            i = i + 1;
        }
        proof {
            assert(names.subrange(0, i as int) =~= names);
        }
        deleted
    }

    /// Counts the keys of `keys` that are live at `now`, each occurrence on
    /// its own; expired ones are dropped on the way.
    pub fn exists_keys(&mut self, keys: &[String], now: u64) -> (r: usize)
        ensures
            r as nat == count_live(old(self)@, keys@.map_values(|k: String| k@), now),
            final(self)@ == purge_all(old(self)@, keys@.map_values(|k: String| k@), now),
    {
        let ghost names = keys@.map_values(|k: String| k@);
        let mut count: usize = 0;
        let mut i: usize = 0;
        while i < keys.len()
            invariant
                i <= keys@.len(),
                names == keys@.map_values(|k: String| k@),
                self@ == purge_all(old(self)@, names.subrange(0, i as int), now),
                count as nat == count_live(old(self)@, names.subrange(0, i as int), now),
                count <= i,
            decreases keys@.len() - i,
        {
            let ghost prefix = names.subrange(0, i as int);
            let ghost next = names.subrange(0, i + 1);
            proof {
                assert(next.drop_last() =~= prefix);
                assert(next.last() == keys@[i as int]@);
                lemma_purge_all_keeps_liveness(old(self)@, prefix, keys@[i as int]@, now);
            }
            let expired = self.remove_if_expired(keys[i].as_str(), now);
            if !expired {
                match slots_get(&self.slots, keys[i].as_str()) {
                    Some(_) => {
                        count = count + 1;
                    },
                    None => {},
                }
            }
            i = i + 1;
        }
        proof {
            assert(names.subrange(0, i as int) =~= names);
        }
        count
    }

    /// Adds `delta` to the decimal count under `key`, held at the bounds of
    /// `i64`; an absent or expired key counts from zero. Fails, leaving the
    /// value as it was, where the value is not a decimal `i64`.
    pub fn incr_by(&mut self, key: String, delta: i64, now: u64) -> (r: Result<i64, String>)
        ensures
            final(self)@ == incr_at(old(self)@, key@, delta, now).0,
            match r {
                Ok(n) => incr_at(old(self)@, key@, delta, now).1 == Some(n),
                Err(msg) => incr_at(old(self)@, key@, delta, now).1 == None::<i64> && msg@
                    == not_an_integer(),
            },
    {
        self.remove_if_expired(key.as_str(), now);
        match slots_get(&self.slots, key.as_str()) {
            None => {
                slots_insert(&mut self.slots, key, (format_i64(delta), None));
                Ok(delta)
            },
            Some(s) => {
                match parse_i64(s.0.as_slice()) {
                    None => Err("value is not an integer or out of range".to_string()),
                    Some(c) => {
                        let sum: i128 = c as i128 + delta as i128;
                        let n: i64 = if sum > i64::MAX as i128 {
                            i64::MAX
                        } else if sum < i64::MIN as i128 {
                            i64::MIN
                        } else {
                            sum as i64
                        };
                        slots_insert(&mut self.slots, key, (format_i64(n), s.1));
                        Ok(n)
                    },
                }
            },
        }
    }

    /// Gives a live `key` the deadline `seconds` after `now`, or deletes it
    /// where `seconds` is negative. Says whether the key was live.
    pub fn expire_seconds(&mut self, key: &str, seconds: i64, now: u64) -> (r: bool)
        ensures
            r == live(old(self)@, key@, now),
            final(self)@ == if !r {
                purge(old(self)@, key@, now)
            } else if seconds < 0 {
                old(self)@.remove(key@)
            } else {
                old(self)@.insert(
                    key@,
                    (old(self)@[key@].0, Some(later(now, seconds_ms(seconds as u64)))),
                )
            },
    {
        self.remove_if_expired(key, now);
        match slots_get(&self.slots, key) {
            None => false,
            Some(s) => {
                if seconds < 0 {
                    slots_remove(&mut self.slots, key);
                } else {
                    let ms: u64 = if seconds as u64 > u64::MAX / 1000 {
                        u64::MAX
                    } else {
                        seconds as u64 * 1000
                    };
                    slots_insert(&mut self.slots, key.to_string(), (s.0, Some(now.saturating_add(ms))));
                }
                true
            },
        }
    }

    /// Whole seconds left before `key` expires: `-2` where it is not live
    /// (an expired key is dropped on the way), `-1` where it has no deadline.
    pub fn ttl_seconds(&mut self, key: &str, now: u64) -> (r: i64)
        ensures
            r == ttl_at(old(self)@, key@, now),
            final(self)@ == purge(old(self)@, key@, now),
    {
        if self.remove_if_expired(key, now) {
            return -2;
        }
        match slots_get(&self.slots, key) {
            None => -2,
            Some(s) => match s.1 {
                None => -1,
                Some(d) => ((d - now) / 1000) as i64,
            },
        }
    }

    /// Drops the deadline of a live `key`; says whether the key was live.
    pub fn persist(&mut self, key: &str, now: u64) -> (r: bool)
        ensures
            r == live(old(self)@, key@, now),
            final(self)@ == if r {
                old(self)@.insert(key@, (old(self)@[key@].0, None))
            } else {
                purge(old(self)@, key@, now)
            },
    {
        self.remove_if_expired(key, now);
        match slots_get(&self.slots, key) {
            None => false,
            Some(s) => {
                slots_insert(&mut self.slots, key.to_string(), (s.0, None));
                true
            },
        }
    }

    /// Empties the store.
    pub fn flushdb(&mut self)
        ensures
            final(self)@ == empty_space(),
    {
        slots_clear(&mut self.slots);
    }

    /// One sweep: drops every key whose deadline has passed at `now`.
    pub fn remove_expired(&mut self, now: u64)
        ensures
            forall|k: Seq<char>|
                #![trigger final(self)@.contains_key(k)]
                final(self)@.contains_key(k) <==> live(old(self)@, k, now),
            forall|k: Seq<char>|
                #![trigger final(self)@.contains_key(k)]
                final(self)@.contains_key(k) ==> final(self)@[k] == old(self)@[k],
    {
        let entries = slots_deadlines(&self.slots);
        let mut i: usize = 0;
        while i < entries.len()
            invariant
                i <= entries@.len(),
                forall|j: int|
                    0 <= j < entries@.len() ==> old(self)@.contains_key(#[trigger] entries@[j].0@)
                        && old(self)@[entries@[j].0@].1 == entries@[j].1,
                forall|k: Seq<char>|
                    old(self)@.contains_key(k) ==> exists|j: int|
                        0 <= j < entries@.len() && #[trigger] entries@[j].0@ == k,
                forall|k: Seq<char>|
                    #![trigger self@.contains_key(k)]
                    self@.contains_key(k) ==> old(self)@.contains_key(k) && self@[k] == old(self)@[k],
                forall|k: Seq<char>|
                    #![trigger self@.contains_key(k)]
                    live(old(self)@, k, now) ==> self@.contains_key(k),
                forall|j: int|
                    0 <= j < i ==> !live(old(self)@, #[trigger] entries@[j].0@, now)
                        ==> !self@.contains_key(entries@[j].0@),
            decreases entries@.len() - i,
        {
            let expired = match entries[i].1 {
                Some(d) => now >= d,
                None => false,
            };
            if expired {
                let ghost prev = self@;
                let ghost k0 = entries@[i as int].0@;
                proof {
                    assert(old(self)@.contains_key(k0) && old(self)@[k0].1 == entries@[i as int].1);
                    assert(!live(old(self)@, k0, now));
                }
                slots_remove(&mut self.slots, entries[i].0.as_str());
                proof {
                    assert forall|k: Seq<char>| #[trigger] self@.contains_key(k) implies old(self)@.contains_key(k)
                        && self@[k] == old(self)@[k] by {
                        assert(prev.contains_key(k));
                    }
                    assert forall|k: Seq<char>| live(old(self)@, k, now) implies #[trigger] self@.contains_key(k) by {
                        assert(prev.contains_key(k));
                    }
                }
            }
            i = i + 1;
        }
    }
}

proof fn lemma_purge_all_keeps_liveness(m: Space, keys: Seq<Seq<char>>, k: Seq<char>, now: u64)
    ensures
        live(purge_all(m, keys, now), k, now) == live(m, k, now),
        purge_all(m, keys, now).contains_key(k) ==> purge_all(m, keys, now)[k] == m[k],
    decreases keys.len(),
{
    if keys.len() > 0 {
        lemma_purge_all_keeps_liveness(m, keys.drop_last(), k, now);
    }
}

/// The key space and the last reply after incrementing `k` by one at each
/// of `times`, in order.
pub open spec fn incr_repeat(m: Space, k: Seq<char>, times: Seq<u64>) -> (Space, Option<i64>)
    decreases times.len(),
{
    if times.len() == 0 {
        (m, None)
    } else {
        incr_at(incr_repeat(m, k, times.drop_last()).0, k, 1, times.last())
    }
}

/// Once a key is set with a time to live of `secs` seconds at `t0`, its TTL
/// readings never rise as time goes on, also across the lazy expiry that a
/// reading performs, and a reading reports it gone (`-2`) exactly from `secs`
/// seconds after `t0` on.
pub proof fn lemma_ttl_monotone(m: Space, k: Seq<char>, v: Seq<u8>, secs: u64, t0: u64, t1: u64, t2: u64)
    requires
        t0 <= t1 <= t2,
        t0 + secs * 1000 <= u64::MAX,
    ensures
        ({
            let m1 = m.insert(k, (v, Some(later(t0, seconds_ms(secs)))));
            &&& ttl_at(m1, k, t2) <= ttl_at(m1, k, t1)
            &&& ttl_at(purge(m1, k, t1), k, t2) <= ttl_at(m1, k, t1)
            &&& (ttl_at(m1, k, t1) == -2 <==> t1 >= t0 + secs * 1000)
        }),
{
    let m1 = m.insert(k, (v, Some(later(t0, seconds_ms(secs)))));
    let d = later(t0, seconds_ms(secs));
    assert(secs * 1000 <= u64::MAX) by (nonlinear_arith)
        requires
            t0 + secs * 1000 <= u64::MAX,
            t0 >= 0,
    ;
    assert(d == t0 + secs * 1000);
    if t2 < d {
        assert((d - t2) / 1000 <= (d - t1) / 1000) by (nonlinear_arith)
            requires
                t1 <= t2,
                t2 < d,
        ;
    }
}

/// A key reads as gone to `ttl_seconds` exactly when `exists_keys` does not
/// count it and `get` returns nothing.
pub proof fn lemma_expiry_views_agree(m: Space, k: Seq<char>, now: u64)
    ensures
        ttl_at(m, k, now) == -2 <==> count_live(m, seq![k], now) == 0,
        ttl_at(m, k, now) == -2 <==> value_at(m, k, now) is None,
{
    assert(seq![k].drop_last() =~= Seq::<Seq<char>>::empty());
    assert(seq![k].last() == k);
    assert(count_live(m, Seq::<Seq<char>>::empty(), now) == 0);
}

/// Incrementing a fresh key by one, `n` times in turn, leaves the count `n`
/// under it, with no deadline, and replies `n` the last time.
pub proof fn lemma_increments_add_up(m: Space, k: Seq<char>, times: Seq<u64>)
    requires
        !m.contains_key(k),
        times.len() <= i64::MAX,
    ensures
        times.len() > 0 ==> ({
            let (m1, r) = incr_repeat(m, k, times);
            &&& m1.contains_key(k)
            &&& m1[k] == (decimal_of(times.len() as int), None::<u64>)
            &&& r == Some(times.len() as i64)
        }),
    decreases times.len(),
{
    if times.len() > 1 {
        let prev = times.drop_last();
        lemma_increments_add_up(m, k, prev);
        lemma_i64_round_trip(prev.len() as i64);
        let mp = incr_repeat(m, k, prev).0;
        assert(live(mp, k, times.last()));
        assert(purge(mp, k, times.last()) == mp);
        assert(saturating_sum(prev.len() as i64, 1) == times.len() as i64);
    } else if times.len() == 1 {
        assert(times.drop_last() =~= Seq::<u64>::empty());
        assert(incr_repeat(m, k, Seq::<u64>::empty()).0 == m);
        assert(purge(m, k, times.last()) == m);
    }
}

/// Deleting an absent key counts nothing and changes nothing; deleting a
/// live key twice in a row counts one, then nothing.
pub proof fn lemma_delete_idempotent(m: Space, k: Seq<char>, now: u64)
    ensures
        !m.contains_key(k) ==> delete_all(m, seq![k], now) == (m, 0nat),
        live(m, k, now) ==> ({
            let (m1, c1) = delete_all(m, seq![k], now);
            &&& c1 == 1
            &&& delete_all(m1, seq![k], now) == (m1, 0nat)
        }),
{
    assert(seq![k].drop_last() =~= Seq::<Seq<char>>::empty());
    assert(seq![k].last() == k);
    assert(delete_all(m, Seq::<Seq<char>>::empty(), now) == (m, 0nat));
    assert(delete_all(m.remove(k), Seq::<Seq<char>>::empty(), now) == (m.remove(k), 0nat));
    if !m.contains_key(k) {
        assert(m.remove(k) =~= m);
    }
    let m1 = m.remove(k);
    assert(m1.remove(k) =~= m1);
}

} // verus!
