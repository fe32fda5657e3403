//! A generic expiring cache: a mapping from keys to values where every entry
//! carries an expiration instant in milliseconds, with an optional ceiling on
//! the number of stored entries. Entries past their expiration stay in
//! storage (and count toward `len`) until they are overwritten or purged;
//! reads filter them out.
//!
//! Every operation that consults the clock has a deterministic twin taking
//! the current time as an argument; the twin carries the exact contract, and
//! the clock-sampling method promises that its result is the twin's result at
//! some instant.

use vstd::prelude::*;

verus! {

/// A key type for the cache: an executable equality test together with the
/// equivalence relation it decides.
pub trait CacheKey: Sized {
    /// When two keys count as the same key.
    spec fn same_key(&self, other: &Self) -> bool;

    /// Sameness is reflexive.
    proof fn same_key_reflexive(a: &Self)
        ensures
            a.same_key(a),
    ;

    /// Sameness is symmetric.
    proof fn same_key_symmetric(a: &Self, b: &Self)
        ensures
            a.same_key(b) == b.same_key(a),
    ;

    /// Sameness is transitive.
    proof fn same_key_transitive(a: &Self, b: &Self, c: &Self)
        requires
            a.same_key(b),
            b.same_key(c),
        ensures
            a.same_key(c),
    ;

    /// Decides `same_key`.
    fn key_eq(&self, other: &Self) -> (r: bool)
        ensures
            r == self.same_key(other),
    ;
}

impl CacheKey for String {
    open spec fn same_key(&self, other: &Self) -> bool {
        self@ == other@
    }

    proof fn same_key_reflexive(a: &Self) {
    }

    proof fn same_key_symmetric(a: &Self, b: &Self) {
    }

    proof fn same_key_transitive(a: &Self, b: &Self, c: &Self) {
    }

    fn key_eq(&self, other: &Self) -> (r: bool) {
        *self == *other
    }
}

impl CacheKey for i32 {
    open spec fn same_key(&self, other: &Self) -> bool {
        *self == *other
    }

    proof fn same_key_reflexive(a: &Self) {
    }

    proof fn same_key_symmetric(a: &Self, b: &Self) {
    }

    proof fn same_key_transitive(a: &Self, b: &Self, c: &Self) {
    }

    fn key_eq(&self, other: &Self) -> (r: bool) {
        *self == *other
    }
}

/// The entry at index `i` holds key `k`.
pub open spec fn key_at<K: CacheKey, V>(s: Seq<(K, V, u64)>, k: K, i: int) -> bool {
    0 <= i < s.len() && s[i].0.same_key(&k)
}

/// Some entry holds key `k`.
pub open spec fn has_key<K: CacheKey, V>(s: Seq<(K, V, u64)>, k: K) -> bool {
    exists|i: int| key_at(s, k, i)
}

/// The index of the entry holding key `k` (unique when keys are unique).
pub open spec fn key_index<K: CacheKey, V>(s: Seq<(K, V, u64)>, k: K) -> int {
    choose|i: int| key_at(s, k, i)
}

/// No two entries hold the same key.
pub open spec fn unique_entry_keys<K: CacheKey, V>(s: Seq<(K, V, u64)>) -> bool {
    forall|i: int, j: int|
        0 <= i < j < s.len() ==> !(#[trigger] s[i].0.same_key(&s[j].0))
}

/// With unique keys, an entry holding `k` is the entry `key_index` picks.
pub proof fn lemma_key_index_unique<K: CacheKey, V>(s: Seq<(K, V, u64)>, k: K, i: int)
    requires
        unique_entry_keys(s),
        key_at(s, k, i),
    ensures
        has_key(s, k),
        key_index(s, k) == i,
{
    assert(has_key(s, k));
    let j = key_index(s, k);
    assert(key_at(s, k, j));
    if i != j {
        K::same_key_symmetric(&s[j].0, &k);
        K::same_key_transitive(&s[i].0, &k, &s[j].0);
        K::same_key_symmetric(&s[i].0, &s[j].0);
        assert(false);
    }
}

/// The value live for key `k` at instant `now`: present only when some entry
/// holds the key and its expiration lies strictly in the future.
pub open spec fn spec_lookup<K: CacheKey, V>(s: Seq<(K, V, u64)>, k: K, now: u64) -> Option<V> {
    if has_key(s, k) && now < s[key_index(s, k)].2 {
        Some(s[key_index(s, k)].1)
    } else {
        None
    }
}

/// The entries of `s` whose expiration lies strictly after `now`, in order.
pub open spec fn live_entries<K: CacheKey, V>(s: Seq<(K, V, u64)>, now: u64) -> Seq<(K, V, u64)>
    decreases s.len(),
{
    if s.len() == 0 {
        Seq::empty()
    } else if now < s.last().2 {
        live_entries(s.drop_last(), now).push(s.last())
    } else {
        live_entries(s.drop_last(), now)
    }
}

/// Every live entry is one of the stored entries.
pub proof fn lemma_live_entries_member<K: CacheKey, V>(s: Seq<(K, V, u64)>, now: u64, i: int)
    requires
        0 <= i < live_entries(s, now).len(),
    ensures
        exists|j: int| 0 <= j < s.len() && live_entries(s, now)[i] == s[j],
    decreases s.len(),
{
    if s.len() == 0 {
    } else {
        let l = live_entries(s, now);
        let l0 = live_entries(s.drop_last(), now);
        if now < s.last().2 && i == l.len() - 1 {
            assert(l[i] == s[s.len() - 1]);
        } else {
            lemma_live_entries_member(s.drop_last(), now, i);
            let j = choose|j: int|
                0 <= j < s.drop_last().len() && live_entries(s.drop_last(), now)[i]
                    == s.drop_last()[j];
            assert(s.drop_last()[j] == s[j]);
            assert(l[i] == l0[i]);
            assert(l[i] == s[j]);
        }
    }
}

/// Purging expired entries keeps keys unique.
pub proof fn lemma_live_entries_unique<K: CacheKey, V>(s: Seq<(K, V, u64)>, now: u64)
    requires
        unique_entry_keys(s),
    ensures
        unique_entry_keys(live_entries(s, now)),
    decreases s.len(),
{
    if s.len() == 0 {
    } else {
        let l = live_entries(s, now);
        let l0 = live_entries(s.drop_last(), now);
        assert(unique_entry_keys(s.drop_last())) by {
            assert(forall|i: int, j: int|
                0 <= i < j < s.drop_last().len() ==> !(#[trigger] s.drop_last()[i].0.same_key(
                    &s.drop_last()[j].0,
                ))) by {
                assert(forall|i: int, j: int|
                    0 <= i < j < s.len() - 1 ==> !(#[trigger] s[i].0.same_key(&s[j].0)));
            }
        }
        lemma_live_entries_unique(s.drop_last(), now);
        if now < s.last().2 {
            assert forall|i: int, j: int| 0 <= i < j < l.len() implies !(#[trigger] l[i].0.same_key(
                &l[j].0,
            )) by {
                if j == l.len() - 1 {
                    lemma_live_entries_member(s.drop_last(), now, i);
                    let m = choose|m: int|
                        0 <= m < s.drop_last().len() && l0[i] == s.drop_last()[m];
                    assert(l[i] == s[m]);
                    assert(l[j] == s[s.len() - 1]);
                    assert(!s[m].0.same_key(&s[s.len() - 1].0));
                } else {
                    assert(l[i] == l0[i] && l[j] == l0[j]);
                }
            }
        }
    }
}

/// The expiration instant `ttl` milliseconds after `now`, saturating.
pub open spec fn spec_expiry(now: u64, ttl: u64) -> u64 {
    if now + ttl > u64::MAX {
        u64::MAX
    } else {
        (now + ttl) as u64
    }
}

fn expiry(now: u64, ttl: u64) -> (r: u64)
    ensures
        r == spec_expiry(now, ttl),
{
    if now <= u64::MAX - ttl {
        now + ttl
    } else {
        u64::MAX
    }
}

/// Relies on `std::time::SystemTime::now`: the number of whole milliseconds
/// between the Unix epoch and the call, clamped into `u64` (0 when the clock
/// reads before the epoch). Nothing is promised of the value.
#[verifier::external_body]
fn now_millis() -> u64 {
    match std::time::SystemTime::now().duration_since(std::time::UNIX_EPOCH) {
        Ok(d) => {
            let ms = d.as_millis();
            if ms > u64::MAX as u128 {
                u64::MAX
            } else {
                ms as u64
            }
        },
        Err(_) => 0,
    }
}

/// A cache with per-entry expiration and an optional capacity ceiling.
#[derive(Debug, Clone)]
pub struct Cache<K: CacheKey, V> {
    items: Vec<(K, V, u64)>,
    ttl_ms: u64,
    capacity: Option<usize>,
}

impl<K: CacheKey, V> Cache<K, V> {
    /// The stored entries, in storage order: key, value, expiration instant.
    pub closed spec fn entries(self) -> Seq<(K, V, u64)> {
        self.items@
    }

    /// The time-to-live, in milliseconds, given to new and refreshed entries.
    pub closed spec fn spec_ttl(self) -> u64 {
        self.ttl_ms
    }

    /// The capacity ceiling, if one is set.
    pub closed spec fn spec_capacity(self) -> Option<usize> {
        self.capacity
    }

    /// Well-formed: keys are unique and the time-to-live is positive.
    pub open spec fn wf(self) -> bool {
        unique_entry_keys(self.entries()) && self.spec_ttl() > 0
    }

    /// An insert of `key` is refused: the cache is at its ceiling and the key
    /// is absent. The check uses the stored count, not the live count.
    pub open spec fn blocks(self, key: K) -> bool {
        match self.spec_capacity() {
            Some(cap) => self.entries().len() >= cap && !has_key(self.entries(), key),
            None => false,
        }
    }

    /// Creates a cache whose entries live for `ttl` milliseconds.
    pub fn new(ttl: u64) -> (r: Self)
        requires
            ttl > 0,
        ensures
            r.wf(),
            r.entries() == Seq::<(K, V, u64)>::empty(),
            r.spec_ttl() == ttl,
            r.spec_capacity() is None,
    {
        Cache { items: Vec::new(), ttl_ms: ttl, capacity: None }
    }

    /// Creates a cache with the given time-to-live in milliseconds and a
    /// capacity ceiling of `capacity` entries.
    pub fn with_capacity(ttl: u64, capacity: usize) -> (r: Self)
        requires
            ttl > 0,
        ensures
            r.wf(),
            r.entries() == Seq::<(K, V, u64)>::empty(),
            r.spec_ttl() == ttl,
            r.spec_capacity() == Some(capacity),
    {
        Cache { items: Vec::with_capacity(capacity), ttl_ms: ttl, capacity: Some(capacity) }
    }

    /// The index of the entry holding `key`, if any.
    fn find_index(&self, key: &K) -> (r: Option<usize>)
        ensures
            match r {
                Some(i) => key_at(self.entries(), *key, i as int),
                None => forall|i: int| !key_at(self.entries(), *key, i),
            },
    {
        let mut i: usize = 0;
        while i < self.items.len()
            invariant
                0 <= i <= self.items@.len(),
                forall|j: int| 0 <= j < i ==> !key_at(self.items@, *key, j),
            decreases self.items@.len() - i,
        {
            let e = &self.items[i];
            if e.0.key_eq(key) {
                return Some(i);
            }
            i = i + 1;
        }
        None
    }

    /// Inserts `key` with `value` as of instant `now`: refused when the cache
    /// is at its ceiling and the key is new; replaces the entry (returning
    /// the previous value) when the key is present; appends otherwise.
    pub fn insert_at(&mut self, key: K, value: V, now: u64) -> (r: Option<V>)
        requires
            old(self).wf(),
        ensures
            final(self).wf(),
            final(self).spec_ttl() == old(self).spec_ttl(),
            final(self).spec_capacity() == old(self).spec_capacity(),
            old(self).blocks(key) ==> final(self).entries() == old(self).entries() && r is None,
            !old(self).blocks(key) ==> {
                let exp = spec_expiry(now, old(self).spec_ttl());
                if has_key(old(self).entries(), key) {
                    let i = key_index(old(self).entries(), key);
                    &&& final(self).entries() == old(self).entries().update(i, (key, value, exp))
                    &&& r == Some(old(self).entries()[i].1)
                } else {
                    &&& final(self).entries() == old(self).entries().push((key, value, exp))
                    &&& r is None
                }
            },
    {
        let ghost s0 = self.items@;
        match self.find_index(&key) {
            None => {
                assert(!has_key(s0, key));
                if let Some(cap) = self.capacity {
                    if self.items.len() >= cap {
                        return None;
                    }
                }
                let exp = expiry(now, self.ttl_ms);
                self.items.push((key, value, exp));
                proof {
                    assert(self.items@.drop_last() =~= s0);
                    assert(unique_entry_keys(self.items@)) by {
                        assert forall|i: int, j: int| 0 <= i < j < self.items@.len() implies !(
                        #[trigger] self.items@[i].0.same_key(&self.items@[j].0)) by {
                            if j == self.items@.len() - 1 {
                                assert(!key_at(s0, key, i));
                            }
                        }
                    }
                }
                None
            },
            Some(i) => {
                proof {
                    lemma_key_index_unique(s0, key, i as int);
                }
                let exp = expiry(now, self.ttl_ms);
                let entry = self.items.remove(i);
                self.items.insert(i, (key, value, exp));
                proof {
                    assert(self.items@ =~= s0.update(i as int, (key, value, exp)));
                    assert(unique_entry_keys(self.items@)) by {
                        let t = self.items@;
                        assert forall|a: int, b: int| 0 <= a < b < t.len() implies !(
                        #[trigger] t[a].0.same_key(&t[b].0)) by {
                            if a == i {
                                if t[a].0.same_key(&t[b].0) {
                                    K::same_key_symmetric(&s0[i as int].0, &key);
                                    K::same_key_transitive(&s0[i as int].0, &key, &s0[b].0);
                                    assert(false);
                                }
                            } else if b == i {
                                if t[a].0.same_key(&t[b].0) {
                                    K::same_key_symmetric(&s0[i as int].0, &key);
                                    K::same_key_transitive(&s0[a].0, &key, &s0[i as int].0);
                                    assert(false);
                                }
                            }
                        }
                    }
                }
                Some(entry.1)
            },
        }
    }

    /// Inserts `key` with `value` as of the present instant.
    pub fn insert(&mut self, key: K, value: V) -> (r: Option<V>)
        requires
            old(self).wf(),
        ensures
            final(self).wf(),
            final(self).spec_ttl() == old(self).spec_ttl(),
            final(self).spec_capacity() == old(self).spec_capacity(),
            old(self).blocks(key) ==> final(self).entries() == old(self).entries() && r is None,
            !old(self).blocks(key) ==> (exists|now: u64|
                {
                    let exp = #[trigger] spec_expiry(now, old(self).spec_ttl());
                    if has_key(old(self).entries(), key) {
                        let i = key_index(old(self).entries(), key);
                        &&& final(self).entries() == old(self).entries().update(
                            i,
                            (key, value, exp),
                        )
                        &&& r == Some(old(self).entries()[i].1)
                    } else {
                        &&& final(self).entries() == old(self).entries().push((key, value, exp))
                        &&& r is None
                    }
                }),
    {
        let now = now_millis();
        let r = self.insert_at(key, value, now);
        r
    }

    /// The value for `key` if its entry is live at instant `now`.
    pub fn get_at(&self, key: &K, now: u64) -> (r: Option<&V>)
        requires
            self.wf(),
        ensures
            match r {
                Some(v) => spec_lookup(self.entries(), *key, now) == Some(*v),
                None => spec_lookup(self.entries(), *key, now) is None,
            },
    {
        match self.find_index(key) {
            Some(i) => {
                proof {
                    lemma_key_index_unique(self.entries(), *key, i as int);
                }
                let e = &self.items[i];
                if now < e.2 {
                    Some(&e.1)
                } else {
                    None
                }
            },
            None => {
                assert(!has_key(self.entries(), *key));
                None
            },
        }
    }

    /// The value for `key` if its entry is live now.
    pub fn get(&self, key: &K) -> (r: Option<&V>)
        requires
            self.wf(),
        ensures
            exists|now: u64|
                match r {
                    Some(v) => #[trigger] spec_lookup(self.entries(), *key, now) == Some(*v),
                    None => spec_lookup(self.entries(), *key, now) is None,
                },
    {
        let now = now_millis();
        let r = self.get_at(key, now);
        proof {
            assert(match r {
                Some(v) => spec_lookup(self.entries(), *key, now) == Some(*v),
                None => spec_lookup(self.entries(), *key, now) is None,
            });
        }
        r
    }

    /// Whether `key` has a live entry at instant `now`.
    pub fn contains_key_at(&self, key: &K, now: u64) -> (r: bool)
        requires
            self.wf(),
        ensures
            r == (spec_lookup(self.entries(), *key, now) is Some),
    {
        self.get_at(key, now).is_some()
    }

    /// Whether `key` has a live entry now.
    pub fn contains_key(&self, key: &K) -> (r: bool)
        requires
            self.wf(),
        ensures
            exists|now: u64| r == (#[trigger] spec_lookup(self.entries(), *key, now) is Some),
    {
        let now = now_millis();
        let r = self.contains_key_at(key, now);
        proof {
            assert(r == (spec_lookup(self.entries(), *key, now) is Some));
        }
        r
    }

    /// The time until `key`'s entry expires, at instant `now`; absent when
    /// the entry is missing or already expired.
    pub fn ttl_at(&self, key: &K, now: u64) -> (r: Option<u64>)
        requires
            self.wf(),
        ensures
            spec_lookup(self.entries(), *key, now) is Some ==> r == Some(
                (self.entries()[key_index(self.entries(), *key)].2 - now) as u64,
            ),
            spec_lookup(self.entries(), *key, now) is None ==> r is None,
    {
        match self.find_index(key) {
            Some(i) => {
                proof {
                    lemma_key_index_unique(self.entries(), *key, i as int);
                }
                let e = &self.items[i];
                if now < e.2 {
                    Some(e.2 - now)
                } else {
                    None
                }
            },
            None => {
                assert(!has_key(self.entries(), *key));
                None
            },
        }
    }

    /// The time until `key`'s entry expires, measured from the present
    /// instant.
    pub fn ttl(&self, key: &K) -> (r: Option<u64>)
        requires
            self.wf(),
        ensures
            exists|now: u64|
                {
                    &&& (#[trigger] spec_lookup(self.entries(), *key, now)) is Some ==> r == Some(
                        (self.entries()[key_index(self.entries(), *key)].2 - now) as u64,
                    )
                    &&& spec_lookup(self.entries(), *key, now) is None ==> r is None
                },
    {
        let now = now_millis();
        let r = self.ttl_at(key, now);
        proof {
            assert({
                &&& spec_lookup(self.entries(), *key, now) is Some ==> r == Some(
                    (self.entries()[key_index(self.entries(), *key)].2 - now) as u64,
                )
                &&& spec_lookup(self.entries(), *key, now) is None ==> r is None
            });
        }
        r
    }

    /// Resets `key`'s expiration to a full time-to-live from instant `now`,
    /// even when the entry had already expired; reports whether the key was
    /// present.
    pub fn refresh_at(&mut self, key: &K, now: u64) -> (r: bool)
        requires
            old(self).wf(),
        ensures
            final(self).wf(),
            final(self).spec_ttl() == old(self).spec_ttl(),
            final(self).spec_capacity() == old(self).spec_capacity(),
            r == has_key(old(self).entries(), *key),
            r ==> {
                let i = key_index(old(self).entries(), *key);
                let e = old(self).entries()[i];
                final(self).entries() == old(self).entries().update(
                    i,
                    (e.0, e.1, spec_expiry(now, old(self).spec_ttl())),
                )
            },
            !r ==> final(self).entries() == old(self).entries(),
    {
        let ghost s0 = self.items@;
        match self.find_index(key) {
            Some(i) => {
                proof {
                    lemma_key_index_unique(s0, *key, i as int);
                }
                let exp = expiry(now, self.ttl_ms);
                let (k0, v0, _old_exp) = self.items.remove(i);
                self.items.insert(i, (k0, v0, exp));
                proof {
                    assert(self.items@ =~= s0.update(
                        i as int,
                        (s0[i as int].0, s0[i as int].1, spec_expiry(now, self.ttl_ms)),
                    ));
                    assert(unique_entry_keys(self.items@)) by {
                        assert(forall|j: int|
                            0 <= j < self.items@.len() ==> (#[trigger] self.items@[j].0)
                                == s0[j].0);
                    }
                }
                true
            },
            None => {
                assert(!has_key(s0, *key));
                false
            },
        }
    }

    /// Resets `key`'s expiration to a full time-to-live from the present
    /// instant.
    pub fn refresh(&mut self, key: &K) -> (r: bool)
        requires
            old(self).wf(),
        ensures
            final(self).wf(),
            final(self).spec_ttl() == old(self).spec_ttl(),
            final(self).spec_capacity() == old(self).spec_capacity(),
            r == has_key(old(self).entries(), *key),
            r ==> (exists|now: u64|
                {
                    let i = key_index(old(self).entries(), *key);
                    let e = old(self).entries()[i];
                    final(self).entries() == old(self).entries().update(
                        i,
                        (e.0, e.1, #[trigger] spec_expiry(now, old(self).spec_ttl())),
                    )
                }),
            !r ==> final(self).entries() == old(self).entries(),
    {
        let now = now_millis();
        let r = self.refresh_at(key, now);
        r
    }

    /// Replaces `key`'s value and resets its expiration as of instant `now`;
    /// does not insert an absent key. Reports whether the key was present.
    pub fn update_at(&mut self, key: &K, value: V, now: u64) -> (r: bool)
        requires
            old(self).wf(),
        ensures
            final(self).wf(),
            final(self).spec_ttl() == old(self).spec_ttl(),
            final(self).spec_capacity() == old(self).spec_capacity(),
            r == has_key(old(self).entries(), *key),
            r ==> {
                let i = key_index(old(self).entries(), *key);
                let e = old(self).entries()[i];
                final(self).entries() == old(self).entries().update(
                    i,
                    (e.0, value, spec_expiry(now, old(self).spec_ttl())),
                )
            },
            !r ==> final(self).entries() == old(self).entries(),
    {
        let ghost s0 = self.items@;
        match self.find_index(key) {
            Some(i) => {
                proof {
                    lemma_key_index_unique(s0, *key, i as int);
                }
                let exp = expiry(now, self.ttl_ms);
                let (k0, _old_value, _old_exp) = self.items.remove(i);
                self.items.insert(i, (k0, value, exp));
                proof {
                    assert(self.items@ =~= s0.update(
                        i as int,
                        (s0[i as int].0, value, spec_expiry(now, self.ttl_ms)),
                    ));
                    assert(unique_entry_keys(self.items@)) by {
                        assert(forall|j: int|
                            0 <= j < self.items@.len() ==> (#[trigger] self.items@[j].0)
                                == s0[j].0);
                    }
                }
                true
            },
            None => {
                assert(!has_key(s0, *key));
                false
            },
        }
    }

    /// Replaces `key`'s value and resets its expiration as of the present
    /// instant; does not insert an absent key.
    pub fn update(&mut self, key: &K, value: V) -> (r: bool)
        requires
            old(self).wf(),
        ensures
            final(self).wf(),
            final(self).spec_ttl() == old(self).spec_ttl(),
            final(self).spec_capacity() == old(self).spec_capacity(),
            r == has_key(old(self).entries(), *key),
            r ==> (exists|now: u64|
                {
                    let i = key_index(old(self).entries(), *key);
                    let e = old(self).entries()[i];
                    final(self).entries() == old(self).entries().update(
                        i,
                        (e.0, value, #[trigger] spec_expiry(now, old(self).spec_ttl())),
                    )
                }),
            !r ==> final(self).entries() == old(self).entries(),
    {
        let now = now_millis();
        let r = self.update_at(key, value, now);
        r
    }

    /// Removes `key`'s entry regardless of liveness and returns its value.
    pub fn remove(&mut self, key: &K) -> (r: Option<V>)
        requires
            old(self).wf(),
        ensures
            final(self).wf(),
            final(self).spec_ttl() == old(self).spec_ttl(),
            final(self).spec_capacity() == old(self).spec_capacity(),
            has_key(old(self).entries(), *key) ==> {
                let i = key_index(old(self).entries(), *key);
                &&& final(self).entries() == old(self).entries().remove(i)
                &&& r == Some(old(self).entries()[i].1)
            },
            !has_key(old(self).entries(), *key) ==> final(self).entries() == old(self).entries()
                && r is None,
    {
        let ghost s0 = self.items@;
        match self.find_index(key) {
            Some(i) => {
                proof {
                    lemma_key_index_unique(s0, *key, i as int);
                }
                let entry = self.items.remove(i);
                proof {
                    assert(unique_entry_keys(self.items@)) by {
                        let t = self.items@;
                        assert forall|a: int, b: int| 0 <= a < b < t.len() implies !(
                        #[trigger] t[a].0.same_key(&t[b].0)) by {
                            let a0 = if a < i { a } else { a + 1 };
                            let b0 = if b < i { b } else { b + 1 };
                            assert(t[a] == s0[a0] && t[b] == s0[b0]);
                        }
                    }
                }
                Some(entry.1)
            },
            None => {
                assert(!has_key(s0, *key));
                None
            },
        }
    }

    /// Purges every entry whose expiration is at or before instant `now`.
    pub fn remove_expired_at(&mut self, now: u64)
        requires
            old(self).wf(),
        ensures
            final(self).wf(),
            final(self).spec_ttl() == old(self).spec_ttl(),
            final(self).spec_capacity() == old(self).spec_capacity(),
            final(self).entries() == live_entries(old(self).entries(), now),
    {
        let ghost s0 = self.items@;
        let mut rest: Vec<(K, V, u64)> = Vec::new();
        std::mem::swap(&mut rest, &mut self.items);
        let mut kept: Vec<(K, V, u64)> = Vec::new();
        proof {
            assert(s0.take(0) =~= Seq::<(K, V, u64)>::empty());
        }
        while rest.len() > 0
            invariant
                rest@.len() <= s0.len(),
                rest@ == s0.subrange(s0.len() - rest@.len(), s0.len() as int),
                kept@ == live_entries(s0.take(s0.len() - rest@.len()), now),
            decreases rest@.len(),
        {
            let ghost k = s0.len() - rest@.len();
            let e = rest.remove(0);
            proof {
                assert(s0.subrange(k, s0.len() as int)[0] == s0[k]);
                assert(rest@ =~= s0.subrange(k + 1, s0.len() as int));
                assert(s0.take(k + 1).drop_last() =~= s0.take(k));
                assert(s0.take(k + 1).last() == s0[k]);
            }
            if now < e.2 {
                kept.push(e);
            }
        }
        proof {
            assert(s0.take(s0.len() as int) =~= s0);
        }
        self.items = kept;
        proof {
            lemma_live_entries_unique(s0, now);
        }
    }

    /// Purges every entry that has expired by the present instant.
    pub fn remove_expired(&mut self)
        requires
            old(self).wf(),
        ensures
            final(self).wf(),
            final(self).spec_ttl() == old(self).spec_ttl(),
            final(self).spec_capacity() == old(self).spec_capacity(),
            exists|now: u64| final(self).entries() == live_entries(old(self).entries(), now),
    {
        let now = now_millis();
        self.remove_expired_at(now);
    }

    /// The live key-value pairs at instant `now`, in storage order.
    pub fn iter_at(&self, now: u64) -> (r: Vec<(&K, &V)>)
        ensures
            r@.len() == live_entries(self.entries(), now).len(),
            forall|i: int|
                0 <= i < r@.len() ==> *(#[trigger] r@[i]).0 == live_entries(
                    self.entries(),
                    now,
                )[i].0 && *r@[i].1 == live_entries(self.entries(), now)[i].1,
    {
        let ghost s = self.items@;
        let mut r: Vec<(&K, &V)> = Vec::new();
        let mut i: usize = 0;
        proof {
            assert(s.take(0) =~= Seq::<(K, V, u64)>::empty());
        }
        while i < self.items.len()
            invariant
                0 <= i <= s.len(),
                s == self.items@,
                r@.len() == live_entries(s.take(i as int), now).len(),
                forall|j: int|
                    0 <= j < r@.len() ==> *(#[trigger] r@[j]).0 == live_entries(
                        s.take(i as int),
                        now,
                    )[j].0 && *r@[j].1 == live_entries(s.take(i as int), now)[j].1,
            decreases s.len() - i,
        {
            let e = &self.items[i];
            proof {
                assert(s.take(i + 1).drop_last() =~= s.take(i as int));
                assert(s.take(i + 1).last() == s[i as int]);
            }
            if now < e.2 {
                r.push((&e.0, &e.1));
            }
            i = i + 1;
        }
        proof {
            assert(s.take(s.len() as int) =~= s);
        }
        r
    }

    /// The key-value pairs live at the present instant, in storage order.
    pub fn iter(&self) -> (r: Vec<(&K, &V)>)
        ensures
            exists|now: u64|
                {
                    let l = #[trigger] live_entries(self.entries(), now);
                    &&& r@.len() == l.len()
                    &&& forall|i: int|
                        0 <= i < r@.len() ==> *(#[trigger] r@[i]).0 == l[i].0 && *r@[i].1 == l[i].1
                },
    {
        let now = now_millis();
        let r = self.iter_at(now);
        proof {
            assert({
                let l = live_entries(self.entries(), now);
                &&& r@.len() == l.len()
                &&& forall|i: int|
                    0 <= i < r@.len() ==> *(#[trigger] r@[i]).0 == l[i].0 && *r@[i].1 == l[i].1
            });
        }
        r
    }

    /// Sets a new capacity ceiling. Entries already stored are kept, even
    /// when they exceed the new ceiling; only future inserts of new keys are
    /// refused.
    pub fn set_capacity(&mut self, capacity: usize)
        requires
            old(self).wf(),
        ensures
            final(self).wf(),
            final(self).entries() == old(self).entries(),
            final(self).spec_ttl() == old(self).spec_ttl(),
            final(self).spec_capacity() == Some(capacity),
    {
        self.capacity = Some(capacity);
    }

    /// Removes every entry.
    pub fn clear(&mut self)
        requires
            old(self).wf(),
        ensures
            final(self).wf(),
            final(self).entries() == Seq::<(K, V, u64)>::empty(),
            final(self).spec_ttl() == old(self).spec_ttl(),
            final(self).spec_capacity() == old(self).spec_capacity(),
    {
        self.items.clear();
    }

    /// The stored entry count, expired entries included.
    pub fn len(&self) -> (r: usize)
        ensures
            r == self.entries().len(),
    {
        self.items.len()
    }

    /// Whether no entries are stored; an expired entry still counts.
    pub fn is_empty(&self) -> (r: bool)
        ensures
            r == (self.entries().len() == 0),
    {
        self.items.is_empty()
    }

    /// The time-to-live in milliseconds.
    pub fn ttl_millis(&self) -> (r: u64)
        ensures
            r == self.spec_ttl(),
    {
        self.ttl_ms
    }

    /// The capacity ceiling, if one is set.
    pub fn capacity(&self) -> (r: Option<usize>)
        ensures
            r == self.spec_capacity(),
    {
        self.capacity
    }
}

/// What one insert of pair `p` at expiration `exp` under ceiling `cap` does
/// to an entry sequence.
pub open spec fn insert_entry<K: CacheKey, V>(
    s: Seq<(K, V, u64)>,
    p: (K, V),
    exp: u64,
    cap: Option<usize>,
) -> Seq<(K, V, u64)> {
    if (cap matches Some(c) && s.len() >= c && !has_key(s, p.0)) {
        s
    } else if has_key(s, p.0) {
        s.update(key_index(s, p.0), (p.0, p.1, exp))
    } else {
        s.push((p.0, p.1, exp))
    }
}

/// The entry sequence after inserting each pair of `pairs` in turn.
pub open spec fn fill_entries<K: CacheKey, V>(
    s: Seq<(K, V, u64)>,
    pairs: Seq<(K, V)>,
    exp: u64,
    cap: Option<usize>,
) -> Seq<(K, V, u64)>
    decreases pairs.len(),
{
    if pairs.len() == 0 {
        s
    } else {
        insert_entry(fill_entries(s, pairs.drop_last(), exp, cap), pairs.last(), exp, cap)
    }
}

/// An insert keeps keys unique.
pub proof fn lemma_insert_entry_unique<K: CacheKey, V>(
    s: Seq<(K, V, u64)>,
    p: (K, V),
    exp: u64,
    cap: Option<usize>,
)
    requires
        unique_entry_keys(s),
    ensures
        unique_entry_keys(insert_entry(s, p, exp, cap)),
{
    let t = insert_entry(s, p, exp, cap);
    if (cap matches Some(c) && s.len() >= c && !has_key(s, p.0)) {
    } else if has_key(s, p.0) {
        let i = key_index(s, p.0);
        assert(key_at(s, p.0, i));
        assert forall|a: int, b: int| 0 <= a < b < t.len() implies !(#[trigger] t[a].0.same_key(
            &t[b].0,
        )) by {
            if a == i {
                if t[a].0.same_key(&t[b].0) {
                    K::same_key_symmetric(&s[i].0, &p.0);
                    K::same_key_transitive(&s[i].0, &p.0, &s[b].0);
                    assert(false);
                }
            } else if b == i {
                if t[a].0.same_key(&t[b].0) {
                    K::same_key_symmetric(&s[i].0, &p.0);
                    K::same_key_transitive(&s[a].0, &p.0, &s[i].0);
                    assert(false);
                }
            }
        }
    } else {
        assert forall|a: int, b: int| 0 <= a < b < t.len() implies !(#[trigger] t[a].0.same_key(
            &t[b].0,
        )) by {
            if b == t.len() - 1 {
                assert(!key_at(s, p.0, a));
                if t[a].0.same_key(&t[b].0) {
                    assert(false);
                }
            }
        }
    }
}

/// A cached value is served back while it lives: inserting `(key, value)`
/// with expiration `exp` into a cache that does not refuse it, and looking
/// the same key up at any instant before `exp`, yields exactly `value`.
/// In particular, a page rendered and cached is returned unchanged by every
/// later lookup within its time-to-live, with no recomputation.
pub proof fn lemma_insert_then_lookup<K: CacheKey, V>(
    s: Seq<(K, V, u64)>,
    key: K,
    value: V,
    exp: u64,
    cap: Option<usize>,
    t2: u64,
)
    requires
        unique_entry_keys(s),
        !(cap matches Some(c) && s.len() >= c && !has_key(s, key)),
        t2 < exp,
    ensures
        spec_lookup(insert_entry(s, (key, value), exp, cap), key, t2) == Some(value),
{
    let t = insert_entry(s, (key, value), exp, cap);
    lemma_insert_entry_unique(s, (key, value), exp, cap);
    K::same_key_reflexive(&key);
    if has_key(s, key) {
        let i = key_index(s, key);
        assert(key_at(s, key, i));
        assert(t[i] == (key, value, exp));
        assert(key_at(t, key, i));
        lemma_key_index_unique(t, key, i);
    } else {
        let i = s.len() as int;
        assert(t[i] == (key, value, exp));
        assert(key_at(t, key, i));
        lemma_key_index_unique(t, key, i);
    }
}

impl<K: CacheKey, V> Cache<K, V> {
    /// Builds a cache with the default time-to-live of one minute and no
    /// ceiling, inserting each pair in turn as of one present instant.
    pub fn from_pairs(pairs: Vec<(K, V)>) -> (r: Self)
        ensures
            r.wf(),
            r.spec_ttl() == 60000,
            r.spec_capacity() is None,
            exists|now: u64|
                r.entries() == fill_entries(
                    Seq::<(K, V, u64)>::empty(),
                    pairs@,
                    #[trigger] spec_expiry(now, 60000),
                    None,
                ),
    {
        let now = now_millis();
        let ghost all = pairs@;
        let ghost exp = spec_expiry(now, 60000);
        let mut r: Cache<K, V> = Cache::new(60000);
        let mut rest = pairs;
        proof {
            assert(all.take(0) =~= Seq::<(K, V)>::empty());
        }
        while rest.len() > 0
            invariant
                r.wf(),
                r.spec_ttl() == 60000,
                r.spec_capacity() is None,
                exp == spec_expiry(now, 60000),
                rest@.len() <= all.len(),
                rest@ == all.subrange(all.len() - rest@.len(), all.len() as int),
                r.entries() == fill_entries(
                    Seq::<(K, V, u64)>::empty(),
                    all.take(all.len() - rest@.len()),
                    exp,
                    None,
                ),
            decreases rest@.len(),
        {
            let ghost k = all.len() - rest@.len();
            let (key, value) = rest.remove(0);
            let _ = r.insert_at(key, value, now);
            proof {
                assert(all.subrange(k, all.len() as int)[0] == all[k]);
                assert(rest@ =~= all.subrange(k + 1, all.len() as int));
                assert(all.take(k + 1).drop_last() =~= all.take(k));
                assert(all.take(k + 1).last() == all[k]);
            }
        }
        proof {
            assert(all.take(all.len() as int) =~= all);
        }
        r
    }
}

impl<K: CacheKey, V> Default for Cache<K, V> {
    /// A cache with a time-to-live of one minute and no capacity ceiling.
    fn default() -> (r: Self)
        ensures
            r.wf(),
            r.entries() == Seq::<(K, V, u64)>::empty(),
            r.spec_ttl() == 60000,
            r.spec_capacity() is None,
    {
        Cache::new(60000)
    }
}

} // verus!
