//! TTL + capacity bounded response cache for static resources.
//!
//! Entries are kept in insertion order; when the cache is full the oldest
//! entry is evicted. An entry whose expiry time has passed is never returned:
//! a lookup that finds it removes it instead. Wall time is supplied by the
//! caller as a millisecond tick count, so every operation is deterministic.
use vstd::prelude::*;

verus! {

/// One cached response: request key, body bytes, absolute expiry time.
pub struct CacheEntry {
    pub key: Vec<u8>,
    pub value: Vec<u8>,
    pub expires_at: u64,
}

/// The model of an entry: key bytes, value bytes, expiry tick.
pub type EntryModel = (Seq<u8>, Seq<u8>, u64);

/// Bounded insertion-ordered cache.
pub struct SimpleCache {
    entries: Vec<CacheEntry>,
    capacity: usize,
}

/// Index of the first entry with the given key, if any.
pub open spec fn spec_find(s: Seq<EntryModel>, key: Seq<u8>) -> Option<int>
    decreases s.len(),
{
    if s.len() == 0 {
        None
    } else if s[0].0 == key {
        Some(0)
    } else {
        match spec_find(s.drop_first(), key) {
            None => None,
            Some(i) => Some(i + 1),
        }
    }
}

/// What a lookup returns: the value of the first entry with the key, when
/// that entry is not yet expired at `now`.
pub open spec fn spec_get_result(s: Seq<EntryModel>, key: Seq<u8>, now: u64) -> Option<Seq<u8>> {
    match spec_find(s, key) {
        None => None,
        Some(i) => if s[i].2 > now {
            Some(s[i].1)
        } else {
            None
        },
    }
}

/// What the cache holds after a lookup: unchanged, except that a found but
/// expired entry is removed.
pub open spec fn spec_get_state(s: Seq<EntryModel>, key: Seq<u8>, now: u64) -> Seq<EntryModel> {
    match spec_find(s, key) {
        None => s,
        Some(i) => if s[i].2 > now {
            s
        } else {
            s.remove(i)
        },
    }
}

/// What the cache holds after an insert: the oldest entry leaves when the
/// cache is full, and the new entry is appended at the tail.
pub open spec fn spec_set(
    s: Seq<EntryModel>,
    cap: int,
    key: Seq<u8>,
    value: Seq<u8>,
    expires_at: u64,
) -> Seq<EntryModel> {
    (if s.len() >= cap {
        s.drop_first()
    } else {
        s
    }).push((key, value, expires_at))
}

impl View for SimpleCache {
    type V = Seq<EntryModel>;

    closed spec fn view(&self) -> Seq<EntryModel> {
        self.entries@.map(|i: int, e: CacheEntry| (e.key@, e.value@, e.expires_at))
    }
}

/// `spec_find` returns the first match: the entry at the index has the key
/// and no earlier entry does; `None` means no entry has the key.
pub proof fn lemma_find_props(s: Seq<EntryModel>, key: Seq<u8>)
    ensures
        match spec_find(s, key) {
            Some(i) => 0 <= i < s.len() && s[i].0 == key && (forall|j: int|
                0 <= j < i ==> s[j].0 != key),
            None => forall|j: int| 0 <= j < s.len() ==> s[j].0 != key,
        },
    decreases s.len(),
{
    if s.len() > 0 && s[0].0 != key {
        let t = s.drop_first();
        lemma_find_props(t, key);
        match spec_find(t, key) {
            Some(i) => {
                assert(t[i] == s[i + 1]);
                assert forall|j: int| 0 <= j < i + 1 implies s[j].0 != key by {
                    if j > 0 {
                        assert(t[j - 1] == s[j]);
                    }
                }
            },
            None => {
                assert forall|j: int| 0 <= j < s.len() implies s[j].0 != key by {
                    if j > 0 {
                        assert(t[j - 1] == s[j]);
                    }
                }
            },
        }
    }
}

/// Appending to a key-free sequence makes the appended entry the first match.
pub proof fn lemma_find_push(s: Seq<EntryModel>, e: EntryModel, key: Seq<u8>)
    requires
        forall|j: int| 0 <= j < s.len() ==> s[j].0 != key,
    ensures
        spec_find(s.push(e), key) == (if e.0 == key {
            Some(s.len() as int)
        } else {
            None::<int>
        }),
    decreases s.len(),
{
    if s.len() == 0 {
        assert(s.push(e)[0] == e);
        if e.0 != key {
            assert(s.push(e).drop_first() =~= Seq::<EntryModel>::empty());
            assert(spec_find(Seq::<EntryModel>::empty(), key) is None);
            assert(spec_find(s.push(e), key) is None);
        } else {
            assert(spec_find(s.push(e), key) == Some(0int));
        }
    } else {
        assert(s[0].0 != key);
        assert(s.push(e)[0] == s[0]);
        assert(s.push(e).drop_first() =~= s.drop_first().push(e));
        assert forall|j: int| 0 <= j < s.drop_first().len() implies s.drop_first()[j].0 != key by {
            assert(s.drop_first()[j] == s[j + 1]);
        }
        lemma_find_push(s.drop_first(), e, key);
        assert(spec_find(s.push(e), key) == match spec_find(s.drop_first().push(e), key) {
            None => None::<int>,
            Some(i) => Some(i + 1),
        });
    }
}

impl SimpleCache {
    /// Internal consistency: never more entries than the capacity bound.
    pub open spec fn wf(&self) -> bool {
        self@.len() <= self.capacity() && self.capacity() >= 1
    }

    pub closed spec fn capacity(&self) -> int {
        self.capacity as int
    }

    /// An empty cache with the given capacity bound.
    pub fn new(capacity: usize) -> (r: SimpleCache)
        requires
            capacity >= 1,
        ensures
            r.wf(),
            r@ == Seq::<EntryModel>::empty(),
            r.capacity() == capacity,
    {
        let r = SimpleCache { entries: Vec::new(), capacity };
        proof {
            assert(r@ =~= Seq::<EntryModel>::empty());
        }
        r
    }

    /// Looks the key up at time `now`. Returns the value of the first entry
    /// with that key when it is unexpired; a found expired entry is removed
    /// and nothing is returned.
    pub fn get(&mut self, key: &Vec<u8>, now: u64) -> (r: Option<Vec<u8>>)
        requires
            old(self).wf(),
        ensures
            final(self).wf(),
            final(self).capacity() == old(self).capacity(),
            final(self)@ == spec_get_state(old(self)@, key@, now),
            match r {
                Some(v) => spec_get_result(old(self)@, key@, now) == Some(v@),
                None => spec_get_result(old(self)@, key@, now) is None,
            },
    {
        proof {
            lemma_find_props(self@, key@);
        }
        let ghost s0 = self@;
        let ghost c0 = self.capacity();
        let mut i: usize = 0;
        while i < self.entries.len()
            invariant
                self@ == s0,
                self.capacity() == c0,
                old(self).wf(),
                s0 == old(self)@,
                c0 == old(self).capacity(),
                self.entries@.len() == s0.len(),
                i <= s0.len(),
                forall|j: int| 0 <= j < i ==> s0[j].0 != key@,
            decreases self.entries.len() - i,
        {
            if crate::worker::bytes_eq(&self.entries[i].key, key) {
                proof {
                    lemma_find_props(s0, key@);
                    // i is the first match, so spec_find must return Some(i)
                    match spec_find(s0, key@) {
                        Some(fi) => {
                            assert(s0[i as int].0 == key@);
                            assert(fi == i as int);
                        },
                        None => {
                            assert(s0[i as int].0 == key@);
                            assert(false);
                        },
                    }
                }
                if self.entries[i].expires_at > now {
                    let v = clone_bytes(&self.entries[i].value);
                    return Some(v);
                } else {
                    self.entries.remove(i);
                    proof {
                        assert(self@ =~= s0.remove(i as int));
                    }
                    return None;
                }
            }
            i += 1;
        }
        proof {
            lemma_find_props(s0, key@);
            match spec_find(s0, key@) {
                Some(fi) => {
                    assert(s0[fi].0 != key@);
                    assert(false);
                },
                None => {},
            }
        }
        None
    }

    /// Inserts at the tail with the given time-to-live; evicts the oldest
    /// entry when the cache is full.
    pub fn set(&mut self, key: Vec<u8>, value: Vec<u8>, ttl: u64, now: u64) -> (r: ())
        requires
            old(self).wf(),
            now + ttl <= u64::MAX,
        ensures
            final(self).wf(),
            final(self).capacity() == old(self).capacity(),
            final(self)@ == spec_set(old(self)@, old(self).capacity(), key@, value@, (now + ttl) as u64),
    {
        let expires_at: u64 = now + ttl;
        if self.entries.len() >= self.capacity {
            self.entries.remove(0);
            proof {
                assert(self@ =~= old(self)@.drop_first());
            }
        }
        let ghost mid = self@;
        self.entries.push(CacheEntry { key, value, expires_at });
        proof {
            assert(self@ =~= mid.push((key@, value@, expires_at)));
        }
    }

    /// Removes every entry whose expiry time has passed, in one pass.
    pub fn gc(&mut self, now: u64)
        requires
            old(self).wf(),
        ensures
            final(self).wf(),
            final(self).capacity() == old(self).capacity(),
            final(self)@ == old(self)@.filter(|e: EntryModel| e.2 > now),
    {
        let ghost s0 = self@;
        let mut kept: Vec<CacheEntry> = Vec::new();
        let mut i: usize = 0;
        proof {
            reveal(Seq::filter);
            assert(kept@.map(|k: int, e: CacheEntry| (e.key@, e.value@, e.expires_at)) =~= s0.take(
                0,
            ).filter(|e: EntryModel| e.2 > now));
        }
        while i < self.entries.len()
            invariant
                self@ == s0,
                self.entries@.len() == s0.len(),
                i <= s0.len(),
                kept@.map(|k: int, e: CacheEntry| (e.key@, e.value@, e.expires_at)) == s0.take(
                    i as int,
                ).filter(|e: EntryModel| e.2 > now),
                kept@.len() <= i,
            decreases self.entries.len() - i,
        {
            let ghost prevm = kept@.map(|k: int, e: CacheEntry| (e.key@, e.value@, e.expires_at));
            let e = self.entries[i].clone_entry();
            let keep = e.expires_at > now;
            if keep {
                kept.push(e);
            }
            proof {
                reveal(Seq::filter);
                let t1 = s0.take(i + 1);
                assert(t1.drop_last() =~= s0.take(i as int));
                assert(t1.last() == s0[i as int]);
                if keep {
                    assert(kept@.map(|k: int, e: CacheEntry| (e.key@, e.value@, e.expires_at))
                        =~= prevm.push(s0[i as int]));
                }
            }
            i += 1;
        }
        proof {
            assert(s0.take(s0.len() as int) =~= s0);
        }
        self.entries = kept;
    }
}

impl CacheEntry {
    /// A field-for-field copy of the entry.
    fn clone_entry(&self) -> (r: CacheEntry)
        ensures
            r.key@ == self.key@,
            r.value@ == self.value@,
            r.expires_at == self.expires_at,
    {
        CacheEntry {
            key: clone_bytes(&self.key),
            value: clone_bytes(&self.value),
            expires_at: self.expires_at,
        }
    }
}

/// Byte-wise copy of a byte vector.
pub fn clone_bytes(v: &Vec<u8>) -> (r: Vec<u8>)
    ensures
        r@ == v@,
{
    let mut r: Vec<u8> = Vec::new();
    let mut i: usize = 0;
    while i < v.len()
        invariant
            i <= v@.len(),
            r@ == v@.take(i as int),
        decreases v@.len() - i,
    {
        r.push(v[i]);
        proof {
            assert(v@.take(i + 1) =~= v@.take(i as int).push(v@[i as int]));
        }
        i += 1;
    }
    proof {
        assert(v@.take(v@.len() as int) =~= v@);
    }
    r
}

/// An insert never grows the cache past its capacity, and when the cache is
/// full the evicted entry is exactly the oldest one.
pub proof fn lemma_cache_capacity(
    s: Seq<EntryModel>,
    cap: int,
    key: Seq<u8>,
    value: Seq<u8>,
    expires_at: u64,
)
    requires
        s.len() <= cap,
        cap >= 1,
    ensures
        spec_set(s, cap, key, value, expires_at).len() <= cap,
        s.len() == cap ==> spec_set(s, cap, key, value, expires_at) == s.drop_first().push(
            (key, value, expires_at),
        ),
        s.len() < cap ==> spec_set(s, cap, key, value, expires_at) == s.push(
            (key, value, expires_at),
        ),
{
}

/// A value inserted at time `t` with time-to-live `ttl`, under a key the
/// cache does not yet hold, is returned by a lookup at any time in
/// `[t, t+ttl)` and by none at or after `t+ttl`.
pub proof fn lemma_cache_ttl(
    s: Seq<EntryModel>,
    cap: int,
    key: Seq<u8>,
    value: Seq<u8>,
    t: u64,
    ttl: u64,
    t2: u64,
)
    requires
        cap >= 1,
        s.len() <= cap,
        spec_find(s, key) is None,
        t + ttl <= u64::MAX,
    ensures
        t <= t2 < t + ttl ==> spec_get_result(
            spec_set(s, cap, key, value, (t + ttl) as u64),
            key,
            t2,
        ) == Some(value),
        t2 >= t + ttl ==> spec_get_result(
            spec_set(s, cap, key, value, (t + ttl) as u64),
            key,
            t2,
        ) is None,
{
    let exp = (t + ttl) as u64;
    let base = if s.len() >= cap {
        s.drop_first()
    } else {
        s
    };
    let s2 = spec_set(s, cap, key, value, exp);
    lemma_find_props(s, key);
    assert(forall|j: int| 0 <= j < base.len() ==> base[j].0 != key) by {
        if s.len() >= cap {
            assert(forall|j: int| 0 <= j < s.drop_first().len() ==> s.drop_first()[j] == s[j + 1]);
        }
    }
    lemma_find_push(base, (key, value, exp), key);
    assert(spec_find(s2, key) == Some(base.len() as int));
    assert(s2[base.len() as int] == (key, value, exp));
}

} // verus!
