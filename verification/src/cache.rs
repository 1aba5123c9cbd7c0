//! Verified model of the in-process TTL cache that fronts participant and
//! mailbox lookups.
//!
//! `get` serves an entry only while it is unexpired; `set` stores a value
//! under a fresh deadline.  The chassis composes them into get-with-
//! fallback: on a miss it awaits the fallback and stores a successful
//! result; fallback errors are not cached.  There is no invalidation —
//! staleness is bounded by the TTL, and duplicate fallbacks for one key
//! are acceptable because the stores they write to are idempotent.

use vstd::prelude::*;

verus! {

/// Why a get-with-fallback failed: its fallback failed.  Such results
/// are not cached.
pub enum CacheError {
    Fallback,
}

/// The first cache entry for `key`, if any.
pub open spec fn first_entry<T>(entries: Seq<(String, T, i64)>, key: Seq<char>) -> Option<
    (String, T, i64),
>
    decreases entries.len(),
{
    if entries.len() == 0 {
        None
    } else if entries[0].0@ == key {
        Some(entries[0])
    } else {
        first_entry(entries.skip(1), key)
    }
}

/// True when some entry carries `key`.
pub open spec fn cache_has<T>(entries: Seq<(String, T, i64)>, key: Seq<char>) -> bool {
    exists|i: int| 0 <= i < entries.len() && entries[i].0@ == key
}

/// Keys are unique across the cache.
pub open spec fn cache_keys_unique<T>(entries: Seq<(String, T, i64)>) -> bool {
    forall|i: int, j: int| 0 <= i < j < entries.len() ==> entries[i].0@ != entries[j].0@
}

/// The deadline a value stored at `now` expires at: `now` plus the TTL,
/// saturating at the far end of time.
pub open spec fn expiry_of(now: int, ttl: int) -> int {
    if now + ttl > i64::MAX {
        i64::MAX as int
    } else {
        now + ttl
    }
}

proof fn lemma_first_entry_absent<T>(entries: Seq<(String, T, i64)>, key: Seq<char>)
    requires
        !cache_has(entries, key),
    ensures
        first_entry(entries, key) is None,
    decreases entries.len(),
{
    if entries.len() > 0 {
        assert(!cache_has(entries.skip(1), key)) by {
            if cache_has(entries.skip(1), key) {
                let i = choose|i: int|
                    0 <= i < entries.skip(1).len() && entries.skip(1)[i].0@ == key;
                assert(entries[i + 1].0@ == key);
            }
        }
        lemma_first_entry_absent(entries.skip(1), key);
    }
}

proof fn lemma_first_entry_at<T>(entries: Seq<(String, T, i64)>, key: Seq<char>, i: int)
    requires
        0 <= i < entries.len(),
        entries[i].0@ == key,
        forall|j: int| 0 <= j < i ==> entries[j].0@ != key,
    ensures
        first_entry(entries, key) == Some(entries[i]),
    decreases i,
{
    if i > 0 {
        assert(entries.skip(1)[i - 1] == entries[i]);
        assert(forall|j: int| 0 <= j < i - 1 ==> (#[trigger] entries.skip(1)[j]).0@ != key);
        lemma_first_entry_at(entries.skip(1), key, i - 1);
    }
}

proof fn lemma_first_entry_remove<T>(entries: Seq<(String, T, i64)>, i: int, key: Seq<char>)
    requires
        0 <= i < entries.len(),
        key != entries[i].0@,
    ensures
        first_entry(entries.remove(i), key) == first_entry(entries, key),
    decreases entries.len(),
{
    if i == 0 {
        assert(entries.remove(0) =~= entries.skip(1));
    } else {
        assert(entries.remove(i)[0] == entries[0]);
        assert(entries.remove(i).skip(1) =~= entries.skip(1).remove(i - 1));
        assert(entries.skip(1)[i - 1] == entries[i]);
        lemma_first_entry_remove(entries.skip(1), i - 1, key);
    }
}

proof fn lemma_first_entry_push<T>(
    entries: Seq<(String, T, i64)>,
    e: (String, T, i64),
    key: Seq<char>,
)
    ensures
        first_entry(entries.push(e), key) == if cache_has(entries, key) {
            first_entry(entries, key)
        } else if e.0@ == key {
            Some(e)
        } else {
            None
        },
    decreases entries.len(),
{
    if entries.len() == 0 {
        assert(entries.push(e)[0] == e);
        assert(entries.push(e).skip(1) =~= Seq::<(String, T, i64)>::empty());
        assert(first_entry(Seq::<(String, T, i64)>::empty(), key) is None);
    } else {
        assert(entries.push(e)[0] == entries[0]);
        assert(entries.push(e).skip(1) =~= entries.skip(1).push(e));
        lemma_first_entry_push(entries.skip(1), e, key);
        if entries[0].0@ == key {
        } else {
            assert(cache_has(entries, key) <==> cache_has(entries.skip(1), key)) by {
                if cache_has(entries, key) {
                    let i = choose|i: int| 0 <= i < entries.len() && entries[i].0@ == key;
                    assert(entries.skip(1)[i - 1].0@ == key);
                }
                if cache_has(entries.skip(1), key) {
                    let i = choose|i: int|
                        0 <= i < entries.skip(1).len() && entries.skip(1)[i].0@ == key;
                    assert(entries[i + 1].0@ == key);
                }
            }
        }
    }
}

/// An in-process cache with one deadline per entry.
pub struct Cache<T> {
    entries: Vec<(String, T, i64)>,
    ttl_ms: i64,
}

impl<T> Cache<T> {
    pub closed spec fn entries(self) -> Seq<(String, T, i64)> {
        self.entries@
    }

    pub closed spec fn ttl(self) -> int {
        self.ttl_ms as int
    }

    /// Well-formed: keys unique, TTL non-negative.
    pub open spec fn wf(self) -> bool {
        cache_keys_unique(self.entries()) && self.ttl() >= 0
    }

    /// An empty cache whose entries live `ttl_ms` milliseconds.
    pub fn new(ttl_ms: i64) -> (r: Cache<T>)
        requires
            ttl_ms >= 0,
        ensures
            r.wf(),
            r.entries() == Seq::<(String, T, i64)>::empty(),
            r.ttl() == ttl_ms,
    {
        Cache { entries: Vec::new(), ttl_ms }
    }

    fn find(&self, key: &String) -> (r: Option<usize>)
        ensures
            match r {
                Some(i) => i < self.entries().len() && self.entries()[i as int].0@ == key@ && (
                forall|j: int| 0 <= j < i ==> self.entries()[j].0@ != key@),
                None => !cache_has(self.entries(), key@),
            },
    {
        let n = self.entries.len();
        for i in 0..n
            invariant
                n == self.entries.len(),
                forall|j: int| 0 <= j < i ==> self.entries@[j].0@ != key@,
        {
            if self.entries[i].0.eq(key) {
                return Some(i);
            }
        }
        None
    }

    /// The cached value for `key`, if present and unexpired at `now`.
    pub fn get(&self, key: &String, now: i64) -> (r: Option<&T>)
        requires
            self.wf(),
        ensures
            match first_entry(self.entries(), key@) {
                Some(e) => if e.2 > now {
                    r matches Some(v) && *v == e.1
                } else {
                    r is None
                },
                None => r is None,
            },
    {
        match self.find(key) {
            Some(i) => {
                proof {
                    lemma_first_entry_at(self.entries@, key@, i as int);
                }
                if self.entries[i].2 > now {
                    Some(&self.entries[i].1)
                } else {
                    None
                }
            },
            None => {
                proof {
                    lemma_first_entry_absent(self.entries@, key@);
                }
                None
            },
        }
    }

    /// Store `value` under `key` with a fresh deadline read from `now`.
    /// Any prior entry for the key is replaced.
    pub fn set(&mut self, key: String, value: T, now: i64)
        requires
            old(self).wf(),
            now >= 0,
        ensures
            final(self).wf(),
            final(self).ttl() == old(self).ttl(),
            match first_entry(final(self).entries(), key@) {
                Some(e) => e.1 == value && e.2 == expiry_of(now as int, old(self).ttl()),
                None => false,
            },
            forall|k: Seq<char>|
                k != key@ ==> #[trigger] first_entry(final(self).entries(), k) == first_entry(
                    old(self).entries(),
                    k,
                ),
    {
        let ghost pre = self.entries@;
        match self.find(&key) {
            Some(i) => {
                self.entries.remove(i);
                proof {
                    assert forall|a: int, b: int|
                        0 <= a < b < self.entries@.len() implies self.entries@[a].0@
                        != self.entries@[b].0@ by {
                        assert(self.entries@[a] == if a < i {
                            pre[a]
                        } else {
                            pre[a + 1]
                        });
                        assert(self.entries@[b] == if b < i {
                            pre[b]
                        } else {
                            pre[b + 1]
                        });
                    }
                    assert(!cache_has(self.entries@, key@)) by {
                        if cache_has(self.entries@, key@) {
                            let k = choose|k: int|
                                0 <= k < self.entries@.len() && self.entries@[k].0@ == key@;
                            assert(self.entries@[k] == if k < i {
                                pre[k]
                            } else {
                                pre[k + 1]
                            });
                        }
                    }
                    assert forall|k: Seq<char>| k != key@ implies #[trigger] first_entry(
                        self.entries@,
                        k,
                    ) == first_entry(pre, k) by {
                        lemma_first_entry_remove(pre, i as int, k);
                    }
                }
            },
            None => {
            },
        }
        let expires: i64 = if now <= i64::MAX - self.ttl_ms {
            now + self.ttl_ms
        } else {
            i64::MAX
        };
        let ghost mid = self.entries@;
        let ghost key_view = key@;
        self.entries.push((key, value, expires));
        proof {
            assert(self.entries@.last().0@ == key_view);
            assert forall|a: int, b: int|
                0 <= a < b < self.entries@.len() implies self.entries@[a].0@
                != self.entries@[b].0@ by {
                if b < mid.len() {
                    assert(self.entries@[a] == mid[a] && self.entries@[b] == mid[b]);
                } else {
                    assert(self.entries@[a] == mid[a]);
                }
            }
            lemma_first_entry_push(mid, self.entries@.last(), key_view);
            lemma_first_entry_absent(mid, key_view);
            assert forall|k: Seq<char>| k != key_view implies #[trigger] first_entry(
                self.entries@,
                k,
            ) == first_entry(pre, k) by {
                lemma_first_entry_push(mid, self.entries@.last(), k);
                if !cache_has(mid, k) {
                    lemma_first_entry_absent(mid, k);
                }
            }
        }
    }

    /// Drop the entry for `key`, if any.
    pub fn remove(&mut self, key: &String)
        requires
            old(self).wf(),
        ensures
            final(self).wf(),
            final(self).ttl() == old(self).ttl(),
            first_entry(final(self).entries(), key@) is None,
            forall|k: Seq<char>|
                k != key@ ==> #[trigger] first_entry(final(self).entries(), k) == first_entry(
                    old(self).entries(),
                    k,
                ),
    {
        let ghost pre = self.entries@;
        match self.find(key) {
            Some(i) => {
                self.entries.remove(i);
                proof {
                    assert forall|a: int, b: int|
                        0 <= a < b < self.entries@.len() implies self.entries@[a].0@
                        != self.entries@[b].0@ by {
                        assert(self.entries@[a] == if a < i {
                            pre[a]
                        } else {
                            pre[a + 1]
                        });
                        assert(self.entries@[b] == if b < i {
                            pre[b]
                        } else {
                            pre[b + 1]
                        });
                    }
                    assert(!cache_has(self.entries@, key@)) by {
                        if cache_has(self.entries@, key@) {
                            let k = choose|k: int|
                                0 <= k < self.entries@.len() && self.entries@[k].0@ == key@;
                            assert(self.entries@[k] == if k < i {
                                pre[k]
                            } else {
                                pre[k + 1]
                            });
                        }
                    }
                    lemma_first_entry_absent(self.entries@, key@);
                    assert forall|k: Seq<char>| k != key@ implies #[trigger] first_entry(
                        self.entries@,
                        k,
                    ) == first_entry(pre, k) by {
                        lemma_first_entry_remove(pre, i as int, k);
                    }
                }
            },
            None => {
                proof {
                    lemma_first_entry_absent(pre, key@);
                }
            },
        }
    }

    /// Drop every entry.
    pub fn clear_local(&mut self)
        requires
            old(self).wf(),
        ensures
            final(self).wf(),
            final(self).entries() == Seq::<(String, T, i64)>::empty(),
            final(self).ttl() == old(self).ttl(),
    {
        self.entries.clear();
    }
}

} // verus!
