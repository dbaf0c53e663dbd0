//! A bounded key-value cache with least-recently-used eviction.
//!
//! Entries sit in recency order: the front is the least recently used.
//! `get` refreshes an entry's recency; `contains_key` does not.
//! Inserting a key already present changes nothing.

use vstd::prelude::*;

verus! {

/// Some entry carries this key.
pub open spec fn has_key<V>(s: Seq<(usize, V)>, key: usize) -> bool {
    exists|i: int| 0 <= i < s.len() && (#[trigger] s[i]).0 == key
}

/// The position of the entry carrying this key.
pub open spec fn find_key<V>(s: Seq<(usize, V)>, key: usize) -> int {
    choose|i: int| 0 <= i < s.len() && (#[trigger] s[i]).0 == key
}

/// The keys alone, in recency order.
pub open spec fn keys_of<V>(s: Seq<(usize, V)>) -> Seq<usize> {
    s.map_values(|e: (usize, V)| e.0)
}

/// What one insert does to the entries.
pub open spec fn lru_insert_step<V>(s: Seq<(usize, V)>, cap: usize, e: (usize, V)) -> Seq<
    (usize, V),
> {
    if has_key(s, e.0) {
        s
    } else if cap > 0 && s.len() == cap {
        s.remove(0).push(e)
    } else {
        s.push(e)
    }
}

/// What a run of inserts does to the entries, first to last.
pub open spec fn lru_insert_run<V>(s: Seq<(usize, V)>, cap: usize, es: Seq<(usize, V)>) -> Seq<
    (usize, V),
>
    decreases es.len(),
{
    if es.len() == 0 {
        s
    } else {
        lru_insert_run(lru_insert_step(s, cap, es[0]), cap, es.skip(1))
    }
}

pub struct LruCache<V> {
    /// 0 disables eviction and behaves as an unbounded map.
    pub capacity: usize,
    /// Front is least recently used, back most recently.
    pub entries: Vec<(usize, V)>,
}

impl<V> LruCache<V> {
    /// Keys are unique and the bound, when there is one, holds.
    pub open spec fn wf(&self) -> bool {
        &&& forall|i: int, j: int|
            0 <= i < self.entries@.len() && 0 <= j < self.entries@.len() && i != j ==> (
            #[trigger] self.entries@[i]).0 != (#[trigger] self.entries@[j]).0
        &&& (self.capacity > 0 ==> self.entries@.len() <= self.capacity)
    }

    pub fn new(capacity: usize) -> (r: LruCache<V>)
        ensures
            r.wf(),
            r.capacity == capacity,
            r.entries@.len() == 0,
    {
        LruCache { capacity, entries: Vec::new() }
    }

    /// Where the key sits, or the length when it is absent.
    fn position(&self, key: usize) -> (r: usize)
        ensures
            r <= self.entries@.len(),
            r < self.entries@.len() ==> self.entries@[r as int].0 == key,
            forall|j: int| 0 <= j < r ==> (#[trigger] self.entries@[j]).0 != key,
            (r < self.entries@.len()) == has_key(self.entries@, key),
    {
        let n = self.entries.len();
        let mut i: usize = 0;
        while i < n
            invariant
                n == self.entries@.len(),
                0 <= i <= n,
                forall|j: int| 0 <= j < i ==> (#[trigger] self.entries@[j]).0 != key,
            decreases n - i,
        {
            if self.entries[i].0 == key {
                return i;
            }
            i += 1;
        }
        i
    }

    pub fn contains_key(&self, key: usize) -> (r: bool)
        ensures
            r == has_key(self.entries@, key),
    {
        let p = self.position(key);
        p < self.entries.len()
    }

    /// Add an entry as most recently used.  A present key changes
    /// nothing; at capacity the least recently used entry leaves.
    pub fn insert(&mut self, key: usize, value: V)
        requires
            old(self).wf(),
        ensures
            final(self).wf(),
            final(self).capacity == old(self).capacity,
            has_key(old(self).entries@, key) ==> final(self).entries@ == old(self).entries@,
            !has_key(old(self).entries@, key) ==> final(self).entries@ == if old(
                self,
            ).capacity > 0 && old(self).entries@.len() == old(self).capacity {
                old(self).entries@.remove(0).push((key, value))
            } else {
                old(self).entries@.push((key, value))
            },
            final(self).entries@ == lru_insert_step(
                old(self).entries@,
                old(self).capacity,
                (key, value),
            ),
    {
        if !self.contains_key(key) {
            if self.capacity > 0 && self.entries.len() == self.capacity {
                self.entries.remove(0);
            }
            self.entries.push((key, value));
            proof {
                let s = old(self).entries@;
                assert forall|i: int, j: int|
                    0 <= i < self.entries@.len() && 0 <= j < self.entries@.len() && i != j implies (
                #[trigger] self.entries@[i]).0 != (#[trigger] self.entries@[j]).0 by {
                    if old(self).capacity > 0 && s.len() == old(self).capacity {
                        assert(forall|p: int|
                            0 <= p < s.len() - 1 ==> (#[trigger] s.remove(0)[p]) == s[p + 1]);
                    }
                }
            }
        }
    }

    /// Borrow the value for a key and mark it most recently used.
    pub fn get(&mut self, key: usize) -> (r: Option<&V>)
        requires
            old(self).wf(),
        ensures
            final(self).wf(),
            final(self).capacity == old(self).capacity,
            (r is Some) == has_key(old(self).entries@, key),
            !has_key(old(self).entries@, key) ==> final(self).entries@ == old(self).entries@,
            has_key(old(self).entries@, key) ==> ({
                let i = find_key(old(self).entries@, key);
                &&& final(self).entries@ == old(self).entries@.remove(i).push(
                    old(self).entries@[i],
                )
                &&& r matches Some(v) && *v == old(self).entries@[i].1
            }),
    {
        let p = self.position(key);
        if p < self.entries.len() {
            proof {
                let i = find_key(old(self).entries@, key);
                assert(0 <= i < old(self).entries@.len() && old(self).entries@[i].0 == key);
                assert(i == p as int);
            }
            let e = self.entries.remove(p);
            self.entries.push(e);
            let n = self.entries.len();
            proof {
                let s = old(self).entries@;
                let i = p as int;
                assert forall|a: int, b: int|
                    0 <= a < self.entries@.len() && 0 <= b < self.entries@.len() && a != b implies (
                #[trigger] self.entries@[a]).0 != (#[trigger] self.entries@[b]).0 by {
                    assert(forall|q: int|
                        0 <= q < s.len() - 1 ==> (#[trigger] s.remove(i)[q]) == if q < i {
                            s[q]
                        } else {
                            s[q + 1]
                        });
                }
            }
            Some(&self.entries[n - 1].1)
        } else {
            None
        }
    }

    /// Borrow the value for a key mutably and mark it most recently
    /// used.
    pub fn get_mut(&mut self, key: usize) -> (r: Option<&mut V>)
        requires
            old(self).wf(),
        ensures
            (r is Some) == has_key(old(self).entries@, key),
            r is None ==> *final(self) == *old(self),
            has_key(old(self).entries@, key) ==> ({
                let i = find_key(old(self).entries@, key);
                &&& r matches Some(v) && *v == old(self).entries@[i].1
                &&& final(self).wf()
                &&& final(self).capacity == old(self).capacity
                &&& (r matches Some(v) && final(self).entries@ == old(self).entries@.remove(
                    i,
                ).push((key, *final(v))))
            }),
    {
        let p = self.position(key);
        if p < self.entries.len() {
            proof {
                let i = find_key(old(self).entries@, key);
                assert(0 <= i < old(self).entries@.len() && old(self).entries@[i].0 == key);
                assert(i == p as int);
            }
            let e = self.entries.remove(p);
            self.entries.push(e);
            let n = self.entries.len();
            proof {
                let s = old(self).entries@;
                let i = p as int;
                assert forall|a: int, b: int|
                    0 <= a < self.entries@.len() && 0 <= b < self.entries@.len() && a != b implies (
                #[trigger] self.entries@[a]).0 != (#[trigger] self.entries@[b]).0 by {
                    assert(forall|q: int|
                        0 <= q < s.len() - 1 ==> (#[trigger] s.remove(i)[q]) == if q < i {
                            s[q]
                        } else {
                            s[q + 1]
                        });
                }
            }
            let entry = &mut self.entries[n - 1];
            Some(&mut entry.1)
        } else {
            None
        }
    }

    /// The entries in recency order, least recently used first.
    pub fn iter(&self) -> (r: &Vec<(usize, V)>)
        ensures
            r == &self.entries,
    {
        &self.entries
    }

    pub fn into_iter(self) -> (r: Vec<(usize, V)>)
        ensures
            r == self.entries,
    {
        self.entries
    }

    pub fn clear(&mut self)
        ensures
            final(self).wf(),
            final(self).capacity == old(self).capacity,
            final(self).entries@.len() == 0,
    {
        self.entries.clear();
    }
}

/// After a capacity-exceeding insert of a fresh key, exactly the least
/// recently used entry is gone: the keys afterwards are the old keys
/// without the front one, with the new key at the back.
pub proof fn lemma_lru_eviction<V>(
    c_old: Seq<(usize, V)>,
    c_new: Seq<(usize, V)>,
    key: usize,
    value: V,
    cap: usize,
)
    requires
        cap > 0,
        c_old.len() == cap,
        !has_key(c_old, key),
        c_new == c_old.remove(0).push((key, value)),
    ensures
        c_new.len() == cap,
        keys_of(c_new) == keys_of(c_old).skip(1).push(key),
        forall|j: int| 1 <= j < c_old.len() ==> c_new.contains(#[trigger] c_old[j]),
{
    assert(keys_of(c_new) =~= keys_of(c_old).skip(1).push(key));
    assert forall|j: int| 1 <= j < c_old.len() implies c_new.contains(#[trigger] c_old[j]) by {
        assert(c_new[j - 1] == c_old.remove(0)[j - 1]);
        assert(c_old.remove(0)[j - 1] == c_old[j]);
    }
}


/// Inserting a run of fresh, distinct keys into a full cache evicts
/// exactly the least recently used entries: what survives is the tail
/// of the old entries followed by the new ones, in order.
pub proof fn lemma_lru_insert_run_evicts<V>(
    s: Seq<(usize, V)>,
    cap: usize,
    es: Seq<(usize, V)>,
)
    requires
        cap > 0,
        s.len() == cap,
        forall|i: int, j: int|
            0 <= i < s.len() && 0 <= j < s.len() && i != j ==> (#[trigger] s[i]).0 != (
            #[trigger] s[j]).0,
        forall|i: int| 0 <= i < es.len() ==> !has_key(s, (#[trigger] es[i]).0),
        forall|i: int, j: int|
            0 <= i < es.len() && 0 <= j < es.len() && i != j ==> (#[trigger] es[i]).0 != (
            #[trigger] es[j]).0,
    ensures
        lru_insert_run(s, cap, es) == (s + es).skip(es.len() as int),
    decreases es.len(),
{
    if es.len() == 0 {
        assert(lru_insert_run(s, cap, es) =~= (s + es).skip(0));
    } else {
        let e0 = es[0];
        assert(!has_key(s, e0.0));
        let s1 = lru_insert_step(s, cap, e0);
        assert(s1 == s.remove(0).push(e0));
        assert(s1 =~= s.skip(1) + seq![e0]) by {
            assert(forall|q: int|
                0 <= q < s.len() - 1 ==> (#[trigger] s.remove(0)[q]) == s[q + 1]);
        }
        assert(s1.len() == cap);
        assert forall|i: int, j: int|
            0 <= i < s1.len() && 0 <= j < s1.len() && i != j implies (#[trigger] s1[i]).0 != (
        #[trigger] s1[j]).0 by {
            if i < s1.len() - 1 && j < s1.len() - 1 {
                assert(s1[i] == s[i + 1] && s1[j] == s[j + 1]);
            } else if i < s1.len() - 1 {
                assert(s1[i] == s[i + 1] && s1[j] == e0);
                assert(!has_key(s, e0.0));
                assert(s[i + 1].0 != e0.0) by {
                    if s[i + 1].0 == e0.0 {
                        assert(has_key(s, e0.0));
                    }
                }
            } else if j < s1.len() - 1 {
                assert(s1[j] == s[j + 1] && s1[i] == e0);
                assert(s[j + 1].0 != e0.0) by {
                    if s[j + 1].0 == e0.0 {
                        assert(has_key(s, e0.0));
                    }
                }
            }
        }
        let rest = es.skip(1);
        assert forall|i: int| 0 <= i < rest.len() implies !has_key(
            s1,
            (#[trigger] rest[i]).0,
        ) by {
            assert(rest[i] == es[i + 1]);
            assert(!has_key(s, es[i + 1].0));
            if has_key(s1, es[i + 1].0) {
                let w = find_key(s1, es[i + 1].0);
                assert(0 <= w < s1.len() && s1[w].0 == es[i + 1].0);
                if w < s1.len() - 1 {
                    assert(s1[w] == s[w + 1]);
                    assert(has_key(s, es[i + 1].0));
                } else {
                    assert(s1[w] == e0);
                    assert(es[0].0 == es[i + 1].0);
                }
            }
        }
        assert forall|i: int, j: int|
            0 <= i < rest.len() && 0 <= j < rest.len() && i != j implies (
        #[trigger] rest[i]).0 != (#[trigger] rest[j]).0 by {
            assert(rest[i] == es[i + 1] && rest[j] == es[j + 1]);
        }
        lemma_lru_insert_run_evicts(s1, cap, rest);
        assert(s1 + rest =~= (s + es).skip(1));
        assert((s + es).skip(1).skip(rest.len() as int) =~= (s + es).skip(es.len() as int));
    }
}

} // verus!
