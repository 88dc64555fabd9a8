//! A bounded embedding cache keyed by the text an embedding was made from.
//! Entries expire once untouched for longer than the TTL; when the cache is
//! full, an insertion first evicts the entry with the lowest access count.
//! Times are milliseconds on a clock that the caller reads.
use vstd::prelude::*;

verus! {

broadcast use vstd::seq_lib::group_seq_properties;

/// Capacity and timing of a cache. `ttl` and `cleanup_interval` are in
/// milliseconds.
#[derive(Debug, Clone, Copy)]
pub struct CacheConfig {
    pub max_size: usize,
    pub ttl: u64,
    pub cleanup_interval: u64,
}

/// A cached value with its recency and use count.
#[derive(Debug, Clone)]
pub struct CacheEntry<V> {
    pub vector: V,
    pub last_accessed: u64,
    pub access_count: u32,
}

/// An entry is live at `now` when it was touched no later than `now` and
/// less than `ttl` ago.
pub open spec fn is_live(last_accessed: u64, now: u64, ttl: u64) -> bool {
    last_accessed <= now && now - last_accessed < ttl
}

/// The entries of `s`, keyed.
pub open spec fn entry_map<V>(s: Seq<(String, CacheEntry<V>)>) -> Map<Seq<char>, CacheEntry<V>>
    decreases s.len(),
{
    if s.len() == 0 {
        Map::empty()
    } else {
        entry_map(s.drop_last()).insert(s.last().0@, s.last().1)
    }
}

pub open spec fn keys_unique<V>(s: Seq<(String, CacheEntry<V>)>) -> bool {
    forall|i: int, j: int| 0 <= i < s.len() && 0 <= j < s.len() && i != j ==> s[i].0@ != s[j].0@
}

/// `k` holds the lowest access count of `m`.
pub open spec fn is_least_used<V>(m: Map<Seq<char>, CacheEntry<V>>, k: Seq<char>) -> bool {
    &&& m.contains_key(k)
    &&& forall|j: Seq<char>| #[trigger] m.contains_key(j) ==> m[k].access_count <= m[j].access_count
}

proof fn lemma_entry_map_domain<V>(s: Seq<(String, CacheEntry<V>)>, k: Seq<char>)
    ensures
        entry_map(s).contains_key(k) <==> exists|i: int| 0 <= i < s.len() && s[i].0@ == k,
    decreases s.len(),
{
    if s.len() > 0 {
        lemma_entry_map_domain(s.drop_last(), k);
        if exists|i: int| 0 <= i < s.len() && s[i].0@ == k {
            let i = choose|i: int| 0 <= i < s.len() && s[i].0@ == k;
            if i < s.len() - 1 {
                assert(s.drop_last()[i] == s[i]);
            }
        }
        if exists|i: int| 0 <= i < s.drop_last().len() && s.drop_last()[i].0@ == k {
            let i = choose|i: int| 0 <= i < s.drop_last().len() && s.drop_last()[i].0@ == k;
            assert(s[i] == s.drop_last()[i]);
        }
    }
}

proof fn lemma_entry_map_at<V>(s: Seq<(String, CacheEntry<V>)>, i: int)
    requires
        keys_unique(s),
        0 <= i < s.len(),
    ensures
        entry_map(s).contains_key(s[i].0@),
        entry_map(s)[s[i].0@] == s[i].1,
    decreases s.len(),
{
    if i < s.len() - 1 {
        assert(s.drop_last()[i] == s[i]);
        lemma_entry_map_at(s.drop_last(), i);
    }
}

proof fn lemma_entry_map_update<V>(s: Seq<(String, CacheEntry<V>)>, i: int, e: (String, CacheEntry<V>))
    requires
        keys_unique(s),
        0 <= i < s.len(),
        e.0@ == s[i].0@,
    ensures
        keys_unique(s.update(i, e)),
        entry_map(s.update(i, e)) == entry_map(s).insert(e.0@, e.1),
    decreases s.len(),
{
    let ns = s.update(i, e);
    if i == s.len() - 1 {
        assert(ns.drop_last() =~= s.drop_last());
    } else {
        lemma_entry_map_update(s.drop_last(), i, e);
        assert(ns.drop_last() =~= s.drop_last().update(i, e));
    }
    assert(entry_map(ns) =~= entry_map(s).insert(e.0@, e.1));
}

proof fn lemma_entry_map_remove<V>(s: Seq<(String, CacheEntry<V>)>, i: int)
    requires
        keys_unique(s),
        0 <= i < s.len(),
    ensures
        keys_unique(s.remove(i)),
        entry_map(s.remove(i)) == entry_map(s).remove(s[i].0@),
    decreases s.len(),
{
    let ns = s.remove(i);
    if i == s.len() - 1 {
        assert(ns =~= s.drop_last());
        lemma_entry_map_domain(s.drop_last(), s[i].0@);
    } else {
        lemma_entry_map_remove(s.drop_last(), i);
        assert(ns.drop_last() =~= s.drop_last().remove(i));
        assert(ns.last() == s.last());
    }
    assert(entry_map(ns) =~= entry_map(s).remove(s[i].0@));
}

proof fn lemma_filter_push<A>(s: Seq<A>, p: spec_fn(A) -> bool, x: A)
    ensures
        s.push(x).filter(p) == if p(x) {
            s.filter(p).push(x)
        } else {
            s.filter(p)
        },
{
    reveal(Seq::filter);
    assert(s.push(x).drop_last() =~= s);
}

proof fn lemma_entry_map_filter<V>(s: Seq<(String, CacheEntry<V>)>, now: u64, ttl: u64, kept: Seq<(String, CacheEntry<V>)>, n: int)
    requires
        0 <= n <= s.len(),
        keys_unique(s),
        kept == s.subrange(0, n).filter(|e: (String, CacheEntry<V>)| is_live(e.1.last_accessed, now, ttl)),
    ensures
        keys_unique(kept),
        forall|i: int| 0 <= i < kept.len() ==> exists|j: int| 0 <= j < n && s[j] == #[trigger] kept[i],
        entry_map(kept) == entry_map(s.subrange(0, n)).restrict(
            entry_map(s.subrange(0, n)).dom().filter(|k: Seq<char>| is_live(entry_map(s.subrange(0, n))[k].last_accessed, now, ttl)),
        ),
    decreases n,
{
    let pre = s.subrange(0, n);
    let p = |e: (String, CacheEntry<V>)| is_live(e.1.last_accessed, now, ttl);
    if n == 0 {
        assert(kept =~= Seq::<(String, CacheEntry<V>)>::empty()) by {
            reveal(Seq::filter);
        }
        assert(entry_map(kept) =~= entry_map(pre).restrict(
            entry_map(pre).dom().filter(|k: Seq<char>| is_live(entry_map(pre)[k].last_accessed, now, ttl))));
    } else {
        let pre0 = s.subrange(0, n - 1);
        let kept0 = pre0.filter(p);
        lemma_entry_map_filter(s, now, ttl, kept0, n - 1);
        assert(pre =~= pre0.push(s[n - 1]));
        lemma_filter_push(pre0, p, s[n - 1]);
        let last = s[n - 1];
        assert forall|i: int| 0 <= i < kept0.len() implies kept0[i].0@ != last.0@ by {
            let j = choose|j: int| 0 <= j < n - 1 && s[j] == #[trigger] kept0[i];
        }
        if p(last) {
            assert(kept.drop_last() =~= kept0);
        }
        assert forall|i: int| 0 <= i < kept.len() implies exists|j: int| 0 <= j < n && s[j] == #[trigger] kept[i] by {
            if i < kept0.len() {
                assert(kept[i] == kept0[i]);
            } else {
                assert(s[n - 1] == kept[i]);
            }
        }
        assert(pre.drop_last() =~= pre0);
        lemma_entry_map_domain(pre0, last.0@);
        assert(!entry_map(pre0).contains_key(last.0@)) by {
            if entry_map(pre0).contains_key(last.0@) {
                let j = choose|j: int| 0 <= j < pre0.len() && pre0[j].0@ == last.0@;
                assert(s[j] == pre0[j]);
            }
        }
        assert(entry_map(kept) =~= entry_map(pre).restrict(
            entry_map(pre).dom().filter(|k: Seq<char>| is_live(entry_map(pre)[k].last_accessed, now, ttl))));
    }
}

/// A bounded, TTL-aware cache from text to embedding.
pub struct EmbeddingCache<V> {
    entries: Vec<(String, CacheEntry<V>)>,
    config: CacheConfig,
}

impl<V: Clone> EmbeddingCache<V> {
    /// The entries, keyed by text.
    pub closed spec fn view_map(&self) -> Map<Seq<char>, CacheEntry<V>> {
        entry_map(self.entries@)
    }

    pub closed spec fn config_spec(&self) -> CacheConfig {
        self.config
    }

    pub closed spec fn wf(&self) -> bool {
        keys_unique(self.entries@)
    }

    /// The number of entries.
    pub closed spec fn size(&self) -> nat {
        self.entries@.len()
    }

    /// An empty cache.
    pub fn new(config: CacheConfig) -> (r: Self)
        ensures
            r.wf(),
            r.view_map() == Map::<Seq<char>, CacheEntry<V>>::empty(),
            r.size() == 0,
            r.config_spec() == config,
    {
        let r = EmbeddingCache { entries: Vec::new(), config };
        proof {
            assert(r.entries@ =~= Seq::<(String, CacheEntry<V>)>::empty());
        }
        r
    }

    /// The configuration.
    pub fn config(&self) -> (r: CacheConfig)
        ensures
            r == self.config_spec(),
    {
        self.config
    }

    /// The number of entries.
    pub fn len(&self) -> (r: usize)
        requires
            self.wf(),
        ensures
            r == self.size(),
            r == self.view_map().len(),
    {
        proof {
            self.lemma_size();
        }
        self.entries.len()
    }

    proof fn lemma_size(&self)
        requires
            self.wf(),
        ensures
            self.view_map().dom().finite(),
            self.view_map().len() == self.size(),
    {
        let keys = self.entries@.map_values(|e: (String, CacheEntry<V>)| e.0@);
        assert(keys.no_duplicates()) by {
            assert forall|i: int, j: int| 0 <= i < keys.len() && 0 <= j < keys.len() && i != j implies keys[i] != keys[j] by {
                assert(keys[i] == self.entries@[i].0@ && keys[j] == self.entries@[j].0@);
            }
        }
        assert(self.view_map().dom() =~= keys.to_set()) by {
            assert forall|k| self.view_map().dom().contains(k) <==> keys.to_set().contains(k) by {
                lemma_entry_map_domain(self.entries@, k);
                if keys.contains(k) {
                    let i = choose|i: int| 0 <= i < keys.len() && keys[i] == k;
                    assert(self.entries@[i].0@ == k);
                }
                if exists|i: int| 0 <= i < self.entries@.len() && self.entries@[i].0@ == k {
                    let i = choose|i: int| 0 <= i < self.entries@.len() && self.entries@[i].0@ == k;
                    assert(keys[i] == k);
                }
            }
        }
        keys.unique_seq_to_set();
    }

    /// The position of the entry for `key`.
    fn find(&self, key: &String) -> (r: Option<usize>)
        requires
            self.wf(),
        ensures
            match r {
                Some(i) => i < self.entries@.len() && self.entries@[i as int].0@ == key@,
                None => !self.view_map().contains_key(key@),
            },
    {
        let mut i: usize = 0;
        while i < self.entries.len()
            invariant
                i <= self.entries.len(),
                forall|j: int| 0 <= j < i ==> self.entries@[j].0@ != key@,
            decreases self.entries.len() - i,
        {
            if self.entries[i].0 == *key {
                return Some(i);
            }
            i += 1;
        }
        proof {
            lemma_entry_map_domain(self.entries@, key@);
        }
        None
    }

    /// Looks `key` up at time `now`. A live entry is refreshed (touched at
    /// `now`, its count raised by one, saturating) and a clone of its value
    /// returned; an expired entry is removed and nothing is returned.
    pub fn get(&mut self, key: &String, now: u64) -> (r: Option<V>)
        requires
            old(self).wf(),
        ensures
            final(self).wf(),
            final(self).config_spec() == old(self).config_spec(),
            !old(self).view_map().contains_key(key@) ==> r is None && final(self).view_map() == old(self).view_map(),
            old(self).view_map().contains_key(key@) ==> {
                let e = old(self).view_map()[key@];
                if is_live(e.last_accessed, now, old(self).config_spec().ttl) {
                    &&& r is Some
                    &&& vstd::pervasive::cloned(e.vector, r->0)
                    &&& final(self).view_map() == old(self).view_map().insert(
                        key@,
                        CacheEntry {
                            vector: e.vector,
                            last_accessed: now,
                            access_count: if e.access_count < u32::MAX {
                                (e.access_count + 1) as u32
                            } else {
                                e.access_count
                            },
                        },
                    )
                } else {
                    &&& r is None
                    &&& final(self).view_map() == old(self).view_map().remove(key@)
                }
            },
    {
        match self.find(key) {
            None => None,
            Some(i) => {
                proof {
                    lemma_entry_map_at(self.entries@, i as int);
                }
                let last = self.entries[i].1.last_accessed;
                if last <= now && now - last < self.config.ttl {
                    let count = self.entries[i].1.access_count;
                    let new_count = if count < u32::MAX {
                        count + 1
                    } else {
                        count
                    };
                    let value = self.entries[i].1.vector.clone();
                    let ghost old_entries = self.entries@;
                    let ghost e = old_entries[i as int];
                    let mut slot = self.entries.remove(i);
                    slot.1.last_accessed = now;
                    slot.1.access_count = new_count;
                    self.entries.insert(i, slot);
                    proof {
                        assert(self.entries@ =~= old_entries.update(i as int, slot));
                        lemma_entry_map_update(old_entries, i as int, slot);
                    }
                    Some(value)
                } else {
                    let ghost old_entries = self.entries@;
                    self.entries.remove(i);
                    proof {
                        lemma_entry_map_remove(old_entries, i as int);
                    }
                    None
                }
            },
        }
    }

    /// Removes the entry with the lowest access count (the earliest stored
    /// among equals); does nothing on an empty cache.
    pub fn evict_least_used(&mut self)
        requires
            old(self).wf(),
        ensures
            final(self).wf(),
            final(self).config_spec() == old(self).config_spec(),
            old(self).size() == 0 ==> final(self).view_map() == old(self).view_map(),
            old(self).size() > 0 ==> exists|k: Seq<char>|
                is_least_used(old(self).view_map(), k) && final(self).view_map() == old(self).view_map().remove(k),
            old(self).size() > 0 ==> final(self).size() + 1 == old(self).size(),
    {
        if self.entries.len() == 0 {
            return;
        }
        let mut best: usize = 0;
        let mut i: usize = 1;
        while i < self.entries.len()
            invariant
                1 <= i <= self.entries.len(),
                best < i,
                forall|j: int| 0 <= j < i ==> self.entries@[best as int].1.access_count <= self.entries@[j].1.access_count,
            decreases self.entries.len() - i,
        {
            if self.entries[i].1.access_count < self.entries[best].1.access_count {
                best = i;
            }
            i += 1;
        }
        let ghost old_entries = self.entries@;
        let ghost old_map = entry_map(old_entries);
        let ghost k = old_entries[best as int].0@;
        proof {
            lemma_entry_map_at(old_entries, best as int);
            assert forall|j: Seq<char>| #[trigger] old_map.contains_key(j) implies old_map[k].access_count <= old_map[j].access_count by {
                lemma_entry_map_domain(old_entries, j);
                let m = choose|m: int| 0 <= m < old_entries.len() && old_entries[m].0@ == j;
                lemma_entry_map_at(old_entries, m);
            }
        }
        self.entries.remove(best);
        proof {
            lemma_entry_map_remove(old_entries, best as int);
            assert(is_least_used(old_map, k));
            assert(self.view_map() == old_map.remove(k));
            assert(old_map == old(self).view_map());
            assert(is_least_used(old(self).view_map(), k) && self.view_map() == old(self).view_map().remove(k));
        }
    }

    /// Stores `vector` under `key`, touched at `now` with count 1. When the
    /// cache holds `max_size` entries or more, the least-used entry is
    /// evicted first.
    pub fn insert(&mut self, key: String, vector: V, now: u64)
        requires
            old(self).wf(),
        ensures
            final(self).wf(),
            final(self).config_spec() == old(self).config_spec(),
            ({
                let fresh = CacheEntry { vector, last_accessed: now, access_count: 1u32 };
                if old(self).size() >= old(self).config_spec().max_size && old(self).size() > 0 {
                    exists|k: Seq<char>|
                        is_least_used(old(self).view_map(), k) && final(self).view_map()
                            == old(self).view_map().remove(k).insert(key@, fresh)
                } else {
                    final(self).view_map() == old(self).view_map().insert(key@, fresh)
                }
            }),
    {
        if self.entries.len() >= self.config.max_size {
            self.evict_least_used();
        }
        let entry = CacheEntry { vector, last_accessed: now, access_count: 1 };
        let ghost mid = self.entries@;
        match self.find(&key) {
            Some(i) => {
                proof {
                    lemma_entry_map_update(mid, i as int, (key, entry));
                }
                self.entries.set(i, (key, entry));
            },
            None => {
                proof {
                    lemma_entry_map_domain(mid, key@);
                }
                self.entries.push((key, entry));
                proof {
                    assert(self.entries@.drop_last() =~= mid);
                }
            },
        }
    }

    /// Removes every entry that is not live at `now`.
    pub fn cleanup_expired_entries(&mut self, now: u64)
        requires
            old(self).wf(),
        ensures
            final(self).wf(),
            final(self).config_spec() == old(self).config_spec(),
            final(self).view_map() == old(self).view_map().restrict(
                old(self).view_map().dom().filter(|k: Seq<char>| is_live(old(self).view_map()[k].last_accessed, now, old(self).config_spec().ttl)),
            ),
    {
        let ttl = self.config.ttl;
        let ghost all = self.entries@;
        let mut kept: Vec<(String, CacheEntry<V>)> = Vec::new();
        let mut rest: Vec<(String, CacheEntry<V>)> = Vec::new();
        std::mem::swap(&mut rest, &mut self.entries);
        proof {
            assert(rest@ == all);
        }
        for e in iter: rest.into_iter()
            invariant
                iter.seq() == all,
                keys_unique(all),
                kept@ == all.subrange(0, iter.index() as int).filter(|e: (String, CacheEntry<V>)| is_live(e.1.last_accessed, now, ttl)),
        {
            let ghost idx = iter.index();
            proof {
                assert(all.subrange(0, idx + 1) =~= all.subrange(0, idx as int).push(e));
                lemma_filter_push(all.subrange(0, idx as int), |e: (String, CacheEntry<V>)| is_live(e.1.last_accessed, now, ttl), e);
            }
            if e.1.last_accessed <= now && now - e.1.last_accessed < ttl {
                kept.push(e);
            }
        }
        proof {
            assert(all.subrange(0, all.len() as int) =~= all);
            lemma_entry_map_filter(all, now, ttl, kept@, all.len() as int);
        }
        self.entries = kept;
    }
}

} // verus!
