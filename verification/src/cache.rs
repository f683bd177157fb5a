//! Frame cache strategy and statistics.

use vstd::prelude::*;

verus! {

/// Cache strategy for frame retention.
#[derive(Clone, Copy, Debug, PartialEq, Eq, Structural)]
pub enum CacheStrategy {
    /// Cache only the last accessed frame per comp (minimal memory).
    LastOnly,
    /// Cache all frames within the work area (maximum performance).
    All,
}

impl Default for CacheStrategy {
    fn default() -> (r: Self)
        ensures
            r == CacheStrategy::All,
    {
        CacheStrategy::All
    }
}

/// Cache statistics snapshot: hits, misses and number of entries.
#[derive(Clone, Copy, Debug)]
pub struct CacheStatsSnapshot {
    pub hits: u64,
    pub misses: u64,
    pub size: usize,
}

impl Default for CacheStatsSnapshot {
    fn default() -> (r: Self)
        ensures
            r.hits == 0 && r.misses == 0 && r.size == 0,
    {
        CacheStatsSnapshot { hits: 0, misses: 0, size: 0 }
    }
}

/// Cache statistics: number of cached frames and the strategy.
#[derive(Clone, Copy, Debug)]
pub struct CacheStats {
    pub entry_count: usize,
    pub strategy: CacheStrategy,
}

} // verus!

verus! {

/// Key of a cached frame: the comp's uuid string and the frame index.
pub open spec fn key_view(k: (String, i32)) -> (Seq<char>, i32) {
    (k.0@, k.1)
}

/// A cache entry as plain values: key and the frame's size in bytes.
pub open spec fn entry_view(e: ((String, i32), usize)) -> ((Seq<char>, i32), usize) {
    (key_view(e.0), e.1)
}

/// Position of the entry with key `k`, or -1.
pub open spec fn find_key(es: Seq<((Seq<char>, i32), usize)>, k: (Seq<char>, i32)) -> int
    decreases es.len(),
{
    if es.len() == 0 {
        -1
    } else {
        let r = find_key(es.drop_last(), k);
        if r >= 0 {
            r
        } else if es.last().0 == k {
            es.len() - 1
        } else {
            -1
        }
    }
}

/// No two entries share a key.
pub open spec fn keys_unique(es: Seq<((Seq<char>, i32), usize)>) -> bool {
    forall|i: int, j: int| 0 <= i < j < es.len() ==> (#[trigger] es[i]).0 != (#[trigger] es[j]).0
}

/// The entries of an LRU cache of frame sizes, least recently used first.
pub uninterp spec fn lru_entries(c: lru::LruCache<(String, i32), usize>) -> Seq<((Seq<char>, i32), usize)>;

/// The capacity an LRU cache of frame sizes was made with.
pub uninterp spec fn lru_cap(c: lru::LruCache<(String, i32), usize>) -> nat;

/// What every LRU cache keeps: distinct keys, no more entries than its capacity.
pub open spec fn lru_ok(c: lru::LruCache<(String, i32), usize>) -> bool {
    keys_unique(lru_entries(c)) && lru_entries(c).len() <= lru_cap(c) && lru_cap(c) > 0
}

#[verifier::external_type_specification]
#[verifier::external_body]
#[verifier::reject_recursive_types(K)]
#[verifier::reject_recursive_types(V)]
#[verifier::reject_recursive_types(S)]
pub struct ExLruCache<K, V, S>(lru::LruCache<K, V, S>);

#[verifier::external_type_specification]
#[verifier::external_body]
pub struct ExLruDefaultHasher(lru::DefaultHasher);

/// Calls `lru::LruCache::new` with capacity `cap`: an empty cache of that
/// capacity.
#[verifier::external_body]
fn lru_new(cap: usize) -> (r: lru::LruCache<(String, i32), usize>)
    requires
        cap > 0,
    ensures
        lru_entries(r) == Seq::<((Seq<char>, i32), usize)>::empty(),
        lru_cap(r) == cap,
        lru_ok(r),
{
    lru::LruCache::new(std::num::NonZeroUsize::new(cap).unwrap())
}

/// Calls `lru::LruCache::len`: the number of entries.
#[verifier::external_body]
fn lru_len(c: &lru::LruCache<(String, i32), usize>) -> (r: usize)
    ensures
        r == lru_entries(*c).len(),
{
    c.len()
}

/// Calls `lru::LruCache::peek`: the value of key (`comp`, `frame`) without
/// changing the order.
#[verifier::external_body]
fn lru_peek(c: &lru::LruCache<(String, i32), usize>, comp: &str, frame: i32) -> (r: Option<usize>)
    ensures
        ({
            let k = find_key(lru_entries(*c), (comp@, frame));
            if k >= 0 {
                r == Some(lru_entries(*c)[k].1)
            } else {
                r is None
            }
        }),
{
    c.peek(&(comp.to_string(), frame)).copied()
}

/// Calls `lru::LruCache::get`: the value of key (`comp`, `frame`), which
/// becomes the most recently used entry.
#[verifier::external_body]
fn lru_get(c: &mut lru::LruCache<(String, i32), usize>, comp: &str, frame: i32) -> (r: Option<usize>)
    ensures
        ({
            let es = lru_entries(*old(c));
            let k = find_key(es, (comp@, frame));
            if k >= 0 {
                &&& r == Some(es[k].1)
                &&& lru_entries(*final(c)) == es.remove(k).push(es[k])
            } else {
                &&& r is None
                &&& lru_entries(*final(c)) == es
            }
        }),
        lru_cap(*final(c)) == lru_cap(*old(c)),
        lru_ok(*final(c)),
    no_unwind
{
    c.get(&(comp.to_string(), frame)).copied()
}

/// Calls `lru::LruCache::push`: a present key gets the new value, becomes
/// most recent and its old entry comes back; otherwise a full cache drops
/// its least recently used entry and returns it; the new entry is most
/// recent.
#[verifier::external_body]
fn lru_push(c: &mut lru::LruCache<(String, i32), usize>, key: (String, i32), value: usize) -> (r: Option<((String, i32), usize)>)
    ensures
        ({
            let es = lru_entries(*old(c));
            let k = find_key(es, key_view(key));
            if k >= 0 {
                &&& r matches Some(e) && entry_view(e) == (key_view(key), es[k].1)
                &&& lru_entries(*final(c)) == es.remove(k).push((key_view(key), value))
            } else if es.len() == lru_cap(*old(c)) {
                &&& r matches Some(e) && entry_view(e) == es[0]
                &&& lru_entries(*final(c)) == es.drop_first().push((key_view(key), value))
            } else {
                &&& r is None
                &&& lru_entries(*final(c)) == es.push((key_view(key), value))
            }
        }),
        lru_cap(*final(c)) == lru_cap(*old(c)),
        lru_ok(*final(c)),
    no_unwind
{
    c.push(key, value)
}

/// Calls `lru::LruCache::pop_lru`: removes and returns the least recently
/// used entry.
#[verifier::external_body]
fn lru_pop_lru(c: &mut lru::LruCache<(String, i32), usize>) -> (r: Option<((String, i32), usize)>)
    ensures
        ({
            let es = lru_entries(*old(c));
            if es.len() > 0 {
                &&& r matches Some(e) && entry_view(e) == es[0]
                &&& lru_entries(*final(c)) == es.drop_first()
            } else {
                &&& r is None
                &&& lru_entries(*final(c)) == es
            }
        }),
        lru_cap(*final(c)) == lru_cap(*old(c)),
        lru_ok(*final(c)),
    no_unwind
{
    c.pop_lru()
}

} // verus!

verus! {

/// The entries of comp `c`, order kept.
pub open spec fn of_comp(es: Seq<((Seq<char>, i32), usize)>, c: Seq<char>) -> Seq<((Seq<char>, i32), usize)>
    decreases es.len(),
{
    if es.len() == 0 {
        es
    } else {
        let r = of_comp(es.drop_last(), c);
        if es.last().0.0 == c { r.push(es.last()) } else { r }
    }
}

/// The entries of the other comps, order kept.
pub open spec fn others(es: Seq<((Seq<char>, i32), usize)>, c: Seq<char>) -> Seq<((Seq<char>, i32), usize)>
    decreases es.len(),
{
    if es.len() == 0 {
        es
    } else {
        let r = others(es.drop_last(), c);
        if es.last().0.0 != c { r.push(es.last()) } else { r }
    }
}

/// The entries after pushing key `k` with value `v` into an LRU cache of
/// capacity `cap`: a present key moves to the most recent end with the new
/// value; a full cache first drops its least recently used entry.
pub open spec fn push_spec(es: Seq<((Seq<char>, i32), usize)>, cap: nat, k: (Seq<char>, i32), v: usize) -> Seq<((Seq<char>, i32), usize)> {
    let i = find_key(es, k);
    if i >= 0 {
        es.remove(i).push((k, v))
    } else if es.len() == cap {
        es.drop_first().push((k, v))
    } else {
        es.push((k, v))
    }
}

/// The entry a push of key `k` puts out: the old entry of that key, else
/// the least recently used entry of a full cache.
pub open spec fn push_displaced(es: Seq<((Seq<char>, i32), usize)>, cap: nat, k: (Seq<char>, i32)) -> Seq<
    ((Seq<char>, i32), usize),
> {
    let i = find_key(es, k);
    if i >= 0 {
        seq![es[i]]
    } else if es.len() == cap {
        seq![es[0]]
    } else {
        Seq::empty()
    }
}

/// An optional entry as a sequence of plain values.
pub open spec fn opt_entries(o: Option<((String, i32), usize)>) -> Seq<((Seq<char>, i32), usize)> {
    match o {
        Some(e) => seq![entry_view(e)],
        None => Seq::empty(),
    }
}

/// The entries after inserting frame `k` of size `v`: with the last-only
/// strategy the comp's other frames go first.
pub open spec fn insert_spec(
    es: Seq<((Seq<char>, i32), usize)>,
    cap: nat,
    strategy: CacheStrategy,
    k: (Seq<char>, i32),
    v: usize,
) -> Seq<((Seq<char>, i32), usize)> {
    push_spec(if strategy == CacheStrategy::LastOnly { others(es, k.0) } else { es }, cap, k, v)
}

pub proof fn lemma_find_key(es: Seq<((Seq<char>, i32), usize)>, k: (Seq<char>, i32))
    ensures
        -1 <= find_key(es, k) < es.len(),
        find_key(es, k) >= 0 ==> es[find_key(es, k)].0 == k,
        find_key(es, k) < 0 ==> forall|j: int| 0 <= j < es.len() ==> (#[trigger] es[j]).0 != k,
    decreases es.len(),
{
    if es.len() > 0 {
        lemma_find_key(es.drop_last(), k);
        assert forall|j: int| 0 <= j < es.len() - 1 implies es[j] == es.drop_last()[j] by {}
    }
}

proof fn lemma_filters_from(es: Seq<((Seq<char>, i32), usize)>, c: Seq<char>)
    ensures
        forall|i: int| 0 <= i < others(es, c).len() ==> (#[trigger] others(es, c)[i]).0.0 != c && es.contains(
            others(es, c)[i],
        ),
        forall|i: int| 0 <= i < of_comp(es, c).len() ==> (#[trigger] of_comp(es, c)[i]).0.0 == c,
        others(es, c).len() <= es.len(),
        keys_unique(es) ==> keys_unique(others(es, c)),
    decreases es.len(),
{
    if es.len() > 0 {
        let d = es.drop_last();
        lemma_filters_from(d, c);
        let r = others(d, c);
        assert forall|i: int| 0 <= i < r.len() implies es.contains(r[i]) by {
            let j = choose|j: int| 0 <= j < d.len() && d[j] == r[i];
            assert(es[j] == r[i]);
        }
        assert forall|i: int| 0 <= i < r.len() implies r.push(es.last())[i] == r[i] by {}
        assert(es[es.len() - 1] == es.last());
        let q = of_comp(d, c);
        assert forall|i: int| 0 <= i < q.len() implies q.push(es.last())[i] == q[i] by {}
        if keys_unique(es) {
            assert(keys_unique(d)) by {
                assert forall|i: int, j: int| 0 <= i < j < d.len() implies (#[trigger] d[i]).0 != (#[trigger] d[j]).0 by {
                    assert(d[i] == es[i] && d[j] == es[j]);
                }
            }
            if es.last().0.0 != c {
                let o = r.push(es.last());
                assert forall|i: int, j: int| 0 <= i < j < o.len() implies (#[trigger] o[i]).0 != (#[trigger] o[j]).0 by {
                    if j == r.len() {
                        let m = choose|m: int| 0 <= m < d.len() && d[m] == r[i];
                        assert(es[m] == r[i]);
                        assert(es[es.len() - 1] == es.last());
                    } else {
                        assert(o[i] == r[i] && o[j] == r[j]);
                    }
                }
            }
        }
    }
}

/// Index of the global frame cache: which frames are cached, least
/// recently used first, with their sizes in bytes, and the strategy.
pub struct GlobalFrameCache {
    cache: lru::LruCache<(String, i32), usize>,
    strategy: CacheStrategy,
}

impl GlobalFrameCache {
    #[verifier::type_invariant]
    spec fn inv(self) -> bool {
        lru_ok(self.cache)
    }

    /// Cached frames with their sizes, least recently used first.
    pub closed spec fn entries(self) -> Seq<((Seq<char>, i32), usize)> {
        lru_entries(self.cache)
    }

    /// Most frames the cache holds.
    pub closed spec fn capacity(self) -> nat {
        lru_cap(self.cache)
    }

    pub closed spec fn spec_strategy(self) -> CacheStrategy {
        self.strategy
    }

    /// An empty cache of `capacity` frames (10000 when 0 is given).
    pub fn new(capacity: usize, strategy: CacheStrategy) -> (r: Self)
        ensures
            r.entries().len() == 0,
            r.capacity() == (if capacity == 0 { 10000 } else { capacity }),
            r.spec_strategy() == strategy,
    {
        let cap = if capacity == 0 { 10000 } else { capacity };
        GlobalFrameCache { cache: lru_new(cap), strategy }
    }

    pub fn strategy(&self) -> (r: CacheStrategy)
        ensures
            r == self.spec_strategy(),
    {
        self.strategy
    }

    /// Number of cached frames.
    pub fn len(&self) -> (r: usize)
        ensures
            r == self.entries().len(),
    {
        lru_len(&self.cache)
    }

    /// Whether frame `frame` of comp `comp` is cached (order unchanged).
    pub fn contains(&self, comp: &str, frame: i32) -> (r: bool)
        ensures
            r == (find_key(self.entries(), (comp@, frame)) >= 0),
    {
        lru_peek(&self.cache, comp, frame).is_some()
    }

    /// Size of a cached frame, which becomes the most recently used.
    pub fn get(&mut self, comp: &str, frame: i32) -> (r: Option<usize>)
        ensures
            ({
                let es = old(self).entries();
                let k = find_key(es, (comp@, frame));
                if k >= 0 {
                    r == Some(es[k].1) && final(self).entries() == es.remove(k).push(es[k])
                } else {
                    r is None && final(self).entries() == es
                }
            }),
            final(self).capacity() == old(self).capacity(),
            final(self).spec_strategy() == old(self).spec_strategy(),
    {
        lru_get(&mut self.cache, comp, frame)
    }

    /// Drop the least recently used frame and return it.
    pub fn evict_lru(&mut self) -> (r: Option<((String, i32), usize)>)
        ensures
            ({
                let es = old(self).entries();
                if es.len() > 0 {
                    r matches Some(e) && entry_view(e) == es[0] && final(self).entries() == es.drop_first()
                } else {
                    r is None && final(self).entries() == es
                }
            }),
            final(self).capacity() == old(self).capacity(),
            final(self).spec_strategy() == old(self).spec_strategy(),
    {
        lru_pop_lru(&mut self.cache)
    }

    /// Remove every frame of comp `comp` and return them in LRU order; the
    /// other frames keep their order.
    pub fn clear_comp(&mut self, comp: &str) -> (r: Vec<((String, i32), usize)>)
        ensures
            final(self).entries() == others(old(self).entries(), comp@),
            r@.map_values(|e: ((String, i32), usize)| entry_view(e)) == of_comp(old(self).entries(), comp@),
            final(self).capacity() == old(self).capacity(),
            final(self).spec_strategy() == old(self).spec_strategy(),
    {
        proof {
            use_type_invariant(&*self);
        }
        let ghost es = self.entries();
        let ghost cap = self.capacity();
        let mut kept: Vec<((String, i32), usize)> = Vec::new();
        let mut removed: Vec<((String, i32), usize)> = Vec::new();
        let mut j: usize = 0;
        let n = lru_len(&self.cache);
        proof {
            assert(es.subrange(0, 0) =~= Seq::<((Seq<char>, i32), usize)>::empty());
            assert(kept@.map_values(|e: ((String, i32), usize)| entry_view(e)) =~= others(es.subrange(0, 0), comp@));
            assert(removed@.map_values(|e: ((String, i32), usize)| entry_view(e)) =~= of_comp(es.subrange(0, 0), comp@));
        }
        while j < n
            invariant
                n == es.len(),
                j <= n,
                lru_entries(self.cache) == es.subrange(j as int, es.len() as int),
                lru_cap(self.cache) == cap,
                self.strategy == old(self).strategy,
                kept@.map_values(|e: ((String, i32), usize)| entry_view(e)) == others(es.subrange(0, j as int), comp@),
                removed@.map_values(|e: ((String, i32), usize)| entry_view(e)) == of_comp(es.subrange(0, j as int), comp@),
            decreases n - j,
        {
            let popped = lru_pop_lru(&mut self.cache);
            let ghost pre = es.subrange(0, j + 1);
            proof {
                assert(pre.drop_last() =~= es.subrange(0, j as int));
                assert(es.subrange(j as int, es.len() as int)[0] == es[j as int]);
                assert(pre.last() == es[j as int]);
                assert(es.subrange(j as int, es.len() as int).drop_first() =~= es.subrange(j + 1, es.len() as int));
            }
            match popped {
                Some(e) => {
                    let ghost kb = kept@.map_values(|e: ((String, i32), usize)| entry_view(e));
                    let ghost rb = removed@.map_values(|e: ((String, i32), usize)| entry_view(e));
                    if crate::strs::str_eq(e.0.0.as_str(), comp) {
                        removed.push(e);
                        proof {
                            assert(removed@.map_values(|e: ((String, i32), usize)| entry_view(e)) =~= rb.push(entry_view(e)));
                        }
                    } else {
                        kept.push(e);
                        proof {
                            assert(kept@.map_values(|e: ((String, i32), usize)| entry_view(e)) =~= kb.push(entry_view(e)));
                        }
                    }
                },
                None => {},
            }
            j = j + 1;
        }
        proof {
            assert(es.subrange(0, n as int) =~= es);
            lemma_filters_from(es, comp@);
        }
        let ghost kv = kept@.map_values(|e: ((String, i32), usize)| entry_view(e));
        let m = kept.len();
        let mut rest = kept;
        let mut done: usize = 0;
        proof {
            assert(lru_entries(self.cache) =~= kv.subrange(0, 0));
        }
        while rest.len() > 0
            invariant
                kv == others(es, comp@),
                keys_unique(kv),
                kv.len() <= cap,
                m == kv.len(),
                done + rest@.len() == m,
                rest@.map_values(|e: ((String, i32), usize)| entry_view(e)) == kv.subrange(done as int, m as int),
                lru_entries(self.cache) == kv.subrange(0, done as int),
                lru_cap(self.cache) == cap,
                self.strategy == old(self).strategy,
            decreases rest@.len(),
        {
            let ghost rb = rest@;
            let e = rest.remove(0);
            let ghost ev = entry_view(e);
            proof {
                assert(kv.subrange(done as int, m as int)[0] == kv[done as int]);
                assert(ev == kv[done as int]);
                let cur = kv.subrange(0, done as int);
                lemma_find_key(cur, ev.0);
                if find_key(cur, ev.0) >= 0 {
                    let q = find_key(cur, ev.0);
                    assert(kv[q].0 == kv[done as int].0);
                }
                assert forall|i: int| 0 <= i < rest@.len() implies entry_view(#[trigger] rest@[i]) == kv[done + 1 + i] by {
                    assert(rest@[i] == rb[i + 1]);
                    assert(rb.map_values(|e: ((String, i32), usize)| entry_view(e))[i + 1] == kv.subrange(done as int, m as int)[i + 1]);
                }
                assert(rest@.map_values(|e: ((String, i32), usize)| entry_view(e)) =~= kv.subrange(done + 1, m as int));
            }
            lru_push(&mut self.cache, e.0, e.1);
            done = done + 1;
            proof {
                assert(lru_entries(self.cache) =~= kv.subrange(0, done as int));
            }
        }
        proof {
            assert(kv.subrange(0, m as int) =~= kv);
        }
        removed
    }

    /// Remove every frame and return them in LRU order.
    pub fn clear_all(&mut self) -> (r: Vec<((String, i32), usize)>)
        ensures
            final(self).entries().len() == 0,
            r@.map_values(|e: ((String, i32), usize)| entry_view(e)) == old(self).entries(),
            final(self).capacity() == old(self).capacity(),
            final(self).spec_strategy() == old(self).spec_strategy(),
    {
        let ghost es = self.entries();
        let n = lru_len(&self.cache);
        let mut out: Vec<((String, i32), usize)> = Vec::new();
        let mut j: usize = 0;
        while j < n
            invariant
                n == es.len(),
                j <= n,
                lru_entries(self.cache) == es.subrange(j as int, es.len() as int),
                lru_cap(self.cache) == old(self).capacity(),
                self.strategy == old(self).strategy,
                out@.map_values(|e: ((String, i32), usize)| entry_view(e)) == es.subrange(0, j as int),
            decreases n - j,
        {
            let popped = lru_pop_lru(&mut self.cache);
            proof {
                assert(es.subrange(j as int, es.len() as int)[0] == es[j as int]);
                assert(es.subrange(j as int, es.len() as int).drop_first() =~= es.subrange(j + 1, es.len() as int));
            }
            match popped {
                Some(e) => {
                    let ghost ob = out@.map_values(|e: ((String, i32), usize)| entry_view(e));
                    out.push(e);
                    proof {
                        assert(out@.map_values(|e: ((String, i32), usize)| entry_view(e)) =~= ob.push(entry_view(e)));
                    }
                },
                None => {},
            }
            j = j + 1;
            proof {
                assert(out@.map_values(|e: ((String, i32), usize)| entry_view(e)) =~= es.subrange(0, j as int));
            }
        }
        proof {
            assert(es.subrange(0, n as int) =~= es);
        }
        out
    }

    /// First step of inserting a frame of comp `comp`: with the last-only
    /// strategy the comp's cached frames are removed and returned.
    pub fn prepare_insert(&mut self, comp: &str) -> (r: Vec<((String, i32), usize)>)
        ensures
            old(self).spec_strategy() == CacheStrategy::LastOnly ==> final(self).entries() == others(
                old(self).entries(),
                comp@,
            ) && r@.map_values(|e: ((String, i32), usize)| entry_view(e)) == of_comp(old(self).entries(), comp@),
            old(self).spec_strategy() == CacheStrategy::All ==> final(self).entries() == old(self).entries() && r@.len()
                == 0,
            final(self).capacity() == old(self).capacity(),
            final(self).spec_strategy() == old(self).spec_strategy(),
    {
        match self.strategy {
            CacheStrategy::LastOnly => self.clear_comp(comp),
            CacheStrategy::All => Vec::new(),
        }
    }

    /// Put frame `frame` of comp `comp` with its size (see `push_spec`);
    /// returns the entry it displaced, if any.
    pub fn push_entry(&mut self, comp: &str, frame: i32, size: usize) -> (r: Option<((String, i32), usize)>)
        ensures
            final(self).entries() == push_spec(old(self).entries(), old(self).capacity(), (comp@, frame), size),
            opt_entries(r) == push_displaced(old(self).entries(), old(self).capacity(), (comp@, frame)),
            final(self).capacity() == old(self).capacity(),
            final(self).spec_strategy() == old(self).spec_strategy(),
    {
        proof {
            use_type_invariant(&*self);
        }
        let key = (comp.to_string(), frame);
        proof {
            lemma_find_key(self.entries(), (comp@, frame));
        }
        lru_push(&mut self.cache, key, size)
    }

    /// Insert frame `frame` of comp `comp` with its size: the strategy's
    /// clearing, then the push (see `insert_spec`); returns what left the
    /// cache, LRU order.
    pub fn insert(&mut self, comp: &str, frame: i32, size: usize) -> (r: Vec<((String, i32), usize)>)
        ensures
            final(self).entries() == insert_spec(
                old(self).entries(),
                old(self).capacity(),
                old(self).spec_strategy(),
                (comp@, frame),
                size,
            ),
            final(self).capacity() == old(self).capacity(),
            final(self).spec_strategy() == old(self).spec_strategy(),
    {
        let mut out = self.prepare_insert(comp);
        match self.push_entry(comp, frame, size) {
            Some(e) => out.push(e),
            None => {},
        }
        out
    }

    /// Statistics: number of cached frames and the strategy.
    pub fn stats(&self) -> (r: CacheStats)
        ensures
            r.entry_count == self.entries().len(),
            r.strategy == self.spec_strategy(),
    {
        CacheStats { entry_count: lru_len(&self.cache), strategy: self.strategy }
    }

    /// Change the strategy. Switching to last-only keeps the most recent
    /// frame of each comp (LRU order kept) and drops the others, which it
    /// returns in LRU order; any other change keeps every frame.
    pub fn set_strategy(&mut self, strategy: CacheStrategy) -> (r: Vec<((String, i32), usize)>)
        ensures
            final(self).spec_strategy() == strategy,
            final(self).capacity() == old(self).capacity(),
            if old(self).spec_strategy() != strategy && strategy == CacheStrategy::LastOnly {
                &&& final(self).entries() == latest_per_comp(old(self).entries())
                &&& r@.map_values(|e: ((String, i32), usize)| entry_view(e)) == superseded(old(self).entries())
            } else {
                final(self).entries() == old(self).entries() && r@.len() == 0
            },
    {
        proof {
            use_type_invariant(&*self);
        }
        if self.strategy == strategy {
            return Vec::new();
        }
        self.strategy = strategy;
        match strategy {
            CacheStrategy::All => Vec::new(),
            CacheStrategy::LastOnly => self.keep_latest_per_comp(),
        }
    }

    /// Keep only the most recent frame of each comp; return the others.
    fn keep_latest_per_comp(&mut self) -> (r: Vec<((String, i32), usize)>)
        ensures
            final(self).entries() == latest_per_comp(old(self).entries()),
            r@.map_values(|e: ((String, i32), usize)| entry_view(e)) == superseded(old(self).entries()),
            final(self).capacity() == old(self).capacity(),
            final(self).spec_strategy() == old(self).spec_strategy(),
    {
        proof {
            use_type_invariant(&*self);
        }
        let ghost es = self.entries();
        let ghost cap = self.capacity();
        let all = self.clear_all();
        let n = all.len();
        let mut rest = all;
        let mut kept: Vec<((String, i32), usize)> = Vec::new();
        let mut removed: Vec<((String, i32), usize)> = Vec::new();
        let mut i: usize = 0;
        while rest.len() > 0
            invariant
                n == es.len(),
                i + rest@.len() == n,
                rest@.map_values(|e: ((String, i32), usize)| entry_view(e)) == es.subrange(i as int, n as int),
                kept@.map_values(|e: ((String, i32), usize)| entry_view(e)) == latest_upto(es, i as int),
                removed@.map_values(|e: ((String, i32), usize)| entry_view(e)) == superseded_upto(es, i as int),
                lru_entries(self.cache).len() == 0,
                lru_cap(self.cache) == cap,
                self.strategy == old(self).strategy,
            decreases rest@.len(),
        {
            let ghost rb = rest@;
            let e = rest.remove(0);
            proof {
                assert(rb.map_values(|e: ((String, i32), usize)| entry_view(e))[0] == es.subrange(i as int, n as int)[0]);
                assert(entry_view(e) == es[i as int]);
                assert forall|q: int| 0 <= q < rest@.len() implies entry_view(#[trigger] rest@[q]) == es[i + 1 + q] by {
                    assert(rest@[q] == rb[q + 1]);
                    assert(rb.map_values(|e: ((String, i32), usize)| entry_view(e))[q + 1] == es.subrange(i as int, n as int)[q + 1]);
                }
                assert(rest@.map_values(|e: ((String, i32), usize)| entry_view(e)) =~= es.subrange(i + 1, n as int));
            }
            let mut later = false;
            let mut j: usize = 0;
            while j < rest.len()
                invariant
                    j <= rest@.len(),
                    i + 1 + rest@.len() == n,
                    n == es.len(),
                    entry_view(e) == es[i as int],
                    forall|q: int| 0 <= q < rest@.len() ==> entry_view(#[trigger] rest@[q]) == es[i + 1 + q],
                    later == exists|q: int| i < q < i + 1 + j && (#[trigger] es[q]).0.0 == es[i as int].0.0,
                decreases rest@.len() - j,
            {
                proof {
                    assert(entry_view(rest@[j as int]) == es[i + 1 + j]);
                }
                if crate::strs::str_eq(rest[j].0.0.as_str(), e.0.0.as_str()) {
                    later = true;
                }
                j = j + 1;
            }
            proof {
                if later {
                    let q = choose|q: int| i < q < i + 1 + j && (#[trigger] es[q]).0.0 == es[i as int].0.0;
                    assert(!is_latest(es, i as int));
                } else {
                    assert forall|q: int| i < q < es.len() implies (#[trigger] es[q]).0.0 != es[i as int].0.0 by {}
                    assert(is_latest(es, i as int));
                }
            }
            if later {
                let ghost rv = removed@.map_values(|e: ((String, i32), usize)| entry_view(e));
                removed.push(e);
                proof {
                    assert(removed@.map_values(|e: ((String, i32), usize)| entry_view(e)) =~= rv.push(es[i as int]));
                }
            } else {
                let ghost kv = kept@.map_values(|e: ((String, i32), usize)| entry_view(e));
                kept.push(e);
                proof {
                    assert(kept@.map_values(|e: ((String, i32), usize)| entry_view(e)) =~= kv.push(es[i as int]));
                }
            }
            i = i + 1;
        }
        let ghost kv = latest_per_comp(es);
        proof {
            lemma_latest_upto(es, n as int);
            assert forall|x: int, y: int| 0 <= x < y < kv.len() implies (#[trigger] kv[x]).0 != (#[trigger] kv[y]).0 by {
                assert(kv[x].0.0 != kv[y].0.0);
            }
        }
        let m = kept.len();
        let mut rest = kept;
        let mut done: usize = 0;
        proof {
            assert(lru_entries(self.cache) =~= kv.subrange(0, 0));
        }
        while rest.len() > 0
            invariant
                keys_unique(kv),
                kv.len() <= cap,
                m == kv.len(),
                done + rest@.len() == m,
                rest@.map_values(|e: ((String, i32), usize)| entry_view(e)) == kv.subrange(done as int, m as int),
                lru_entries(self.cache) == kv.subrange(0, done as int),
                lru_cap(self.cache) == cap,
                self.strategy == old(self).strategy,
            decreases rest@.len(),
        {
            let ghost rb = rest@;
            let e = rest.remove(0);
            let ghost ev = entry_view(e);
            proof {
                assert(kv.subrange(done as int, m as int)[0] == kv[done as int]);
                assert(ev == kv[done as int]);
                let cur = kv.subrange(0, done as int);
                lemma_find_key(cur, ev.0);
                if find_key(cur, ev.0) >= 0 {
                    let q = find_key(cur, ev.0);
                    assert(kv[q].0 == kv[done as int].0);
                }
                assert forall|i: int| 0 <= i < rest@.len() implies entry_view(#[trigger] rest@[i]) == kv[done + 1 + i] by {
                    assert(rest@[i] == rb[i + 1]);
                    assert(rb.map_values(|e: ((String, i32), usize)| entry_view(e))[i + 1] == kv.subrange(done as int, m as int)[i + 1]);
                }
                assert(rest@.map_values(|e: ((String, i32), usize)| entry_view(e)) =~= kv.subrange(done + 1, m as int));
            }
            lru_push(&mut self.cache, e.0, e.1);
            done = done + 1;
            proof {
                assert(lru_entries(self.cache) =~= kv.subrange(0, done as int));
            }
        }
        proof {
            assert(kv.subrange(0, m as int) =~= kv);
        }
        removed
    }
}

} // verus!

verus! {

proof fn lemma_of_comp_none(s: Seq<((Seq<char>, i32), usize)>, c: Seq<char>)
    requires
        forall|j: int| 0 <= j < s.len() ==> (#[trigger] s[j]).0.0 != c,
    ensures
        of_comp(s, c) == Seq::<((Seq<char>, i32), usize)>::empty(),
    decreases s.len(),
{
    if s.len() > 0 {
        assert forall|j: int| 0 <= j < s.drop_last().len() implies (#[trigger] s.drop_last()[j]).0.0 != c by {
            assert(s.drop_last()[j] == s[j]);
        }
        lemma_of_comp_none(s.drop_last(), c);
        assert(s[s.len() - 1] == s.last());
    }
}

/// What `push_spec` keeps before the new entry: the old entries without
/// key `k` (and without the least recently used one when full).
proof fn lemma_push_spec(b: Seq<((Seq<char>, i32), usize)>, cap: nat, k: (Seq<char>, i32), v: usize) -> (s: Seq<((Seq<char>, i32), usize)>)
    requires
        keys_unique(b),
        cap > 0,
    ensures
        push_spec(b, cap, k, v) == s.push((k, v)),
        forall|j: int| 0 <= j < s.len() ==> (#[trigger] s[j]).0 != k && b.contains(s[j]),
        keys_unique(s),
{
    lemma_find_key(b, k);
    let i = find_key(b, k);
    let s = if i >= 0 {
        b.remove(i)
    } else if b.len() == cap {
        b.drop_first()
    } else {
        b
    };
    assert forall|j: int| 0 <= j < s.len() implies (#[trigger] s[j]).0 != k && b.contains(s[j]) by {
        if i >= 0 {
            if j < i {
                assert(s[j] == b[j]);
                assert(b[j].0 != b[i].0);
                assert(b.contains(b[j]));
            } else {
                assert(s[j] == b[j + 1]);
                assert(b[i].0 != b[j + 1].0);
                assert(b.contains(b[j + 1]));
            }
        } else if b.len() == cap {
            assert(s[j] == b[j + 1]);
            assert(b.contains(b[j + 1]));
        } else {
            assert(s[j] == b[j]);
            assert(b.contains(b[j]));
        }
    }
    assert forall|x: int, y: int| 0 <= x < y < s.len() implies (#[trigger] s[x]).0 != (#[trigger] s[y]).0 by {
        if i >= 0 {
            let bx = if x < i { x } else { x + 1 };
            let by_ = if y < i { y } else { y + 1 };
            assert(s[x] == b[bx] && s[y] == b[by_]);
        } else if b.len() == cap {
            assert(s[x] == b[x + 1] && s[y] == b[y + 1]);
        } else {
            assert(s[x] == b[x] && s[y] == b[y]);
        }
    }
    s
}

proof fn lemma_find_last(s: Seq<((Seq<char>, i32), usize)>, k: (Seq<char>, i32), v: usize)
    requires
        forall|j: int| 0 <= j < s.len() ==> (#[trigger] s[j]).0 != k,
    ensures
        find_key(s.push((k, v)), k) == s.len(),
{
    lemma_find_key(s, k);
    assert(s.push((k, v)).drop_last() =~= s);
}

/// A frame just inserted is cached with the size it was inserted with,
/// whatever the strategy, and keys stay distinct.
pub proof fn law_insert_then_cached(
    es: Seq<((Seq<char>, i32), usize)>,
    cap: nat,
    strategy: CacheStrategy,
    k: (Seq<char>, i32),
    v: usize,
)
    requires
        keys_unique(es),
        cap > 0,
    ensures
        ({
            let r = insert_spec(es, cap, strategy, k, v);
            &&& find_key(r, k) >= 0
            &&& r[find_key(r, k)] == (k, v)
            &&& keys_unique(r)
        }),
{
    lemma_filters_from(es, k.0);
    let b = if strategy == CacheStrategy::LastOnly { others(es, k.0) } else { es };
    let s = lemma_push_spec(b, cap, k, v);
    lemma_find_last(s, k, v);
    let r = s.push((k, v));
    assert forall|x: int, y: int| 0 <= x < y < r.len() implies (#[trigger] r[x]).0 != (#[trigger] r[y]).0 by {
        if y == s.len() {
            assert(r[x] == s[x]);
        } else {
            assert(r[x] == s[x] && r[y] == s[y]);
        }
    }
}

/// With the last-only strategy a comp keeps exactly the frame inserted
/// last.
pub proof fn law_last_only_keeps_one(es: Seq<((Seq<char>, i32), usize)>, cap: nat, k: (Seq<char>, i32), v: usize)
    requires
        keys_unique(es),
        cap > 0,
    ensures
        of_comp(insert_spec(es, cap, CacheStrategy::LastOnly, k, v), k.0) == seq![(k, v)],
{
    lemma_filters_from(es, k.0);
    let b = others(es, k.0);
    let s = lemma_push_spec(b, cap, k, v);
    assert forall|j: int| 0 <= j < s.len() implies (#[trigger] s[j]).0.0 != k.0 by {
        assert(b.contains(s[j]));
        let m = choose|m: int| 0 <= m < b.len() && b[m] == s[j];
        assert(b[m].0.0 != k.0);
    }
    lemma_of_comp_none(s, k.0);
    let r = s.push((k, v));
    assert(r.drop_last() =~= s);
    assert(of_comp(r, k.0) =~= seq![(k, v)]);
}

/// Clearing a comp leaves none of its frames and every frame of the other
/// comps.
pub proof fn law_clear_comp(es: Seq<((Seq<char>, i32), usize)>, c: Seq<char>)
    ensures
        forall|i: int| 0 <= i < others(es, c).len() ==> (#[trigger] others(es, c)[i]).0.0 != c,
        forall|i: int| 0 <= i < es.len() && (#[trigger] es[i]).0.0 != c ==> others(es, c).contains(es[i]),
    decreases es.len(),
{
    lemma_filters_from(es, c);
    if es.len() > 0 {
        law_clear_comp(es.drop_last(), c);
        let r = others(es.drop_last(), c);
        assert forall|i: int| 0 <= i < es.len() && (#[trigger] es[i]).0.0 != c implies others(es, c).contains(es[i]) by {
            if i < es.len() - 1 {
                assert(es.drop_last()[i] == es[i]);
                let m = choose|m: int| 0 <= m < r.len() && r[m] == es[i];
                if es.last().0.0 != c {
                    assert(r.push(es.last())[m] == es[i]);
                }
            } else {
                assert(es[i] == es.last());
                assert(r.push(es.last())[r.len() as int] == es[i]);
            }
        }
    }
}


/// Entry `i` is the most recent frame of its comp: no later entry (nearer
/// the most recently used end) belongs to that comp.
pub open spec fn is_latest(es: Seq<((Seq<char>, i32), usize)>, i: int) -> bool {
    forall|j: int| i < j < es.len() ==> (#[trigger] es[j]).0.0 != es[i].0.0
}

/// Of the first `n` entries, those that are the most recent frame of their
/// comp, order kept.
pub open spec fn latest_upto(es: Seq<((Seq<char>, i32), usize)>, n: int) -> Seq<((Seq<char>, i32), usize)>
    decreases n,
{
    if n <= 0 {
        Seq::empty()
    } else {
        let r = latest_upto(es, n - 1);
        if is_latest(es, n - 1) { r.push(es[n - 1]) } else { r }
    }
}

/// Of the first `n` entries, those that a later frame of their comp
/// supersedes, order kept.
pub open spec fn superseded_upto(es: Seq<((Seq<char>, i32), usize)>, n: int) -> Seq<((Seq<char>, i32), usize)>
    decreases n,
{
    if n <= 0 {
        Seq::empty()
    } else {
        let r = superseded_upto(es, n - 1);
        if is_latest(es, n - 1) { r } else { r.push(es[n - 1]) }
    }
}

/// The most recent frame of each comp, in LRU order.
pub open spec fn latest_per_comp(es: Seq<((Seq<char>, i32), usize)>) -> Seq<((Seq<char>, i32), usize)> {
    latest_upto(es, es.len() as int)
}

/// Every frame but the most recent of its comp, in LRU order.
pub open spec fn superseded(es: Seq<((Seq<char>, i32), usize)>) -> Seq<((Seq<char>, i32), usize)> {
    superseded_upto(es, es.len() as int)
}

/// `x` is one of the first `n` entries and the most recent of its comp.
spec fn from_latest(es: Seq<((Seq<char>, i32), usize)>, n: int, x: ((Seq<char>, i32), usize)) -> bool {
    exists|i: int| 0 <= i < n && is_latest(es, i) && x == es[i]
}

proof fn lemma_latest_upto(es: Seq<((Seq<char>, i32), usize)>, n: int)
    requires
        0 <= n <= es.len(),
    ensures
        latest_upto(es, n).len() <= n,
        forall|k: int| 0 <= k < latest_upto(es, n).len() ==> from_latest(es, n, #[trigger] latest_upto(es, n)[k]),
        forall|k1: int, k2: int| 0 <= k1 < k2 < latest_upto(es, n).len() ==>
            (#[trigger] latest_upto(es, n)[k1]).0.0 != (#[trigger] latest_upto(es, n)[k2]).0.0,
        forall|i: int| 0 <= i < n && is_latest(es, i) ==> latest_upto(es, n).contains(#[trigger] es[i]),
    decreases n,
{
    if n > 0 {
        lemma_latest_upto(es, n - 1);
        let r = latest_upto(es, n - 1);
        let e = es[n - 1];
        if is_latest(es, n - 1) {
            let q = r.push(e);
            assert forall|k: int| 0 <= k < q.len() implies from_latest(es, n, #[trigger] q[k]) by {
                if k < r.len() {
                    assert(q[k] == r[k]);
                    assert(from_latest(es, n - 1, r[k]));
                    let i = choose|i: int| 0 <= i < n - 1 && is_latest(es, i) && r[k] == es[i];
                    assert(q[k] == es[i]);
                } else {
                    assert(q[k] == es[n - 1]);
                }
            }
            assert forall|k1: int, k2: int| 0 <= k1 < k2 < q.len() implies (#[trigger] q[k1]).0.0 != (#[trigger] q[k2]).0.0 by {
                assert(q[k1] == r[k1]);
                assert(from_latest(es, n - 1, r[k1]));
                let i = choose|i: int| 0 <= i < n - 1 && is_latest(es, i) && r[k1] == es[i];
                if k2 == r.len() {
                    assert(q[k2] == es[n - 1]);
                    assert(es[n - 1].0.0 != es[i].0.0);
                } else {
                    assert(q[k2] == r[k2]);
                }
            }
            assert forall|i: int| 0 <= i < n && is_latest(es, i) implies q.contains(#[trigger] es[i]) by {
                if i < n - 1 {
                    let k = choose|k: int| 0 <= k < r.len() && r[k] == es[i];
                    assert(q[k] == es[i]);
                } else {
                    assert(q[r.len() as int] == es[i]);
                }
            }
        } else {
            assert forall|k: int| 0 <= k < r.len() implies from_latest(es, n, #[trigger] r[k]) by {
                assert(from_latest(es, n - 1, r[k]));
                let i = choose|i: int| 0 <= i < n - 1 && is_latest(es, i) && r[k] == es[i];
                assert(r[k] == es[i]);
            }
        }
    }
}

/// Some frame at or after `i` belongs to the comp of frame `i` and is the
/// most recent of that comp.
proof fn lemma_latest_exists(es: Seq<((Seq<char>, i32), usize)>, i: int) -> (j: int)
    requires
        0 <= i < es.len(),
    ensures
        i <= j < es.len(),
        es[j].0.0 == es[i].0.0,
        is_latest(es, j),
    decreases es.len() - i,
{
    if is_latest(es, i) {
        i
    } else {
        let j = choose|j: int| i < j < es.len() && (#[trigger] es[j]).0.0 == es[i].0.0;
        lemma_latest_exists(es, j)
    }
}

/// Switching to last-only keeps, of every comp with cached frames, exactly
/// its most recent frame: a frame stays if and only if it is the latest of
/// its comp, no two frames that stay share a comp, and every comp that had
/// a frame keeps one.
pub proof fn law_last_only_switch_keeps_latest(es: Seq<((Seq<char>, i32), usize)>)
    requires
        keys_unique(es),
    ensures
        forall|i: int| 0 <= i < es.len() ==> (latest_per_comp(es).contains(#[trigger] es[i]) <==> is_latest(es, i)),
        forall|k1: int, k2: int| 0 <= k1 < k2 < latest_per_comp(es).len() ==>
            (#[trigger] latest_per_comp(es)[k1]).0.0 != (#[trigger] latest_per_comp(es)[k2]).0.0,
        forall|i: int| 0 <= i < es.len() ==> exists|k: int|
            0 <= k < latest_per_comp(es).len() && (#[trigger] latest_per_comp(es)[k]).0.0 == (#[trigger] es[i]).0.0,
{
    let n = es.len() as int;
    lemma_latest_upto(es, n);
    let r = latest_per_comp(es);
    assert forall|i: int| 0 <= i < es.len() implies (r.contains(#[trigger] es[i]) <==> is_latest(es, i)) by {
        if r.contains(es[i]) {
            let k = choose|k: int| 0 <= k < r.len() && r[k] == es[i];
            assert(from_latest(es, n, r[k]));
            let i2 = choose|i2: int| 0 <= i2 < n && is_latest(es, i2) && r[k] == es[i2];
            if i2 != i {
                if i < i2 {
                    assert(es[i].0 != es[i2].0);
                } else {
                    assert(es[i2].0 != es[i].0);
                }
            }
        }
    }
    assert forall|i: int| 0 <= i < es.len() implies exists|k: int|
        0 <= k < r.len() && (#[trigger] r[k]).0.0 == (#[trigger] es[i]).0.0 by {
        let j = lemma_latest_exists(es, i);
        assert(r.contains(es[j]));
        let k = choose|k: int| 0 <= k < r.len() && r[k] == es[j];
        assert(r[k].0.0 == es[i].0.0);
    }
}


/// `used` less the sizes of `es`, one by one, never below zero.
pub open spec fn freed(used: int, es: Seq<((Seq<char>, i32), usize)>) -> int
    decreases es.len(),
{
    if es.len() == 0 {
        used
    } else {
        let u = freed(used, es.drop_last()) - es.last().1;
        if u < 0 { 0 } else { u }
    }
}

/// How many least recently used frames leave while `used` bytes exceed
/// `limit` and frames remain (each frees its size).
pub open spec fn evict_count(es: Seq<((Seq<char>, i32), usize)>, used: int, limit: int) -> nat
    decreases es.len(),
{
    if used <= limit || es.len() == 0 {
        0
    } else {
        let u = used - es[0].1;
        1 + evict_count(es.drop_first(), if u < 0 { 0 } else { u }, limit)
    }
}

proof fn lemma_evict_count(es: Seq<((Seq<char>, i32), usize)>, used: int, limit: int)
    requires
        used >= 0,
    ensures
        evict_count(es, used, limit) <= es.len(),
        evict_count(es, used, limit) < es.len() ==> freed(used, es.subrange(0, evict_count(es, used, limit) as int)) <= limit,
    decreases es.len(),
{
    if used <= limit || es.len() == 0 {
        assert(es.subrange(0, 0) =~= Seq::<((Seq<char>, i32), usize)>::empty());
    } else {
        let u0 = used - es[0].1;
        let u = if u0 < 0 { 0 } else { u0 };
        let t = es.drop_first();
        lemma_evict_count(t, u, limit);
        lemma_freed_first(used, es, evict_count(es, used, limit) as int);
    }
}

/// Freeing a prefix is freeing its first frame, then the rest.
proof fn lemma_freed_first(used: int, es: Seq<((Seq<char>, i32), usize)>, k: int)
    requires
        1 <= k <= es.len(),
        used >= 0,
    ensures
        ({
            let u0 = used - es[0].1;
            freed(used, es.subrange(0, k)) == freed(if u0 < 0 { 0 } else { u0 }, es.drop_first().subrange(0, k - 1))
        }),
    decreases k,
{
    let u0 = used - es[0].1;
    let u = if u0 < 0 { 0 } else { u0 };
    if k == 1 {
        let a = es.subrange(0, 1);
        assert(a.drop_last() =~= Seq::<((Seq<char>, i32), usize)>::empty());
        assert(a.last() == es[0]);
        assert(freed(used, a.drop_last()) == used);
        assert(es.drop_first().subrange(0, 0) =~= Seq::<((Seq<char>, i32), usize)>::empty());
    } else {
        lemma_freed_first(used, es, k - 1);
        let a = es.subrange(0, k);
        let b = es.drop_first().subrange(0, k - 1);
        assert(a.drop_last() =~= es.subrange(0, k - 1));
        assert(b.drop_last() =~= es.drop_first().subrange(0, k - 2));
        assert(a.last() == b.last());
        assert(freed(used, a) == {
            let v = freed(used, a.drop_last()) - a.last().1;
            if v < 0 { 0 } else { v }
        });
        assert(freed(u, b) == {
            let v = freed(u, b.drop_last()) - b.last().1;
            if v < 0 { 0 } else { v }
        });
    }
}

impl GlobalFrameCache {
    /// Evict least recently used frames while `used` bytes exceed `limit`
    /// and frames remain; each evicted frame frees its size (never below
    /// zero). Returns the evicted frames, LRU order, and the bytes still
    /// used.
    pub fn evict_to_budget(&mut self, used: usize, limit: usize) -> (r: (Vec<((String, i32), usize)>, usize))
        ensures
            ({
                let es = old(self).entries();
                let k = evict_count(es, used as int, limit as int) as int;
                &&& r.0@.map_values(|e: ((String, i32), usize)| entry_view(e)) == es.subrange(0, k)
                &&& final(self).entries() == es.subrange(k, es.len() as int)
                &&& r.1 == freed(used as int, es.subrange(0, k))
            }),
            final(self).capacity() == old(self).capacity(),
            final(self).spec_strategy() == old(self).spec_strategy(),
    {
        let ghost es = self.entries();
        let mut out: Vec<((String, i32), usize)> = Vec::new();
        let mut u = used;
        let ghost mut j: int = 0;
        proof {
            lemma_evict_count(es, used as int, limit as int);
            assert(es.subrange(0, 0) =~= Seq::<((Seq<char>, i32), usize)>::empty());
            assert(es.subrange(0, es.len() as int) =~= es);
        }
        while u > limit
            invariant_except_break
                0 <= j <= es.len(),
                evict_count(es, used as int, limit as int) == j + evict_count(es.subrange(j as int, es.len() as int), u as int, limit as int),
                u as int == freed(used as int, es.subrange(0, j as int)),
                self.entries() == es.subrange(j as int, es.len() as int),
                out@.map_values(|e: ((String, i32), usize)| entry_view(e)) == es.subrange(0, j as int),
                self.capacity() == old(self).capacity(),
                self.spec_strategy() == old(self).spec_strategy(),
            ensures
                j == evict_count(es, used as int, limit as int),
                u as int == freed(used as int, es.subrange(0, j as int)),
                self.entries() == es.subrange(j as int, es.len() as int),
                out@.map_values(|e: ((String, i32), usize)| entry_view(e)) == es.subrange(0, j as int),
                self.capacity() == old(self).capacity(),
                self.spec_strategy() == old(self).spec_strategy(),
            decreases es.len() - j,
        {
            let ghost t = es.subrange(j as int, es.len() as int);
            match self.evict_lru() {
                Some(e) => {
                    let ghost ob = out@.map_values(|e: ((String, i32), usize)| entry_view(e));
                    proof {
                        assert(t[0] == es[j as int]);
                        assert(t.drop_first() =~= es.subrange(j + 1, es.len() as int));
                        assert(es.subrange(0, j + 1).drop_last() =~= es.subrange(0, j as int));
                        assert(es.subrange(0, j + 1).last() == es[j as int]);
                    }
                    u = if u > e.1 { u - e.1 } else { 0 };
                    out.push(e);
                    proof {
                        j = j + 1;
                    }
                    proof {
                        assert(out@.map_values(|e: ((String, i32), usize)| entry_view(e)) =~= ob.push(es[j - 1]));
                        assert(es.subrange(0, j as int) =~= es.subrange(0, j as int));
                    }
                },
                None => {
                    break;
                },
            }
        }
        (out, u)
    }

    /// Insert frame `frame` of comp `comp` of `size` bytes within a byte
    /// budget: the strategy's clearing (freeing those frames' sizes), then
    /// eviction of least recently used frames while `used` exceeds `limit`,
    /// then the push. Returns the frames that left (LRU order; a frame
    /// displaced by the push last, its size not freed) and the bytes used
    /// after adding `size` (saturating).
    pub fn insert_within_budget(&mut self, comp: &str, frame: i32, size: usize, used: usize, limit: usize) -> (r: (
        Vec<((String, i32), usize)>,
        usize,
    ))
        ensures
            ({
                let es0 = old(self).entries();
                let es1 = if old(self).spec_strategy() == CacheStrategy::LastOnly { others(es0, comp@) } else { es0 };
                let cleared = if old(self).spec_strategy() == CacheStrategy::LastOnly { of_comp(es0, comp@) } else { Seq::empty() };
                let u1 = freed(used as int, cleared);
                let k = evict_count(es1, u1, limit as int) as int;
                let u2 = freed(u1, es1.subrange(0, k));
                &&& final(self).entries() == push_spec(es1.subrange(k, es1.len() as int), old(self).capacity(), (comp@, frame), size)
                &&& r.0@.map_values(|e: ((String, i32), usize)| entry_view(e)) == cleared + es1.subrange(0, k) + push_displaced(
                    es1.subrange(k, es1.len() as int),
                    old(self).capacity(),
                    (comp@, frame),
                )
                &&& r.1 == (if u2 + size > usize::MAX { usize::MAX as int } else { u2 + size })
            }),
            final(self).capacity() == old(self).capacity(),
            final(self).spec_strategy() == old(self).spec_strategy(),
    {
        let cleared = self.prepare_insert(comp);
        let mut u = used;
        let mut i: usize = 0;
        let ghost cv = cleared@.map_values(|e: ((String, i32), usize)| entry_view(e));
        proof {
            assert(cv.subrange(0, 0) =~= Seq::<((Seq<char>, i32), usize)>::empty());
        }
        while i < cleared.len()
            invariant
                i <= cleared@.len(),
                cv == cleared@.map_values(|e: ((String, i32), usize)| entry_view(e)),
                u as int == freed(used as int, cv.subrange(0, i as int)),
            decreases cleared@.len() - i,
        {
            let sz = cleared[i].1;
            proof {
                assert(cv.subrange(0, i + 1).drop_last() =~= cv.subrange(0, i as int));
                assert(cv.subrange(0, i + 1).last().1 == sz);
            }
            u = if u > sz { u - sz } else { 0 };
            i = i + 1;
        }
        proof {
            assert(cv.subrange(0, i as int) =~= cv);
        }
        let (mut out, u2) = self.evict_to_budget(u, limit);
        let ghost ov = out@.map_values(|e: ((String, i32), usize)| entry_view(e));
        let mut all = cleared;
        all.append(&mut out);
        proof {
            assert(all@.map_values(|e: ((String, i32), usize)| entry_view(e)) =~= cv + ov);
        }
        let d = self.push_entry(comp, frame, size);
        let ghost av = all@.map_values(|e: ((String, i32), usize)| entry_view(e));
        match d {
            Some(e) => {
                all.push(e);
                proof {
                    assert(all@.map_values(|e: ((String, i32), usize)| entry_view(e)) =~= av.push(entry_view(e)));
                }
            },
            None => {
                proof {
                    assert(av =~= av + Seq::<((Seq<char>, i32), usize)>::empty());
                }
            },
        }
        let total = if u2 > usize::MAX - size { usize::MAX } else { u2 + size };
        (all, total)
    }
}

} // verus!
