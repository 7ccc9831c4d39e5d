//! Hybrid frequency/recency cache: decompressed column payloads keyed by
//! column name, split over a frequency-tracked pool and a recency-tracked
//! pool under one capacity budget. Eviction is driven by explicit per-key
//! access records (count and last-access tick), never by a container's own
//! ejection order, and removing a key always removes its record.

use vstd::prelude::*;

verus! {

/// Promotion threshold: a key accessed more than this many times is placed
/// in the frequency pool on its next insert.
pub const PROMOTION_THRESHOLD: u64 = 5;

/// One resident payload.
pub struct CacheEntry {
    pub key: String,
    pub data: Vec<u8>,
}

/// Access record of one key: how often it was touched and when last.
pub struct AccessStat {
    pub key: String,
    pub count: u64,
    pub last: u64,
}

/// The cache: two pools of resident entries, the access records, the total
/// capacity and a logical clock that orders accesses.
pub struct HybridCache {
    pub freq: Vec<CacheEntry>,
    pub rec: Vec<CacheEntry>,
    pub stats: Vec<AccessStat>,
    pub size: usize,
    pub clock: u64,
}

/// A counter advanced by one, held at its ceiling.
pub open spec fn bumped(c: u64) -> u64 {
    if c == u64::MAX {
        u64::MAX
    } else {
        (c + 1) as u64
    }
}

fn bump(c: u64) -> (r: u64)
    ensures
        r == bumped(c),
{
    if c == u64::MAX {
        c
    } else {
        c + 1
    }
}

pub open spec fn pool_has(p: Seq<CacheEntry>, k: Seq<char>) -> bool {
    exists|i: int| 0 <= i < p.len() && (#[trigger] p[i].key@) == k
}

pub open spec fn pool_idx(p: Seq<CacheEntry>, k: Seq<char>) -> int {
    choose|i: int| 0 <= i < p.len() && (#[trigger] p[i].key@) == k
}

pub open spec fn pool_val(p: Seq<CacheEntry>, k: Seq<char>) -> Seq<u8> {
    p[pool_idx(p, k)].data@
}

pub open spec fn distinct_keys(p: Seq<CacheEntry>) -> bool {
    forall|i: int, j: int|
        0 <= i < j < p.len() ==> (#[trigger] p[i].key@) != (#[trigger] p[j].key@)
}

pub open spec fn stat_has(s: Seq<AccessStat>, k: Seq<char>) -> bool {
    exists|i: int| 0 <= i < s.len() && (#[trigger] s[i].key@) == k
}

pub open spec fn stat_idx(s: Seq<AccessStat>, k: Seq<char>) -> int {
    choose|i: int| 0 <= i < s.len() && (#[trigger] s[i].key@) == k
}

pub open spec fn distinct_stat_keys(s: Seq<AccessStat>) -> bool {
    forall|i: int, j: int|
        0 <= i < j < s.len() ==> (#[trigger] s[i].key@) != (#[trigger] s[j].key@)
}

/// In a pool of distinct keys, any index holding `k` is the index
/// `pool_idx` picks.
proof fn lemma_pool_idx_unique(p: Seq<CacheEntry>, i: int)
    requires
        distinct_keys(p),
        0 <= i < p.len(),
    ensures
        pool_idx(p, p[i].key@) == i,
        pool_has(p, p[i].key@),
{
    assert(pool_has(p, p[i].key@));
    let j = pool_idx(p, p[i].key@);
    assert(0 <= j < p.len() && p[j].key@ == p[i].key@);
    if i < j {
        assert(p[i].key@ != p[j].key@);
    } else if j < i {
        assert(p[j].key@ != p[i].key@);
    }
}

/// Same for the access records.
proof fn lemma_stat_idx_unique(s: Seq<AccessStat>, i: int)
    requires
        distinct_stat_keys(s),
        0 <= i < s.len(),
    ensures
        stat_idx(s, s[i].key@) == i,
        stat_has(s, s[i].key@),
{
    assert(stat_has(s, s[i].key@));
    let j = stat_idx(s, s[i].key@);
    assert(0 <= j < s.len() && s[j].key@ == s[i].key@);
    if i < j {
        assert(s[i].key@ != s[j].key@);
    } else if j < i {
        assert(s[j].key@ != s[i].key@);
    }
}

/// Removing entry `i` keeps every other key resident with its payload.
proof fn lemma_pool_remove(p: Seq<CacheEntry>, i: int)
    requires
        distinct_keys(p),
        0 <= i < p.len(),
    ensures
        distinct_keys(p.remove(i)),
        !pool_has(p.remove(i), p[i].key@),
        forall|k: Seq<char>|
            k != p[i].key@ ==> #[trigger] pool_has(p.remove(i), k) == pool_has(p, k),
        forall|k: Seq<char>|
            k != p[i].key@ && pool_has(p, k) ==> #[trigger] pool_val(p.remove(i), k) == pool_val(
                p,
                k,
            ),
{
    let q = p.remove(i);
    assert forall|k: Seq<char>| k != p[i].key@ implies #[trigger] pool_has(q, k) == pool_has(
        p,
        k,
    ) by {
        if pool_has(p, k) {
            let w = pool_idx(p, k);
            if w < i {
                assert(q[w].key@ == k);
            } else {
                assert(p[w].key@ == k && w != i);
                assert(q[w - 1].key@ == k);
            }
        }
        if pool_has(q, k) {
            let w = pool_idx(q, k);
            if w < i {
                assert(p[w].key@ == k);
            } else {
                assert(p[w + 1].key@ == k);
            }
        }
    }
    assert forall|k: Seq<char>| k != p[i].key@ && pool_has(p, k) implies #[trigger] pool_val(
        q,
        k,
    ) == pool_val(p, k) by {
        let w = pool_idx(p, k);
        lemma_pool_idx_unique(p, w);
        if w < i {
            assert(q[w].key@ == k);
            lemma_pool_idx_unique(q, w);
        } else {
            assert(w != i);
            assert(q[w - 1].key@ == k);
            lemma_pool_idx_unique(q, w - 1);
        }
    }
    if pool_has(q, p[i].key@) {
        let w = pool_idx(q, p[i].key@);
        if w < i {
            assert(p[w].key@ == p[i].key@);
        } else {
            assert(p[w + 1].key@ == p[i].key@);
        }
    }
}

/// Removing record `i` keeps every other key's record intact.
proof fn lemma_stat_remove(s: Seq<AccessStat>, i: int)
    requires
        distinct_stat_keys(s),
        0 <= i < s.len(),
    ensures
        distinct_stat_keys(s.remove(i)),
        !stat_has(s.remove(i), s[i].key@),
        forall|k: Seq<char>|
            k != s[i].key@ ==> #[trigger] stat_has(s.remove(i), k) == stat_has(s, k),
        forall|k: Seq<char>|
            k != s[i].key@ && stat_has(s, k) ==> s.remove(i)[#[trigger] stat_idx(s.remove(i), k)]
                == s[stat_idx(s, k)],
{
    let q = s.remove(i);
    assert forall|k: Seq<char>| k != s[i].key@ implies #[trigger] stat_has(q, k) == stat_has(
        s,
        k,
    ) by {
        if stat_has(s, k) {
            let w = stat_idx(s, k);
            if w < i {
                assert(q[w].key@ == k);
            } else {
                assert(s[w].key@ == k && w != i);
                assert(q[w - 1].key@ == k);
            }
        }
        if stat_has(q, k) {
            let w = stat_idx(q, k);
            if w < i {
                assert(s[w].key@ == k);
            } else {
                assert(s[w + 1].key@ == k);
            }
        }
    }
    assert forall|k: Seq<char>| k != s[i].key@ && stat_has(s, k) implies q[#[trigger] stat_idx(
        q,
        k,
    )] == s[stat_idx(s, k)] by {
        let w = stat_idx(s, k);
        lemma_stat_idx_unique(s, w);
        if w < i {
            assert(q[w].key@ == k);
            lemma_stat_idx_unique(q, w);
        } else {
            assert(w != i);
            assert(q[w - 1].key@ == k);
            lemma_stat_idx_unique(q, w - 1);
        }
    }
    if stat_has(q, s[i].key@) {
        let w = stat_idx(q, s[i].key@);
        if w < i {
            assert(s[w].key@ == s[i].key@);
        } else {
            assert(s[w + 1].key@ == s[i].key@);
        }
    }
}

/// First index in a pool holding `key`, if any.
fn find_entry(p: &Vec<CacheEntry>, key: &String) -> (r: Option<usize>)
    ensures
        match r {
            Some(i) => i < p@.len() && p@[i as int].key@ == key@,
            None => !pool_has(p@, key@),
        },
{
    let mut i: usize = 0;
    while i < p.len()
        invariant
            0 <= i <= p@.len(),
            forall|j: int| 0 <= j < i ==> (#[trigger] p@[j].key@) != key@,
        decreases p@.len() - i,
    {
        if p[i].key == *key {
            return Some(i);
        }
        i += 1;
    }
    None
}

/// First index in the records holding `key`, if any.
fn find_stat(s: &Vec<AccessStat>, key: &String) -> (r: Option<usize>)
    ensures
        match r {
            Some(i) => i < s@.len() && s@[i as int].key@ == key@,
            None => !stat_has(s@, key@),
        },
{
    let mut i: usize = 0;
    while i < s.len()
        invariant
            0 <= i <= s@.len(),
            forall|j: int| 0 <= j < i ==> (#[trigger] s@[j].key@) != key@,
        decreases s@.len() - i,
    {
        if s[i].key == *key {
            return Some(i);
        }
        i += 1;
    }
    None
}

impl HybridCache {
    /// A key is resident when it sits in either pool.
    pub open spec fn resident(self, k: Seq<char>) -> bool {
        pool_has(self.freq@, k) || pool_has(self.rec@, k)
    }

    /// The payload a resident key maps to.
    pub open spec fn value_of(self, k: Seq<char>) -> Seq<u8> {
        if pool_has(self.freq@, k) {
            pool_val(self.freq@, k)
        } else {
            pool_val(self.rec@, k)
        }
    }

    /// How many keys are resident over both pools.
    pub open spec fn resident_count(self) -> int {
        self.freq@.len() + self.rec@.len() as int
    }

    /// The configured capacity budget.
    pub open spec fn capacity(self) -> int {
        self.size as int
    }

    /// Recorded access count of a key; zero when the key is unknown.
    pub open spec fn count_of(self, k: Seq<char>) -> u64 {
        if stat_has(self.stats@, k) {
            self.stats@[stat_idx(self.stats@, k)].count
        } else {
            0
        }
    }

    /// Recorded last-access tick of a key; zero when the key is unknown.
    pub open spec fn last_of(self, k: Seq<char>) -> u64 {
        if stat_has(self.stats@, k) {
            self.stats@[stat_idx(self.stats@, k)].last
        } else {
            0
        }
    }

    /// Everything the cache maintains across operations: keys unique in
    /// each pool, no key in both pools, residency within capacity, a record
    /// for every resident key, frequency-pool keys past the promotion
    /// threshold, and record ticks not ahead of the clock.
    pub open spec fn inv(self) -> bool {
        self.inv_but_capacity() && self.resident_count() <= self.capacity()
    }

    /// The invariant minus the capacity bound, which one insert may exceed
    /// by one entry until the cache is rebalanced.
    pub open spec fn inv_but_capacity(self) -> bool {
        &&& self.size >= 2
        &&& distinct_keys(self.freq@)
        &&& distinct_keys(self.rec@)
        &&& forall|i: int, j: int|
            0 <= i < self.freq@.len() && 0 <= j < self.rec@.len() ==> (
            #[trigger] self.freq@[i].key@) != (#[trigger] self.rec@[j].key@)
        &&& distinct_stat_keys(self.stats@)
        &&& forall|i: int|
            0 <= i < self.freq@.len() ==> stat_has(self.stats@, #[trigger] self.freq@[i].key@)
        &&& forall|i: int|
            0 <= i < self.freq@.len() ==> self.count_of(#[trigger] self.freq@[i].key@)
                > PROMOTION_THRESHOLD
        &&& forall|i: int|
            0 <= i < self.rec@.len() ==> stat_has(self.stats@, #[trigger] self.rec@[i].key@)
        &&& forall|i: int|
            0 <= i < self.stats@.len() ==> (#[trigger] self.stats@[i].last) <= self.clock
    }

    /// Makes an empty cache with the given capacity budget; capacities
    /// under 2 would leave a pool with no share and are ruled out.
    pub fn new(size: usize) -> (c: HybridCache)
        requires
            size >= 2,
        ensures
            c.inv(),
            c.capacity() == size,
            c.resident_count() == 0,
            forall|k: Seq<char>| !(#[trigger] c.resident(k)),
            forall|k: Seq<char>| #[trigger] c.count_of(k) == 0,
    {
        HybridCache { freq: Vec::new(), rec: Vec::new(), stats: Vec::new(), size, clock: 0 }
    }

    /// Advances the clock and refreshes `key`'s access record, creating it
    /// if the key is unknown.
    fn touch(&mut self, key: &String)
        requires
            old(self).inv_but_capacity(),
        ensures
            final(self).inv_but_capacity(),
            final(self).freq == old(self).freq,
            final(self).rec == old(self).rec,
            final(self).size == old(self).size,
            final(self).clock == bumped(old(self).clock),
            stat_has(final(self).stats@, key@),
            final(self).count_of(key@) == bumped(old(self).count_of(key@)),
            final(self).last_of(key@) == final(self).clock,
            forall|k: Seq<char>|
                k != key@ ==> #[trigger] stat_has(final(self).stats@, k) == stat_has(
                    old(self).stats@,
                    k,
                ),
            forall|k: Seq<char>|
                k != key@ ==> #[trigger] final(self).count_of(k) == old(self).count_of(k),
            forall|k: Seq<char>|
                k != key@ ==> #[trigger] final(self).last_of(k) == old(self).last_of(k),
    {
        let now = bump(self.clock);
        self.clock = now;
        let ghost olds = self.stats@;
        match find_stat(&self.stats, key) {
            Some(i) => {
                proof {
                    lemma_stat_idx_unique(olds, i as int);
                    lemma_stat_remove(olds, i as int);
                }
                let st = self.stats.remove(i);
                let newc = bump(st.count);
                let ghost mids = self.stats@;
                self.stats.push(AccessStat { key: st.key, count: newc, last: now });
                proof {
                    let news = self.stats@;
                    assert(news == mids.push(news[news.len() - 1]));
                    assert(news[news.len() - 1].key@ == key@);
                    assert forall|k: Seq<char>| k != key@ implies #[trigger] stat_has(news, k)
                        == stat_has(olds, k) by {
                        if stat_has(mids, k) {
                            let w = stat_idx(mids, k);
                            assert(news[w].key@ == k);
                        }
                        if stat_has(news, k) {
                            let w = stat_idx(news, k);
                            assert(w < news.len() - 1 ==> mids[w].key@ == k);
                        }
                    }
                    assert(distinct_stat_keys(news)) by {
                        assert forall|a: int, b: int| 0 <= a < b < news.len() implies (
                        #[trigger] news[a].key@) != (#[trigger] news[b].key@) by {
                            if b < news.len() - 1 {
                                assert(news[a] == mids[a] && news[b] == mids[b]);
                            } else {
                                assert(news[a] == mids[a]);
                                assert(!stat_has(mids, key@));
                            }
                        }
                    }
                    lemma_stat_idx_unique(news, news.len() - 1);
                    assert forall|k: Seq<char>| k != key@ && stat_has(news, k) implies news[
                    #[trigger] stat_idx(news, k)] == olds[stat_idx(olds, k)] by {
                        let w = stat_idx(news, k);
                        assert(news[w].key@ == k);
                        assert(w != news.len() - 1);
                        assert(mids[w].key@ == k);
                        lemma_stat_idx_unique(mids, w);
                        assert(news[w] == mids[w]);
                    }
                }
            },
            None => {
                let ghost mids = self.stats@;
                self.stats.push(AccessStat { key: key.clone(), count: 1, last: now });
                proof {
                    let news = self.stats@;
                    assert(news[news.len() - 1].key@ == key@);
                    assert forall|k: Seq<char>| k != key@ implies #[trigger] stat_has(news, k)
                        == stat_has(olds, k) by {
                        if stat_has(olds, k) {
                            let w = stat_idx(olds, k);
                            assert(news[w].key@ == k);
                        }
                        if stat_has(news, k) {
                            let w = stat_idx(news, k);
                            assert(w < news.len() - 1 ==> olds[w].key@ == k);
                        }
                    }
                    assert(distinct_stat_keys(news)) by {
                        assert forall|a: int, b: int| 0 <= a < b < news.len() implies (
                        #[trigger] news[a].key@) != (#[trigger] news[b].key@) by {
                            if b < news.len() - 1 {
                                assert(news[a] == olds[a] && news[b] == olds[b]);
                            } else {
                                assert(news[a] == olds[a]);
                            }
                        }
                    }
                    lemma_stat_idx_unique(news, news.len() - 1);
                    assert forall|k: Seq<char>| k != key@ && stat_has(news, k) implies news[
                    #[trigger] stat_idx(news, k)] == olds[stat_idx(olds, k)] by {
                        let w = stat_idx(news, k);
                        assert(news[w].key@ == k);
                        assert(w != news.len() - 1);
                        lemma_stat_idx_unique(olds, w);
                    }
                }
            },
        }
    }
    /// Records an access for `key` (even when absent) and returns the
    /// payload if the key is resident in either pool. The pools themselves
    /// are untouched; only the access record and the clock move.
    pub fn get(&mut self, key: &str) -> (r: Option<Vec<u8>>)
        requires
            old(self).inv(),
        ensures
            final(self).inv(),
            final(self).freq == old(self).freq,
            final(self).rec == old(self).rec,
            final(self).size == old(self).size,
            final(self).count_of(key@) == bumped(old(self).count_of(key@)),
            final(self).last_of(key@) == final(self).clock,
            forall|k: Seq<char>|
                k != key@ ==> #[trigger] final(self).count_of(k) == old(self).count_of(k)
                    && final(self).last_of(k) == old(self).last_of(k),
            match r {
                Some(v) => old(self).resident(key@) && v@ == old(self).value_of(key@),
                None => !old(self).resident(key@),
            },
    {
        let key_str = key.to_owned();
        self.touch(&key_str);
        match find_entry(&self.freq, &key_str) {
            Some(i) => {
                proof {
                    lemma_pool_idx_unique(self.freq@, i as int);
                }
                Some(clone_bytes(&self.freq[i].data))
            },
            None => match find_entry(&self.rec, &key_str) {
                Some(i) => {
                    proof {
                        lemma_pool_idx_unique(self.rec@, i as int);
                    }
                    Some(clone_bytes(&self.rec[i].data))
                },
                None => None,
            },
        }
    }
}

/// Strict lexicographic order on (access count, last-access tick) pairs:
/// fewer accesses first, then older access.
pub open spec fn lex_lt(c1: u64, l1: u64, c2: u64, l2: u64) -> bool {
    c1 < c2 || (c1 == c2 && l1 < l2)
}

/// Reflexive closure of `lex_lt`.
pub open spec fn lex_le(c1: u64, l1: u64, c2: u64, l2: u64) -> bool {
    c1 < c2 || (c1 == c2 && l1 <= l2)
}

impl HybridCache {
    /// Key of the frequency-pool entry at index `i`.
    pub open spec fn fkey(self, i: int) -> Seq<char> {
        self.freq@[i].key@
    }

    /// Access count of the frequency-pool entry at index `i`.
    pub open spec fn fcount(self, i: int) -> u64 {
        self.count_of(self.fkey(i))
    }

    /// Last-access tick of the frequency-pool entry at index `i`.
    pub open spec fn flast(self, i: int) -> u64 {
        self.last_of(self.fkey(i))
    }

    /// Key of the recency-pool entry at index `i`.
    pub open spec fn rkey(self, i: int) -> Seq<char> {
        self.rec@[i].key@
    }

    /// Last-access tick of the recency-pool entry at index `i`.
    pub open spec fn rlast(self, i: int) -> u64 {
        self.last_of(self.rkey(i))
    }

    /// `i` is the frequency-pool entry the policy evicts: the least
    /// (count, last) pair, earliest index on ties.
    pub open spec fn freq_victim_at(self, i: int) -> bool {
        &&& 0 <= i < self.freq@.len()
        &&& forall|j: int|
            0 <= j < self.freq@.len() ==> lex_le(
                self.fcount(i),
                self.flast(i),
                #[trigger] self.fcount(j),
                self.flast(j),
            )
        &&& forall|j: int|
            0 <= j < i ==> lex_lt(
                self.fcount(i),
                self.flast(i),
                #[trigger] self.fcount(j),
                self.flast(j),
            )
    }

    /// `i` is the recency-pool entry the policy evicts: the oldest access,
    /// earliest index on ties.
    pub open spec fn rec_victim_at(self, i: int) -> bool {
        &&& 0 <= i < self.rec@.len()
        &&& forall|j: int| 0 <= j < self.rec@.len() ==> self.rlast(i) <= #[trigger] self.rlast(j)
        &&& forall|j: int| 0 <= j < i ==> self.rlast(i) < #[trigger] self.rlast(j)
    }

    /// Looks up the access record of `key`, which must exist.
    fn stat_pair(&self, key: &String) -> (r: (u64, u64))
        requires
            distinct_stat_keys(self.stats@),
            stat_has(self.stats@, key@),
        ensures
            r.0 == self.count_of(key@),
            r.1 == self.last_of(key@),
    {
        match find_stat(&self.stats, key) {
            Some(i) => {
                proof {
                    lemma_stat_idx_unique(self.stats@, i as int);
                }
                (self.stats[i].count, self.stats[i].last)
            },
            None => {
                proof {
                    assert(false);
                }
                (0, 0)
            },
        }
    }

    /// Scans the frequency pool for the least-valued entry.
    fn freq_victim(&self) -> (r: usize)
        requires
            self.inv_but_capacity(),
            self.freq@.len() >= 1,
        ensures
            self.freq_victim_at(r as int),
    {
        let mut best: usize = 0;
        let p0 = self.stat_pair(&self.freq[0].key);
        let mut bc = p0.0;
        let mut bl = p0.1;
        let mut i: usize = 1;
        while i < self.freq.len()
            invariant
                self.inv_but_capacity(),
                1 <= i <= self.freq@.len(),
                0 <= best < i,
                bc == self.fcount(best as int),
                bl == self.flast(best as int),
                forall|j: int|
                    0 <= j < i ==> lex_le(bc, bl, #[trigger] self.fcount(j), self.flast(j)),
                forall|j: int|
                    0 <= j < best ==> lex_lt(bc, bl, #[trigger] self.fcount(j), self.flast(j)),
            decreases self.freq@.len() - i,
        {
            let p = self.stat_pair(&self.freq[i].key);
            if p.0 < bc || (p.0 == bc && p.1 < bl) {
                best = i;
                bc = p.0;
                bl = p.1;
            }
            i += 1;
        }
        best
    }

    /// Scans the recency pool for the least-recently-used entry.
    fn rec_victim(&self) -> (r: usize)
        requires
            self.inv_but_capacity(),
            self.rec@.len() >= 1,
        ensures
            self.rec_victim_at(r as int),
    {
        let mut best: usize = 0;
        let p0 = self.stat_pair(&self.rec[0].key);
        let mut bl = p0.1;
        let mut i: usize = 1;
        while i < self.rec.len()
            invariant
                self.inv_but_capacity(),
                1 <= i <= self.rec@.len(),
                0 <= best < i,
                bl == self.rlast(best as int),
                forall|j: int| 0 <= j < i ==> bl <= #[trigger] self.rlast(j),
                forall|j: int| 0 <= j < best ==> bl < #[trigger] self.rlast(j),
            decreases self.rec@.len() - i,
        {
            let p = self.stat_pair(&self.rec[i].key);
            if p.1 < bl {
                best = i;
                bl = p.1;
            }
            i += 1;
        }
        best
    }
}

impl HybridCache {
    /// Brings residency back within the capacity budget after one insert:
    /// if the total is over budget, evict from the frequency pool when it
    /// exceeds its half-share (least (count, last) entry first), otherwise
    /// from the recency pool (least-recently-used entry first), and drop
    /// the evicted key's access record with it.
    fn rebalance(&mut self)
        requires
            old(self).inv_but_capacity(),
            old(self).resident_count() <= old(self).capacity() + 1,
        ensures
            final(self).inv(),
            old(self).resident_count() <= old(self).capacity() ==> *final(self) == *old(self),
            old(self).resident_count() > old(self).capacity() ==> {
                &&& final(self).size == old(self).size
                &&& final(self).clock == old(self).clock
                &&& final(self).resident_count() == old(self).resident_count() - 1
                &&& forall|k: Seq<char>|
                    #[trigger] pool_has(final(self).freq@, k) ==> pool_has(old(self).freq@, k)
                        && pool_val(final(self).freq@, k) == pool_val(old(self).freq@, k)
                &&& forall|k: Seq<char>|
                    #[trigger] pool_has(final(self).rec@, k) ==> pool_has(old(self).rec@, k)
                        && pool_val(final(self).rec@, k) == pool_val(old(self).rec@, k)
                &&& forall|k: Seq<char>|
                    #[trigger] stat_has(final(self).stats@, k) ==> stat_has(old(self).stats@, k)
                        && final(self).count_of(k) == old(self).count_of(k)
                        && final(self).last_of(k) == old(self).last_of(k)
                &&& old(self).freq@.len() > old(self).capacity() / 2 ==> {
                    &&& final(self).rec == old(self).rec
                    &&& forall|k: Seq<char>|
                        #[trigger] pool_has(old(self).freq@, k) && (exists|k2: Seq<char>|
                            k2 != k && #[trigger] pool_has(old(self).freq@, k2) && lex_lt(
                                old(self).count_of(k2),
                                old(self).last_of(k2),
                                old(self).count_of(k),
                                old(self).last_of(k),
                            )) ==> pool_has(final(self).freq@, k)
                }
                &&& old(self).freq@.len() <= old(self).capacity() / 2 ==> {
                    &&& final(self).freq == old(self).freq
                    &&& forall|k: Seq<char>|
                        #[trigger] pool_has(old(self).rec@, k) && pool_idx(old(self).rec@, k) + 1
                            == old(self).rec@.len() && old(self).rec@.len() >= 2
                            && old(self).last_of(k) == old(self).clock ==> pool_has(
                            final(self).rec@,
                            k,
                        )
                }
            },
    {
        let over = self.rec.len() > self.size || self.freq.len() > self.size - self.rec.len();
        if !over {
            return ;
        }
        let ghost pre = *self;
        if self.freq.len() > self.size / 2 {
            let vi = self.freq_victim();
            proof {
                lemma_pool_idx_unique(pre.freq@, vi as int);
                lemma_pool_remove(pre.freq@, vi as int);
            }
            let entry = self.freq.remove(vi);
            match find_stat(&self.stats, &entry.key) {
                Some(si) => {
                    proof {
                        lemma_stat_idx_unique(pre.stats@, si as int);
                        lemma_stat_remove(pre.stats@, si as int);
                    }
                    let _ = self.stats.remove(si);
                    proof {
                        assert forall|k: Seq<char>| #[trigger] pool_has(pre.freq@, k) && (
                        exists|k2: Seq<char>|
                            k2 != k && #[trigger] pool_has(pre.freq@, k2) && lex_lt(
                                pre.count_of(k2),
                                pre.last_of(k2),
                                pre.count_of(k),
                                pre.last_of(k),
                            )) implies pool_has(self.freq@, k) by {
                            if k == pre.fkey(vi as int) {
                                let k2 = choose|k2: Seq<char>|
                                    k2 != k && #[trigger] pool_has(pre.freq@, k2) && lex_lt(
                                        pre.count_of(k2),
                                        pre.last_of(k2),
                                        pre.count_of(k),
                                        pre.last_of(k),
                                    );
                                let j2 = pool_idx(pre.freq@, k2);
                                assert(pre.fkey(j2) == k2);
                                assert(lex_le(
                                    pre.fcount(vi as int),
                                    pre.flast(vi as int),
                                    pre.fcount(j2),
                                    pre.flast(j2),
                                ));
                                assert(false);
                            }
                        }
                        assert forall|i: int| 0 <= i < self.freq@.len() implies stat_has(
                            self.stats@,
                            #[trigger] self.freq@[i].key@,
                        ) && self.count_of(self.freq@[i].key@) > PROMOTION_THRESHOLD by {
                            assert(self.freq@[i] == pre.freq@.remove(vi as int)[i]);
                            assert(pool_has(self.freq@, self.freq@[i].key@)) by {
                                lemma_pool_idx_unique(self.freq@, i);
                            }
                            assert(self.freq@[i].key@ != pre.fkey(vi as int));
                        }
                        assert forall|i: int| 0 <= i < self.rec@.len() implies stat_has(
                            self.stats@,
                            #[trigger] self.rec@[i].key@,
                        ) by {
                            assert(self.rec@[i].key@ != pre.fkey(vi as int));
                        }
                    }
                },
                None => {
                    proof {
                        assert(false);
                    }
                },
            }
        } else {
            proof {
                assert(self.rec@.len() >= 1);
            }
            let vi = self.rec_victim();
            proof {
                lemma_pool_idx_unique(pre.rec@, vi as int);
                lemma_pool_remove(pre.rec@, vi as int);
            }
            let entry = self.rec.remove(vi);
            match find_stat(&self.stats, &entry.key) {
                Some(si) => {
                    proof {
                        lemma_stat_idx_unique(pre.stats@, si as int);
                        lemma_stat_remove(pre.stats@, si as int);
                    }
                    let _ = self.stats.remove(si);
                    proof {
                        assert forall|k: Seq<char>| #[trigger] pool_has(pre.rec@, k) && pool_idx(
                            pre.rec@,
                            k,
                        ) + 1 == pre.rec@.len() && pre.rec@.len() >= 2 && pre.last_of(k)
                            == pre.clock implies pool_has(self.rec@, k) by {
                            if k == pre.rkey(vi as int) {
                                assert(pool_idx(pre.rec@, k) == vi as int);
                                assert(vi as int == pre.rec@.len() - 1);
                                assert(pre.rlast(0) < pre.rlast(vi as int));
                                assert(stat_has(pre.stats@, pre.rkey(0)));
                                assert(pre.stats@[stat_idx(pre.stats@, pre.rkey(0))].last
                                    <= pre.clock);
                                assert(false);
                            }
                        }
                        assert forall|i: int| 0 <= i < self.rec@.len() implies stat_has(
                            self.stats@,
                            #[trigger] self.rec@[i].key@,
                        ) by {
                            assert(self.rec@[i] == pre.rec@.remove(vi as int)[i]);
                            assert(pool_has(self.rec@, self.rec@[i].key@)) by {
                                lemma_pool_idx_unique(self.rec@, i);
                            }
                            assert(self.rec@[i].key@ != pre.rkey(vi as int));
                        }
                        assert forall|i: int| 0 <= i < self.freq@.len() implies stat_has(
                            self.stats@,
                            #[trigger] self.freq@[i].key@,
                        ) && self.count_of(self.freq@[i].key@) > PROMOTION_THRESHOLD by {
                            assert(self.freq@[i].key@ != pre.rkey(vi as int));
                        }
                    }
                },
                None => {
                    proof {
                        assert(false);
                    }
                },
            }
        }
    }
}

/// Appending an entry with a fresh key adds exactly that mapping.
proof fn lemma_pool_push(p: Seq<CacheEntry>, e: CacheEntry)
    requires
        distinct_keys(p),
        !pool_has(p, e.key@),
    ensures
        distinct_keys(p.push(e)),
        pool_has(p.push(e), e.key@),
        pool_idx(p.push(e), e.key@) == p.len() as int,
        pool_val(p.push(e), e.key@) == e.data@,
        forall|k: Seq<char>| k != e.key@ ==> #[trigger] pool_has(p.push(e), k) == pool_has(p, k),
        forall|k: Seq<char>|
            k != e.key@ && pool_has(p, k) ==> #[trigger] pool_val(p.push(e), k) == pool_val(p, k),
{
    let q = p.push(e);
    assert(q[q.len() - 1].key@ == e.key@);
    assert forall|a: int, b: int| 0 <= a < b < q.len() implies (#[trigger] q[a].key@) != (
    #[trigger] q[b].key@) by {
        if b < q.len() - 1 {
            assert(q[a] == p[a] && q[b] == p[b]);
        } else {
            assert(q[a] == p[a]);
            if q[a].key@ == e.key@ {
                assert(pool_has(p, e.key@));
            }
        }
    }
    lemma_pool_idx_unique(q, q.len() - 1);
    assert forall|k: Seq<char>| k != e.key@ implies #[trigger] pool_has(q, k) == pool_has(
        p,
        k,
    ) by {
        if pool_has(p, k) {
            let w = pool_idx(p, k);
            assert(q[w].key@ == k);
        }
        if pool_has(q, k) {
            let w = pool_idx(q, k);
            assert(w != q.len() - 1);
            assert(p[w].key@ == k);
        }
    }
    assert forall|k: Seq<char>| k != e.key@ && pool_has(p, k) implies #[trigger] pool_val(q, k)
        == pool_val(p, k) by {
        let w = pool_idx(p, k);
        lemma_pool_idx_unique(p, w);
        assert(q[w].key@ == k);
        lemma_pool_idx_unique(q, w);
    }
}

impl HybridCache {
    /// Records an access for `key`, places the payload in the frequency
    /// pool when the key's access count has passed the promotion threshold
    /// and in the recency pool otherwise, then rebalances back to within
    /// the capacity budget.
    pub fn insert(&mut self, key: String, value: Vec<u8>)
        requires
            old(self).inv(),
        ensures
            final(self).inv(),
            final(self).capacity() == old(self).capacity(),
            final(self).resident_count() <= final(self).capacity(),
            forall|k: Seq<char>|
                !(#[trigger] pool_has(final(self).freq@, k) && pool_has(final(self).rec@, k)),
            stat_has(final(self).stats@, key@) ==> final(self).count_of(key@) == bumped(
                old(self).count_of(key@),
            ) && final(self).last_of(key@) == final(self).clock,
            bumped(old(self).count_of(key@)) > PROMOTION_THRESHOLD ==> !pool_has(
                final(self).rec@,
                key@,
            ),
            bumped(old(self).count_of(key@)) <= PROMOTION_THRESHOLD ==> !pool_has(
                final(self).freq@,
                key@,
            ) && pool_has(final(self).rec@, key@) && pool_val(final(self).rec@, key@) == value@,
            bumped(old(self).count_of(key@)) > PROMOTION_THRESHOLD && (old(self).resident(key@)
                || old(self).resident_count() < old(self).capacity()) ==> pool_has(
                final(self).freq@,
                key@,
            ) && pool_val(final(self).freq@, key@) == value@,
            forall|k: Seq<char>|
                k != key@ && #[trigger] final(self).resident(k) ==> old(self).resident(k)
                    && final(self).value_of(k) == old(self).value_of(k),
            forall|k: Seq<char>|
                k != key@ && #[trigger] stat_has(final(self).stats@, k) ==> stat_has(
                    old(self).stats@,
                    k,
                ) && final(self).count_of(k) == old(self).count_of(k) && final(self).last_of(k)
                    == old(self).last_of(k),
            forall|k: Seq<char>|
                k != key@ && #[trigger] pool_has(old(self).freq@, k) && (exists|k2: Seq<char>|
                    k2 != k && k2 != key@ && #[trigger] pool_has(old(self).freq@, k2) && lex_lt(
                        old(self).count_of(k2),
                        old(self).last_of(k2),
                        old(self).count_of(k),
                        old(self).last_of(k),
                    )) ==> pool_has(final(self).freq@, k),
    {
        let ghost o = *old(self);
        let ghost kk = key@;
        let ghost vv = value@;
        self.touch(&key);
        let ghost m = *self;
        let cnt = self.stat_pair(&key).0;
        if cnt > PROMOTION_THRESHOLD {
            match find_entry(&self.rec, &key) {
                Some(i) => {
                    proof {
                        lemma_pool_idx_unique(self.rec@, i as int);
                        lemma_pool_remove(self.rec@, i as int);
                    }
                    let _ = self.rec.remove(i);
                },
                None => {},
            }
            match find_entry(&self.freq, &key) {
                Some(i) => {
                    proof {
                        lemma_pool_idx_unique(self.freq@, i as int);
                        lemma_pool_remove(self.freq@, i as int);
                    }
                    let _ = self.freq.remove(i);
                },
                None => {},
            }
            let ghost pp = *self;
            self.freq.push(CacheEntry { key, data: value });
            proof {
                assert(self.freq@ == pp.freq@.push(self.freq@[pp.freq@.len() as int]));
                lemma_pool_push(pp.freq@, self.freq@[pp.freq@.len() as int]);
                assert(pool_has(self.freq@, kk) && pool_val(self.freq@, kk) == vv);
                assert(!pool_has(self.rec@, kk));
                assert forall|i: int, j: int|
                    0 <= i < self.freq@.len() && 0 <= j < self.rec@.len() implies (
                #[trigger] self.freq@[i].key@) != (#[trigger] self.rec@[j].key@) by {
                    lemma_pool_idx_unique(self.freq@, i);
                    lemma_pool_idx_unique(self.rec@, j);
                    let kf = self.freq@[i].key@;
                    let kr = self.rec@[j].key@;
                    if kf == kr {
                        assert(kf != kk);
                        assert(pool_has(m.freq@, kf));
                        assert(pool_has(m.rec@, kr));
                        let a = pool_idx(m.freq@, kf);
                        let b = pool_idx(m.rec@, kr);
                        assert(m.freq@[a].key@ == m.rec@[b].key@);
                        assert(false);
                    }
                }
                assert forall|i: int| 0 <= i < self.freq@.len() implies stat_has(
                    self.stats@,
                    #[trigger] self.freq@[i].key@,
                ) && self.count_of(self.freq@[i].key@) > PROMOTION_THRESHOLD by {
                    lemma_pool_idx_unique(self.freq@, i);
                    let kf = self.freq@[i].key@;
                    if kf != kk {
                        assert(pool_has(m.freq@, kf));
                        let a = pool_idx(m.freq@, kf);
                        assert(m.freq@[a].key@ == kf);
                    }
                }
                assert forall|i: int| 0 <= i < self.rec@.len() implies stat_has(
                    self.stats@,
                    #[trigger] self.rec@[i].key@,
                ) by {
                    lemma_pool_idx_unique(self.rec@, i);
                    let kr = self.rec@[i].key@;
                    assert(pool_has(m.rec@, kr));
                    let b = pool_idx(m.rec@, kr);
                    assert(m.rec@[b].key@ == kr);
                }
                assert(o.resident(kk) ==> self.resident_count() == o.resident_count());
                assert(!o.resident(kk) ==> self.resident_count() == o.resident_count() + 1);
            }
        } else {
            proof {
                assert(!pool_has(self.freq@, kk)) by {
                    if pool_has(self.freq@, kk) {
                        let a = pool_idx(self.freq@, kk);
                        assert(self.count_of(self.freq@[a].key@) > PROMOTION_THRESHOLD);
                    }
                }
            }
            match find_entry(&self.rec, &key) {
                Some(i) => {
                    proof {
                        lemma_pool_idx_unique(self.rec@, i as int);
                        lemma_pool_remove(self.rec@, i as int);
                    }
                    let _ = self.rec.remove(i);
                },
                None => {},
            }
            let ghost pp = *self;
            self.rec.push(CacheEntry { key, data: value });
            proof {
                assert(self.rec@ == pp.rec@.push(self.rec@[pp.rec@.len() as int]));
                lemma_pool_push(pp.rec@, self.rec@[pp.rec@.len() as int]);
                assert(pool_has(self.rec@, kk) && pool_val(self.rec@, kk) == vv);
                assert(pool_idx(self.rec@, kk) == self.rec@.len() - 1);
                assert(!pool_has(self.freq@, kk));
                assert forall|i: int, j: int|
                    0 <= i < self.freq@.len() && 0 <= j < self.rec@.len() implies (
                #[trigger] self.freq@[i].key@) != (#[trigger] self.rec@[j].key@) by {
                    lemma_pool_idx_unique(self.freq@, i);
                    lemma_pool_idx_unique(self.rec@, j);
                    let kf = self.freq@[i].key@;
                    let kr = self.rec@[j].key@;
                    if kf == kr {
                        assert(kr != kk);
                        assert(pool_has(m.freq@, kf));
                        assert(pool_has(m.rec@, kr));
                        let a = pool_idx(m.freq@, kf);
                        let b = pool_idx(m.rec@, kr);
                        assert(m.freq@[a].key@ == m.rec@[b].key@);
                        assert(false);
                    }
                }
                assert forall|i: int| 0 <= i < self.freq@.len() implies stat_has(
                    self.stats@,
                    #[trigger] self.freq@[i].key@,
                ) && self.count_of(self.freq@[i].key@) > PROMOTION_THRESHOLD by {
                    lemma_pool_idx_unique(self.freq@, i);
                    let kf = self.freq@[i].key@;
                    assert(pool_has(m.freq@, kf));
                    let a = pool_idx(m.freq@, kf);
                    assert(m.freq@[a].key@ == kf);
                }
                assert forall|i: int| 0 <= i < self.rec@.len() implies stat_has(
                    self.stats@,
                    #[trigger] self.rec@[i].key@,
                ) by {
                    lemma_pool_idx_unique(self.rec@, i);
                    let kr = self.rec@[i].key@;
                    if kr != kk {
                        assert(pool_has(m.rec@, kr));
                        let b = pool_idx(m.rec@, kr);
                        assert(m.rec@[b].key@ == kr);
                    }
                }
                assert(o.resident(kk) ==> self.resident_count() == o.resident_count());
                assert(!o.resident(kk) ==> self.resident_count() == o.resident_count() + 1);
            }
        }
        let ghost p = *self;
        proof {
            assert(p.inv_but_capacity());
            assert(p.resident_count() <= p.capacity() + 1);
        }
        self.rebalance();
        proof {
            let f = *self;
            let c = bumped(o.count_of(kk));
            assert(p.count_of(kk) == c && p.last_of(kk) == p.clock);
            if p.resident_count() <= p.capacity() {
                assert(f == p);
            } else {
                assert(!o.resident(kk) && o.resident_count() == o.capacity());
                if c <= PROMOTION_THRESHOLD {
                    if p.freq@.len() <= p.capacity() / 2 {
                        assert(p.rec@.len() >= 2) by {
                            assert(p.resident_count() == p.capacity() + 1);
                        }
                        assert(pool_has(f.rec@, kk));
                    }
                    assert(pool_has(f.rec@, kk) && pool_val(f.rec@, kk) == vv);
                    assert(!pool_has(f.freq@, kk));
                }
            }
            assert forall|k: Seq<char>|
                k != kk && #[trigger] f.resident(k) implies o.resident(k) && f.value_of(k)
                    == o.value_of(k) by {
                if pool_has(f.freq@, k) {
                    assert(pool_has(p.freq@, k) && pool_val(f.freq@, k) == pool_val(p.freq@, k));
                    assert(pool_has(o.freq@, k) && pool_val(p.freq@, k) == pool_val(o.freq@, k));
                } else {
                    assert(pool_has(f.rec@, k));
                    assert(pool_has(p.rec@, k) && pool_val(f.rec@, k) == pool_val(p.rec@, k));
                    assert(pool_has(o.rec@, k) && pool_val(p.rec@, k) == pool_val(o.rec@, k));
                    assert(!pool_has(o.freq@, k)) by {
                        if pool_has(o.freq@, k) {
                            let a = pool_idx(o.freq@, k);
                            let b = pool_idx(o.rec@, k);
                            assert(o.freq@[a].key@ == o.rec@[b].key@);
                            assert(false);
                        }
                    }
                }
            }
            assert forall|k: Seq<char>|
                k != kk && #[trigger] stat_has(f.stats@, k) implies stat_has(o.stats@, k)
                    && f.count_of(k) == o.count_of(k) && f.last_of(k) == o.last_of(k) by {
                assert(p.stats@ == m.stats@);
                assert(stat_has(p.stats@, k));
                assert(stat_has(m.stats@, k) == stat_has(o.stats@, k));
                assert(m.count_of(k) == o.count_of(k) && m.last_of(k) == o.last_of(k));
                assert(f.count_of(k) == p.count_of(k) && f.last_of(k) == p.last_of(k));
            }
            assert forall|k: Seq<char>|
                k != kk && #[trigger] pool_has(o.freq@, k) && (exists|k2: Seq<char>|
                    k2 != k && k2 != kk && #[trigger] pool_has(o.freq@, k2) && lex_lt(
                        o.count_of(k2),
                        o.last_of(k2),
                        o.count_of(k),
                        o.last_of(k),
                    )) implies pool_has(f.freq@, k) by {
                let k2 = choose|k2: Seq<char>|
                    k2 != k && k2 != kk && #[trigger] pool_has(o.freq@, k2) && lex_lt(
                        o.count_of(k2),
                        o.last_of(k2),
                        o.count_of(k),
                        o.last_of(k),
                    );
                assert(pool_has(p.freq@, k));
                assert(pool_has(p.freq@, k2));
                assert(p.stats@ == m.stats@);
                assert(m.count_of(k2) == o.count_of(k2) && m.last_of(k2) == o.last_of(k2));
                assert(m.count_of(k) == o.count_of(k) && m.last_of(k) == o.last_of(k));
                assert(p.count_of(k2) == o.count_of(k2) && p.last_of(k2) == o.last_of(k2));
                assert(p.count_of(k) == o.count_of(k) && p.last_of(k) == o.last_of(k));
                if p.resident_count() <= p.capacity() {
                    assert(f == p);
                } else if p.freq@.len() > p.capacity() / 2 {
                    assert(exists|q2: Seq<char>|
                        q2 != k && #[trigger] pool_has(p.freq@, q2) && lex_lt(
                            p.count_of(q2),
                            p.last_of(q2),
                            p.count_of(k),
                            p.last_of(k),
                        ));
                } else {
                    assert(f.freq == p.freq);
                }
            }
        }
    }
}

impl HybridCache {
    /// How many keys are resident over both pools.
    pub fn len(&self) -> (r: usize)
        requires
            self.inv(),
        ensures
            r == self.resident_count(),
    {
        self.freq.len() + self.rec.len()
    }

    /// Whether `key` currently sits in the frequency pool.
    pub fn in_frequency_pool(&self, key: &str) -> (r: bool)
        ensures
            r == pool_has(self.freq@, key@),
    {
        let k = key.to_owned();
        match find_entry(&self.freq, &k) {
            Some(i) => {
                proof {
                    assert(self.freq@[i as int].key@ == key@);
                }
                true
            },
            None => false,
        }
    }

    /// Whether `key` currently sits in the recency pool.
    pub fn in_recency_pool(&self, key: &str) -> (r: bool)
        ensures
            r == pool_has(self.rec@, key@),
    {
        let k = key.to_owned();
        match find_entry(&self.rec, &k) {
            Some(i) => {
                proof {
                    assert(self.rec@[i as int].key@ == key@);
                }
                true
            },
            None => false,
        }
    }
}

/// Copies a byte vector.
fn clone_bytes(v: &Vec<u8>) -> (r: Vec<u8>)
    ensures
        r@ == v@,
{
    let r = v.clone();
    proof {
        assert forall|i: int| 0 <= i < v@.len() implies r@[i] == v@[i] by {
            assert(cloned::<u8>(v@[i], r@[i]));
        }
        assert(r@ =~= v@);
    }
    r
}

} // verus!
