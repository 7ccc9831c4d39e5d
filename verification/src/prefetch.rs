//! Background prefetch: a bounded, lossy request queue and the worker-step
//! decision it drives. Scheduling never blocks the caller: once the queue
//! is full, further requests are dropped. One worker step takes the oldest
//! request, checks the cache, and only on a miss decompresses the column
//! and inserts the payload. The thread that runs steps in a loop, and the
//! channel it blocks on, live outside this crate.

use crate::cache::{bumped, HybridCache, PROMOTION_THRESHOLD};
use crate::storage::Column;
use vstd::prelude::*;

verus! {

/// Bound on outstanding prefetch requests.
pub const QUEUE_CAPACITY: usize = 10;

/// The prefetcher's pending column-name requests, oldest first.
pub struct Prefetcher {
    pub requests: Vec<String>,
}

impl Prefetcher {
    /// The queued column names, oldest first.
    pub open spec fn pending(self) -> Seq<Seq<char>> {
        self.requests@.map_values(|s: String| s@)
    }

    /// Starts with no pending requests.
    pub fn new() -> (p: Prefetcher)
        ensures
            p.pending().len() == 0,
    {
        Prefetcher { requests: Vec::new() }
    }

    /// How many requests are pending.
    pub fn pending_len(&self) -> (r: usize)
        ensures
            r == self.pending().len(),
    {
        self.requests.len()
    }

    /// Enqueues a prefetch request. Best-effort and never blocking: when
    /// the queue is full the request is dropped and `false` comes back.
    pub fn schedule_prefetch(&mut self, column_name: String) -> (accepted: bool)
        ensures
            old(self).pending().len() < QUEUE_CAPACITY ==> accepted && final(self).pending()
                == old(self).pending().push(column_name@),
            old(self).pending().len() >= QUEUE_CAPACITY ==> !accepted && *final(self) == *old(
                self,
            ),
    {
        if self.requests.len() < QUEUE_CAPACITY {
            let ghost before = self.requests@;
            self.requests.push(column_name);
            proof {
                assert(self.requests@ == before.push(column_name));
                assert(self.pending() =~= before.map_values(|s: String| s@).push(column_name@));
            }
            true
        } else {
            false
        }
    }

    /// One worker step: takes the oldest request, if any, and serves it.
    /// A request for an already-resident key only records the access and
    /// leaves the cached payload untouched; nothing is decompressed. On a
    /// miss the column's payload is decompressed and inserted.
    pub fn step(&mut self, cache: &mut HybridCache, column: &Column) -> (fetched: bool)
        requires
            old(cache).inv(),
            column.wf(),
        ensures
            final(cache).inv(),
            old(self).pending().len() == 0 ==> !fetched && *final(self) == *old(self)
                && *final(cache) == *old(cache),
            old(self).pending().len() > 0 ==> final(self).pending()
                == old(self).pending().drop_first(),
            old(self).pending().len() > 0 && old(cache).resident(old(self).pending()[0])
                ==> !fetched && final(cache).freq == old(cache).freq
                && final(cache).rec == old(cache).rec,
            old(self).pending().len() > 0 && !old(cache).resident(old(self).pending()[0])
                ==> fetched,
            old(self).pending().len() > 0 && !old(cache).resident(old(self).pending()[0]) && (
            bumped(bumped(old(cache).count_of(old(self).pending()[0]))) <= PROMOTION_THRESHOLD
                || old(cache).resident_count() < old(cache).capacity()) ==> final(cache).resident(
                old(self).pending()[0],
            ) && final(cache).value_of(old(self).pending()[0]) == column.logical@,
    {
        if self.requests.len() == 0 {
            return false;
        }
        let ghost before = self.requests@;
        let name = self.requests.remove(0);
        proof {
            assert(self.requests@ == before.remove(0));
            assert(self.pending() =~= before.map_values(|s: String| s@).drop_first());
        }
        match cache.get(name.as_str()) {
            Some(_) => false,
            None => match column.decompress_parallel() {
                Ok(data) => {
                    cache.insert(name, data);
                    true
                },
                Err(_) => false,
            },
        }
    }
}

} // verus!
