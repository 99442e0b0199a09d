//! LRU cache metadata: per-key size and access time, an authoritative
//! total-size counter, and the eviction routine that frees room for an
//! incoming entry by repeatedly dropping the entry with the smallest access
//! time. This in-memory store realizes, in one place, the contract that the
//! networked and embedded backends implement over their own transactions.

use vstd::prelude::*;

verus! {

/// The mathematical model of one LRU metadata record.
pub ghost struct LruEntryModel {
    pub key: Seq<char>,
    pub size: u64,
    pub atime: i64,
}

/// One LRU metadata record: the entry's size in bytes and the wall-clock
/// nanosecond timestamp of its most recent access.
pub struct LruEntry {
    pub key: String,
    pub size: u64,
    pub atime: i64,
}

impl View for LruEntry {
    type V = LruEntryModel;

    open spec fn view(&self) -> LruEntryModel {
        LruEntryModel { key: self.key@, size: self.size, atime: self.atime }
    }
}

/// The keys of the records are pairwise distinct.
pub open spec fn lru_keys_unique(m: Seq<LruEntryModel>) -> bool {
    forall|i: int, j: int| 0 <= i < j < m.len() ==> m[i].key != m[j].key
}

/// First position of key `k`, scanning from the front.
pub open spec fn lru_find(m: Seq<LruEntryModel>, k: Seq<char>) -> Option<int>
    decreases m.len(),
{
    if m.len() == 0 {
        None
    } else if m[0].key == k {
        Some(0)
    } else {
        match lru_find(m.subrange(1, m.len() as int), k) {
            Some(i) => Some(i + 1),
            None => None,
        }
    }
}

/// Whether some record holds key `k`.
pub open spec fn lru_contains(m: Seq<LruEntryModel>, k: Seq<char>) -> bool {
    exists|j: int| 0 <= j < m.len() && #[trigger] m[j].key == k
}

/// The size recorded for `k`, or 0 when absent.
pub open spec fn lru_size_of(m: Seq<LruEntryModel>, k: Seq<char>) -> u64 {
    match lru_find(m, k) {
        Some(i) => m[i].size,
        None => 0,
    }
}

/// The access time recorded for `k`, or 0 when absent.
pub open spec fn lru_atime_of(m: Seq<LruEntryModel>, k: Seq<char>) -> i64 {
    match lru_find(m, k) {
        Some(i) => m[i].atime,
        None => 0,
    }
}

/// The sum of the recorded sizes: what the total-size counter must hold.
pub open spec fn lru_sum(m: Seq<LruEntryModel>) -> int
    decreases m.len(),
{
    if m.len() == 0 {
        0
    } else {
        lru_sum(m.drop_last()) + m.last().size
    }
}

/// A successful lookup bumps the record's access time and changes nothing
/// else; a miss changes nothing.
pub open spec fn lru_bump(m: Seq<LruEntryModel>, k: Seq<char>, now: i64) -> Seq<LruEntryModel> {
    match lru_find(m, k) {
        Some(i) => m.update(i, LruEntryModel { key: m[i].key, size: m[i].size, atime: now }),
        None => m,
    }
}

/// Inserting a record replaces the record under the same key, or appends a
/// fresh one.
pub open spec fn lru_record(m: Seq<LruEntryModel>, k: Seq<char>, size: u64, now: i64) -> Seq<
    LruEntryModel,
> {
    match lru_find(m, k) {
        Some(i) => m.update(i, LruEntryModel { key: k, size: size, atime: now }),
        None => m.push(LruEntryModel { key: k, size: size, atime: now }),
    }
}

/// The first position holding the minimal access time.
pub open spec fn lru_min_idx(m: Seq<LruEntryModel>) -> int
    recommends
        m.len() > 0,
    decreases m.len(),
{
    if m.len() <= 1 {
        0
    } else {
        let j = 1 + lru_min_idx(m.subrange(1, m.len() as int));
        if m[0].atime <= m[j].atime {
            0
        } else {
            j
        }
    }
}

/// The store after eviction: while the recorded sizes plus the incoming size
/// exceed the limit and records remain, the record with the smallest access
/// time is dropped.
pub open spec fn lru_evict(m: Seq<LruEntryModel>, incoming: u64, limit: u64) -> Seq<LruEntryModel>
    decreases m.len(),
    via lru_evict_decreases
{
    if m.len() == 0 || lru_sum(m) + incoming <= limit {
        m
    } else {
        lru_evict(m.remove(lru_min_idx(m)), incoming, limit)
    }
}

#[via_fn]
proof fn lru_evict_decreases(m: Seq<LruEntryModel>, incoming: u64, limit: u64) {
    if m.len() > 0 {
        lemma_lru_min_idx(m);
    }
}

/// The keys dropped by `lru_evict`, in eviction order.
pub open spec fn lru_evict_keys(m: Seq<LruEntryModel>, incoming: u64, limit: u64) -> Seq<Seq<char>>
    decreases m.len(),
    via lru_evict_keys_decreases
{
    if m.len() == 0 || lru_sum(m) + incoming <= limit {
        Seq::empty()
    } else {
        seq![m[lru_min_idx(m)].key] + lru_evict_keys(m.remove(lru_min_idx(m)), incoming, limit)
    }
}

#[via_fn]
proof fn lru_evict_keys_decreases(m: Seq<LruEntryModel>, incoming: u64, limit: u64) {
    if m.len() > 0 {
        lemma_lru_min_idx(m);
    }
}

/// `lru_find` finds the first match: it returns the index of the first record
/// whose key is `k`, and `None` exactly when no record has key `k`.
pub proof fn lemma_lru_find(m: Seq<LruEntryModel>, k: Seq<char>)
    ensures
        match lru_find(m, k) {
            Some(i) => 0 <= i < m.len() && m[i].key == k && (forall|j: int|
                0 <= j < i ==> #[trigger] m[j].key != k),
            None => forall|j: int| 0 <= j < m.len() ==> #[trigger] m[j].key != k,
        },
        lru_find(m, k) is Some <==> lru_contains(m, k),
    decreases m.len(),
{
    if m.len() > 0 && m[0].key != k {
        lemma_lru_find(m.subrange(1, m.len() as int), k);
        let rest = m.subrange(1, m.len() as int);
        assert(forall|j: int| 0 <= j < rest.len() ==> #[trigger] rest[j].key == m[j + 1].key);
        match lru_find(m, k) {
            Some(i) => {
                assert forall|j: int| 0 <= j < i implies #[trigger] m[j].key != k by {
                    if j > 0 {
                        assert(rest[j - 1].key != k);
                    }
                }
            },
            None => {
                assert forall|j: int| 0 <= j < m.len() implies #[trigger] m[j].key != k by {
                    if j > 0 {
                        assert(rest[j - 1].key != k);
                    }
                }
            },
        }
    }
    if lru_find(m, k) is Some {
        let f = lru_find(m, k)->Some_0;
        assert(m[f].key == k);
    }
}

/// When keys are unique, `lru_find` locates any matching record.
pub proof fn lemma_lru_find_unique(m: Seq<LruEntryModel>, k: Seq<char>, i: int)
    requires
        lru_keys_unique(m),
        0 <= i < m.len(),
        m[i].key == k,
    ensures
        lru_find(m, k) == Some(i),
{
    lemma_lru_find(m, k);
}

/// The recorded sizes sum to a non-negative total.
pub proof fn lemma_lru_sum_nonneg(m: Seq<LruEntryModel>)
    ensures
        lru_sum(m) >= 0,
    decreases m.len(),
{
    if m.len() > 0 {
        lemma_lru_sum_nonneg(m.drop_last());
    }
}

/// Updating one record changes the sum by the difference of the sizes.
pub proof fn lemma_lru_sum_update(m: Seq<LruEntryModel>, i: int, e: LruEntryModel)
    requires
        0 <= i < m.len(),
    ensures
        lru_sum(m.update(i, e)) == lru_sum(m) - m[i].size + e.size,
    decreases m.len(),
{
    let u = m.update(i, e);
    if i == m.len() - 1 {
        assert(u.drop_last() =~= m.drop_last());
        assert(u.last() == e);
    } else {
        assert(u.drop_last() =~= m.drop_last().update(i, e));
        assert(u.last() == m.last());
        lemma_lru_sum_update(m.drop_last(), i, e);
    }
}

/// Removing one record subtracts its size from the sum.
pub proof fn lemma_lru_sum_remove(m: Seq<LruEntryModel>, i: int)
    requires
        0 <= i < m.len(),
    ensures
        lru_sum(m.remove(i)) == lru_sum(m) - m[i].size,
    decreases m.len(),
{
    let u = m.remove(i);
    if i == m.len() - 1 {
        assert(u =~= m.drop_last());
    } else {
        assert(u.drop_last() =~= m.drop_last().remove(i));
        assert(u.last() == m.last());
        lemma_lru_sum_remove(m.drop_last(), i);
    }
}

/// Appending one record adds its size to the sum.
pub proof fn lemma_lru_sum_push(m: Seq<LruEntryModel>, e: LruEntryModel)
    ensures
        lru_sum(m.push(e)) == lru_sum(m) + e.size,
{
    assert(m.push(e).drop_last() =~= m);
    assert(m.push(e).last() == e);
}

/// Each recorded size is bounded by the sum.
pub proof fn lemma_lru_sum_element(m: Seq<LruEntryModel>, i: int)
    requires
        0 <= i < m.len(),
    ensures
        m[i].size <= lru_sum(m),
{
    lemma_lru_sum_remove(m, i);
    lemma_lru_sum_nonneg(m.remove(i));
}

/// Removing a record keeps the remaining keys pairwise distinct.
pub proof fn lemma_lru_unique_remove(m: Seq<LruEntryModel>, i: int)
    requires
        lru_keys_unique(m),
        0 <= i < m.len(),
    ensures
        lru_keys_unique(m.remove(i)),
{
    let u = m.remove(i);
    assert forall|a: int, b: int| 0 <= a < b < u.len() implies u[a].key != u[b].key by {
        let a2 = if a < i {
            a
        } else {
            a + 1
        };
        let b2 = if b < i {
            b
        } else {
            b + 1
        };
        assert(u[a] == m[a2] && u[b] == m[b2]);
        assert(m[a2].key != m[b2].key);
    }
}

/// `lru_min_idx` points at the first record with minimal access time.
pub proof fn lemma_lru_min_idx(m: Seq<LruEntryModel>)
    requires
        m.len() > 0,
    ensures
        0 <= lru_min_idx(m) < m.len(),
        forall|j: int| 0 <= j < m.len() ==> #[trigger] m[j].atime >= m[lru_min_idx(m)].atime,
        forall|j: int| 0 <= j < lru_min_idx(m) ==> #[trigger] m[j].atime > m[lru_min_idx(m)].atime,
    decreases m.len(),
{
    if m.len() > 1 {
        let rest = m.subrange(1, m.len() as int);
        lemma_lru_min_idx(rest);
        assert(forall|j: int| 0 <= j < rest.len() ==> #[trigger] rest[j].atime == m[j + 1].atime);
        let r = lru_min_idx(m);
        assert forall|j: int| 0 <= j < m.len() implies #[trigger] m[j].atime >= m[r].atime by {
            if j > 0 {
                assert(rest[j - 1].atime >= rest[lru_min_idx(rest)].atime);
            }
        }
        assert forall|j: int| 0 <= j < r implies #[trigger] m[j].atime > m[r].atime by {
            if j > 0 {
                assert(rest[j - 1].atime > rest[lru_min_idx(rest)].atime);
            }
        }
    }
}

/// Eviction stops only once the incoming entry fits or nothing remains, and
/// it keeps keys unique and never grows the sum.
pub proof fn lemma_lru_evict(m: Seq<LruEntryModel>, incoming: u64, limit: u64)
    requires
        lru_keys_unique(m),
    ensures
        lru_keys_unique(lru_evict(m, incoming, limit)),
        lru_sum(lru_evict(m, incoming, limit)) + incoming <= limit || lru_evict(
            m,
            incoming,
            limit,
        ).len() == 0,
        lru_sum(lru_evict(m, incoming, limit)) <= lru_sum(m),
        lru_evict(m, incoming, limit).len() <= m.len(),
    decreases m.len(),
{
    if !(m.len() == 0 || lru_sum(m) + incoming <= limit) {
        let i = lru_min_idx(m);
        lemma_lru_min_idx(m);
        lemma_lru_unique_remove(m, i);
        lemma_lru_sum_remove(m, i);
        lemma_lru_evict(m.remove(i), incoming, limit);
    } else {
        lemma_lru_sum_nonneg(m);
    }
}

/// The LRU metadata store: the records and the authoritative total-size
/// counter.
pub struct LruMetadataDb {
    pub entries: Vec<LruEntry>,
    pub total_size: u64,
}

impl LruMetadataDb {
    /// The store's mathematical model: the sequence of record models, in
    /// insertion order.
    pub open spec fn model(&self) -> Seq<LruEntryModel> {
        self.entries@.map_values(|e: LruEntry| e@)
    }

    /// Keys are pairwise distinct and the counter holds the sum of the
    /// recorded sizes.
    pub open spec fn wf(&self) -> bool {
        &&& lru_keys_unique(self.model())
        &&& self.total_size == lru_sum(self.model())
    }

    /// Creates an empty store.
    pub fn new() -> (r: LruMetadataDb)
        ensures
            r.wf(),
            r.model() == Seq::<LruEntryModel>::empty(),
            r.total_size == 0,
    {
        let r = LruMetadataDb { entries: Vec::new(), total_size: 0 };
        proof {
            assert(r.model() =~= Seq::<LruEntryModel>::empty());
        }
        r
    }

    fn find(&self, key: &str) -> (r: Option<usize>)
        ensures
            match r {
                Some(i) => lru_find(self.model(), key@) == Some(i as int) && i < self.entries@.len(),
                None => lru_find(self.model(), key@) is None,
            },
    {
        let n = self.entries.len();
        let k = key.to_owned();
        let mut i: usize = 0;
        while i < n
            invariant
                n == self.entries@.len(),
                i <= n,
                k@ == key@,
                forall|j: int| 0 <= j < i ==> #[trigger] self.model()[j].key != key@,
            decreases n - i,
        {
            if self.entries[i].key == k {
                proof {
                    lemma_lru_find(self.model(), key@);
                    assert(self.model()[i as int].key == key@);
                }
                return Some(i);
            }
            i = i + 1;
        }
        proof {
            lemma_lru_find(self.model(), key@);
        }
        None
    }

    /// Looks `key` up; on a hit bumps its access time to `now` and reports
    /// `Hit`, on a miss changes nothing and reports `Miss`. Sizes and the
    /// total are never modified.
    pub fn get_lru_entry(&mut self, key: &str, now: i64) -> (r: crate::CacheHitMiss)
        requires
            old(self).wf(),
        ensures
            final(self).wf(),
            final(self).model() == lru_bump(old(self).model(), key@, now),
            r == crate::CacheHitMiss::Hit <==> lru_contains(old(self).model(), key@),
            final(self).total_size == old(self).total_size,
    {
        proof {
            lemma_lru_find(self.model(), key@);
        }
        match self.find(key) {
            Some(i) => {
                let size = self.entries[i].size;
                let k = self.entries[i].key.clone();
                self.entries[i] = LruEntry { key: k, size, atime: now };
                proof {
                    let m_old = old(self).model();
                    let gi = i as int;
                    assert(self.model() =~= m_old.update(
                        gi,
                        LruEntryModel { key: m_old[gi].key, size: m_old[gi].size, atime: now },
                    ));
                    lemma_lru_sum_update(
                        m_old,
                        gi,
                        LruEntryModel { key: m_old[gi].key, size: m_old[gi].size, atime: now },
                    );
                    assert forall|a: int, b: int|
                        0 <= a < b < self.model().len() implies self.model()[a].key
                        != self.model()[b].key by {
                        assert(m_old[a].key != m_old[b].key);
                        assert(self.model()[a].key == m_old[a].key);
                        assert(self.model()[b].key == m_old[b].key);
                    }
                }
                crate::CacheHitMiss::Hit
            },
            None => crate::CacheHitMiss::Miss,
        }
    }

    /// Inserts or replaces the record for `key` with the given size, stamped
    /// `now`; the previous size, if any, leaves the total and the new size
    /// enters it.
    pub fn set_lru_entry(&mut self, key: &str, size: u64, now: i64)
        requires
            old(self).wf(),
            lru_sum(old(self).model()) - lru_size_of(old(self).model(), key@) + size <= u64::MAX,
        ensures
            final(self).wf(),
            final(self).model() == lru_record(old(self).model(), key@, size, now),
            final(self).total_size == lru_sum(old(self).model()) - lru_size_of(
                old(self).model(),
                key@,
            ) + size,
    {
        proof {
            lemma_lru_find(self.model(), key@);
        }
        match self.find(key) {
            Some(i) => {
                proof {
                    lemma_lru_sum_element(self.model(), i as int);
                    lemma_lru_sum_nonneg(self.model());
                }
                let prev = self.entries[i].size;
                self.total_size = self.total_size - prev + size;
                self.entries[i] = LruEntry { key: key.to_owned(), size, atime: now };
                proof {
                    let m_old = old(self).model();
                    let gi = i as int;
                    let e = LruEntryModel { key: key@, size, atime: now };
                    assert(self.model() =~= m_old.update(gi, e));
                    lemma_lru_sum_update(m_old, gi, e);
                    assert forall|a: int, b: int|
                        0 <= a < b < self.model().len() implies self.model()[a].key
                        != self.model()[b].key by {
                        assert(m_old[a].key != m_old[b].key);
                        assert(self.model()[a].key == if a == gi {
                            key@
                        } else {
                            m_old[a].key
                        });
                        assert(self.model()[b].key == if b == gi {
                            key@
                        } else {
                            m_old[b].key
                        });
                        assert(m_old[gi].key == key@);
                    }
                }
            },
            None => {
                self.total_size = self.total_size + size;
                self.entries.push(LruEntry { key: key.to_owned(), size, atime: now });
                proof {
                    let m_old = old(self).model();
                    let e = LruEntryModel { key: key@, size, atime: now };
                    assert(self.model() =~= m_old.push(e));
                    lemma_lru_sum_push(m_old, e);
                    let n = m_old.len() as int;
                    assert forall|a: int, b: int|
                        0 <= a < b < self.model().len() implies self.model()[a].key
                        != self.model()[b].key by {
                        if b < n {
                            assert(m_old[a].key != m_old[b].key);
                        } else {
                            assert(m_old[a].key != key@);
                        }
                        assert(self.model()[a].key == if a == n {
                            key@
                        } else {
                            m_old[a].key
                        });
                        assert(self.model()[b].key == if b == n {
                            key@
                        } else {
                            m_old[b].key
                        });
                    }
                }
            },
        }
    }

    /// Frees room for an entry of `new_size` bytes: while the recorded total
    /// plus `new_size` exceeds `size_limit` and records remain, drops the
    /// record with the smallest access time. Returns the dropped keys, in
    /// eviction order, so the caller can remove their blobs.
    pub fn evict(&mut self, new_size: u64, size_limit: u64) -> (r: Vec<String>)
        requires
            old(self).wf(),
        ensures
            final(self).wf(),
            final(self).model() == lru_evict(old(self).model(), new_size, size_limit),
            r.deep_view() == lru_evict_keys(old(self).model(), new_size, size_limit),
            lru_sum(final(self).model()) + new_size <= size_limit || final(self).model().len()
                == 0,
    {
        let mut removed: Vec<String> = Vec::new();
        proof {
            assert(removed.deep_view() =~= Seq::<Seq<char>>::empty());
        }
        loop
            invariant
                self.wf(),
                lru_evict(old(self).model(), new_size, size_limit) == lru_evict(
                    self.model(),
                    new_size,
                    size_limit,
                ),
                lru_evict_keys(old(self).model(), new_size, size_limit) == removed.deep_view()
                    + lru_evict_keys(self.model(), new_size, size_limit),
            decreases self.entries@.len(),
        {
            let fits = new_size <= size_limit && self.total_size <= size_limit - new_size;
            if fits || self.entries.len() == 0 {
                proof {
                    lemma_lru_sum_nonneg(self.model());
                    assert(lru_evict(self.model(), new_size, size_limit) == self.model());
                    assert(lru_evict_keys(self.model(), new_size, size_limit) =~= Seq::<
                        Seq<char>,
                    >::empty());
                    assert(removed.deep_view() + lru_evict_keys(self.model(), new_size, size_limit)
                        =~= removed.deep_view());
                }
                return removed;
            }
            let ghost m_pre = self.model();
            let n = self.entries.len();
            let mut best: usize = 0;
            let mut j: usize = 1;
            while j < n
                invariant
                    n == self.entries@.len(),
                    best < j <= n,
                    forall|l: int| 0 <= l < j ==> #[trigger] self.model()[l].atime >= self.model()[
                        best as int].atime,
                    forall|l: int| 0 <= l < best ==> #[trigger] self.model()[l].atime > self.model()[
                        best as int].atime,
                decreases n - j,
            {
                if self.entries[j].atime < self.entries[best].atime {
                    best = j;
                }
                j = j + 1;
            }
            proof {
                lemma_lru_min_idx(m_pre);
                let s = lru_min_idx(m_pre);
                if s != best as int {
                    if s < best as int {
                        assert(m_pre[s].atime > m_pre[best as int].atime);
                        assert(m_pre[best as int].atime >= m_pre[s].atime);
                    } else {
                        assert(m_pre[best as int].atime > m_pre[s].atime);
                        assert(m_pre[s].atime >= m_pre[best as int].atime);
                    }
                    assert(false);
                }
                lemma_lru_sum_element(m_pre, best as int);
                lemma_lru_sum_remove(m_pre, best as int);
                lemma_lru_unique_remove(m_pre, best as int);
            }
            let ghost rdv = removed.deep_view();
            let victim = self.entries.remove(best);
            self.total_size = self.total_size - victim.size;
            removed.push(victim.key);
            proof {
                assert(self.model() =~= m_pre.remove(best as int));
                assert(lru_evict(m_pre, new_size, size_limit) == lru_evict(
                    self.model(),
                    new_size,
                    size_limit,
                ));
                assert(lru_evict_keys(m_pre, new_size, size_limit) == seq![m_pre[best as int].key]
                    + lru_evict_keys(self.model(), new_size, size_limit));
                assert(removed.deep_view() =~= rdv.push(m_pre[best as int].key));
                assert(lru_evict_keys(old(self).model(), new_size, size_limit)
                    =~= removed.deep_view() + lru_evict_keys(self.model(), new_size, size_limit));
            }
        }
    }

    /// The authoritative total of the recorded sizes.
    pub fn get_total_size(&self) -> (r: u64)
        requires
            self.wf(),
        ensures
            r == lru_sum(self.model()),
    {
        self.total_size
    }
}

} // verus!
