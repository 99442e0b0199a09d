//! TTL cache metadata: an expiration timestamp per key, lookups that treat
//! expired records as misses, and the sweep that reaps every expired record
//! so its blob can be removed. The in-memory store realizes the contract the
//! networked backend gets from server-side expiry and keyspace notifications,
//! and the embedded backend from its polling sweeper.

use vstd::prelude::*;

verus! {

/// The mathematical model of one TTL metadata record.
pub ghost struct TtlEntryModel {
    pub key: Seq<char>,
    pub expires_at: i64,
}

/// One TTL metadata record: the wall-clock nanosecond timestamp at which the
/// entry expires.
pub struct TtlEntry {
    pub key: String,
    pub expires_at: i64,
}

impl View for TtlEntry {
    type V = TtlEntryModel;

    open spec fn view(&self) -> TtlEntryModel {
        TtlEntryModel { key: self.key@, expires_at: self.expires_at }
    }
}

/// The keys of the records are pairwise distinct.
pub open spec fn ttl_keys_unique(m: Seq<TtlEntryModel>) -> bool {
    forall|i: int, j: int| 0 <= i < j < m.len() ==> m[i].key != m[j].key
}

/// First position of key `k`, scanning from the front.
pub open spec fn ttl_find(m: Seq<TtlEntryModel>, k: Seq<char>) -> Option<int>
    decreases m.len(),
{
    if m.len() == 0 {
        None
    } else if m[0].key == k {
        Some(0)
    } else {
        match ttl_find(m.subrange(1, m.len() as int), k) {
            Some(i) => Some(i + 1),
            None => None,
        }
    }
}

/// Whether some record holds key `k`.
pub open spec fn ttl_contains(m: Seq<TtlEntryModel>, k: Seq<char>) -> bool {
    exists|j: int| 0 <= j < m.len() && #[trigger] m[j].key == k
}

/// The expiration timestamp recorded for `k`, or 0 when absent.
pub open spec fn ttl_expiry_of(m: Seq<TtlEntryModel>, k: Seq<char>) -> i64 {
    match ttl_find(m, k) {
        Some(i) => m[i].expires_at,
        None => 0,
    }
}

/// Inserting a record replaces the record under the same key, or appends a
/// fresh one.
pub open spec fn ttl_record(m: Seq<TtlEntryModel>, k: Seq<char>, expires_at: i64) -> Seq<
    TtlEntryModel,
> {
    match ttl_find(m, k) {
        Some(i) => m.update(i, TtlEntryModel { key: k, expires_at }),
        None => m.push(TtlEntryModel { key: k, expires_at }),
    }
}

/// The records that survive a sweep at time `now`: exactly those that expire
/// after `now`, in order.
pub open spec fn ttl_live(m: Seq<TtlEntryModel>, now: i64) -> Seq<TtlEntryModel>
    decreases m.len(),
{
    if m.len() == 0 {
        Seq::empty()
    } else {
        let rest = ttl_live(m.subrange(1, m.len() as int), now);
        if m[0].expires_at > now {
            seq![m[0]] + rest
        } else {
            rest
        }
    }
}

/// The keys a sweep at time `now` reaps: those of the records with
/// `expires_at <= now`, in order.
pub open spec fn ttl_expired_keys(m: Seq<TtlEntryModel>, now: i64) -> Seq<Seq<char>>
    decreases m.len(),
{
    if m.len() == 0 {
        Seq::empty()
    } else {
        let rest = ttl_expired_keys(m.subrange(1, m.len() as int), now);
        if m[0].expires_at > now {
            rest
        } else {
            seq![m[0].key] + rest
        }
    }
}

/// `ttl_find` finds the first match, and `None` exactly when no record has
/// the key.
pub proof fn lemma_ttl_find(m: Seq<TtlEntryModel>, k: Seq<char>)
    ensures
        match ttl_find(m, k) {
            Some(i) => 0 <= i < m.len() && m[i].key == k && (forall|j: int|
                0 <= j < i ==> #[trigger] m[j].key != k),
            None => forall|j: int| 0 <= j < m.len() ==> #[trigger] m[j].key != k,
        },
        ttl_find(m, k) is Some <==> ttl_contains(m, k),
    decreases m.len(),
{
    if m.len() > 0 && m[0].key != k {
        lemma_ttl_find(m.subrange(1, m.len() as int), k);
        let rest = m.subrange(1, m.len() as int);
        assert(forall|j: int| 0 <= j < rest.len() ==> #[trigger] rest[j].key == m[j + 1].key);
        match ttl_find(m, k) {
            Some(i) => {
                assert forall|j: int| 0 <= j < i implies #[trigger] m[j].key != k by {
                    if j > 0 {
                        assert(rest[j - 1].key != k);
                    }
                }
            },
            None => {
                assert forall|j: int| 0 <= j < m.len() implies #[trigger] m[j].key != k by {
                    if j > 0 {
                        assert(rest[j - 1].key != k);
                    }
                }
            },
        }
    }
    if ttl_find(m, k) is Some {
        let f = ttl_find(m, k)->Some_0;
        assert(m[f].key == k);
    }
}

/// When keys are unique, `ttl_find` locates any matching record.
pub proof fn lemma_ttl_find_unique(m: Seq<TtlEntryModel>, k: Seq<char>, i: int)
    requires
        ttl_keys_unique(m),
        0 <= i < m.len(),
        m[i].key == k,
    ensures
        ttl_find(m, k) == Some(i),
{
    lemma_ttl_find(m, k);
}

/// Element-level characterization of a sweep: it keeps exactly the records
/// that expire after `now`, and keeps keys unique.
pub proof fn lemma_ttl_live_elems(m: Seq<TtlEntryModel>, now: i64)
    requires
        ttl_keys_unique(m),
    ensures
        forall|e: TtlEntryModel| #[trigger]
            ttl_live(m, now).contains(e) <==> (m.contains(e) && e.expires_at > now),
        ttl_keys_unique(ttl_live(m, now)),
    decreases m.len(),
{
    let live = ttl_live(m, now);
    if m.len() == 0 {
        assert forall|e: TtlEntryModel| #[trigger] live.contains(e) implies (m.contains(e)
            && e.expires_at > now) by {
            let j = choose|j: int| 0 <= j < live.len() && live[j] == e;
        }
    } else {
        let rest = m.subrange(1, m.len() as int);
        assert(forall|j: int| 0 <= j < rest.len() ==> rest[j] == m[j + 1]);
        assert forall|a: int, b: int| 0 <= a < b < rest.len() implies rest[a].key != rest[b].key by {
            assert(m[a + 1].key != m[b + 1].key);
        }
        lemma_ttl_live_elems(rest, now);
        let live_rest = ttl_live(rest, now);
        let kept = m[0].expires_at > now;
        assert forall|e: TtlEntryModel| #[trigger]
            live.contains(e) <==> (m.contains(e) && e.expires_at > now) by {
            if live.contains(e) {
                let j = choose|j: int| 0 <= j < live.len() && live[j] == e;
                if kept {
                    if j == 0 {
                        assert(e == m[0]);
                        assert(m.contains(e));
                    } else {
                        assert(live[j] == live_rest[j - 1]);
                        assert(live_rest.contains(e));
                        let w = choose|w: int| 0 <= w < rest.len() && rest[w] == e;
                        assert(m[w + 1] == e);
                        assert(m.contains(e));
                    }
                } else {
                    assert(live[j] == live_rest[j]);
                    assert(live_rest.contains(e));
                    let w = choose|w: int| 0 <= w < rest.len() && rest[w] == e;
                    assert(m[w + 1] == e);
                    assert(m.contains(e));
                }
            }
            if m.contains(e) && e.expires_at > now {
                let w = choose|w: int| 0 <= w < m.len() && m[w] == e;
                if w == 0 {
                    assert(kept);
                    assert(live[0] == e);
                    assert(live.contains(e));
                } else {
                    assert(rest[w - 1] == e);
                    assert(rest.contains(e));
                    assert(live_rest.contains(e));
                    let v = choose|v: int| 0 <= v < live_rest.len() && live_rest[v] == e;
                    if kept {
                        assert(live[v + 1] == e);
                    } else {
                        assert(live[v] == e);
                    }
                    assert(live.contains(e));
                }
            }
        }
        assert forall|a: int, b: int| 0 <= a < b < live.len() implies live[a].key != live[b].key by {
            if kept {
                if a == 0 {
                    assert(live[b] == live_rest[b - 1]);
                    assert(live_rest.contains(live_rest[b - 1]));
                    assert(m.contains(live_rest[b - 1]));
                    let w = choose|w: int| 0 <= w < m.len() && m[w] == live[b];
                    if w == 0 {
                        assert(live[b] == m[0]);
                    } else {
                        assert(m[0].key != m[w].key);
                    }
                    if live[a].key == live[b].key {
                        assert(w != 0 ==> false);
                        assert(w == 0 ==> live_rest.contains(m[0]) && rest.contains(m[0]));
                        if w == 0 {
                            let v = choose|v: int| 0 <= v < rest.len() && rest[v] == m[0];
                            assert(m[v + 1].key == m[0].key);
                            assert(false);
                        }
                    }
                } else {
                    assert(live[a] == live_rest[a - 1] && live[b] == live_rest[b - 1]);
                }
            } else {
                assert(live[a] == live_rest[a] && live[b] == live_rest[b]);
            }
        }
    }
}

/// Key-level corollaries of the sweep: a key survives exactly when its
/// record expires after `now`, surviving records keep their expiration, and
/// every surviving record is unexpired.
pub proof fn lemma_ttl_live(m: Seq<TtlEntryModel>, now: i64)
    requires
        ttl_keys_unique(m),
    ensures
        ttl_keys_unique(ttl_live(m, now)),
        forall|k: Seq<char>| #[trigger]
            ttl_contains(ttl_live(m, now), k) <==> (ttl_contains(m, k) && ttl_expiry_of(m, k)
                > now),
        forall|k: Seq<char>| #[trigger]
            ttl_contains(ttl_live(m, now), k) ==> ttl_expiry_of(ttl_live(m, now), k)
                == ttl_expiry_of(m, k),
        forall|j: int|
            0 <= j < ttl_live(m, now).len() ==> #[trigger] ttl_live(m, now)[j].expires_at > now,
{
    lemma_ttl_live_elems(m, now);
    let live = ttl_live(m, now);
    assert forall|j: int| 0 <= j < live.len() implies #[trigger] live[j].expires_at > now by {
        assert(live.contains(live[j]));
    }
    assert forall|k: Seq<char>| #[trigger]
        ttl_contains(live, k) <==> (ttl_contains(m, k) && ttl_expiry_of(m, k) > now) by {
        lemma_ttl_find(m, k);
        lemma_ttl_find(live, k);
        if ttl_contains(live, k) {
            let j = choose|j: int| 0 <= j < live.len() && #[trigger] live[j].key == k;
            let e = live[j];
            assert(live.contains(e));
            assert(m.contains(e));
            let w = choose|w: int| 0 <= w < m.len() && m[w] == e;
            let f = ttl_find(m, k)->Some_0;
            assert(m[w].key == k && m[f].key == k);
            assert(w == f);
            assert(ttl_expiry_of(m, k) == e.expires_at);
        }
        if ttl_contains(m, k) && ttl_expiry_of(m, k) > now {
            let f = ttl_find(m, k)->Some_0;
            let e = m[f];
            assert(m.contains(e));
            assert(live.contains(e));
            let v = choose|v: int| 0 <= v < live.len() && live[v] == e;
            assert(live[v].key == k);
            assert(ttl_contains(live, k));
        }
    }
    assert forall|k: Seq<char>| #[trigger]
        ttl_contains(live, k) implies ttl_expiry_of(live, k) == ttl_expiry_of(m, k) by {
        lemma_ttl_find(m, k);
        lemma_ttl_find(live, k);
        let f = ttl_find(live, k)->Some_0;
        let e = live[f];
        assert(live.contains(e));
        assert(m.contains(e));
        let w = choose|w: int| 0 <= w < m.len() && m[w] == e;
        let g = ttl_find(m, k)->Some_0;
        assert(m[w].key == k && m[g].key == k);
        assert(w == g);
    }
}

/// The TTL metadata store: expiration records keyed by cache key.
pub struct TtlMetadataDb {
    pub entries: Vec<TtlEntry>,
}

impl TtlMetadataDb {
    /// The store's mathematical model: the sequence of record models, in
    /// insertion order.
    pub open spec fn model(&self) -> Seq<TtlEntryModel> {
        self.entries@.map_values(|e: TtlEntry| e@)
    }

    /// Keys are pairwise distinct.
    pub open spec fn wf(&self) -> bool {
        ttl_keys_unique(self.model())
    }

    /// Creates an empty store.
    pub fn new() -> (r: TtlMetadataDb)
        ensures
            r.wf(),
            r.model() == Seq::<TtlEntryModel>::empty(),
    {
        let r = TtlMetadataDb { entries: Vec::new() };
        proof {
            assert(r.model() =~= Seq::<TtlEntryModel>::empty());
        }
        r
    }

    fn find(&self, key: &str) -> (r: Option<usize>)
        ensures
            match r {
                Some(i) => ttl_find(self.model(), key@) == Some(i as int) && i < self.entries@.len(),
                None => ttl_find(self.model(), key@) is None,
            },
    {
        let n = self.entries.len();
        let k = key.to_owned();
        let mut i: usize = 0;
        while i < n
            invariant
                n == self.entries@.len(),
                i <= n,
                k@ == key@,
                forall|j: int| 0 <= j < i ==> #[trigger] self.model()[j].key != key@,
            decreases n - i,
        {
            if self.entries[i].key == k {
                proof {
                    lemma_ttl_find(self.model(), key@);
                    assert(self.model()[i as int].key == key@);
                }
                return Some(i);
            }
            i = i + 1;
        }
        proof {
            lemma_ttl_find(self.model(), key@);
        }
        None
    }

    /// Looks `key` up at time `now`: `Hit` exactly when a record exists whose
    /// expiration lies after `now`. Expired records are left for the sweeper.
    pub fn get_ttl_entry(&self, key: &str, now: i64) -> (r: crate::CacheHitMiss)
        ensures
            r == crate::CacheHitMiss::Hit <==> (ttl_contains(self.model(), key@) && ttl_expiry_of(
                self.model(),
                key@,
            ) > now),
    {
        proof {
            lemma_ttl_find(self.model(), key@);
        }
        match self.find(key) {
            Some(i) => {
                if self.entries[i].expires_at > now {
                    crate::CacheHitMiss::Hit
                } else {
                    crate::CacheHitMiss::Miss
                }
            },
            None => crate::CacheHitMiss::Miss,
        }
    }

    /// Sets `key` to expire `ttl` seconds after `now`, overwriting any prior
    /// record.
    pub fn set_ttl_entry(&mut self, key: &str, ttl: u64, now: i64)
        requires
            old(self).wf(),
            0 <= now,
            now + ttl * 1_000_000_000 <= i64::MAX,
        ensures
            final(self).wf(),
            final(self).model() == ttl_record(
                old(self).model(),
                key@,
                (now + ttl * 1_000_000_000) as i64,
            ),
    {
        let expires_at: i64 = now + (ttl as i64) * 1_000_000_000;
        proof {
            lemma_ttl_find(self.model(), key@);
        }
        match self.find(key) {
            Some(i) => {
                self.entries[i] = TtlEntry { key: key.to_owned(), expires_at };
                proof {
                    let m_old = old(self).model();
                    let gi = i as int;
                    let e = TtlEntryModel { key: key@, expires_at };
                    assert(self.model() =~= m_old.update(gi, e));
                    assert forall|a: int, b: int|
                        0 <= a < b < self.model().len() implies self.model()[a].key
                        != self.model()[b].key by {
                        assert(m_old[a].key != m_old[b].key);
                        assert(m_old[gi].key == key@);
                        assert(self.model()[a].key == if a == gi {
                            key@
                        } else {
                            m_old[a].key
                        });
                        assert(self.model()[b].key == if b == gi {
                            key@
                        } else {
                            m_old[b].key
                        });
                    }
                }
            },
            None => {
                self.entries.push(TtlEntry { key: key.to_owned(), expires_at });
                proof {
                    let m_old = old(self).model();
                    let e = TtlEntryModel { key: key@, expires_at };
                    assert(self.model() =~= m_old.push(e));
                    let n = m_old.len() as int;
                    assert forall|a: int, b: int|
                        0 <= a < b < self.model().len() implies self.model()[a].key
                        != self.model()[b].key by {
                        if b < n {
                            assert(m_old[a].key != m_old[b].key);
                        } else {
                            assert(m_old[a].key != key@);
                        }
                        assert(self.model()[a].key == if a == n {
                            key@
                        } else {
                            m_old[a].key
                        });
                        assert(self.model()[b].key == if b == n {
                            key@
                        } else {
                            m_old[b].key
                        });
                    }
                }
            },
        }
    }

    /// Reaps every record whose expiration is at or before `now` and returns
    /// the reaped keys, in order, so the caller can remove their blobs.
    pub fn sweep(&mut self, now: i64) -> (r: Vec<String>)
        requires
            old(self).wf(),
        ensures
            final(self).wf(),
            final(self).model() == ttl_live(old(self).model(), now),
            r.deep_view() == ttl_expired_keys(old(self).model(), now),
    {
        let ghost m0 = self.model();
        let mut keep: Vec<TtlEntry> = Vec::new();
        let mut victims: Vec<String> = Vec::new();
        let n = self.entries.len();
        let mut i: usize = 0;
        proof {
            assert(m0.subrange(0, n as int) =~= m0);
            assert(keep@.map_values(|e: TtlEntry| e@) =~= Seq::<TtlEntryModel>::empty());
            assert(victims.deep_view() =~= Seq::<Seq<char>>::empty());
            assert(ttl_live(m0, now) =~= keep@.map_values(|e: TtlEntry| e@) + ttl_live(
                m0.subrange(i as int, n as int),
                now,
            ));
            assert(ttl_expired_keys(m0, now) =~= victims.deep_view() + ttl_expired_keys(
                m0.subrange(i as int, n as int),
                now,
            ));
        }
        while i < n
            invariant
                n == self.entries@.len(),
                i <= n,
                m0 == self.model(),
                ttl_live(m0, now) == keep@.map_values(|e: TtlEntry| e@) + ttl_live(
                    m0.subrange(i as int, n as int),
                    now,
                ),
                ttl_expired_keys(m0, now) == victims.deep_view() + ttl_expired_keys(
                    m0.subrange(i as int, n as int),
                    now,
                ),
            decreases n - i,
        {
            proof {
                let suffix = m0.subrange(i as int, n as int);
                assert(suffix[0] == m0[i as int]);
                assert(suffix.subrange(1, suffix.len() as int) =~= m0.subrange(
                    i + 1,
                    n as int,
                ));
            }
            let ghost keepm = keep@.map_values(|e: TtlEntry| e@);
            let ghost vdv = victims.deep_view();
            let expires_at = self.entries[i].expires_at;
            let k = self.entries[i].key.clone();
            if expires_at > now {
                keep.push(TtlEntry { key: k, expires_at });
                proof {
                    assert(keep@.map_values(|e: TtlEntry| e@) =~= keepm.push(m0[i as int]));
                    assert(ttl_live(m0, now) =~= keep@.map_values(|e: TtlEntry| e@) + ttl_live(
                        m0.subrange(i + 1, n as int),
                        now,
                    ));
                }
            } else {
                victims.push(k);
                proof {
                    assert(victims.deep_view() =~= vdv.push(m0[i as int].key));
                    assert(ttl_expired_keys(m0, now) =~= victims.deep_view() + ttl_expired_keys(
                        m0.subrange(i + 1, n as int),
                        now,
                    ));
                }
            }
            i = i + 1;
        }
        proof {
            assert(m0.subrange(n as int, n as int) =~= Seq::<TtlEntryModel>::empty());
            assert(ttl_live(m0, now) =~= keep@.map_values(|e: TtlEntry| e@));
            assert(ttl_expired_keys(m0, now) =~= victims.deep_view());
        }
        self.entries = keep;
        proof {
            lemma_ttl_live_elems(m0, now);
        }
        victims
    }
}

} // verus!
