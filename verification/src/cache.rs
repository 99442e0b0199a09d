//! The cache policies: a bounded-size LRU cache and a TTL cache, each
//! composing a metadata store with blob storage, and the no-op cache used
//! for rules that bypass caching. The laws the policies obey — round trip,
//! size rejection, bounded total size, replace accounting, stream sizing and
//! TTL expiry — are stated and proved here over the stores' models.

use crate::data::CacheData;
use crate::lru::{
    lemma_lru_find, lemma_lru_find_unique, lemma_lru_min_idx, lemma_lru_sum_element,
    lemma_lru_sum_nonneg, lemma_lru_sum_push, lemma_lru_sum_update, lemma_lru_evict,
    lemma_lru_unique_remove, lru_atime_of, lru_bump, lru_contains, lru_evict, lru_evict_keys,
    lru_find, lru_keys_unique, lru_min_idx, lru_record, lru_size_of, lru_sum, LruEntryModel,
    LruMetadataDb,
};
use crate::storage::MemStorage;
use crate::ttl::{
    lemma_ttl_find, lemma_ttl_find_unique, lemma_ttl_live, ttl_contains, ttl_expired_keys,
    ttl_expiry_of, ttl_find, ttl_keys_unique, ttl_live, ttl_record, TtlEntryModel, TtlMetadataDb,
};
use vstd::prelude::*;

verus! {

/// The storage map after removing each key in `keys`, in order.
pub open spec fn remove_keys(st: Map<Seq<char>, Seq<u8>>, keys: Seq<Seq<char>>) -> Map<
    Seq<char>,
    Seq<u8>,
>
    decreases keys.len(),
{
    if keys.len() == 0 {
        st
    } else {
        remove_keys(st.remove(keys[0]), keys.subrange(1, keys.len() as int))
    }
}

/// Removing a batch of keys removes exactly those keys and keeps the other
/// values.
pub proof fn lemma_remove_keys(st: Map<Seq<char>, Seq<u8>>, keys: Seq<Seq<char>>)
    ensures
        forall|k: Seq<char>| #[trigger]
            remove_keys(st, keys).contains_key(k) <==> (st.contains_key(k) && !keys.contains(k)),
        forall|k: Seq<char>| #[trigger]
            remove_keys(st, keys).contains_key(k) ==> remove_keys(st, keys)[k] == st[k],
    decreases keys.len(),
{
    if keys.len() > 0 {
        let rest = keys.subrange(1, keys.len() as int);
        let sub = remove_keys(st.remove(keys[0]), rest);
        lemma_remove_keys(st.remove(keys[0]), rest);
        assert(forall|j: int| 0 <= j < rest.len() ==> rest[j] == keys[j + 1]);
        assert(remove_keys(st, keys) == sub);
        assert forall|k: Seq<char>|
            (#[trigger] remove_keys(st, keys).contains_key(k) <==> (st.contains_key(k)
                && !keys.contains(k))) && (remove_keys(st, keys).contains_key(k) ==> remove_keys(
                st,
                keys,
            )[k] == st[k]) by {
            assert(sub.contains_key(k) <==> (st.remove(keys[0]).contains_key(k) && !rest.contains(
                k,
            )));
            assert(sub.contains_key(k) ==> sub[k] == st.remove(keys[0])[k]);
            if keys.contains(k) {
                let w = choose|w: int| 0 <= w < keys.len() && keys[w] == k;
                if w > 0 {
                    assert(rest[w - 1] == k);
                    assert(rest.contains(k));
                }
            }
            if rest.contains(k) {
                let w = choose|w: int| 0 <= w < rest.len() && rest[w] == k;
                assert(keys[w + 1] == k);
                assert(keys.contains(k));
            }
            if k == keys[0] {
                assert(keys.contains(k));
            }
        }
    }
}

/// Whether a bounded cache turns the insert away: a stream without a
/// declared length, or a payload larger than the size limit.
pub open spec fn lru_put_rejects(data: CacheData, limit: u64) -> bool {
    !data.spec_has_known_len() || data.spec_len() > limit
}

/// The metadata model after `put`: unchanged on rejection, else the record
/// for the key inserted after eviction has made room.
pub open spec fn lru_put_meta(
    m: Seq<LruEntryModel>,
    k: Seq<char>,
    data: CacheData,
    limit: u64,
    now: i64,
) -> Seq<LruEntryModel> {
    if lru_put_rejects(data, limit) {
        m
    } else {
        let s = data.spec_len() as u64;
        lru_record(lru_evict(m, s, limit), k, s, now)
    }
}

/// The storage map after `put`: unchanged on rejection, else the evicted
/// blobs removed and the new blob inserted.
pub open spec fn lru_put_store(
    st: Map<Seq<char>, Seq<u8>>,
    m: Seq<LruEntryModel>,
    k: Seq<char>,
    data: CacheData,
    limit: u64,
    now: i64,
) -> Map<Seq<char>, Seq<u8>> {
    if lru_put_rejects(data, limit) {
        st
    } else {
        let s = data.spec_len() as u64;
        remove_keys(st, lru_evict_keys(m, s, limit)).insert(k, data.spec_content())
    }
}

/// What `get` yields: the stored bytes on a metadata hit, nothing on a miss.
pub open spec fn lru_get_result(
    m: Seq<LruEntryModel>,
    st: Map<Seq<char>, Seq<u8>>,
    k: Seq<char>,
) -> Option<Seq<u8>> {
    if lru_contains(m, k) {
        Some(st[k])
    } else {
        None
    }
}

/// Inserting a record makes its key present with exactly the given size and
/// access time, leaves every other key's record alone, and keeps keys
/// unique.
pub proof fn lemma_lru_record_props(m: Seq<LruEntryModel>, k: Seq<char>, s: u64, now: i64)
    requires
        lru_keys_unique(m),
    ensures
        lru_keys_unique(lru_record(m, k, s, now)),
        lru_contains(lru_record(m, k, s, now), k),
        lru_size_of(lru_record(m, k, s, now), k) == s,
        lru_atime_of(lru_record(m, k, s, now), k) == now,
        forall|k2: Seq<char>|
            k2 != k ==> (#[trigger] lru_contains(lru_record(m, k, s, now), k2) <==> lru_contains(
                m,
                k2,
            )),
        lru_sum(lru_record(m, k, s, now)) == lru_sum(m) - lru_size_of(m, k) + s,
{
    lemma_lru_find(m, k);
    let r = lru_record(m, k, s, now);
    let e = LruEntryModel { key: k, size: s, atime: now };
    match lru_find(m, k) {
        Some(i) => {
            assert(r =~= m.update(i, e));
            lemma_lru_sum_update(m, i, e);
            assert forall|a: int, b: int| 0 <= a < b < r.len() implies r[a].key != r[b].key by {
                assert(m[a].key != m[b].key);
                assert(m[i].key == k);
                assert(r[a].key == if a == i {
                    k
                } else {
                    m[a].key
                });
                assert(r[b].key == if b == i {
                    k
                } else {
                    m[b].key
                });
            }
            lemma_lru_find_unique(r, k, i);
            assert(r[i].key == k);
            assert(lru_contains(r, k));
            assert forall|k2: Seq<char>|
                k2 != k implies (#[trigger] lru_contains(r, k2) <==> lru_contains(m, k2)) by {
                if lru_contains(r, k2) {
                    let w = choose|w: int| 0 <= w < r.len() && #[trigger] r[w].key == k2;
                    assert(w != i);
                    assert(m[w].key == k2);
                }
                if lru_contains(m, k2) {
                    let w = choose|w: int| 0 <= w < m.len() && #[trigger] m[w].key == k2;
                    assert(w != i);
                    assert(r[w].key == k2);
                }
            }
        },
        None => {
            assert(r =~= m.push(e));
            lemma_lru_sum_push(m, e);
            let n = m.len() as int;
            assert forall|a: int, b: int| 0 <= a < b < r.len() implies r[a].key != r[b].key by {
                if b < n {
                    assert(m[a].key != m[b].key);
                } else {
                    assert(m[a].key != k);
                }
                assert(r[a].key == if a == n {
                    k
                } else {
                    m[a].key
                });
                assert(r[b].key == if b == n {
                    k
                } else {
                    m[b].key
                });
            }
            lemma_lru_find_unique(r, k, n);
            assert(r[n].key == k);
            assert(lru_contains(r, k));
            assert forall|k2: Seq<char>|
                k2 != k implies (#[trigger] lru_contains(r, k2) <==> lru_contains(m, k2)) by {
                if lru_contains(r, k2) {
                    let w = choose|w: int| 0 <= w < r.len() && #[trigger] r[w].key == k2;
                    assert(w != n);
                    assert(m[w].key == k2);
                }
                if lru_contains(m, k2) {
                    let w = choose|w: int| 0 <= w < m.len() && #[trigger] m[w].key == k2;
                    assert(r[w].key == k2);
                }
            }
        },
    }
}

/// Eviction keeps exactly the keys it did not evict.
pub proof fn lemma_lru_evict_contains(m: Seq<LruEntryModel>, incoming: u64, limit: u64)
    requires
        lru_keys_unique(m),
    ensures
        forall|k: Seq<char>| #[trigger]
            lru_contains(lru_evict(m, incoming, limit), k) <==> (lru_contains(m, k)
                && !lru_evict_keys(m, incoming, limit).contains(k)),
    decreases m.len(),
{
    let ev = lru_evict(m, incoming, limit);
    let keys = lru_evict_keys(m, incoming, limit);
    if m.len() == 0 || lru_sum(m) + incoming <= limit {
        assert(keys =~= Seq::<Seq<char>>::empty());
        assert(forall|k: Seq<char>| !keys.contains(k));
    } else {
        let i = lru_min_idx(m);
        lemma_lru_min_idx(m);
        let m2 = m.remove(i);
        lemma_lru_unique_remove(m, i);
        lemma_lru_evict_contains(m2, incoming, limit);
        let keys2 = lru_evict_keys(m2, incoming, limit);
        assert(keys =~= seq![m[i].key] + keys2);
        assert(forall|j: int| 0 <= j < keys2.len() ==> keys[j + 1] == keys2[j]);
        assert(forall|j: int| 0 <= j < i ==> m2[j] == m[j]);
        assert(forall|j: int| i <= j < m2.len() ==> m2[j] == m[j + 1]);
        assert forall|k: Seq<char>| #[trigger]
            lru_contains(ev, k) <==> (lru_contains(m, k) && !keys.contains(k)) by {
            assert(ev == lru_evict(m2, incoming, limit));
            assert(lru_contains(lru_evict(m2, incoming, limit), k) <==> (lru_contains(m2, k)
                && !keys2.contains(k)));
            if keys2.contains(k) {
                let w = choose|w: int| 0 <= w < keys2.len() && keys2[w] == k;
                assert(keys[w + 1] == k);
                assert(keys.contains(k));
            }
            if keys.contains(k) && k != m[i].key {
                let w = choose|w: int| 0 <= w < keys.len() && keys[w] == k;
                assert(w > 0);
                assert(keys2[w - 1] == k);
                assert(keys2.contains(k));
            }
            if lru_contains(m2, k) {
                let w = choose|w: int| 0 <= w < m2.len() && #[trigger] m2[w].key == k;
                let w2 = if w < i {
                    w
                } else {
                    w + 1
                };
                assert(m[w2].key == k);
                assert(lru_contains(m, k));
                if k == m[i].key {
                    assert(w2 != i);
                    assert(m[w2].key != m[i].key);
                    assert(false);
                }
            }
            if lru_contains(m, k) && k != m[i].key {
                let w = choose|w: int| 0 <= w < m.len() && #[trigger] m[w].key == k;
                assert(w != i);
                let w2 = if w < i {
                    w
                } else {
                    w - 1
                };
                assert(m2[w2].key == k);
                assert(lru_contains(m2, k));
            }
            if k == m[i].key {
                assert(keys[0] == k);
                assert(keys.contains(k));
            }
        }
    }
}

/// Removing one record leaves every other key's record unchanged.
proof fn lemma_lru_remove_preserves(m: Seq<LruEntryModel>, i: int, k: Seq<char>)
    requires
        lru_keys_unique(m),
        0 <= i < m.len(),
        k != m[i].key,
    ensures
        lru_contains(m.remove(i), k) <==> lru_contains(m, k),
        lru_contains(m, k) ==> lru_atime_of(m.remove(i), k) == lru_atime_of(m, k)
            && lru_size_of(m.remove(i), k) == lru_size_of(m, k),
{
    let m2 = m.remove(i);
    assert(forall|j: int| 0 <= j < i ==> m2[j] == m[j]);
    assert(forall|j: int| i <= j < m2.len() ==> m2[j] == m[j + 1]);
    lemma_lru_find(m, k);
    lemma_lru_find(m2, k);
    if lru_contains(m, k) {
        let w = choose|w: int| 0 <= w < m.len() && #[trigger] m[w].key == k;
        assert(w != i);
        let w2 = if w < i {
            w
        } else {
            w - 1
        };
        assert(m2[w2].key == k);
        assert(lru_contains(m2, k));
        let f = lru_find(m, k)->Some_0;
        let f2 = lru_find(m2, k)->Some_0;
        assert(m[f].key == k && m2[f2].key == k);
        let f2up = if f2 < i {
            f2
        } else {
            f2 + 1
        };
        assert(m2[f2] == m[f2up]);
        assert(m[f2up].key == k);
        assert(f2up == f);
    }
    if lru_contains(m2, k) {
        let w = choose|w: int| 0 <= w < m2.len() && #[trigger] m2[w].key == k;
        let w2 = if w < i {
            w
        } else {
            w + 1
        };
        assert(m[w2].key == k);
        assert(lru_contains(m, k));
    }
}

/// Eviction takes the oldest entries: every evicted key's access time is at
/// most every survivor's.
pub proof fn lemma_lru_evict_oldest_first(m: Seq<LruEntryModel>, incoming: u64, limit: u64)
    requires
        lru_keys_unique(m),
    ensures
        forall|k1: Seq<char>, k2: Seq<char>|
            #![trigger lru_evict_keys(m, incoming, limit).contains(k1), lru_contains(lru_evict(m, incoming, limit), k2)]
            lru_evict_keys(m, incoming, limit).contains(k1) && lru_contains(
                lru_evict(m, incoming, limit),
                k2,
            ) ==> lru_atime_of(m, k1) <= lru_atime_of(m, k2),
    decreases m.len(),
{
    if !(m.len() == 0 || lru_sum(m) + incoming <= limit) {
        let i = lru_min_idx(m);
        lemma_lru_min_idx(m);
        let m2 = m.remove(i);
        lemma_lru_unique_remove(m, i);
        lemma_lru_evict_oldest_first(m2, incoming, limit);
        lemma_lru_evict_contains(m2, incoming, limit);
        let keys = lru_evict_keys(m, incoming, limit);
        let keys2 = lru_evict_keys(m2, incoming, limit);
        let ev = lru_evict(m, incoming, limit);
        assert(keys == seq![m[i].key] + keys2);
        assert(forall|j: int| 0 <= j < keys2.len() ==> keys[j + 1] == keys2[j]);
        assert(ev == lru_evict(m2, incoming, limit));
        assert forall|k1: Seq<char>, k2: Seq<char>|
            keys.contains(k1) && lru_contains(ev, k2) implies lru_atime_of(m, k1) <= lru_atime_of(
            m,
            k2,
        ) by {
            lemma_lru_find(m, k2);
            assert(lru_contains(lru_evict(m2, incoming, limit), k2));
            assert(lru_contains(m2, k2));
            let w2 = choose|w: int| 0 <= w < m2.len() && #[trigger] m2[w].key == k2;
            assert(k2 != m[i].key) by {
                let wup = if w2 < i {
                    w2
                } else {
                    w2 + 1
                };
                assert(m[wup] == m2[w2]);
                assert(m[wup].key != m[i].key);
            }
            lemma_lru_remove_preserves(m, i, k2);
            if k1 == m[i].key {
                lemma_lru_find_unique(m, k1, i);
                assert(lru_atime_of(m, k1) == m[i].atime);
                let f = lru_find(m, k2)->Some_0;
                assert(lru_atime_of(m, k2) == m[f].atime);
                assert(m[f].atime >= m[i].atime);
            } else {
                let w = choose|w: int| 0 <= w < keys.len() && keys[w] == k1;
                assert(w > 0);
                assert(keys2[w - 1] == k1);
                assert(keys2.contains(k1));
                assert(lru_atime_of(m2, k1) <= lru_atime_of(m2, k2));
                assert(lru_contains(m2, k1)) by {
                    lemma_lru_evict_contains(m2, incoming, limit);
                    lemma_lru_evict_keys_in(m2, incoming, limit, k1);
                }
                lemma_lru_remove_preserves(m, i, k1);
            }
        }
    }
}

/// Every evicted key was a recorded key.
pub proof fn lemma_lru_evict_keys_in(
    m: Seq<LruEntryModel>,
    incoming: u64,
    limit: u64,
    k: Seq<char>,
)
    requires
        lru_keys_unique(m),
        lru_evict_keys(m, incoming, limit).contains(k),
    ensures
        lru_contains(m, k),
    decreases m.len(),
{
    if !(m.len() == 0 || lru_sum(m) + incoming <= limit) {
        let i = lru_min_idx(m);
        lemma_lru_min_idx(m);
        let m2 = m.remove(i);
        lemma_lru_unique_remove(m, i);
        let keys = lru_evict_keys(m, incoming, limit);
        let keys2 = lru_evict_keys(m2, incoming, limit);
        assert(keys == seq![m[i].key] + keys2);
        assert(forall|j: int| 0 <= j < keys2.len() ==> keys[j + 1] == keys2[j]);
        let w = choose|w: int| 0 <= w < keys.len() && keys[w] == k;
        if w == 0 {
            assert(m[i].key == k);
            assert(lru_contains(m, k));
        } else {
            assert(keys2[w - 1] == k);
            assert(keys2.contains(k));
            lemma_lru_evict_keys_in(m2, incoming, limit, k);
            let v = choose|v: int| 0 <= v < m2.len() && #[trigger] m2[v].key == k;
            let vup = if v < i {
                v
            } else {
                v + 1
            };
            assert(m[vup] == m2[v]);
            assert(lru_contains(m, k));
        }
    }
}

/// The bounded-size LRU cache: metadata store plus blob storage, governed by
/// a byte limit.
pub struct LruCache {
    pub size_limit: u64,
    pub metadata_db: LruMetadataDb,
    pub storage: MemStorage,
}

impl LruCache {
    /// Both components are well formed and track the same key set: every
    /// metadata record has a live blob, and vice versa.
    pub open spec fn wf(&self) -> bool {
        &&& self.metadata_db.wf()
        &&& self.storage.wf()
        &&& forall|k: Seq<char>| #[trigger]
            lru_contains(self.metadata_db.model(), k) <==> self.storage@.contains_key(k)
    }

    /// Assembles a cache from its parts; they must agree on the stored keys.
    pub fn new(size_limit: u64, metadata_db: LruMetadataDb, storage: MemStorage) -> (r: LruCache)
        requires
            metadata_db.wf(),
            storage.wf(),
            forall|k: Seq<char>| #[trigger]
                lru_contains(metadata_db.model(), k) <==> storage@.contains_key(k),
        ensures
            r.wf(),
            r.size_limit == size_limit,
            r.metadata_db == metadata_db,
            r.storage == storage,
    {
        LruCache { size_limit, metadata_db, storage }
    }

    /// Inserts `entry` under `key` at time `now`. A stream without a declared
    /// length, or a payload over the size limit, is turned away and the cache
    /// is left unchanged. Otherwise eviction first makes room (so the new
    /// entry never counts against itself), the evicted blobs are removed, the
    /// metadata record is written, and the blob is persisted.
    pub fn put(&mut self, key: &str, entry: CacheData, now: i64)
        requires
            old(self).wf(),
        ensures
            final(self).wf(),
            final(self).size_limit == old(self).size_limit,
            final(self).metadata_db.model() == lru_put_meta(
                old(self).metadata_db.model(),
                key@,
                entry,
                old(self).size_limit,
                now,
            ),
            final(self).storage@ == lru_put_store(
                old(self).storage@,
                old(self).metadata_db.model(),
                key@,
                entry,
                old(self).size_limit,
                now,
            ),
    {
        if !entry.has_known_len() {
            return ;
        }
        let s = entry.len();
        if s > self.size_limit {
            return ;
        }
        let ghost m0 = self.metadata_db.model();
        let ghost st0 = self.storage@;
        let evicted = self.metadata_db.evict(s, self.size_limit);
        let ghost md1 = self.metadata_db;
        let ghost lim = self.size_limit;
        let ghost keys = lru_evict_keys(m0, s, self.size_limit);
        let n = evicted.len();
        let mut i: usize = 0;
        proof {
            assert(keys.subrange(0, keys.len() as int) =~= keys);
        }
        while i < n
            invariant
                n == evicted@.len(),
                i <= n,
                evicted.deep_view() == keys,
                self.storage.wf(),
                self.metadata_db == md1,
                self.size_limit == lim,
                remove_keys(st0, keys) == remove_keys(
                    self.storage@,
                    keys.subrange(i as int, n as int),
                ),
            decreases n - i,
        {
            proof {
                let suffix = keys.subrange(i as int, n as int);
                assert(suffix[0] == keys[i as int]);
                assert(suffix.subrange(1, suffix.len() as int) =~= keys.subrange(
                    i + 1,
                    n as int,
                ));
                assert(evicted@[i as int]@ == keys[i as int]);
            }
            self.storage.remove(evicted[i].as_str());
            i = i + 1;
        }
        proof {
            assert(keys.subrange(n as int, n as int) =~= Seq::<Seq<char>>::empty());
            lemma_lru_sum_nonneg(self.metadata_db.model());
            if self.metadata_db.model().len() == 0 {
                assert(lru_find(self.metadata_db.model(), key@) is None);
            }
            lemma_lru_find(self.metadata_db.model(), key@);
            if lru_find(self.metadata_db.model(), key@) is Some {
                lemma_lru_sum_element(
                    self.metadata_db.model(),
                    lru_find(self.metadata_db.model(), key@)->Some_0,
                );
            }
        }
        self.metadata_db.set_lru_entry(key, s, now);
        self.storage.persist(key, entry);
        proof {
            let lim = old(self).size_limit;
            let m1 = lru_evict(m0, s, lim);
            lemma_lru_evict(m0, s, lim);
            lemma_lru_evict_contains(m0, s, lim);
            lemma_lru_record_props(m1, key@, s, now);
            lemma_remove_keys(st0, keys);
            assert forall|k2: Seq<char>| #[trigger]
                lru_contains(self.metadata_db.model(), k2)
                    <==> self.storage@.contains_key(k2) by {
                if k2 != key@ {
                    assert(lru_contains(self.metadata_db.model(), k2) <==> lru_contains(m1, k2));
                    assert(lru_contains(m0, k2) <==> st0.contains_key(k2));
                }
            }
        }
    }

    /// Looks `key` up at time `now`. A metadata hit bumps the access time and
    /// reads the blob back as a byte stream; a blob missing after a metadata
    /// hit yields `None` (the record is left for eviction to reap). A miss
    /// changes nothing.
    pub fn get(&mut self, key: &str, now: i64) -> (r: Option<CacheData>)
        requires
            old(self).wf(),
        ensures
            final(self).wf(),
            final(self).size_limit == old(self).size_limit,
            final(self).metadata_db.model() == lru_bump(old(self).metadata_db.model(), key@, now),
            final(self).storage@ == old(self).storage@,
            r is Some <==> lru_get_result(
                old(self).metadata_db.model(),
                old(self).storage@,
                key@,
            ) is Some,
            r is Some ==> r->Some_0.spec_content() == lru_get_result(
                old(self).metadata_db.model(),
                old(self).storage@,
                key@,
            )->Some_0 && r->Some_0.spec_has_known_len(),
    {
        let ghost m0 = self.metadata_db.model();
        proof {
            lemma_lru_find(m0, key@);
        }
        let hit = self.metadata_db.get_lru_entry(key, now);
        proof {
            let m1 = self.metadata_db.model();
            assert forall|k2: Seq<char>| #[trigger]
                lru_contains(m1, k2) <==> lru_contains(m0, k2) by {
                match lru_find(m0, key@) {
                    Some(i) => {
                        assert(m1 =~= m0.update(
                            i,
                            LruEntryModel { key: m0[i].key, size: m0[i].size, atime: now },
                        ));
                        assert(forall|j: int|
                            0 <= j < m1.len() ==> #[trigger] m1[j].key == m0[j].key);
                        if lru_contains(m1, k2) {
                            let w = choose|w: int| 0 <= w < m1.len() && #[trigger] m1[w].key == k2;
                            assert(m0[w].key == k2);
                        }
                        if lru_contains(m0, k2) {
                            let w = choose|w: int| 0 <= w < m0.len() && #[trigger] m0[w].key == k2;
                            assert(m1[w].key == k2);
                        }
                    },
                    None => {},
                }
            }
        }
        match hit {
            crate::CacheHitMiss::Hit => self.storage.read(key),
            crate::CacheHitMiss::Miss => None,
        }
    }

    /// The authoritative total of the recorded sizes.
    pub fn get_total_size(&self) -> (r: u64)
        requires
            self.wf(),
        ensures
            r == lru_sum(self.metadata_db.model()),
    {
        self.metadata_db.get_total_size()
    }
}

/// The TTL cache: every entry expires a fixed number of seconds after it is
/// written; a sweep reaps expired records and their blobs.
pub struct TtlCache {
    pub ttl: u64,
    pub metadata_db: TtlMetadataDb,
    pub storage: MemStorage,
}

impl TtlCache {
    /// Both components are well formed and track the same key set.
    pub open spec fn wf(&self) -> bool {
        &&& self.metadata_db.wf()
        &&& self.storage.wf()
        &&& forall|k: Seq<char>| #[trigger]
            ttl_contains(self.metadata_db.model(), k) <==> self.storage@.contains_key(k)
    }

    /// Assembles a cache from its parts; they must agree on the stored keys.
    pub fn new(ttl: u64, metadata_db: TtlMetadataDb, storage: MemStorage) -> (r: TtlCache)
        requires
            metadata_db.wf(),
            storage.wf(),
            forall|k: Seq<char>| #[trigger]
                ttl_contains(metadata_db.model(), k) <==> storage@.contains_key(k),
        ensures
            r.wf(),
            r.ttl == ttl,
            r.metadata_db == metadata_db,
            r.storage == storage,
    {
        TtlCache { ttl, metadata_db, storage }
    }

    /// Inserts `entry` under `key` at time `now`, to expire `ttl` seconds
    /// later; a prior record under the key is overwritten.
    pub fn put(&mut self, key: &str, entry: CacheData, now: i64)
        requires
            old(self).wf(),
            0 <= now,
            now + old(self).ttl * 1_000_000_000 <= i64::MAX,
        ensures
            final(self).wf(),
            final(self).ttl == old(self).ttl,
            final(self).metadata_db.model() == ttl_record(
                old(self).metadata_db.model(),
                key@,
                (now + old(self).ttl * 1_000_000_000) as i64,
            ),
            final(self).storage@ == old(self).storage@.insert(key@, entry.spec_content()),
    {
        let ghost m0 = self.metadata_db.model();
        let ttl = self.ttl;
        self.metadata_db.set_ttl_entry(key, ttl, now);
        self.storage.persist(key, entry);
        proof {
            let m1 = self.metadata_db.model();
            let e = TtlEntryModel {
                key: key@,
                expires_at: (now + old(self).ttl * 1_000_000_000) as i64,
            };
            lemma_ttl_find(m0, key@);
            assert forall|k2: Seq<char>| #[trigger]
                ttl_contains(m1, k2) <==> (ttl_contains(m0, k2) || k2 == key@) by {
                match ttl_find(m0, key@) {
                    Some(i) => {
                        assert(m1 =~= m0.update(i, e));
                        assert(m0[i].key == key@);
                        if ttl_contains(m1, k2) {
                            let w = choose|w: int| 0 <= w < m1.len() && #[trigger] m1[w].key == k2;
                            if w != i {
                                assert(m0[w].key == k2);
                            }
                        }
                        if ttl_contains(m0, k2) && k2 != key@ {
                            let w = choose|w: int| 0 <= w < m0.len() && #[trigger] m0[w].key == k2;
                            assert(w != i);
                            assert(m1[w].key == k2);
                        }
                        assert(m1[i].key == key@);
                    },
                    None => {
                        assert(m1 =~= m0.push(e));
                        let n = m0.len() as int;
                        if ttl_contains(m1, k2) {
                            let w = choose|w: int| 0 <= w < m1.len() && #[trigger] m1[w].key == k2;
                            if w != n {
                                assert(m0[w].key == k2);
                            }
                        }
                        if ttl_contains(m0, k2) {
                            let w = choose|w: int| 0 <= w < m0.len() && #[trigger] m0[w].key == k2;
                            assert(m1[w].key == k2);
                        }
                        assert(m1[n].key == key@);
                    },
                }
            }
        }
    }

    /// Looks `key` up at time `now`: the blob comes back as a byte stream
    /// when an unexpired record exists; an expired or absent record is a
    /// miss. Nothing is modified; expired records wait for the sweep.
    pub fn get(&self, key: &str, now: i64) -> (r: Option<CacheData>)
        requires
            self.wf(),
        ensures
            r is Some <==> (ttl_contains(self.metadata_db.model(), key@) && ttl_expiry_of(
                self.metadata_db.model(),
                key@,
            ) > now),
            r is Some ==> r->Some_0.spec_content() == self.storage@[key@]
                && r->Some_0.spec_has_known_len(),
    {
        match self.metadata_db.get_ttl_entry(key, now) {
            crate::CacheHitMiss::Hit => {
                proof {
                    lemma_ttl_find(self.metadata_db.model(), key@);
                    let f = ttl_find(self.metadata_db.model(), key@)->Some_0;
                    assert(self.metadata_db.model()[f].key == key@);
                    assert(ttl_contains(self.metadata_db.model(), key@));
                }
                self.storage.read(key)
            },
            crate::CacheHitMiss::Miss => None,
        }
    }

    /// Reaps every record that has expired by `now`, removing its metadata
    /// and its blob, and reports how many were reaped.
    pub fn sweep_expired(&mut self, now: i64) -> (r: usize)
        requires
            old(self).wf(),
        ensures
            final(self).wf(),
            final(self).ttl == old(self).ttl,
            final(self).metadata_db.model() == ttl_live(old(self).metadata_db.model(), now),
            final(self).storage@ == remove_keys(
                old(self).storage@,
                ttl_expired_keys(old(self).metadata_db.model(), now),
            ),
            r == ttl_expired_keys(old(self).metadata_db.model(), now).len(),
    {
        let ghost m0 = self.metadata_db.model();
        let ghost st0 = self.storage@;
        let victims = self.metadata_db.sweep(now);
        let ghost md1 = self.metadata_db;
        let ghost tt = self.ttl;
        let ghost keys = ttl_expired_keys(m0, now);
        let n = victims.len();
        let mut i: usize = 0;
        proof {
            assert(keys.subrange(0, keys.len() as int) =~= keys);
        }
        while i < n
            invariant
                n == victims@.len(),
                i <= n,
                victims.deep_view() == keys,
                self.storage.wf(),
                self.metadata_db == md1,
                self.ttl == tt,
                remove_keys(st0, keys) == remove_keys(
                    self.storage@,
                    keys.subrange(i as int, n as int),
                ),
            decreases n - i,
        {
            proof {
                let suffix = keys.subrange(i as int, n as int);
                assert(suffix[0] == keys[i as int]);
                assert(suffix.subrange(1, suffix.len() as int) =~= keys.subrange(
                    i + 1,
                    n as int,
                ));
                assert(victims@[i as int]@ == keys[i as int]);
            }
            self.storage.remove(victims[i].as_str());
            i = i + 1;
        }
        proof {
            assert(keys.subrange(n as int, n as int) =~= Seq::<Seq<char>>::empty());
            lemma_ttl_live(m0, now);
            lemma_ttl_expired_keys(m0, now);
            lemma_remove_keys(st0, keys);
            assert forall|k2: Seq<char>| #[trigger]
                ttl_contains(self.metadata_db.model(), k2)
                    <==> self.storage@.contains_key(k2) by {
                assert(ttl_contains(m0, k2) <==> st0.contains_key(k2));
            }
        }
        n
    }
}

/// A sweep reaps exactly the keys of the expired records.
pub proof fn lemma_ttl_expired_keys(m: Seq<TtlEntryModel>, now: i64)
    requires
        ttl_keys_unique(m),
    ensures
        forall|k: Seq<char>| #[trigger]
            ttl_expired_keys(m, now).contains(k) <==> (ttl_contains(m, k) && ttl_expiry_of(m, k)
                <= now),
    decreases m.len(),
{
    let keys = ttl_expired_keys(m, now);
    if m.len() == 0 {
        assert forall|k: Seq<char>| #[trigger] keys.contains(k) implies false by {
            let w = choose|w: int| 0 <= w < keys.len() && keys[w] == k;
        }
    } else {
        let rest = m.subrange(1, m.len() as int);
        assert(forall|j: int| 0 <= j < rest.len() ==> rest[j] == m[j + 1]);
        assert forall|a: int, b: int| 0 <= a < b < rest.len() implies rest[a].key != rest[b].key by {
            assert(m[a + 1].key != m[b + 1].key);
        }
        lemma_ttl_expired_keys(rest, now);
        let krest = ttl_expired_keys(rest, now);
        let dropped = !(m[0].expires_at > now);
        assert forall|k: Seq<char>| #[trigger]
            keys.contains(k) <==> (ttl_contains(m, k) && ttl_expiry_of(m, k) <= now) by {
            lemma_ttl_find(m, k);
            lemma_ttl_find(rest, k);
            if dropped {
                assert(keys == seq![m[0].key] + krest);
                assert(keys[0] == m[0].key);
                assert(forall|j: int| 0 <= j < krest.len() ==> keys[j + 1] == krest[j]);
            } else {
                assert(keys == krest);
            }
            if k == m[0].key {
                assert(ttl_find(m, k) == Some(0int));
                assert(ttl_contains(m, k));
                assert(ttl_expiry_of(m, k) == m[0].expires_at);
                if dropped {
                    assert(keys[0] == k);
                    assert(keys.contains(k));
                } else {
                    if keys.contains(k) {
                        let w = choose|w: int| 0 <= w < krest.len() && krest[w] == k;
                        assert(krest.contains(k));
                        assert(ttl_contains(rest, k));
                        let v = choose|v: int| 0 <= v < rest.len() && #[trigger] rest[v].key == k;
                        assert(m[v + 1].key == k);
                        assert(m[v + 1].key != m[0].key);
                        assert(false);
                    }
                }
            } else {
                if ttl_contains(m, k) {
                    let w = choose|w: int| 0 <= w < m.len() && #[trigger] m[w].key == k;
                    assert(w > 0);
                    assert(rest[w - 1].key == k);
                    assert(ttl_contains(rest, k));
                    let f = ttl_find(m, k)->Some_0;
                    assert(f > 0);
                    assert(rest[f - 1].key == k);
                    let g = ttl_find(rest, k)->Some_0;
                    assert(rest[g].key == k);
                    assert(m[g + 1].key == k && m[f].key == k);
                    assert(g + 1 == f);
                    assert(ttl_expiry_of(m, k) == ttl_expiry_of(rest, k));
                }
                if ttl_contains(rest, k) {
                    let w = choose|w: int| 0 <= w < rest.len() && #[trigger] rest[w].key == k;
                    assert(m[w + 1].key == k);
                    assert(ttl_contains(m, k));
                }
                if keys.contains(k) {
                    let w = choose|w: int| 0 <= w < keys.len() && keys[w] == k;
                    if dropped {
                        assert(w > 0);
                        assert(krest[w - 1] == k);
                    } else {
                        assert(krest[w] == k);
                    }
                    assert(krest.contains(k));
                }
                if krest.contains(k) {
                    let w = choose|w: int| 0 <= w < krest.len() && krest[w] == k;
                    if dropped {
                        assert(keys[w + 1] == k);
                    } else {
                        assert(keys[w] == k);
                    }
                    assert(keys.contains(k));
                }
            }
        }
    }
}

/// Inserting a TTL record makes its key present with exactly the given
/// expiration, leaves other keys alone, and keeps keys unique.
pub proof fn lemma_ttl_record_props(m: Seq<TtlEntryModel>, k: Seq<char>, exp: i64)
    requires
        ttl_keys_unique(m),
    ensures
        ttl_keys_unique(ttl_record(m, k, exp)),
        ttl_contains(ttl_record(m, k, exp), k),
        ttl_expiry_of(ttl_record(m, k, exp), k) == exp,
        forall|k2: Seq<char>|
            k2 != k ==> (#[trigger] ttl_contains(ttl_record(m, k, exp), k2) <==> ttl_contains(
                m,
                k2,
            )),
{
    lemma_ttl_find(m, k);
    let r = ttl_record(m, k, exp);
    let e = TtlEntryModel { key: k, expires_at: exp };
    match ttl_find(m, k) {
        Some(i) => {
            assert(r =~= m.update(i, e));
            assert forall|a: int, b: int| 0 <= a < b < r.len() implies r[a].key != r[b].key by {
                assert(m[a].key != m[b].key);
                assert(m[i].key == k);
                assert(r[a].key == if a == i {
                    k
                } else {
                    m[a].key
                });
                assert(r[b].key == if b == i {
                    k
                } else {
                    m[b].key
                });
            }
            lemma_ttl_find_unique(r, k, i);
            assert(r[i].key == k);
            assert(ttl_contains(r, k));
            assert forall|k2: Seq<char>|
                k2 != k implies (#[trigger] ttl_contains(r, k2) <==> ttl_contains(m, k2)) by {
                if ttl_contains(r, k2) {
                    let w = choose|w: int| 0 <= w < r.len() && #[trigger] r[w].key == k2;
                    assert(w != i);
                    assert(m[w].key == k2);
                }
                if ttl_contains(m, k2) {
                    let w = choose|w: int| 0 <= w < m.len() && #[trigger] m[w].key == k2;
                    assert(w != i);
                    assert(r[w].key == k2);
                }
            }
        },
        None => {
            assert(r =~= m.push(e));
            let n = m.len() as int;
            assert forall|a: int, b: int| 0 <= a < b < r.len() implies r[a].key != r[b].key by {
                if b < n {
                    assert(m[a].key != m[b].key);
                } else {
                    assert(m[a].key != k);
                }
                assert(r[a].key == if a == n {
                    k
                } else {
                    m[a].key
                });
                assert(r[b].key == if b == n {
                    k
                } else {
                    m[b].key
                });
            }
            lemma_ttl_find_unique(r, k, n);
            assert(r[n].key == k);
            assert(ttl_contains(r, k));
            assert forall|k2: Seq<char>|
                k2 != k implies (#[trigger] ttl_contains(r, k2) <==> ttl_contains(m, k2)) by {
                if ttl_contains(r, k2) {
                    let w = choose|w: int| 0 <= w < r.len() && #[trigger] r[w].key == k2;
                    assert(w != n);
                    assert(m[w].key == k2);
                }
                if ttl_contains(m, k2) {
                    let w = choose|w: int| 0 <= w < m.len() && #[trigger] m[w].key == k2;
                    assert(r[w].key == k2);
                }
            }
        },
    }
}

/// Round trip: a `put` the bounded cache accepts is observable — a `get` of
/// the same key yields exactly the payload's bytes.
pub proof fn lemma_lru_round_trip(
    m: Seq<LruEntryModel>,
    st: Map<Seq<char>, Seq<u8>>,
    k: Seq<char>,
    data: CacheData,
    limit: u64,
    now: i64,
)
    requires
        lru_keys_unique(m),
        !lru_put_rejects(data, limit),
    ensures
        lru_get_result(
            lru_put_meta(m, k, data, limit, now),
            lru_put_store(st, m, k, data, limit, now),
            k,
        ) == Some(data.spec_content()),
{
    let s = data.spec_len() as u64;
    lemma_lru_evict(m, s, limit);
    lemma_lru_record_props(lru_evict(m, s, limit), k, s, now);
}

/// Size rejection: a `put` whose payload exceeds the limit leaves the
/// metadata, the total size and the storage unchanged, and a key that was
/// absent stays a miss.
pub proof fn lemma_lru_size_rejection(
    m: Seq<LruEntryModel>,
    st: Map<Seq<char>, Seq<u8>>,
    k: Seq<char>,
    data: CacheData,
    limit: u64,
    now: i64,
)
    requires
        data.spec_len() > limit,
    ensures
        lru_put_meta(m, k, data, limit, now) == m,
        lru_put_store(st, m, k, data, limit, now) == st,
        lru_sum(lru_put_meta(m, k, data, limit, now)) == lru_sum(m),
        !lru_contains(m, k) ==> lru_get_result(
            lru_put_meta(m, k, data, limit, now),
            lru_put_store(st, m, k, data, limit, now),
            k,
        ) is None,
{
}

/// Bounded size: a `put` never leaves the recorded total above the limit, so
/// any sequence of `put`s from a bounded state stays bounded.
pub proof fn lemma_lru_bounded_size(
    m: Seq<LruEntryModel>,
    k: Seq<char>,
    data: CacheData,
    limit: u64,
    now: i64,
)
    requires
        lru_keys_unique(m),
        lru_sum(m) <= limit,
    ensures
        lru_sum(lru_put_meta(m, k, data, limit, now)) <= limit,
{
    if !lru_put_rejects(data, limit) {
        let s = data.spec_len() as u64;
        let m1 = lru_evict(m, s, limit);
        lemma_lru_evict(m, s, limit);
        lemma_lru_record_props(m1, k, s, now);
        if m1.len() == 0 {
            assert(lru_sum(m1) == 0);
            assert(lru_find(m1, k) is None);
            assert(lru_size_of(m1, k) == 0);
        } else {
            assert(lru_sum(m1) + s <= limit);
        }
    }
}

/// A `put` keeps the record keys pairwise distinct.
pub proof fn lemma_lru_put_meta_unique(
    m: Seq<LruEntryModel>,
    k: Seq<char>,
    data: CacheData,
    limit: u64,
    now: i64,
)
    requires
        lru_keys_unique(m),
    ensures
        lru_keys_unique(lru_put_meta(m, k, data, limit, now)),
{
    if !lru_put_rejects(data, limit) {
        let s = data.spec_len() as u64;
        lemma_lru_evict(m, s, limit);
        lemma_lru_record_props(lru_evict(m, s, limit), k, s, now);
    }
}

/// The metadata model after a whole sequence of `put`s, applied in order.
pub open spec fn lru_put_meta_seq(
    m: Seq<LruEntryModel>,
    puts: Seq<(Seq<char>, CacheData, i64)>,
    limit: u64,
) -> Seq<LruEntryModel>
    decreases puts.len(),
{
    if puts.len() == 0 {
        m
    } else {
        lru_put_meta_seq(
            lru_put_meta(m, puts[0].0, puts[0].1, limit, puts[0].2),
            puts.subrange(1, puts.len() as int),
            limit,
        )
    }
}

/// Bounded size, over whole histories: starting from a bounded state, any
/// sequence of `put`s leaves the recorded total within the limit.
pub proof fn lemma_lru_bounded_size_seq(
    m: Seq<LruEntryModel>,
    puts: Seq<(Seq<char>, CacheData, i64)>,
    limit: u64,
)
    requires
        lru_keys_unique(m),
        lru_sum(m) <= limit,
    ensures
        lru_sum(lru_put_meta_seq(m, puts, limit)) <= limit,
        lru_keys_unique(lru_put_meta_seq(m, puts, limit)),
    decreases puts.len(),
{
    if puts.len() > 0 {
        lemma_lru_bounded_size(m, puts[0].0, puts[0].1, limit, puts[0].2);
        lemma_lru_put_meta_unique(m, puts[0].0, puts[0].1, limit, puts[0].2);
        lemma_lru_bounded_size_seq(
            lru_put_meta(m, puts[0].0, puts[0].1, limit, puts[0].2),
            puts.subrange(1, puts.len() as int),
            limit,
        );
    }
}

/// Replace accounting: on a fresh cache, writing `k` twice leaves the total
/// at exactly the second payload's size.
pub proof fn lemma_lru_replace_accounting(
    k: Seq<char>,
    data1: CacheData,
    data2: CacheData,
    limit: u64,
    now1: i64,
    now2: i64,
)
    requires
        !lru_put_rejects(data1, limit),
        !lru_put_rejects(data2, limit),
    ensures
        ({
            let e = Seq::<LruEntryModel>::empty();
            let m1 = lru_put_meta(e, k, data1, limit, now1);
            lru_sum(lru_put_meta(m1, k, data2, limit, now2)) == data2.spec_len()
        }),
{
    let e = Seq::<LruEntryModel>::empty();
    let s1 = data1.spec_len() as u64;
    let s2 = data2.spec_len() as u64;
    assert(lru_evict(e, s1, limit) == e);
    let m1 = lru_put_meta(e, k, data1, limit, now1);
    let e1 = LruEntryModel { key: k, size: s1, atime: now1 };
    assert(lru_find(e, k) is None);
    assert(m1 == e.push(e1));
    lemma_lru_sum_push(e, e1);
    assert(lru_sum(m1) == s1);
    assert(lru_keys_unique(m1));
    let m2 = lru_evict(m1, s2, limit);
    lemma_lru_evict(m1, s2, limit);
    if lru_sum(m1) + s2 <= limit {
        assert(m2 == m1);
        assert(m1[0].key == k);
        lemma_lru_find_unique(m1, k, 0);
        lemma_lru_record_props(m1, k, s2, now2);
        assert(lru_size_of(m1, k) == s1);
    } else {
        assert(lru_min_idx(m1) == 0);
        assert(m1.remove(0) =~= e);
        assert(lru_sum(e) == 0);
        assert(lru_evict(e, s2, limit) == e);
        assert(m2 == e);
        lemma_lru_record_props(e, k, s2, now2);
        assert(lru_size_of(e, k) == 0);
    }
}

/// Stream sizing: a byte stream with declared length `l` within the limit is
/// accounted as exactly `l`, whatever the stream actually yields.
pub proof fn lemma_lru_stream_accounted(
    m: Seq<LruEntryModel>,
    k: Seq<char>,
    data: CacheData,
    l: u64,
    limit: u64,
    now: i64,
)
    requires
        lru_keys_unique(m),
        data matches CacheData::ByteStream(_, dl) && dl == Some(l),
        l <= limit,
    ensures
        lru_size_of(lru_put_meta(m, k, data, limit, now), k) == l,
{
    assert(!lru_put_rejects(data, limit));
    let s = data.spec_len() as u64;
    assert(s == l);
    lemma_lru_evict(m, s, limit);
    lemma_lru_record_props(lru_evict(m, s, limit), k, s, now);
}

/// Stream sizing: a byte stream without a declared length is rejected by the
/// bounded cache and changes nothing.
pub proof fn lemma_lru_stream_undeclared(
    m: Seq<LruEntryModel>,
    st: Map<Seq<char>, Seq<u8>>,
    k: Seq<char>,
    data: CacheData,
    limit: u64,
    now: i64,
)
    requires
        data matches CacheData::ByteStream(_, dl) && dl is None,
    ensures
        lru_put_meta(m, k, data, limit, now) == m,
        lru_put_store(st, m, k, data, limit, now) == st,
{
}

/// TTL expiry: once `now` reaches a record's expiration, a `get` misses, and
/// a sweep at such a time reaps both the record and its key (so the blob is
/// removed).
pub proof fn lemma_ttl_expiry(m: Seq<TtlEntryModel>, k: Seq<char>, exp: i64, now: i64)
    requires
        ttl_keys_unique(m),
        now >= exp,
    ensures
        !(ttl_contains(ttl_record(m, k, exp), k) && ttl_expiry_of(ttl_record(m, k, exp), k)
            > now),
        !ttl_contains(ttl_live(ttl_record(m, k, exp), now), k),
        ttl_expired_keys(ttl_record(m, k, exp), now).contains(k),
{
    lemma_ttl_record_props(m, k, exp);
    lemma_ttl_live(ttl_record(m, k, exp), now);
    lemma_ttl_expired_keys(ttl_record(m, k, exp), now);
}

/// The cache that caches nothing: `put` drops the payload and `get` always
/// misses.
pub struct NoCache {}

impl NoCache {
    /// Drops the payload.
    pub fn put(&mut self, _key: &str, _entry: CacheData)
        ensures
            *final(self) == *old(self),
    {
    }

    /// Always a miss.
    pub fn get(&self, _key: &str) -> (r: Option<CacheData>)
        ensures
            r is None,
    {
        None
    }
}

} // verus!
