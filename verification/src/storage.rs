//! In-memory blob storage: a map from cache keys to opaque byte blobs, for
//! tests and small deployments. Reads hand the blob back as a byte stream
//! whose declared length is the stored length. The filesystem backend, which
//! does the same over a directory tree, lives outside the verified library.

use crate::data::CacheData;
use vstd::map::*;
use vstd::prelude::*;

verus! {

/// One stored blob.
pub struct BlobEntry {
    pub key: String,
    pub data: Vec<u8>,
}

/// The in-memory blob store.
pub struct MemStorage {
    pub entries: Vec<BlobEntry>,
}

/// First position of `k` among the blob entries, scanning from the front.
pub open spec fn blob_find(s: Seq<BlobEntry>, k: Seq<char>) -> Option<int>
    decreases s.len(),
{
    if s.len() == 0 {
        None
    } else if s[0].key@ == k {
        Some(0)
    } else {
        match blob_find(s.subrange(1, s.len() as int), k) {
            Some(i) => Some(i + 1),
            None => None,
        }
    }
}

/// The keys of the blob entries are pairwise distinct.
pub open spec fn blob_keys_unique(s: Seq<BlobEntry>) -> bool {
    forall|i: int, j: int| 0 <= i < j < s.len() ==> s[i].key@ != s[j].key@
}

/// `blob_find` finds the first match: it returns the index of the first entry
/// whose key is `k`, and `None` exactly when no entry has key `k`.
pub proof fn lemma_blob_find(s: Seq<BlobEntry>, k: Seq<char>)
    ensures
        match blob_find(s, k) {
            Some(i) => 0 <= i < s.len() && s[i].key@ == k && (forall|j: int|
                0 <= j < i ==> #[trigger] s[j].key@ != k),
            None => forall|j: int| 0 <= j < s.len() ==> #[trigger] s[j].key@ != k,
        },
    decreases s.len(),
{
    if s.len() > 0 && s[0].key@ != k {
        lemma_blob_find(s.subrange(1, s.len() as int), k);
        let rest = s.subrange(1, s.len() as int);
        assert(forall|j: int| 0 <= j < rest.len() ==> #[trigger] rest[j].key@ == s[j + 1].key@);
        match blob_find(s, k) {
            Some(i) => {
                assert forall|j: int| 0 <= j < i implies #[trigger] s[j].key@ != k by {
                    if j > 0 {
                        assert(rest[j - 1].key@ != k);
                    }
                }
            },
            None => {
                assert forall|j: int| 0 <= j < s.len() implies #[trigger] s[j].key@ != k by {
                    if j > 0 {
                        assert(rest[j - 1].key@ != k);
                    }
                }
            },
        }
    }
}

/// Whether some entry holds key `k`.
pub open spec fn blob_contains(s: Seq<BlobEntry>, k: Seq<char>) -> bool {
    exists|j: int| 0 <= j < s.len() && #[trigger] s[j].key@ == k
}

/// `blob_find` succeeds exactly on the keys some entry holds.
pub proof fn lemma_blob_find_contains(s: Seq<BlobEntry>, k: Seq<char>)
    ensures
        blob_find(s, k) is Some <==> blob_contains(s, k),
        blob_find(s, k) is Some ==> 0 <= blob_find(s, k)->Some_0 < s.len() && s[blob_find(
            s,
            k,
        )->Some_0].key@ == k,
{
    lemma_blob_find(s, k);
    if blob_find(s, k) is Some {
        let f = blob_find(s, k)->Some_0;
        assert(s[f].key@ == k);
    }
}

impl View for MemStorage {
    type V = Map<Seq<char>, Seq<u8>>;

    /// The store as a map from key to blob bytes.
    open spec fn view(&self) -> Map<Seq<char>, Seq<u8>> {
        Map::new(
            |k: Seq<char>| blob_find(self.entries@, k) is Some,
            |k: Seq<char>|
                match blob_find(self.entries@, k) {
                    Some(i) => self.entries@[i].data@,
                    None => Seq::empty(),
                },
        )
    }
}

impl MemStorage {
    /// Keys are pairwise distinct.
    pub open spec fn wf(&self) -> bool {
        blob_keys_unique(self.entries@)
    }

    /// Creates an empty store.
    pub fn new() -> (r: MemStorage)
        ensures
            r.wf(),
            r@ == Map::<Seq<char>, Seq<u8>>::empty(),
    {
        let r = MemStorage { entries: Vec::new() };
        proof {
            assert(r@ =~= Map::<Seq<char>, Seq<u8>>::empty());
        }
        r
    }

    fn find(&self, key: &str) -> (r: Option<usize>)
        ensures
            match r {
                Some(i) => blob_find(self.entries@, key@) == Some(i as int),
                None => blob_find(self.entries@, key@) is None,
            },
    {
        let n = self.entries.len();
        let k = key.to_owned();
        let mut i: usize = 0;
        while i < n
            invariant
                n == self.entries@.len(),
                i <= n,
                k@ == key@,
                forall|j: int| 0 <= j < i ==> self.entries@[j].key@ != key@,
            decreases n - i,
        {
            if self.entries[i].key == k {
                proof {
                    lemma_blob_find(self.entries@, key@);
                    if blob_find(self.entries@, key@) is None {
                        assert(false);
                    }
                    let f = blob_find(self.entries@, key@)->Some_0;
                    assert(f == i);
                }
                return Some(i);
            }
            i = i + 1;
        }
        proof {
            lemma_blob_find(self.entries@, key@);
        }
        None
    }

    /// Writes the payload under `key`, consuming it; an existing blob under
    /// the same key is overwritten.
    pub fn persist(&mut self, key: &str, data: CacheData)
        requires
            old(self).wf(),
        ensures
            final(self).wf(),
            final(self)@ == old(self)@.insert(key@, data.spec_content()),
    {
        let bytes = data.into_vec_u8();
        let pos = self.find(key);
        proof {
            lemma_blob_find(self.entries@, key@);
        }
        match pos {
            Some(i) => {
                self.entries[i] = BlobEntry { key: key.to_owned(), data: bytes };
                proof {
                    let s_old = old(self).entries@;
                    let s_new = self.entries@;
                    let gi = i as int;
                    assert(s_old[gi].key@ == key@);
                    assert forall|j: int| 0 <= j < s_new.len() implies #[trigger] s_new[j].key@
                        == s_old[j].key@ by {}
                    assert forall|a: int, b: int|
                        0 <= a < b < s_new.len() implies s_new[a].key@ != s_new[b].key@ by {
                        assert(s_old[a].key@ != s_old[b].key@);
                    }
                    let target = old(self)@.insert(key@, data.spec_content());
                    assert_maps_equal!(self@, target, k2 => {
                        lemma_blob_find_contains(s_new, k2);
                        lemma_blob_find_contains(s_old, k2);
                        if blob_find(s_new, k2) is Some {
                            let f = blob_find(s_new, k2)->Some_0;
                            if k2 == key@ {
                                if f != gi {
                                    assert(s_old[f].key@ == key@);
                                    assert(false);
                                }
                                assert(self@[k2] == s_new[gi].data@);
                            } else {
                                assert(f != gi);
                                assert(s_new[f] == s_old[f]);
                                assert(blob_contains(s_old, k2));
                                let g = blob_find(s_old, k2)->Some_0;
                                if g != f {
                                    assert(s_old[g].key@ == k2 && s_old[f].key@ == k2);
                                    assert(false);
                                }
                                assert(self@[k2] == old(self)@[k2]);
                            }
                        } else {
                            assert(!blob_contains(s_new, k2));
                            if blob_find(s_old, k2) is Some {
                                let g = blob_find(s_old, k2)->Some_0;
                                assert(s_new[g].key@ == k2);
                                assert(false);
                            }
                        }
                    });
                }
            },
            None => {
                self.entries.push(BlobEntry { key: key.to_owned(), data: bytes });
                proof {
                    let s_old = old(self).entries@;
                    let s_new = self.entries@;
                    let n = s_old.len() as int;
                    assert(s_new[n].key@ == key@);
                    assert(forall|j: int| 0 <= j < n ==> s_new[j] == s_old[j]);
                    lemma_blob_find(s_old, key@);
                    assert forall|a: int, b: int|
                        0 <= a < b < s_new.len() implies s_new[a].key@ != s_new[b].key@ by {
                        if b < n {
                            assert(s_old[a].key@ != s_old[b].key@);
                        } else {
                            assert(s_old[a].key@ != key@);
                        }
                    }
                    let target = old(self)@.insert(key@, data.spec_content());
                    assert_maps_equal!(self@, target, k2 => {
                        lemma_blob_find_contains(s_new, k2);
                        lemma_blob_find_contains(s_old, k2);
                        if blob_find(s_new, k2) is Some {
                            let f = blob_find(s_new, k2)->Some_0;
                            if k2 == key@ {
                                if f != n {
                                    assert(s_old[f].key@ == key@);
                                    assert(false);
                                }
                                assert(self@[k2] == s_new[n].data@);
                            } else {
                                assert(f != n);
                                assert(s_new[f] == s_old[f]);
                                assert(blob_contains(s_old, k2));
                                let g = blob_find(s_old, k2)->Some_0;
                                if g != f {
                                    assert(s_old[g].key@ == k2 && s_old[f].key@ == k2);
                                    assert(false);
                                }
                                assert(self@[k2] == old(self)@[k2]);
                            }
                        } else {
                            assert(!blob_contains(s_new, k2));
                            if k2 == key@ {
                                assert(s_new[n].key@ == k2);
                                assert(false);
                            }
                            if blob_find(s_old, k2) is Some {
                                let g = blob_find(s_old, k2)->Some_0;
                                assert(s_new[g].key@ == k2);
                                assert(false);
                            }
                        }
                    });
                }
            },
        }
    }

    /// Reads the blob under `key` as a byte stream whose declared length is
    /// the stored length; `None` when no blob is stored under `key`.
    pub fn read(&self, key: &str) -> (r: Option<CacheData>)
        ensures
            self@.contains_key(key@) ==> matches!(r, Some(CacheData::ByteStream(_, _)))
                && r->Some_0.spec_content() == self@[key@] && r->Some_0.spec_len()
                == self@[key@].len() && r->Some_0.spec_has_known_len(),
            !self@.contains_key(key@) ==> r is None,
    {
        match self.find(key) {
            Some(i) => {
                proof {
                    lemma_blob_find(self.entries@, key@);
                }
                let blob = &self.entries[i];
                let mut copy: Vec<u8> = Vec::new();
                let mut j: usize = 0;
                let n = blob.data.len();
                while j < n
                    invariant
                        n == blob.data@.len(),
                        j <= n,
                        copy@ == blob.data@.subrange(0, j as int),
                    decreases n - j,
                {
                    copy.push(blob.data[j]);
                    j = j + 1;
                    proof {
                        assert(copy@ =~= blob.data@.subrange(0, j as int));
                    }
                }
                proof {
                    assert(copy@ =~= blob.data@);
                }
                let len = copy.len() as u64;
                Some(CacheData::ByteStream(copy, Some(len)))
            },
            None => {
                proof {
                    lemma_blob_find(self.entries@, key@);
                }
                None
            },
        }
    }

    /// Removes the blob under `key`; reports whether one was present.
    pub fn remove(&mut self, key: &str) -> (r: bool)
        requires
            old(self).wf(),
        ensures
            final(self).wf(),
            final(self)@ == old(self)@.remove(key@),
            r == old(self)@.contains_key(key@),
    {
        let pos = self.find(key);
        proof {
            lemma_blob_find(self.entries@, key@);
        }
        match pos {
            Some(i) => {
                self.entries.remove(i);
                proof {
                    let s_old = old(self).entries@;
                    let s_new = self.entries@;
                    let gi = i as int;
                    assert(s_old[gi].key@ == key@);
                    assert(forall|j: int| 0 <= j < gi ==> s_new[j] == s_old[j]);
                    assert(forall|j: int| gi <= j < s_new.len() ==> s_new[j] == s_old[j + 1]);
                    assert forall|a: int, b: int|
                        0 <= a < b < s_new.len() implies s_new[a].key@ != s_new[b].key@ by {
                        let a2 = if a < gi {
                            a
                        } else {
                            a + 1
                        };
                        let b2 = if b < gi {
                            b
                        } else {
                            b + 1
                        };
                        assert(s_new[a] == s_old[a2] && s_new[b] == s_old[b2]);
                        assert(s_old[a2].key@ != s_old[b2].key@);
                    }
                    let target = old(self)@.remove(key@);
                    assert_maps_equal!(self@, target, k2 => {
                        lemma_blob_find_contains(s_new, k2);
                        lemma_blob_find_contains(s_old, k2);
                        if blob_find(s_new, k2) is Some {
                            let f = blob_find(s_new, k2)->Some_0;
                            let f2 = if f < gi {
                                f
                            } else {
                                f + 1
                            };
                            assert(s_new[f] == s_old[f2]);
                            assert(s_old[f2].key@ == k2);
                            if k2 == key@ {
                                assert(f2 != gi);
                                assert(s_old[f2].key@ != s_old[gi].key@);
                                assert(false);
                            }
                            assert(blob_contains(s_old, k2));
                            let g = blob_find(s_old, k2)->Some_0;
                            if g != f2 {
                                assert(s_old[g].key@ == k2 && s_old[f2].key@ == k2);
                                assert(false);
                            }
                            assert(self@[k2] == s_new[f].data@);
                            assert(target.contains_key(k2) && target[k2] == s_old[g].data@);
                        } else {
                            assert(!blob_contains(s_new, k2));
                            if k2 != key@ && blob_find(s_old, k2) is Some {
                                let g = blob_find(s_old, k2)->Some_0;
                                assert(s_old[g].key@ == k2);
                                assert(g != gi);
                                let g2 = if g < gi {
                                    g
                                } else {
                                    g - 1
                                };
                                assert(s_new[g2].key@ == k2);
                                assert(false);
                            }
                        }
                    });
                }
                true
            },
            None => {
                proof {
                    assert(self@ =~= old(self)@.remove(key@));
                }
                false
            },
        }
    }
}

} // verus!
