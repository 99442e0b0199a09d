//! Key schema of the networked metadata backend: every key a policy writes
//! is namespaced by the policy id, the per-policy scalars live under fixed
//! suffixes, and expiration notifications name the prefixed key on their
//! channel. The schema and its decoding are verified here; the connection
//! handling lives outside the library.

use crate::text::{concat_str, i64_to_string, spec_i64_dec, spec_u64_dec, u64_to_string};
use vstd::prelude::*;
use vstd::string::{StrSliceExecFns, StringExecFns};

verus! {

/// `<id>_<key>`: the namespaced form under which a policy stores a cache key.
pub open spec fn spec_prefixed_key(id: Seq<char>, key: Seq<char>) -> Seq<char> {
    id + seq!['_'] + key
}

/// `<id>/<key>`: the form under which the TTL policy stores a cache key.
pub open spec fn spec_redis_key(id: Seq<char>, key: Seq<char>) -> Seq<char> {
    id + seq!['/'] + key
}

/// First position of `c` in `s`.
pub open spec fn spec_find_char(s: Seq<char>, c: char) -> Option<int>
    decreases s.len(),
{
    if s.len() == 0 {
        None
    } else if s[0] == c {
        Some(0)
    } else {
        match spec_find_char(s.subrange(1, s.len() as int), c) {
            Some(i) => Some(i + 1),
            None => None,
        }
    }
}

/// The cache key a key-expiry notification names, if the message is one:
/// the payload must be exactly "expired", the channel must contain ':', and
/// what follows the first ':' must be long enough to carry the `<id>/` (or
/// `<id>_`) prefix. A malformed message yields nothing.
pub open spec fn spec_expired_file(id: Seq<char>, channel: Seq<char>, payload: Seq<char>) -> Option<
    Seq<char>,
> {
    if payload != "expired"@ {
        None
    } else {
        match spec_find_char(channel, ':') {
            None => None,
            Some(p) => {
                let rk = channel.subrange(p + 1, channel.len() as int);
                if rk.len() >= id.len() + 1 {
                    Some(rk.subrange(id.len() as int + 1, rk.len() as int))
                } else {
                    None
                }
            },
        }
    }
}

/// The key schema of one policy's namespace in the shared server.
pub struct RedisMetadataDb {
    pub id: String,
}

impl RedisMetadataDb {
    /// A schema for the policy named `id`.
    pub fn new(id: &str) -> (r: RedisMetadataDb)
        ensures
            r.id@ == id@,
    {
        RedisMetadataDb { id: id.to_owned() }
    }

    /// Prefixes a cache key with the policy id.
    pub fn to_prefixed_key(&self, cache_key: &str) -> (r: String)
        ensures
            r@ == spec_prefixed_key(self.id@, cache_key@),
    {
        let mut r = concat_str(self.id.as_str(), "_");
        proof {
            reveal_strlit("_");
            assert(r@ =~= self.id@ + seq!['_']);
        }
        r.append(cache_key);
        proof {
            assert(r@ =~= spec_prefixed_key(self.id@, cache_key@));
        }
        r
    }

    /// Strips the policy prefix from a prefixed cache key.
    pub fn from_prefixed_key(&self, cache_key: &str) -> (r: String)
        requires
            cache_key@.len() >= self.id@.len() + 1,
        ensures
            r@ == cache_key@.subrange(self.id@.len() as int + 1, cache_key@.len() as int),
    {
        let end = cache_key.unicode_len();
        let start = self.id.as_str().unicode_len() + 1;
        let sub = cache_key.substring_char(start, end);
        sub.to_owned()
    }

    /// The key of the per-policy total-size counter.
    pub fn total_size_key(&self) -> (r: String)
        ensures
            r@ == spec_prefixed_key(self.id@, "total_size"@),
    {
        self.to_prefixed_key("total_size")
    }

    /// The key of the sorted set that indexes cache entries by access time.
    pub fn entries_zlist_key(&self) -> (r: String)
        ensures
            r@ == spec_prefixed_key(self.id@, "cache_keys"@),
    {
        self.to_prefixed_key("cache_keys")
    }

    /// Joins a policy id and a cache key with '/'.
    pub fn get_redis_key(id: &str, cache_key: &str) -> (r: String)
        ensures
            r@ == spec_redis_key(id@, cache_key@),
    {
        let mut r = concat_str(id, "/");
        proof {
            reveal_strlit("/");
            assert(r@ =~= id@ + seq!['/']);
        }
        r.append(cache_key);
        proof {
            assert(r@ =~= spec_redis_key(id@, cache_key@));
        }
        r
    }

    /// Strips `<id>/` (or any single-character separator after `id`) from a
    /// combined key.
    pub fn from_redis_key(id: &str, key: &str) -> (r: String)
        requires
            key@.len() >= id@.len() + 1,
        ensures
            r@ == key@.subrange(id@.len() as int + 1, key@.len() as int),
    {
        let end = key.unicode_len();
        let start = id.unicode_len() + 1;
        let sub = key.substring_char(start, end);
        sub.to_owned()
    }
}

/// Stripping the prefix undoes prefixing, for both namespaced forms.
pub proof fn lemma_prefix_round_trip(id: Seq<char>, key: Seq<char>)
    ensures
        spec_prefixed_key(id, key).subrange(id.len() as int + 1, spec_prefixed_key(id, key).len() as int)
            == key,
        spec_redis_key(id, key).subrange(id.len() as int + 1, spec_redis_key(id, key).len() as int)
            == key,
{
    assert(spec_prefixed_key(id, key).subrange(
        id.len() as int + 1,
        spec_prefixed_key(id, key).len() as int,
    ) =~= key);
    assert(spec_redis_key(id, key).subrange(id.len() as int + 1, spec_redis_key(id, key).len() as int)
        =~= key);
}

/// First position of `c` in `s`, scanning from the front.
pub fn find_char(s: &str, c: char) -> (r: Option<usize>)
    ensures
        match r {
            Some(i) => spec_find_char(s@, c) == Some(i as int),
            None => spec_find_char(s@, c) is None,
        },
{
    let n = s.unicode_len();
    let mut i: usize = 0;
    while i < n
        invariant
            n == s@.len(),
            i <= n,
            forall|j: int| 0 <= j < i ==> s@[j] != c,
        decreases n - i,
    {
        if s.get_char(i) == c {
            proof {
                lemma_spec_find_char(s@, c);
            }
            return Some(i);
        }
        i = i + 1;
    }
    proof {
        lemma_spec_find_char(s@, c);
    }
    None
}

/// `spec_find_char` finds the first occurrence, and `None` exactly when the
/// character does not occur.
pub proof fn lemma_spec_find_char(s: Seq<char>, c: char)
    ensures
        match spec_find_char(s, c) {
            Some(i) => 0 <= i < s.len() && s[i] == c && (forall|j: int|
                0 <= j < i ==> #[trigger] s[j] != c),
            None => forall|j: int| 0 <= j < s.len() ==> #[trigger] s[j] != c,
        },
    decreases s.len(),
{
    if s.len() > 0 && s[0] != c {
        let rest = s.subrange(1, s.len() as int);
        lemma_spec_find_char(rest, c);
        assert(forall|j: int| 0 <= j < rest.len() ==> #[trigger] rest[j] == s[j + 1]);
        match spec_find_char(s, c) {
            Some(i) => {
                assert forall|j: int| 0 <= j < i implies #[trigger] s[j] != c by {
                    if j > 0 {
                        assert(rest[j - 1] != c);
                    }
                }
            },
            None => {
                assert forall|j: int| 0 <= j < s.len() implies #[trigger] s[j] != c by {
                    if j > 0 {
                        assert(rest[j - 1] != c);
                    }
                }
            },
        }
    }
}

/// Decides what a key-expiry notification means: the cache key whose blob
/// must be removed, or nothing when the message is not an expiry or is
/// malformed. A channel without ':' or a key shorter than the policy prefix
/// yields nothing rather than failing.
pub fn expired_file_from_message(id: &str, channel: &str, payload: &str) -> (r: Option<String>)
    ensures
        match r {
            Some(f) => spec_expired_file(id@, channel@, payload@) == Some(f@),
            None => spec_expired_file(id@, channel@, payload@) is None,
        },
{
    let p_owned = payload.to_owned();
    let expected = String::from_str("expired");
    if !(p_owned == expected) {
        return None;
    }
    match find_char(channel, ':') {
        None => None,
        Some(p) => {
            proof {
                lemma_spec_find_char(channel@, ':');
            }
            let clen = channel.unicode_len();
            let redis_key = channel.substring_char(p + 1, clen);
            let idlen = id.unicode_len();
            if redis_key.unicode_len() > idlen {
                let f = RedisMetadataDb::from_redis_key(id, redis_key);
                Some(f)
            } else {
                None
            }
        },
    }
}

/// One record of the networked LRU store, as a metadata/key/value triple.
#[derive(Debug)]
pub struct CacheEntry<Metadata, Key, Value> {
    pub metadata: Metadata,
    pub key: Key,
    pub value: Value,
}

/// The metadata of one LRU record: size and last access timestamp.
#[derive(Debug)]
pub struct LruCacheMetadata {
    pub size: u64,
    pub atime: i64,
}

impl CacheEntry<LruCacheMetadata, String, ()> {
    /// A record for `path` of `size` bytes, last accessed at `atime`.
    pub fn new(path: &str, size: u64, atime: i64) -> (r: CacheEntry<LruCacheMetadata, String, ()>)
        ensures
            r.key@ == path@,
            r.metadata.size == size,
            r.metadata.atime == atime,
    {
        CacheEntry {
            metadata: LruCacheMetadata { size, atime },
            key: String::from_str(path),
            value: (),
        }
    }

    /// The record as field/value pairs for a server-side hash: the path, the
    /// size and the access time, the numbers in decimal.
    pub fn to_redis_multiple_fields(&self) -> (r: Vec<(&str, String)>)
        ensures
            r@.len() == 3,
            r@[0].0@ == "path"@ && r@[0].1@ == self.key@,
            r@[1].0@ == "size"@ && r@[1].1@ == spec_u64_dec(self.metadata.size as int),
            r@[2].0@ == "atime"@ && r@[2].1@ == spec_i64_dec(self.metadata.atime as int),
    {
        let mut r: Vec<(&str, String)> = Vec::new();
        r.push(("path", self.key.clone()));
        r.push(("size", u64_to_string(self.metadata.size)));
        r.push(("atime", i64_to_string(self.metadata.atime)));
        r
    }
}

} // verus!
