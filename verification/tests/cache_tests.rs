use mirror_cache::cache::{LruCache, NoCache, TtlCache};
use mirror_cache::data::CacheData;
use mirror_cache::lru::LruMetadataDb;
use mirror_cache::storage::MemStorage;
use mirror_cache::ttl::TtlMetadataDb;

fn new_lru(limit: u64) -> LruCache {
    LruCache::new(limit, LruMetadataDb::new(), MemStorage::new())
}

fn new_ttl(ttl: u64) -> TtlCache {
    TtlCache::new(ttl, TtlMetadataDb::new(), MemStorage::new())
}

fn bytes_data(v: Vec<u8>) -> CacheData {
    CacheData::BytesData(bytes::Bytes::from(v))
}

fn content(d: CacheData) -> Vec<u8> {
    d.into_vec_u8()
}

#[test]
fn lru_cache_entry_set_success() {
    let mut lru_cache = new_lru(16 * 1024 * 1024);
    let cached_data = vec![42];
    lru_cache.put("answer", bytes_data(cached_data.clone()), 1);
    assert_eq!(lru_cache.get_total_size(), 1);
    let got = lru_cache.get("answer", 2).expect("hit expected");
    assert_eq!(content(got), cached_data);
}

#[test]
fn lru_cache_size_constraint() {
    let mut lru_cache = new_lru(16);
    lru_cache.put("tsu_ki", bytes_data(vec![0; 5]), 1);
    assert_eq!(lru_cache.get_total_size(), 5);
    lru_cache.put("kirei", bytes_data(vec![0; 11]), 2);
    assert_eq!(lru_cache.get_total_size(), 16);
    assert_eq!(content(lru_cache.get("tsu_ki", 3).unwrap()), vec![0; 5]);
    assert_eq!(content(lru_cache.get("kirei", 4).unwrap()), vec![0; 11]);
    // cache is full, evict tsu_ki (kirei was read later)
    lru_cache.put("suki", bytes_data(vec![1; 4]), 5);
    assert_eq!(lru_cache.get_total_size(), 15);
    assert!(lru_cache.get("tsu_ki", 6).is_none());
    // evict both suki and kirei
    lru_cache.put("deadbeef", bytes_data(vec![2; 16]), 7);
    assert_eq!(lru_cache.get_total_size(), 16);
    assert!(lru_cache.get("kirei", 8).is_none());
    assert!(lru_cache.get("suki", 9).is_none());
    assert_eq!(content(lru_cache.get("deadbeef", 10).unwrap()), vec![2; 16]);
}

#[test]
fn lru_cache_no_evict_recent() {
    let key1 = "1二号去听经";
    let key2 = "2晚上住旅店";
    let key3 = "3三号去餐厅";
    let key4 = "4然后看电影";
    let mut lru_cache = new_lru(3);
    lru_cache.put(key1, bytes_data(vec![1]), 1_000_000_000);
    lru_cache.put(key2, bytes_data(vec![2]), 2_000_000_000);
    lru_cache.put(key3, bytes_data(vec![3]), 3_000_000_000);
    assert_eq!(lru_cache.get_total_size(), 3);
    // set key4, evict key1 (smallest access time)
    lru_cache.put(key4, bytes_data(vec![4]), 4_000_000_000);
    assert!(lru_cache.get(key1, 5_000_000_000).is_none());
    assert_eq!(lru_cache.get_total_size(), 3);
    // get key2, update its access time
    assert_eq!(
        content(lru_cache.get(key2, 6_000_000_000).unwrap()),
        vec![2]
    );
    assert_eq!(lru_cache.get_total_size(), 3);
    // set key1 again: key3 is now least recently used and leaves
    lru_cache.put(key1, bytes_data(vec![11]), 7_000_000_000);
    assert_eq!(lru_cache.get_total_size(), 3);
    assert!(lru_cache.get(key3, 8_000_000_000).is_none());
    assert_eq!(lru_cache.get_total_size(), 3);
}

#[test]
fn key_update_total_size() {
    let mut lru_cache = new_lru(3);
    let key = "Phantom";
    lru_cache.put(key, bytes_data(vec![0]), 1);
    assert_eq!(lru_cache.get_total_size(), 1);
    lru_cache.put(key, bytes_data(vec![0, 1]), 2);
    assert_eq!(lru_cache.get_total_size(), 2);
}

#[test]
fn lru_cache_isolation() {
    let mut lru_cache_1 = new_lru(3);
    let mut lru_cache_2 = new_lru(3);
    lru_cache_1.put("1", bytes_data(vec![1]), 1);
    lru_cache_2.put("2", bytes_data(vec![2]), 1);
    assert_eq!(lru_cache_1.get_total_size(), 1);
    assert_eq!(lru_cache_2.get_total_size(), 1);
    assert_eq!(content(lru_cache_1.get("1", 2).unwrap()), vec![1u8]);
    assert!(lru_cache_1.get("2", 3).is_none());
    assert!(lru_cache_2.get("1", 3).is_none());
    assert_eq!(content(lru_cache_2.get("2", 4).unwrap()), vec![2]);
}

#[test]
fn lru_cache_many_writers_sequence() {
    // 256 rounds of inserting 4 keys of size 1 into a size-2 cache leave
    // the accounted total at exactly 2 and no orphaned metadata.
    let mut cache = new_lru(2);
    let mut t: i64 = 0;
    for _ in 0..256 {
        for key in ["k1", "k2", "k3", "k4"] {
            t += 1;
            cache.put(key, bytes_data(vec![1]), t);
        }
    }
    assert_eq!(cache.get_total_size(), 2);
    // the two surviving keys have live blobs
    t += 1;
    assert!(cache.get("k3", t).is_some());
    t += 1;
    assert!(cache.get("k4", t).is_some());
}

#[test]
fn cache_stream_size_valid() {
    let mut lru_cache = new_lru(3);
    lru_cache.put("na tsu", CacheData::ByteStream(vec![1, 1, 4], Some(3)), 1);
    assert_eq!(lru_cache.get_total_size(), 3);
}

#[test]
fn cache_stream_undeclared_rejected() {
    let mut lru_cache = new_lru(3);
    lru_cache.put("no len", CacheData::ByteStream(vec![1], None), 1);
    assert_eq!(lru_cache.get_total_size(), 0);
    assert!(lru_cache.get("no len", 2).is_none());
}

#[test]
fn cache_size_rejection() {
    let mut lru_cache = new_lru(2);
    lru_cache.put("big", bytes_data(vec![0; 3]), 1);
    assert_eq!(lru_cache.get_total_size(), 0);
    assert!(lru_cache.get("big", 2).is_none());
}

#[test]
fn ttl_cache_expire_key() {
    let mut cache = new_ttl(1);
    cache.put("key", bytes_data(vec![1]), 0);
    assert_eq!(content(cache.get("key", 0).unwrap()), vec![1]);
    // 2 seconds later the entry has expired
    assert!(cache.get("key", 2_000_000_000).is_none());
    // the sweep reaps the record and removes the blob
    let reaped = cache.sweep_expired(2_000_000_000);
    assert_eq!(reaped, 1);
    assert!(cache.storage.read("key").is_none());
    assert!(cache.get("key", 0).is_none());
}

#[test]
fn ttl_cache_overwrite_extends() {
    let mut cache = new_ttl(1);
    cache.put("key", bytes_data(vec![1]), 0);
    // rewrite at t=1.5s: expiry moves to 2.5s
    cache.put("key", bytes_data(vec![2]), 1_500_000_000);
    assert_eq!(content(cache.get("key", 2_000_000_000).unwrap()), vec![2]);
    assert_eq!(cache.sweep_expired(2_000_000_000), 0);
    assert!(cache.get("key", 3_000_000_000).is_none());
}

#[test]
fn no_cache_misses() {
    let mut cache = NoCache {};
    cache.put("k", bytes_data(vec![1]));
    assert!(cache.get("k").is_none());
}

#[test]
fn mem_storage_roundtrip() {
    let mut st = MemStorage::new();
    assert!(st.read("a").is_none());
    st.persist("a", CacheData::TextData(String::from("hello")));
    let got = st.read("a").unwrap();
    assert_eq!(got.into_vec_u8(), b"hello".to_vec());
    st.persist("a", bytes_data(vec![9]));
    assert_eq!(st.read("a").unwrap().into_vec_u8(), vec![9]);
    assert!(st.remove("a"));
    assert!(!st.remove("a"));
    assert!(st.read("a").is_none());
}

#[test]
fn cache_data_len_and_content() {
    let text = CacheData::TextData(String::from("abc"));
    assert_eq!(text.len(), 3);
    assert_eq!(text.into_vec_u8(), b"abc".to_vec());
    let b = bytes_data(vec![1, 2, 3, 4]);
    assert_eq!(b.len(), 4);
    assert_eq!(b.into_vec_u8(), vec![1, 2, 3, 4]);
    let s = CacheData::ByteStream(vec![7, 8], Some(9));
    assert!(s.has_known_len());
    assert_eq!(s.len(), 9);
    assert_eq!(s.into_vec_u8(), vec![7, 8]);
    let u = CacheData::ByteStream(vec![7, 8], None);
    assert!(!u.has_known_len());
}
