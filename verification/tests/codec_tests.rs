use mirror_cache::data::{bytes_from_vec, bytes_len, bytes_to_vec};
use mirror_cache::rediskeys::{expired_file_from_message, find_char, CacheEntry, RedisMetadataDb};
use mirror_cache::settings::parse_byte_size;
use mirror_cache::sledenc::{
    lru_record_from_bytes, lru_record_to_bytes, u64_from_be_bytes, u64_to_be_bytes,
};
use mirror_cache::text::{i64_to_string, replace_str, trim_end_char, u64_to_string};

#[test]
fn decimal_rendering() {
    assert_eq!(u64_to_string(0), "0");
    assert_eq!(u64_to_string(1024), "1024");
    assert_eq!(u64_to_string(18446744073709551615), "18446744073709551615");
    assert_eq!(i64_to_string(42), "42");
    assert_eq!(i64_to_string(-7), "-7");
    assert_eq!(i64_to_string(-9223372036854775808), "-9223372036854775808");
}

#[test]
fn replace_and_trim() {
    assert_eq!(replace_str("aaa", "aa", "b"), "ba");
    assert_eq!(replace_str("none here", "xyz", "q"), "none here");
    assert_eq!(replace_str("ab", "", "x"), "xaxbx");
    assert_eq!(trim_end_char("a///", '/'), "a");
    assert_eq!(trim_end_char("///", '/'), "");
    assert_eq!(trim_end_char("abc", '/'), "abc");
}

#[test]
fn cache_entry_redis_fields() {
    let entry = CacheEntry::new("test_cache_entry_success", 1024, 42);
    let fields = entry.to_redis_multiple_fields();
    assert_eq!(fields.len(), 3);
    assert_eq!(fields[0], ("path", String::from("test_cache_entry_success")));
    assert_eq!(fields[1], ("size", String::from("1024")));
    assert_eq!(fields[2], ("atime", String::from("42")));
}

#[test]
fn redis_key_schema() {
    let db = RedisMetadataDb::new("pol");
    assert_eq!(db.to_prefixed_key("some/key"), "pol_some/key");
    assert_eq!(db.from_prefixed_key("pol_some/key"), "some/key");
    assert_eq!(db.total_size_key(), "pol_total_size");
    assert_eq!(db.entries_zlist_key(), "pol_cache_keys");
    assert_eq!(RedisMetadataDb::get_redis_key("pol", "k"), "pol/k");
    assert_eq!(RedisMetadataDb::from_redis_key("pol", "pol/k"), "k");
}

#[test]
fn expiry_notifications() {
    assert_eq!(
        expired_file_from_message("pol", "__keyspace@0__:pol/some/key", "expired"),
        Some(String::from("some/key"))
    );
    assert_eq!(
        expired_file_from_message("pol", "__keyspace@0__:pol/some/key", "set"),
        None
    );
    assert_eq!(expired_file_from_message("pol", "no colon here", "expired"), None);
    assert_eq!(expired_file_from_message("policy", "__keyspace@0__:po", "expired"), None);
}

#[test]
fn find_first_char() {
    assert_eq!(find_char("a:b:c", ':'), Some(1));
    assert_eq!(find_char("abc", ':'), None);
}

#[test]
fn byte_size_parsing() {
    assert_eq!(parse_byte_size("16B"), Some(16));
    assert_eq!(parse_byte_size("1 KiB"), Some(1024));
    assert_eq!(parse_byte_size("10MB"), Some(10_000_000));
    assert_eq!(parse_byte_size("123"), Some(123));
    assert_eq!(parse_byte_size("many bytes"), None);
}

#[test]
fn bytes_buffer_wrappers() {
    let b = bytes_from_vec(vec![1, 2, 3]);
    assert_eq!(bytes_len(&b), 3);
    assert_eq!(bytes_to_vec(&b), vec![1, 2, 3]);
}

#[test]
fn big_endian_timestamps() {
    assert_eq!(u64_to_be_bytes(1), vec![0, 0, 0, 0, 0, 0, 0, 1]);
    assert_eq!(u64_to_be_bytes(256), vec![0, 0, 0, 0, 0, 0, 1, 0]);
    let x: u64 = 123_456_789_012;
    assert_eq!(u64_from_be_bytes(&u64_to_be_bytes(x)), x);
    // big-endian keys scan in timestamp order
    assert!(u64_to_be_bytes(5) < u64_to_be_bytes(10));
    assert!(u64_to_be_bytes(255) < u64_to_be_bytes(256));
    assert!(u64_to_be_bytes(123) < u64_to_be_bytes(9_000_000_000));
}

#[test]
fn lru_record_codec() {
    let record = lru_record_to_bytes(4096, 1_700_000_000_000_000_000);
    assert_eq!(record.len(), 16);
    let (size, atime) = lru_record_from_bytes(&record);
    assert_eq!(size, 4096);
    assert_eq!(atime, 1_700_000_000_000_000_000);
}
