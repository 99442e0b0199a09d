use mirror_cache::cache::LruCache;
use mirror_cache::data::CacheData;
use mirror_cache::error::Error;
use mirror_cache::settings::{
    MetadataDb, Policy, PolicyType, RedisSetting, Rewrite, Rule, Settings, SledSetting, Storage,
    StorageConfig,
};
use mirror_cache::task::{
    plan_upstream_response, CacheVariant, Task, TaskManager, UpstreamDecision,
};

fn rule(policy: &str, size_limit: Option<&str>, rewrite: Option<Vec<Rewrite>>) -> Rule {
    Rule {
        path: Some(String::from("/pkg")),
        target: None,
        policy: String::from(policy),
        upstream: String::from("https://example.org"),
        size_limit: size_limit.map(String::from),
        rewrite,
    }
}

fn lru_policy(name: &str, size: Option<&str>) -> Policy {
    Policy {
        name: String::from(name),
        typ: PolicyType::Lru,
        timeout: None,
        size: size.map(String::from),
        clean_interval: None,
        metadata_db: MetadataDb::Sled,
        storage: String::from("local"),
    }
}

fn ttl_policy(name: &str, timeout: u64) -> Policy {
    Policy {
        name: String::from(name),
        typ: PolicyType::Ttl,
        timeout: Some(timeout),
        size: None,
        clean_interval: Some(5),
        metadata_db: MetadataDb::Redis,
        storage: String::from("local"),
    }
}

fn settings(rules: Vec<Rule>, policies: Vec<Policy>) -> Settings {
    Settings {
        port: 0,
        debug: false,
        redis: RedisSetting { url: String::from("redis://localhost") },
        url: None,
        rules,
        policies,
        storages: vec![Storage {
            name: String::from("local"),
            config: StorageConfig::Mem,
        }],
        sled: SledSetting { metadata_path: String::from("/tmp/metadata") },
        builtin: None,
    }
}

#[test]
fn rewrite_upstream() {
    let rewrites = vec![
        Rewrite {
            from: "flower".to_string(),
            to: "vegetable".to_string(),
        },
        Rewrite {
            from: "cat".to_string(),
            to: "dog".to_string(),
        },
    ];
    assert_eq!(
        TaskManager::rewrite_upstream("flower cat".to_string(), &rewrites),
        "vegetable dog"
    );
}

#[test]
fn rewrite_applies_in_order() {
    let rewrites = vec![
        Rewrite {
            from: "a".to_string(),
            to: "b".to_string(),
        },
        Rewrite {
            from: "bb".to_string(),
            to: "c".to_string(),
        },
    ];
    assert_eq!(
        TaskManager::rewrite_upstream("ab".to_string(), &rewrites),
        "c"
    );
}

#[test]
fn task_to_key_strips_scheme_and_slashes() {
    let t = Task {
        rule_id: 0,
        url: String::from("http://example.com/some/path/"),
    };
    assert_eq!(t.to_key(), "http/example.com/some/path");
    let t2 = Task {
        rule_id: 0,
        url: String::from("https://example.com///"),
    };
    assert_eq!(t2.to_key(), "https/example.com");
    let t3 = Task {
        rule_id: 0,
        url: String::from("ftp://example.com"),
    };
    assert_eq!(t3.to_key(), "ftp://example.com");
}

#[test]
fn plan_upstream_response_cases() {
    assert_eq!(
        plan_upstream_response(false, Some(10), 100, true),
        UpstreamDecision::Failure
    );
    assert_eq!(
        plan_upstream_response(true, Some(200), 100, true),
        UpstreamDecision::Redirect
    );
    // a ceiling of 0 means no ceiling
    assert_eq!(
        plan_upstream_response(true, Some(200), 0, false),
        UpstreamDecision::StreamThrough
    );
    assert_eq!(
        plan_upstream_response(true, Some(50), 100, true),
        UpstreamDecision::RewriteText
    );
    assert_eq!(
        plan_upstream_response(true, None, 100, false),
        UpstreamDecision::StreamThrough
    );
}

#[test]
fn single_flight_dedup() {
    let mut tm = TaskManager::empty();
    let task = Task {
        rule_id: 0,
        url: String::from("https://example.org/pkg"),
    };
    assert_eq!(tm.taskset_len(), 0);
    assert!(!tm.taskset_contains(&task));
    // first resolve begins the fill
    assert!(tm.taskset_add(task.clone()));
    assert_eq!(tm.taskset_len(), 1);
    // a second resolve of the same task does not
    assert!(!tm.taskset_add(task.clone()));
    assert_eq!(tm.taskset_len(), 1);
    // a different task is admitted
    let other = Task {
        rule_id: 1,
        url: String::from("https://example.org/pkg"),
    };
    assert!(tm.taskset_add(other.clone()));
    assert_eq!(tm.taskset_len(), 2);
    // completion releases the task
    tm.taskset_remove(&task);
    assert_eq!(tm.taskset_len(), 1);
    assert!(!tm.taskset_contains(&task));
    assert!(tm.taskset_contains(&other));
}

#[test]
fn refresh_config_builds_and_shares_caches() {
    let mut tm = TaskManager::empty();
    let s = settings(
        vec![
            rule("hot", Some("1KiB"), None),
            rule("hot", None, None),
            rule("short", None, None),
        ],
        vec![lru_policy("hot", Some("16B")), ttl_policy("short", 60)],
    );
    tm.refresh_config(s).expect("valid settings");
    assert_eq!(tm.rule_map.len(), 3);
    // rules sharing a policy share the cache
    assert_eq!(tm.rule_map[0].0, tm.rule_map[1].0);
    assert_ne!(tm.rule_map[0].0, tm.rule_map[2].0);
    // parsed size ceiling, and 0 for none
    assert_eq!(tm.rule_map[0].1, 1024);
    assert_eq!(tm.rule_map[1].1, 0);
    match &tm.caches[tm.rule_map[0].0] {
        CacheVariant::Lru(c) => assert_eq!(c.size_limit, 16),
        CacheVariant::Ttl(_) => panic!("expected an LRU cache"),
    }
    match &tm.caches[tm.rule_map[2].0] {
        CacheVariant::Ttl(c) => assert_eq!(c.ttl, 60),
        CacheVariant::Lru(_) => panic!("expected a TTL cache"),
    }
    // the policies' backend, storage and sweep-interval prescriptions are
    // recorded beside the caches
    let hot = &tm.cache_prescriptions[tm.rule_map[0].0];
    assert_eq!(hot.metadata_db, MetadataDb::Sled);
    assert_eq!(hot.storage_name, "local");
    assert_eq!(hot.clean_interval, 3);
    let short = &tm.cache_prescriptions[tm.rule_map[2].0];
    assert_eq!(short.metadata_db, MetadataDb::Redis);
    assert_eq!(short.storage_name, "local");
    assert_eq!(short.clean_interval, 5);
}

#[test]
fn refresh_config_rejects_unknown_storage() {
    let mut tm = TaskManager::empty();
    let mut s = settings(vec![rule("hot", None, None)], vec![lru_policy("hot", None)]);
    s.storages.clear();
    match tm.refresh_config(s) {
        Err(Error::ConfigInvalid(_)) => {}
        _ => panic!("a policy naming an undeclared storage must be rejected"),
    }
    // the failed refresh left the manager unchanged
    assert_eq!(tm.rule_map.len(), 0);
}

#[test]
fn refresh_config_rejects_unknown_policy() {
    let mut tm = TaskManager::empty();
    let s = settings(vec![rule("absent", None, None)], vec![lru_policy("hot", None)]);
    match tm.refresh_config(s) {
        Err(Error::ConfigInvalid(_)) => {}
        _ => panic!("expected an invalid configuration"),
    }
}

#[test]
fn refresh_config_rejects_bad_size() {
    let mut tm = TaskManager::empty();
    let s = settings(
        vec![rule("hot", Some("many bytes"), None)],
        vec![lru_policy("hot", None)],
    );
    match tm.refresh_config(s) {
        Err(Error::ConfigInvalid(_)) => {}
        _ => panic!("expected an invalid configuration"),
    }
}

#[test]
fn manager_get_round_trip() {
    let mut tm = TaskManager::empty();
    let s = settings(vec![rule("hot", None, None)], vec![lru_policy("hot", Some("16B"))]);
    tm.refresh_config(s).unwrap();
    let task = Task {
        rule_id: 0,
        url: String::from("https://example.org/pkg"),
    };
    let key = task.to_key();
    assert!(tm.get(&task, &key, 1).is_none());
    let ci = tm.rule_map[0].0;
    match &mut tm.caches[ci] {
        CacheVariant::Lru(c) => {
            c.put(&key, CacheData::TextData(String::from("body")), 2);
        }
        CacheVariant::Ttl(_) => panic!("expected an LRU cache"),
    }
    let got = tm.get(&task, &key, 3).expect("hit expected");
    assert_eq!(got.into_vec_u8(), b"body".to_vec());
    // unknown rules miss
    let stray = Task {
        rule_id: 9,
        url: String::from("https://example.org/x"),
    };
    assert!(tm.get(&stray, "anything", 4).is_none());
    assert_eq!(tm.get_task_size_limit(&task), 0);
    assert_eq!(tm.get_cache_for_cache_rule(0), Some(ci));
    assert_eq!(tm.get_cache_for_cache_rule(9), None);
    assert_eq!(tm.resolve_task_upstream(&task), "https://example.org/pkg");
}

#[test]
fn manager_store_task_result() {
    let mut tm = TaskManager::empty();
    let s = settings(
        vec![rule("hot", None, None), rule("short", None, None)],
        vec![lru_policy("hot", Some("16B")), ttl_policy("short", 1)],
    );
    tm.refresh_config(s).unwrap();
    let lru_task = Task {
        rule_id: 0,
        url: String::from("https://example.org/pkg"),
    };
    let key = lru_task.to_key();
    tm.store_task_result(&lru_task, &key, CacheData::TextData(String::from("body")), 1);
    assert_eq!(
        tm.get(&lru_task, &key, 2).unwrap().into_vec_u8(),
        b"body".to_vec()
    );
    // a payload over the policy's limit is turned away
    tm.store_task_result(&lru_task, "big", CacheData::TextData(String::from("01234567890123456")), 3);
    assert!(tm.get(&lru_task, "big", 4).is_none());
    // TTL rule: present before expiry, gone after
    let ttl_task = Task {
        rule_id: 1,
        url: String::from("https://example.org/short"),
    };
    let tkey = ttl_task.to_key();
    tm.store_task_result(&ttl_task, &tkey, CacheData::TextData(String::from("t")), 0);
    assert!(tm.get(&ttl_task, &tkey, 500_000_000).is_some());
    assert!(tm.get(&ttl_task, &tkey, 2_000_000_000).is_none());
}

#[test]
fn settings_validation() {
    let ok = Settings::new(
        8080,
        false,
        RedisSetting { url: String::from("redis://localhost") },
        None,
        vec![rule("hot", None, None)],
        vec![lru_policy("hot", None)],
        Vec::new(),
        SledSetting { metadata_path: String::from("/tmp/m") },
        None,
    );
    let s = ok.expect("valid");
    assert_eq!(s.port, 8080);
    assert_eq!(s.get_redis_url(), "redis://localhost");

    let mut both = rule("hot", None, None);
    both.target = Some(String::from("https://mirror.example.org"));
    let bad = Settings::new(
        8080,
        false,
        RedisSetting { url: String::from("redis://localhost") },
        None,
        vec![both],
        vec![lru_policy("hot", None)],
        Vec::new(),
        SledSetting { metadata_path: String::from("/tmp/m") },
        None,
    );
    match bad {
        Err(Error::ConfigInvalid(_)) => {}
        _ => panic!("a rule with both path and target must be rejected"),
    }
    let mut neither = rule("hot", None, None);
    neither.path = None;
    let bad2 = Settings::new(
        8080,
        false,
        RedisSetting { url: String::from("redis://localhost") },
        None,
        vec![neither],
        vec![lru_policy("hot", None)],
        Vec::new(),
        SledSetting { metadata_path: String::from("/tmp/m") },
        None,
    );
    assert!(bad2.is_err());
}
