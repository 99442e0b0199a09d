//! Configuration of the proxy core: routing rules, named cache policies and
//! blob storage declarations, with the validation the core demands. Reading
//! a configuration file and environment overrides happens outside the
//! library; the values arrive here as plain data.

use crate::error::Error;
use vstd::prelude::*;
use vstd::string::StringExecFns;

verus! {

/// The byte count a human-readable size string such as "10 MiB" denotes, or
/// nothing when the string is not a size.
pub uninterp spec fn parsed_byte_size(s: Seq<char>) -> Option<u64>;

/// Relies on `bytefmt::parse`: the byte count denoted by a human-readable
/// size string; the result depends on the string alone.
#[verifier::external_body]
pub fn parse_byte_size(s: &str) -> (r: Option<u64>)
    ensures
        r == parsed_byte_size(s@),
{
    match bytefmt::parse(s) {
        Ok(v) => Some(v),
        Err(_) => None,
    }
}

/// One literal substitution applied to textual upstream bodies.
#[derive(Debug)]
pub struct Rewrite {
    pub from: String,
    pub to: String,
}

/// The mathematical model of a rewrite.
pub ghost struct RewriteModel {
    pub from: Seq<char>,
    pub to: Seq<char>,
}

impl View for Rewrite {
    type V = RewriteModel;

    open spec fn view(&self) -> RewriteModel {
        RewriteModel { from: self.from@, to: self.to@ }
    }
}

impl vstd::view::DeepView for Rewrite {
    type V = RewriteModel;

    open spec fn deep_view(&self) -> RewriteModel {
        self.view()
    }
}

/// A routing rule: binds a URL prefix (or exact target) to a policy, with an
/// optional per-response size ceiling and optional rewrites.
#[derive(Debug)]
pub struct Rule {
    pub path: Option<String>,
    pub target: Option<String>,
    pub policy: String,
    pub upstream: String,
    pub size_limit: Option<String>,
    pub rewrite: Option<Vec<Rewrite>>,
}

/// The kind of a policy: bounded-size LRU or time-to-live.
#[derive(Clone, Copy, Debug, PartialEq, Eq, Structural)]
pub enum PolicyType {
    Lru,
    Ttl,
}

/// Which metadata backend a policy uses.
#[derive(Clone, Copy, Debug, PartialEq, Eq, Structural)]
pub enum MetadataDb {
    Redis,
    Sled,
}

/// A named caching policy.
#[derive(Debug)]
pub struct Policy {
    pub name: String,
    pub typ: PolicyType,
    pub timeout: Option<u64>,
    pub size: Option<String>,
    pub clean_interval: Option<u64>,
    pub metadata_db: MetadataDb,
    pub storage: String,
}

/// How a named blob storage is backed.
#[derive(Debug)]
pub enum StorageConfig {
    Fs { path: String },
    Mem,
}

/// A named blob storage declaration.
#[derive(Debug)]
pub struct Storage {
    pub name: String,
    pub config: StorageConfig,
}

/// Connection settings of the networked metadata backend.
#[derive(Debug)]
pub struct RedisSetting {
    pub url: String,
}

/// Settings of the embedded metadata backend.
#[derive(Debug)]
pub struct SledSetting {
    pub metadata_path: String,
}

/// The rules the proxy ships with.
#[derive(Debug)]
pub struct BuiltinRules {
    pub pypi_index: Rule,
    pub pypi_packages: Rule,
    pub anaconda: Rule,
}

/// The whole configuration.
#[derive(Debug)]
pub struct Settings {
    pub port: u16,
    pub debug: bool,
    pub redis: RedisSetting,
    pub url: Option<String>,
    pub rules: Vec<Rule>,
    pub policies: Vec<Policy>,
    pub storages: Vec<Storage>,
    pub sled: SledSetting,
    pub builtin: Option<BuiltinRules>,
}

/// A rule must route somewhere: exactly one of `path` and `target` is given.
pub open spec fn rule_route_valid(r: &Rule) -> bool {
    (r.path is Some) != (r.target is Some)
}

/// Every rule routes validly.
pub open spec fn rules_valid(rules: Seq<Rule>) -> bool {
    forall|i: int| 0 <= i < rules.len() ==> rule_route_valid(&rules[i])
}

impl Settings {
    /// Validates a configuration assembled from plain values: every rule
    /// must name exactly one of `path` and `target`. Reading the values from
    /// a file happens outside the library.
    pub fn new(
        port: u16,
        debug: bool,
        redis: RedisSetting,
        url: Option<String>,
        rules: Vec<Rule>,
        policies: Vec<Policy>,
        storages: Vec<Storage>,
        sled: SledSetting,
        builtin: Option<BuiltinRules>,
    ) -> (r: Result<Settings, Error>)
        ensures
            r is Ok <==> rules_valid(rules@),
            r is Ok ==> ({
                let s = r->Ok_0;
                &&& s.port == port
                &&& s.debug == debug
                &&& s.redis == redis
                &&& s.url == url
                &&& s.rules == rules
                &&& s.policies == policies
                &&& s.storages == storages
                &&& s.sled == sled
                &&& s.builtin == builtin
            }),
            r is Err ==> r->Err_0 is ConfigInvalid,
    {
        let n = rules.len();
        let mut i: usize = 0;
        while i < n
            invariant
                n == rules@.len(),
                i <= n,
                forall|j: int| 0 <= j < i ==> rule_route_valid(&rules@[j]),
            decreases n - i,
        {
            let route_ok = match (&rules[i].path, &rules[i].target) {
                (Some(_), None) => true,
                (None, Some(_)) => true,
                _ => false,
            };
            if !route_ok {
                return Err(
                    Error::ConfigInvalid(
                        String::from_str("exactly one of target and path must be specified"),
                    ),
                );
            }
            i = i + 1;
        }
        Ok(Settings { port, debug, redis, url, rules, policies, storages, sled, builtin })
    }

    /// The URL of the networked metadata backend.
    pub fn get_redis_url(&self) -> (r: String)
        ensures
            r@ == self.redis.url@,
    {
        self.redis.url.clone()
    }
}

} // verus!
