//! The task manager: routes a client request to its rule's cache, decides
//! how an upstream response is served (failure, redirect away from oversized
//! payloads, rewritten text, or a pass-through stream), deduplicates
//! background fills through the pending-task set (single flight), applies
//! the configured rewrites, and rebuilds its caches from new settings. The
//! HTTP client and the async runtime that perform the fetches live outside
//! the library and consume these decisions.

use crate::cache::{lru_get_result, lru_put_meta, lru_put_store, LruCache, TtlCache};
use crate::data::CacheData;
use crate::error::Error;
use crate::lru::{lru_bump, LruMetadataDb};
use crate::settings::{
    parse_byte_size, parsed_byte_size, MetadataDb, Policy, PolicyType, RedisSetting, Rewrite,
    RewriteModel, Rule, Settings, SledSetting, Storage,
};
use crate::storage::MemStorage;
use crate::text::{replace_str, spec_replace, spec_trim_end_char, trim_end_char};
use crate::ttl::{ttl_contains, ttl_expiry_of, ttl_record, TtlMetadataDb};
use vstd::prelude::*;
use vstd::string::StringExecFns;

verus! {

/// A client request: the rule that matched it and the upstream URL.
#[derive(Clone, Debug, Hash, PartialEq, Eq)]
pub struct Task {
    pub rule_id: usize,
    pub url: String,
}

/// The mathematical model of a task.
pub ghost struct TaskModel {
    pub rule_id: usize,
    pub url: Seq<char>,
}

impl View for Task {
    type V = TaskModel;

    open spec fn view(&self) -> TaskModel {
        TaskModel { rule_id: self.rule_id, url: self.url@ }
    }
}

impl vstd::view::DeepView for Task {
    type V = TaskModel;

    open spec fn deep_view(&self) -> TaskModel {
        self.view()
    }
}

/// The cache key a task stores under: the URL with its scheme folded into a
/// path prefix and trailing slashes removed.
pub open spec fn spec_task_key(url: Seq<char>) -> Seq<char> {
    spec_trim_end_char(
        spec_replace(spec_replace(url, "http://"@, "http/"@), "https://"@, "https/"@),
        '/',
    )
}

impl Task {
    /// The cache key the request is stored under.
    pub fn to_key(&self) -> (r: String)
        ensures
            r@ == spec_task_key(self.url@),
    {
        let step1 = replace_str(self.url.as_str(), "http://", "http/");
        let step2 = replace_str(step1.as_str(), "https://", "https/");
        trim_end_char(step2.as_str(), '/')
    }
}

/// How the upstream response of a cache miss is served.
#[derive(Clone, Copy, Debug, PartialEq, Eq, Structural)]
pub enum UpstreamDecision {
    /// Upstream did not answer with a success status: surface the failure.
    Failure,
    /// The declared payload exceeds the rule's ceiling: redirect the client
    /// to the upstream and bypass the cache.
    Redirect,
    /// The rule has rewrites and the body is buffered, rewritten and served
    /// as text.
    RewriteText,
    /// The body is streamed through unchanged.
    StreamThrough,
}

/// The serving decision for an upstream response: failure on a non-success
/// status; a redirect when a size ceiling is set and the declared content
/// length exceeds it; rewritten text when the rule has rewrites; otherwise a
/// pass-through stream.
pub open spec fn spec_plan(
    status_success: bool,
    content_length: Option<u64>,
    size_limit: u64,
    has_rewrites: bool,
) -> UpstreamDecision {
    if !status_success {
        UpstreamDecision::Failure
    } else if size_limit != 0 && content_length is Some && content_length->Some_0 > size_limit {
        UpstreamDecision::Redirect
    } else if has_rewrites {
        UpstreamDecision::RewriteText
    } else {
        UpstreamDecision::StreamThrough
    }
}

/// Decides how to serve an upstream response, from the response's status and
/// declared content length, the rule's size ceiling (0 meaning none), and
/// whether the rule has rewrites.
pub fn plan_upstream_response(
    status_success: bool,
    content_length: Option<u64>,
    size_limit: u64,
    has_rewrites: bool,
) -> (r: UpstreamDecision)
    ensures
        r == spec_plan(status_success, content_length, size_limit, has_rewrites),
{
    if !status_success {
        UpstreamDecision::Failure
    } else {
        let oversized = match content_length {
            Some(l) => size_limit != 0 && l > size_limit,
            None => false,
        };
        if oversized {
            UpstreamDecision::Redirect
        } else if has_rewrites {
            UpstreamDecision::RewriteText
        } else {
            UpstreamDecision::StreamThrough
        }
    }
}

/// The content after every rewrite has been applied, in declared order.
pub open spec fn spec_rewrite_all(s: Seq<char>, rws: Seq<RewriteModel>) -> Seq<char>
    decreases rws.len(),
{
    if rws.len() == 0 {
        s
    } else {
        spec_rewrite_all(spec_replace(s, rws[0].from, rws[0].to), rws.subrange(1, rws.len() as int))
    }
}

/// Whether the pending-task set holds `t`.
pub open spec fn tasks_contains(s: Seq<TaskModel>, t: TaskModel) -> bool {
    exists|j: int| 0 <= j < s.len() && s[j] == t
}

/// The tasks are pairwise distinct.
pub open spec fn tasks_unique(s: Seq<TaskModel>) -> bool {
    forall|i: int, j: int| 0 <= i < j < s.len() ==> s[i] != s[j]
}

/// The single-flight step: a task already pending is refused; a new task is
/// admitted and recorded. The boolean says whether a fill begins.
pub open spec fn sf_begin(s: Seq<TaskModel>, t: TaskModel) -> (bool, Seq<TaskModel>) {
    if tasks_contains(s, t) {
        (false, s)
    } else {
        (true, s.push(t))
    }
}

/// Single flight: from a state where `t` is not pending, the first attempt
/// begins the fill, the second attempt is refused and changes nothing, and
/// the set's size peaks one above where it started.
pub proof fn lemma_single_flight(s: Seq<TaskModel>, t: TaskModel)
    requires
        !tasks_contains(s, t),
    ensures
        sf_begin(s, t) == (true, s.push(t)),
        sf_begin(sf_begin(s, t).1, t) == (false, s.push(t)),
        sf_begin(s, t).1.len() == s.len() + 1,
{
    assert(s.push(t)[s.len() as int] == t);
    assert(tasks_contains(s.push(t), t));
}

/// One cache under the task manager: a bounded LRU cache or a TTL cache.
/// The cache realizes the metadata-store and blob-storage contract in
/// memory, whichever backend the policy prescribed; the prescription is
/// recorded beside it so a deployment can wire the prescribed backend
/// behind the same contract.
pub enum CacheVariant {
    Lru(LruCache),
    Ttl(TtlCache),
}

impl CacheVariant {
    /// The underlying cache is well formed.
    pub open spec fn wf(&self) -> bool {
        match self {
            CacheVariant::Lru(c) => c.wf(),
            CacheVariant::Ttl(c) => c.wf(),
        }
    }
}

/// Which metadata backend and which declared storage a policy prescribed
/// for its cache, and its sweep interval: recorded when the cache is built,
/// so the deployment can stand the prescribed backend behind it.
pub struct CachePrescription {
    pub metadata_db: MetadataDb,
    pub storage_name: String,
    pub clean_interval: u64,
}

/// The task manager: the configuration, one cache per active policy, the
/// per-rule bindings, and the pending-task set that deduplicates background
/// fills.
pub struct TaskManager {
    pub config: Settings,
    /// One cache per distinct policy named by a rule.
    pub caches: Vec<CacheVariant>,
    /// The policy name behind each cache, parallel to `caches`.
    pub cache_names: Vec<String>,
    /// The backend and storage each cache's policy prescribed, parallel to
    /// `caches`.
    pub cache_prescriptions: Vec<CachePrescription>,
    /// Rule id (the rule's position) to cache index and per-response size
    /// ceiling (0 meaning none).
    pub rule_map: Vec<(usize, u64)>,
    /// Rule id to that rule's rewrites.
    pub rewrite_map: Vec<Option<Vec<Rewrite>>>,
    /// The pending background fills.
    pub task_set: Vec<Task>,
}

impl TaskManager {
    /// The caches are well formed, the bindings point at caches, the rule
    /// tables are parallel, and no task is pending twice.
    pub open spec fn wf(&self) -> bool {
        &&& self.caches@.len() == self.cache_names@.len()
        &&& self.caches@.len() == self.cache_prescriptions@.len()
        &&& forall|i: int| 0 <= i < self.caches@.len() ==> (#[trigger] self.caches@[i]).wf()
        &&& forall|i: int|
            0 <= i < self.rule_map@.len() ==> (#[trigger] self.rule_map@[i]).0
                < self.caches@.len()
        &&& self.rewrite_map@.len() == self.rule_map@.len()
        &&& tasks_unique(self.task_set.deep_view())
    }

    /// A manager with the given configuration and no caches or rules bound
    /// yet.
    pub fn new(config: Settings) -> (r: TaskManager)
        ensures
            r.wf(),
            r.config == config,
            r.rule_map@.len() == 0,
            r.task_set.deep_view() == Seq::<TaskModel>::empty(),
    {
        let r = TaskManager {
            config,
            caches: Vec::new(),
            cache_names: Vec::new(),
            cache_prescriptions: Vec::new(),
            rule_map: Vec::new(),
            rewrite_map: Vec::new(),
            task_set: Vec::new(),
        };
        proof {
            assert(r.task_set.deep_view() =~= Seq::<TaskModel>::empty());
        }
        r
    }

    /// A manager with an empty configuration.
    pub fn empty() -> (r: TaskManager)
        ensures
            r.wf(),
            r.rule_map@.len() == 0,
            r.task_set.deep_view() == Seq::<TaskModel>::empty(),
    {
        let config = Settings {
            port: 0,
            debug: false,
            redis: RedisSetting { url: String::new() },
            url: None,
            rules: Vec::new(),
            policies: Vec::new(),
            storages: Vec::new(),
            sled: SledSetting { metadata_path: String::new() },
            builtin: None,
        };
        TaskManager::new(config)
    }

    fn task_find(&self, t: &Task) -> (r: Option<usize>)
        ensures
            match r {
                Some(i) => i < self.task_set.deep_view().len() && self.task_set.deep_view()[
                    i as int] == t@ && tasks_contains(self.task_set.deep_view(), t@),
                None => !tasks_contains(self.task_set.deep_view(), t@),
            },
    {
        let n = self.task_set.len();
        let mut i: usize = 0;
        while i < n
            invariant
                n == self.task_set@.len(),
                i <= n,
                forall|j: int| 0 <= j < i ==> #[trigger] self.task_set.deep_view()[j] != t@,
            decreases n - i,
        {
            if self.task_set[i].rule_id == t.rule_id && self.task_set[i].url == t.url {
                proof {
                    assert(self.task_set.deep_view()[i as int] == t@);
                }
                return Some(i);
            }
            proof {
                assert(self.task_set.deep_view()[i as int] != t@);
            }
            i = i + 1;
        }
        proof {
            if tasks_contains(self.task_set.deep_view(), t@) {
                let w = choose|j: int|
                    0 <= j < self.task_set.deep_view().len() && self.task_set.deep_view()[j] == t@;
                assert(self.task_set.deep_view()[w] != t@);
            }
        }
        None
    }

    /// Whether a fill for `t` is already pending.
    pub fn taskset_contains(&self, t: &Task) -> (r: bool)
        ensures
            r == tasks_contains(self.task_set.deep_view(), t@),
    {
        self.task_find(t).is_some()
    }

    /// The single-flight gate: admits `t` and reports `true` when no fill
    /// for it is pending, else refuses it and changes nothing. Check and
    /// insert are one step, so two callers never both begin.
    pub fn taskset_add(&mut self, t: Task) -> (r: bool)
        requires
            old(self).wf(),
        ensures
            final(self).wf(),
            (r, final(self).task_set.deep_view()) == sf_begin(old(self).task_set.deep_view(), t@),
            final(self).caches == old(self).caches,
            final(self).cache_prescriptions == old(self).cache_prescriptions,
            final(self).rule_map == old(self).rule_map,
            final(self).rewrite_map == old(self).rewrite_map,
            final(self).cache_names == old(self).cache_names,
            final(self).config == old(self).config,
    {
        match self.task_find(&t) {
            Some(_) => false,
            None => {
                let ghost s0 = self.task_set.deep_view();
                self.task_set.push(t);
                proof {
                    assert(self.task_set.deep_view() =~= s0.push(t@));
                    let s1 = self.task_set.deep_view();
                    assert forall|a: int, b: int| 0 <= a < b < s1.len() implies s1[a] != s1[b] by {
                        if b == s1.len() - 1 {
                            assert(s0[a] != t@);
                        } else {
                            assert(s0[a] != s0[b]);
                        }
                    }
                }
                true
            },
        }
    }

    /// Marks the fill for `t` as finished: the task leaves the pending set.
    pub fn taskset_remove(&mut self, t: &Task)
        requires
            old(self).wf(),
        ensures
            final(self).wf(),
            !tasks_contains(final(self).task_set.deep_view(), t@),
            final(self).task_set.deep_view() == ({
                let s0 = old(self).task_set.deep_view();
                if tasks_contains(s0, t@) {
                    s0.remove(choose|j: int| 0 <= j < s0.len() && s0[j] == t@)
                } else {
                    s0
                }
            }),
            final(self).caches == old(self).caches,
            final(self).cache_prescriptions == old(self).cache_prescriptions,
            final(self).rule_map == old(self).rule_map,
            final(self).rewrite_map == old(self).rewrite_map,
            final(self).cache_names == old(self).cache_names,
            final(self).config == old(self).config,
    {
        let ghost s0 = self.task_set.deep_view();
        match self.task_find(t) {
            Some(i) => {
                self.task_set.remove(i);
                proof {
                    let s1 = self.task_set.deep_view();
                    assert(s1 =~= s0.remove(i as int));
                    assert(forall|j: int| 0 <= j < i ==> s1[j] == s0[j]);
                    assert(forall|j: int| i <= j < s1.len() ==> s1[j] == s0[j + 1]);
                    assert forall|a: int, b: int| 0 <= a < b < s1.len() implies s1[a] != s1[b] by {
                        let a2 = if a < i as int {
                            a
                        } else {
                            a + 1
                        };
                        let b2 = if b < i as int {
                            b
                        } else {
                            b + 1
                        };
                        assert(s1[a] == s0[a2] && s1[b] == s0[b2]);
                        assert(s0[a2] != s0[b2]);
                    }
                    if tasks_contains(s1, t@) {
                        let w = choose|j: int| 0 <= j < s1.len() && s1[j] == t@;
                        let w2 = if w < i as int {
                            w
                        } else {
                            w + 1
                        };
                        assert(s0[w2] == t@);
                        assert(s0[i as int] == t@);
                        assert(w2 != i as int);
                        assert(false);
                    }
                    let c = choose|j: int| 0 <= j < s0.len() && s0[j] == t@;
                    assert(s0[c] == t@ && s0[i as int] == t@);
                    assert(c == i as int);
                }
            },
            None => {},
        }
    }

    /// How many fills are pending.
    pub fn taskset_len(&self) -> (r: usize)
        ensures
            r == self.task_set.deep_view().len(),
    {
        self.task_set.len()
    }

    /// Applies the rule's rewrites to an upstream body, each a literal
    /// substitution, in declared order.
    pub fn rewrite_upstream(content: String, rewrites: &Vec<Rewrite>) -> (r: String)
        ensures
            r@ == spec_rewrite_all(content@, rewrites.deep_view()),
    {
        let ghost rws = rewrites.deep_view();
        let ghost orig = content@;
        let mut cur = content;
        let n = rewrites.len();
        let mut i: usize = 0;
        proof {
            assert(rws.subrange(0, n as int) =~= rws);
        }
        while i < n
            invariant
                n == rewrites@.len(),
                i <= n,
                rws == rewrites.deep_view(),
                spec_rewrite_all(orig, rws) == spec_rewrite_all(
                    cur@,
                    rws.subrange(i as int, n as int),
                ),
            decreases n - i,
        {
            proof {
                let suffix = rws.subrange(i as int, n as int);
                assert(suffix[0] == rws[i as int]);
                assert(suffix.subrange(1, suffix.len() as int) =~= rws.subrange(
                    i + 1,
                    n as int,
                ));
            }
            let next = replace_str(
                cur.as_str(),
                rewrites[i].from.as_str(),
                rewrites[i].to.as_str(),
            );
            cur = next;
            i = i + 1;
        }
        proof {
            assert(rws.subrange(n as int, n as int) =~= Seq::<RewriteModel>::empty());
        }
        cur
    }

    /// The upstream URL a task fetches from.
    pub fn resolve_task_upstream(&self, task: &Task) -> (r: String)
        ensures
            r@ == task.url@,
    {
        task.url.clone()
    }

    /// The cache index bound to a rule, when the rule is known.
    pub fn get_cache_for_cache_rule(&self, rule_id: usize) -> (r: Option<usize>)
        ensures
            match r {
                Some(ci) => rule_id < self.rule_map@.len() && ci == self.rule_map@[
                    rule_id as int].0,
                None => rule_id >= self.rule_map@.len(),
            },
    {
        if rule_id < self.rule_map.len() {
            Some(self.rule_map[rule_id].0)
        } else {
            None
        }
    }

    /// The per-response size ceiling of a task's rule (0 meaning none).
    pub fn get_task_size_limit(&self, task: &Task) -> (r: u64)
        requires
            task.rule_id < self.rule_map@.len(),
        ensures
            r == self.rule_map@[task.rule_id as int].1,
    {
        self.rule_map[task.rule_id].1
    }

    /// Builds the cache a policy prescribes — an empty LRU cache with the
    /// policy's size limit, or an empty TTL cache with its timeout — and the
    /// record of the backend and storage the policy prescribed for it. An
    /// unknown policy name, a size string that is not a size, or a storage
    /// name no declared storage carries, is an invalid configuration.
    pub fn create_cache_from_rule(
        policy_name: &str,
        policies: &Vec<Policy>,
        storages: &Vec<Storage>,
    ) -> (r: Result<(CacheVariant, CachePrescription), Error>)
        ensures
            r is Ok <==> (find_policy(policies@, policy_name@) is Some && policy_size_ok(
                &policies@[find_policy(policies@, policy_name@)->Some_0],
            ) && storage_declared(
                storages@,
                policies@[find_policy(policies@, policy_name@)->Some_0].storage@,
            )),
            r is Ok ==> cache_matches_policy(
                &r->Ok_0.0,
                &policies@[find_policy(policies@, policy_name@)->Some_0],
            ) && prescription_matches_policy(
                &r->Ok_0.1,
                &policies@[find_policy(policies@, policy_name@)->Some_0],
            ),
            r is Err ==> r->Err_0 is ConfigInvalid,
    {
        let n = policies.len();
        let name = policy_name.to_owned();
        let mut i: usize = 0;
        while i < n
            invariant
                n == policies@.len(),
                i <= n,
                name@ == policy_name@,
                forall|j: int| 0 <= j < i ==> #[trigger] policies@[j].name@ != policy_name@,
            decreases n - i,
        {
            if policies[i].name == name {
                proof {
                    lemma_find_policy(policies@, policy_name@);
                    assert(policies@[i as int].name@ == policy_name@);
                }
                let p = &policies[i];
                let ns = storages.len();
                let mut si: usize = 0;
                let mut storage_found = false;
                while si < ns
                    invariant
                        ns == storages@.len(),
                        si <= ns,
                        i < policies@.len(),
                        p == &policies@[i as int],
                        storage_found ==> storage_declared(storages@, p.storage@),
                        !storage_found ==> forall|j: int|
                            0 <= j < si ==> #[trigger] storages@[j].name@ != p.storage@,
                    decreases ns - si,
                {
                    if !storage_found && storages[si].name == p.storage {
                        storage_found = true;
                        proof {
                            assert(storages@[si as int].name@ == p.storage@);
                        }
                    }
                    si = si + 1;
                }
                if !storage_found {
                    proof {
                        if storage_declared(storages@, p.storage@) {
                            let w = choose|j: int|
                                0 <= j < storages@.len() && #[trigger] storages@[j].name@
                                    == p.storage@;
                            assert(storages@[w].name@ != p.storage@);
                        }
                    }
                    return Err(Error::ConfigInvalid(String::from_str("no such storage")));
                }
                let size: u64 = match &p.size {
                    None => 0,
                    Some(s) => match parse_byte_size(s.as_str()) {
                        Some(v) => v,
                        None => {
                            return Err(
                                Error::ConfigInvalid(
                                    String::from_str("policy size is not a byte size"),
                                ),
                            );
                        },
                    },
                };
                let prescription = CachePrescription {
                    metadata_db: p.metadata_db,
                    storage_name: p.storage.clone(),
                    clean_interval: match p.clean_interval {
                        Some(c) => c,
                        None => 3,
                    },
                };
                match p.typ {
                    PolicyType::Lru => {
                        let metadata_db = LruMetadataDb::new();
                        let storage = MemStorage::new();
                        proof {
                            assert forall|k: Seq<char>| !crate::lru::lru_contains(
                                metadata_db.model(),
                                k,
                            ) && !storage@.contains_key(k) by {}
                        }
                        let cache = LruCache::new(size, metadata_db, storage);
                        return Ok((CacheVariant::Lru(cache), prescription));
                    },
                    PolicyType::Ttl => {
                        let timeout = match p.timeout {
                            Some(t) => t,
                            None => 0,
                        };
                        let metadata_db = TtlMetadataDb::new();
                        let storage = MemStorage::new();
                        proof {
                            assert forall|k: Seq<char>| !ttl_contains(metadata_db.model(), k)
                                && !storage@.contains_key(k) by {}
                        }
                        let cache = TtlCache::new(timeout, metadata_db, storage);
                        return Ok((CacheVariant::Ttl(cache), prescription));
                    },
                }
            }
            i = i + 1;
        }
        proof {
            lemma_find_policy(policies@, policy_name@);
        }
        Err(Error::ConfigInvalid(String::from_str("no such policy")))
    }
}

/// First policy with the given name.
pub open spec fn find_policy(ps: Seq<Policy>, name: Seq<char>) -> Option<int>
    decreases ps.len(),
{
    if ps.len() == 0 {
        None
    } else if ps[0].name@ == name {
        Some(0)
    } else {
        match find_policy(ps.subrange(1, ps.len() as int), name) {
            Some(i) => Some(i + 1),
            None => None,
        }
    }
}

/// `find_policy` finds the first policy with the name, and `None` exactly
/// when no policy has it.
pub proof fn lemma_find_policy(ps: Seq<Policy>, name: Seq<char>)
    ensures
        match find_policy(ps, name) {
            Some(i) => 0 <= i < ps.len() && ps[i].name@ == name && (forall|j: int|
                0 <= j < i ==> #[trigger] ps[j].name@ != name),
            None => forall|j: int| 0 <= j < ps.len() ==> #[trigger] ps[j].name@ != name,
        },
    decreases ps.len(),
{
    if ps.len() > 0 && ps[0].name@ != name {
        let rest = ps.subrange(1, ps.len() as int);
        lemma_find_policy(rest, name);
        assert(forall|j: int| 0 <= j < rest.len() ==> #[trigger] rest[j].name@ == ps[j + 1].name@);
        match find_policy(ps, name) {
            Some(i) => {
                assert forall|j: int| 0 <= j < i implies #[trigger] ps[j].name@ != name by {
                    if j > 0 {
                        assert(rest[j - 1].name@ != name);
                    }
                }
            },
            None => {
                assert forall|j: int| 0 <= j < ps.len() implies #[trigger] ps[j].name@ != name by {
                    if j > 0 {
                        assert(rest[j - 1].name@ != name);
                    }
                }
            },
        }
    }
}

/// A policy's size string, when present, must denote a byte count.
pub open spec fn policy_size_ok(p: &Policy) -> bool {
    p.size matches Some(s) ==> parsed_byte_size(s@) is Some
}

/// The size limit a policy prescribes: its parsed size, or 0 (no limit).
pub open spec fn spec_policy_size(p: &Policy) -> u64 {
    match p.size {
        Some(s) => parsed_byte_size(s@)->Some_0,
        None => 0,
    }
}

/// A rule's size ceiling string, when present, must denote a byte count.
pub open spec fn rule_limit_ok(r: &Rule) -> bool {
    r.size_limit matches Some(s) ==> parsed_byte_size(s@) is Some
}

/// The per-response ceiling a rule prescribes: its parsed size, or 0.
pub open spec fn spec_rule_limit(r: &Rule) -> u64 {
    match r.size_limit {
        Some(s) => parsed_byte_size(s@)->Some_0,
        None => 0,
    }
}

/// The freshly built cache a policy prescribes: the matching kind, empty,
/// with the policy's limit or timeout.
pub open spec fn cache_matches_policy(c: &CacheVariant, p: &Policy) -> bool {
    match c {
        CacheVariant::Lru(lc) => {
            &&& p.typ == PolicyType::Lru
            &&& lc.wf()
            &&& lc.metadata_db.model() == Seq::<crate::lru::LruEntryModel>::empty()
            &&& lc.storage@ == Map::<Seq<char>, Seq<u8>>::empty()
            &&& lc.size_limit == spec_policy_size(p)
        },
        CacheVariant::Ttl(tc) => {
            &&& p.typ == PolicyType::Ttl
            &&& tc.wf()
            &&& tc.metadata_db.model() == Seq::<crate::ttl::TtlEntryModel>::empty()
            &&& tc.storage@ == Map::<Seq<char>, Seq<u8>>::empty()
            &&& tc.ttl == (match p.timeout {
                Some(t) => t,
                None => 0,
            })
        },
    }
}

/// Some declared storage carries the name.
pub open spec fn storage_declared(storages: Seq<Storage>, name: Seq<char>) -> bool {
    exists|j: int| 0 <= j < storages.len() && #[trigger] storages[j].name@ == name
}

/// The recorded prescription is the policy's: its metadata backend, the
/// storage it names, and its sweep interval (3 when unset).
pub open spec fn prescription_matches_policy(pr: &CachePrescription, p: &Policy) -> bool {
    &&& pr.metadata_db == p.metadata_db
    &&& pr.storage_name@ == p.storage@
    &&& pr.clean_interval == (match p.clean_interval {
        Some(c) => c,
        None => 3,
    })
}

/// A rule can be served: its policy exists, that policy's size parses, the
/// storage the policy names is declared, and the rule's own ceiling parses.
pub open spec fn rule_cachable(r: &Rule, ps: Seq<Policy>, storages: Seq<Storage>) -> bool {
    &&& find_policy(ps, r.policy@) is Some
    &&& policy_size_ok(&ps[find_policy(ps, r.policy@)->Some_0])
    &&& storage_declared(storages, ps[find_policy(ps, r.policy@)->Some_0].storage@)
    &&& rule_limit_ok(r)
}

/// Every rule of the settings can be served.
pub open spec fn settings_cachable(s: &Settings) -> bool {
    forall|i: int| 0 <= i < s.rules@.len() ==> rule_cachable(&s.rules@[i], s.policies@, s.storages@)
}

/// The cache is the fresh cache of the policy that `nm` designates, its
/// recorded prescription is that policy's, and the storage the policy names
/// is declared.
pub open spec fn cache_entry_sound(
    c: &CacheVariant,
    pr: &CachePrescription,
    nm: &String,
    policies: Seq<Policy>,
    storages: Seq<Storage>,
) -> bool {
    let f = find_policy(policies, nm@);
    &&& f is Some
    &&& policy_size_ok(&policies[f->Some_0])
    &&& storage_declared(storages, policies[f->Some_0].storage@)
    &&& cache_matches_policy(c, &policies[f->Some_0])
    &&& prescription_matches_policy(pr, &policies[f->Some_0])
}

/// Every built cache is the fresh cache of the policy its name designates,
/// with that policy's prescription recorded beside it.
pub open spec fn caches_sound(
    caches: Seq<CacheVariant>,
    prescriptions: Seq<CachePrescription>,
    names: Seq<String>,
    policies: Seq<Policy>,
    storages: Seq<Storage>,
) -> bool {
    forall|ci: int|
        0 <= ci < caches.len() ==> #[trigger] cache_entry_sound(
            &caches[ci],
            &prescriptions[ci],
            &names[ci],
            policies,
            storages,
        )
}

/// The first `n` rules are each bound to the cache of their policy, with
/// their parsed ceiling and their rewrites.
pub open spec fn bindings_sound(
    rm: Seq<(usize, u64)>,
    rwm: Seq<Option<Vec<Rewrite>>>,
    ncaches: int,
    names: Seq<String>,
    rules: Seq<Rule>,
    n: int,
) -> bool {
    forall|j: int|
        #![trigger rm[j]]
        0 <= j < n ==> ({
            let rule = &rules[j];
            let cj = rm[j].0 as int;
            &&& 0 <= cj < ncaches
            &&& names[cj]@ == rule.policy@
            &&& rm[j].1 == spec_rule_limit(rule)
            &&& (rwm[j] is Some <==> rule.rewrite is Some)
            &&& (rwm[j] is Some ==> rwm[j]->Some_0.deep_view()
                == rule.rewrite->Some_0.deep_view())
        })
}

/// The first `n` rules can each be served.
pub open spec fn rules_cachable_prefix(
    rules: Seq<Rule>,
    policies: Seq<Policy>,
    storages: Seq<Storage>,
    n: int,
) -> bool {
    forall|j: int| 0 <= j < n ==> rule_cachable(&rules[j], policies, storages)
}

/// Adding the fresh cache of one more policy keeps the built caches sound.
pub proof fn lemma_caches_sound_push(
    caches: Seq<CacheVariant>,
    prescriptions: Seq<CachePrescription>,
    names: Seq<String>,
    policies: Seq<Policy>,
    storages: Seq<Storage>,
    c: CacheVariant,
    pr: CachePrescription,
    nm: String,
)
    requires
        caches_sound(caches, prescriptions, names, policies, storages),
        names.len() == caches.len(),
        prescriptions.len() == caches.len(),
        find_policy(policies, nm@) is Some,
        policy_size_ok(&policies[find_policy(policies, nm@)->Some_0]),
        storage_declared(storages, policies[find_policy(policies, nm@)->Some_0].storage@),
        cache_matches_policy(&c, &policies[find_policy(policies, nm@)->Some_0]),
        prescription_matches_policy(&pr, &policies[find_policy(policies, nm@)->Some_0]),
    ensures
        caches_sound(caches.push(c), prescriptions.push(pr), names.push(nm), policies, storages),
{
    let cs = caches.push(c);
    let ps2 = prescriptions.push(pr);
    let ns = names.push(nm);
    assert forall|ci: int|
        0 <= ci < cs.len() implies #[trigger] cache_entry_sound(
        &cs[ci],
        &ps2[ci],
        &ns[ci],
        policies,
        storages,
    ) by {
        if ci < caches.len() {
            assert(cs[ci] == caches[ci]);
            assert(ps2[ci] == prescriptions[ci]);
            assert(ns[ci] == names[ci]);
            assert(cache_entry_sound(
                &caches[ci],
                &prescriptions[ci],
                &names[ci],
                policies,
                storages,
            ));
        } else {
            assert(cs[ci] == c);
            assert(ps2[ci] == pr);
            assert(ns[ci] == nm);
        }
    }
}

/// A faithful copy of a rule's rewrites.
fn clone_rewrites(ws: &Vec<Rewrite>) -> (r: Vec<Rewrite>)
    ensures
        r.deep_view() == ws.deep_view(),
{
    let n = ws.len();
    let mut r: Vec<Rewrite> = Vec::new();
    let mut i: usize = 0;
    proof {
        assert(r.deep_view() =~= ws.deep_view().subrange(0, 0));
    }
    while i < n
        invariant
            n == ws@.len(),
            i <= n,
            r.deep_view() == ws.deep_view().subrange(0, i as int),
        decreases n - i,
    {
        let ghost prev = r.deep_view();
        let elem = Rewrite { from: ws[i].from.clone(), to: ws[i].to.clone() };
        proof {
            assert(elem.deep_view() == ws@[i as int].deep_view());
        }
        r.push(elem);
        i = i + 1;
        proof {
            assert(prev.len() == i - 1);
            assert(r@.len() == i);
            assert forall|j: int| 0 <= j < i implies r.deep_view()[j] == ws.deep_view().subrange(
                0,
                i as int,
            )[j] by {
                assert(r.deep_view()[j] == r@[j].deep_view());
                if j < i - 1 {
                    assert(r@[j].deep_view() == prev[j]);
                    assert(prev[j] == ws.deep_view().subrange(0, i - 1)[j]);
                }
            }
            assert(r.deep_view() =~= ws.deep_view().subrange(0, i as int));
        }
    }
    proof {
        assert(r.deep_view() =~= ws.deep_view());
    }
    r
}

/// The binding the manager keeps for rule `i` after a refresh: the cache
/// index points at a well-formed, freshly built cache of the rule's policy,
/// under the policy's name, with the rule's parsed ceiling and its rewrites.
pub open spec fn rule_bound(tm: &TaskManager, settings: &Settings, i: int) -> bool {
    let rule = &settings.rules@[i];
    let ci = tm.rule_map@[i].0 as int;
    &&& 0 <= ci < tm.caches@.len()
    &&& tm.cache_names@[ci]@ == rule.policy@
    &&& tm.rule_map@[i].1 == spec_rule_limit(rule)
    &&& cache_matches_policy(
        &tm.caches@[ci],
        &settings.policies@[find_policy(settings.policies@, rule.policy@)->Some_0],
    )
    &&& prescription_matches_policy(
        &tm.cache_prescriptions@[ci],
        &settings.policies@[find_policy(settings.policies@, rule.policy@)->Some_0],
    )
    &&& storage_declared(
        settings.storages@,
        settings.policies@[find_policy(settings.policies@, rule.policy@)->Some_0].storage@,
    )
    &&& (tm.rewrite_map@[i] is Some <==> rule.rewrite is Some)
    &&& (tm.rewrite_map@[i] is Some ==> tm.rewrite_map@[i]->Some_0.deep_view()
        == rule.rewrite->Some_0.deep_view())
}

impl TaskManager {
    /// Rebuilds the caches and rule bindings from new settings: one fresh
    /// cache per policy named by some rule (rules sharing a policy share the
    /// cache), each rule bound to its cache, its parsed size ceiling and its
    /// rewrites. Fails, changing nothing, when a rule names an unknown
    /// policy or a size does not parse. The pending-task set is kept.
    #[verifier::rlimit(100)]
    pub fn refresh_config(&mut self, settings: Settings) -> (r: Result<(), Error>)
        requires
            old(self).wf(),
        ensures
            final(self).wf(),
            r is Ok <==> settings_cachable(&settings),
            r is Err ==> *final(self) == *old(self) && r->Err_0 is ConfigInvalid,
            r is Ok ==> ({
                &&& final(self).config == settings
                &&& final(self).rule_map@.len() == settings.rules@.len()
                &&& final(self).task_set == old(self).task_set
                &&& forall|i: int|
                    0 <= i < settings.rules@.len() ==> rule_bound(final(self), &settings, i)
                &&& forall|a: int, b: int|
                    0 <= a < b < final(self).cache_names@.len()
                        ==> final(self).cache_names@[a]@ != final(self).cache_names@[b]@
            }),
    {
        let nrules = settings.rules.len();
        let mut caches: Vec<CacheVariant> = Vec::new();
        let mut cache_names: Vec<String> = Vec::new();
        let mut cache_prescriptions: Vec<CachePrescription> = Vec::new();
        let mut rule_map: Vec<(usize, u64)> = Vec::new();
        let mut rewrite_map: Vec<Option<Vec<Rewrite>>> = Vec::new();
        let mut i: usize = 0;
        while i < nrules
            invariant
                nrules == settings.rules@.len(),
                i <= nrules,
                caches@.len() == cache_names@.len(),
                caches@.len() == cache_prescriptions@.len(),
                rule_map@.len() == i,
                rewrite_map@.len() == i,
                forall|a: int, b: int|
                    0 <= a < b < cache_names@.len() ==> cache_names@[a]@ != cache_names@[b]@,
                caches_sound(
                    caches@,
                    cache_prescriptions@,
                    cache_names@,
                    settings.policies@,
                    settings.storages@,
                ),
                bindings_sound(
                    rule_map@,
                    rewrite_map@,
                    caches@.len() as int,
                    cache_names@,
                    settings.rules@,
                    i as int,
                ),
                rules_cachable_prefix(settings.rules@, settings.policies@, settings.storages@, i as int),
                *self == *old(self),
                old(self).wf(),
            decreases nrules - i,
        {
            let ghost caches_pre = caches@;
            let ghost names_pre = cache_names@;
            let ghost prs_pre = cache_prescriptions@;
            let ghost rm_pre = rule_map@;
            let ghost rwm_pre = rewrite_map@;
            let policy_name = settings.rules[i].policy.clone();
            let mut ci_opt: Option<usize> = None;
            let ncaches = cache_names.len();
            let mut c: usize = 0;
            while c < ncaches
                invariant
                    ncaches == cache_names@.len(),
                    c <= ncaches,
                    policy_name@ == settings.rules@[i as int].policy@,
                    i < settings.rules@.len(),
                    match ci_opt {
                        Some(f) => f < cache_names@.len() && cache_names@[f as int]@
                            == policy_name@,
                        None => forall|j: int|
                            0 <= j < c ==> #[trigger] cache_names@[j]@ != policy_name@,
                    },
                decreases ncaches - c,
            {
                if ci_opt.is_none() && cache_names[c] == policy_name {
                    ci_opt = Some(c);
                }
                c = c + 1;
            }
            let ci: usize = match ci_opt {
                Some(found) => found,
                None => {
                    match Self::create_cache_from_rule(
                        policy_name.as_str(),
                        &settings.policies,
                        &settings.storages,
                    ) {
                        Ok((cache, prescription)) => {
                            let ghost names0 = cache_names@;
                            caches.push(cache);
                            cache_names.push(policy_name.clone());
                            cache_prescriptions.push(prescription);
                            proof {
                                let nn = names0.len() as int;
                                assert forall|a: int, b: int|
                                    0 <= a < b < cache_names@.len() implies cache_names@[a]@
                                    != cache_names@[b]@ by {
                                    if b < nn {
                                        assert(names0[a]@ != names0[b]@);
                                    } else {
                                        assert(names0[a]@ != policy_name@);
                                    }
                                }
                                assert(caches@[nn] == caches@.last());
                                assert(cache_names@[nn]@ == policy_name@);
                                assert(cache_matches_policy(
                                    &caches@[nn],
                                    &settings.policies@[find_policy(
                                        settings.policies@,
                                        policy_name@,
                                    )->Some_0],
                                ));
                                assert(prescription_matches_policy(
                                    &cache_prescriptions@[nn],
                                    &settings.policies@[find_policy(
                                        settings.policies@,
                                        policy_name@,
                                    )->Some_0],
                                ));
                                lemma_caches_sound_push(
                                    caches_pre,
                                    prs_pre,
                                    names_pre,
                                    settings.policies@,
                                    settings.storages@,
                                    caches@[nn],
                                    cache_prescriptions@[nn],
                                    cache_names@[nn],
                                );
                                assert(caches@ =~= caches_pre.push(caches@[nn]));
                                assert(cache_prescriptions@ =~= prs_pre.push(
                                    cache_prescriptions@[nn],
                                ));
                                assert(cache_names@ =~= names_pre.push(cache_names@[nn]));
                                assert(caches_sound(
                                    caches@,
                                    cache_prescriptions@,
                                    cache_names@,
                                    settings.policies@,
                                    settings.storages@,
                                ));
                            }
                            cache_names.len() - 1
                        },
                        Err(e) => {
                            proof {
                                assert(!rule_cachable(
                                    &settings.rules@[i as int],
                                    settings.policies@,
                                    settings.storages@,
                                ));
                            }
                            return Err(e);
                        },
                    }
                },
            };
            let limit: u64 = match &settings.rules[i].size_limit {
                None => 0,
                Some(s) => match parse_byte_size(s.as_str()) {
                    Some(v) => v,
                    None => {
                        proof {
                            assert(!rule_limit_ok(&settings.rules@[i as int]));
                            assert(!rule_cachable(
                                &settings.rules@[i as int],
                                settings.policies@,
                                settings.storages@,
                            ));
                        }
                        return Err(
                            Error::ConfigInvalid(
                                String::from_str("rule size limit is not a byte size"),
                            ),
                        );
                    },
                },
            };
            let rewrites: Option<Vec<Rewrite>> = match &settings.rules[i].rewrite {
                None => None,
                Some(ws) => Some(clone_rewrites(ws)),
            };
            proof {
                assert(cache_entry_sound(
                    &caches@[ci as int],
                    &cache_prescriptions@[ci as int],
                    &cache_names@[ci as int],
                    settings.policies@,
                    settings.storages@,
                ));
                assert(cache_names@[ci as int]@ == settings.rules@[i as int].policy@);
                assert(rule_cachable(
                    &settings.rules@[i as int],
                    settings.policies@,
                    settings.storages@,
                ));
            }
            let ghost rm_mid = rule_map@;
            let ghost rwm_mid = rewrite_map@;
            rule_map.push((ci, limit));
            rewrite_map.push(rewrites);
            i = i + 1;
            proof {
                assert(bindings_sound(
                    rule_map@,
                    rewrite_map@,
                    caches@.len() as int,
                    cache_names@,
                    settings.rules@,
                    i as int,
                )) by {
                    assert forall|j: int|
                        #![trigger rule_map@[j]]
                        0 <= j < i implies ({
                            let rule = &settings.rules@[j];
                            let cj = rule_map@[j].0 as int;
                            &&& 0 <= cj < caches@.len()
                            &&& cache_names@[cj]@ == rule.policy@
                            &&& rule_map@[j].1 == spec_rule_limit(rule)
                            &&& (rewrite_map@[j] is Some <==> rule.rewrite is Some)
                            &&& (rewrite_map@[j] is Some ==> rewrite_map@[j]->Some_0.deep_view()
                                == rule.rewrite->Some_0.deep_view())
                        }) by {
                        if j < i - 1 {
                            assert(rule_map@[j] == rm_mid[j]);
                            assert(rm_mid[j] == rm_pre[j]);
                            assert(rewrite_map@[j] == rwm_mid[j]);
                            assert(rwm_mid[j] == rwm_pre[j]);
                            let cj = rm_pre[j].0 as int;
                            assert(0 <= cj < caches_pre.len());
                            assert(caches@[cj] == caches_pre[cj]);
                            assert(cache_names@[cj] == names_pre[cj]);
                        } else {
                            assert(rule_map@[j] == (ci, limit));
                        }
                    }
                }
                assert(rules_cachable_prefix(
                    settings.rules@,
                    settings.policies@,
                    settings.storages@,
                    i as int,
                )) by {
                    assert forall|j: int| 0 <= j < i implies rule_cachable(
                        &settings.rules@[j],
                        settings.policies@,
                        settings.storages@,
                    ) by {
                        if j < i - 1 {
                            assert(rule_cachable(
                                &settings.rules@[j],
                                settings.policies@,
                                settings.storages@,
                            ));
                        }
                    }
                }
            }
        }
        let ghost gc = caches@;
        let ghost gn = cache_names@;
        let ghost gpr = cache_prescriptions@;
        let ghost grm = rule_map@;
        let ghost gs = settings;
        self.caches = caches;
        self.cache_names = cache_names;
        self.cache_prescriptions = cache_prescriptions;
        self.rule_map = rule_map;
        self.rewrite_map = rewrite_map;
        self.config = settings;
        proof {
            assert forall|ii: int|
                0 <= ii < self.caches@.len() implies (#[trigger] self.caches@[ii]).wf() by {
                assert(cache_entry_sound(&gc[ii], &gpr[ii], &gn[ii], gs.policies@, gs.storages@));
                assert(self.caches@[ii] == gc[ii]);
            }
            assert forall|j: int|
                0 <= j < self.rule_map@.len() implies (#[trigger] self.rule_map@[j]).0
                < self.caches@.len() by {
                assert(grm[j] == self.rule_map@[j]);
            }
            assert forall|i2: int|
                0 <= i2 < gs.rules@.len() implies rule_bound(self, &gs, i2) by {
                assert(grm[i2] == self.rule_map@[i2]);
                let cj = grm[i2].0 as int;
                assert(cache_entry_sound(&gc[cj], &gpr[cj], &gn[cj], gs.policies@, gs.storages@));
                assert(self.caches@[cj] == gc[cj]);
                assert(self.cache_names@[cj] == gn[cj]);
                assert(self.cache_prescriptions@[cj] == gpr[cj]);
            }
        }
        Ok(())
    }

    /// Looks a task's key up in the cache its rule is bound to, at time
    /// `now`: the payload on a hit (bumping the access time under an LRU
    /// policy), nothing on a miss or when the rule is not bound.
    pub fn get(&mut self, task: &Task, key: &str, now: i64) -> (r: Option<CacheData>)
        requires
            old(self).wf(),
        ensures
            final(self).wf(),
            task.rule_id >= old(self).rule_map@.len() ==> r is None && *final(self) == *old(self),
            task.rule_id < old(self).rule_map@.len() ==> ({
                let ci = old(self).rule_map@[task.rule_id as int].0 as int;
                &&& (old(self).caches@[ci] matches CacheVariant::Lru(c) ==> ({
                    &&& (r is Some <==> lru_get_result(
                        c.metadata_db.model(),
                        c.storage@,
                        key@,
                    ) is Some)
                    &&& (r is Some ==> r->Some_0.spec_content() == lru_get_result(
                        c.metadata_db.model(),
                        c.storage@,
                        key@,
                    )->Some_0)
                    &&& (final(self).caches@[ci] matches CacheVariant::Lru(c2) && c2.size_limit
                        == c.size_limit && c2.metadata_db.model() == lru_bump(
                        c.metadata_db.model(),
                        key@,
                        now,
                    ) && c2.storage@ == c.storage@)
                }))
                &&& (old(self).caches@[ci] matches CacheVariant::Ttl(c) ==> ({
                    &&& (r is Some <==> (ttl_contains(c.metadata_db.model(), key@)
                        && ttl_expiry_of(c.metadata_db.model(), key@) > now))
                    &&& (r is Some ==> r->Some_0.spec_content() == c.storage@[key@])
                    &&& final(self).caches@[ci] == old(self).caches@[ci]
                }))
                &&& forall|j: int|
                    0 <= j < old(self).caches@.len() && j != ci ==> final(self).caches@[j] == old(
                        self,
                    ).caches@[j]
                &&& final(self).caches@.len() == old(self).caches@.len()
                &&& final(self).rule_map == old(self).rule_map
                &&& final(self).rewrite_map == old(self).rewrite_map
                &&& final(self).cache_names == old(self).cache_names
                &&& final(self).cache_prescriptions == old(self).cache_prescriptions
                &&& final(self).config == old(self).config
                &&& final(self).task_set == old(self).task_set
            }),
    {
        if task.rule_id >= self.rule_map.len() {
            return None;
        }
        let ci = self.rule_map[task.rule_id].0;
        let ghost caches0 = self.caches@;
        let mut cv = self.caches.remove(ci);
        let r: Option<CacheData>;
        match cv {
            CacheVariant::Lru(mut c) => {
                r = c.get(key, now);
                cv = CacheVariant::Lru(c);
            },
            CacheVariant::Ttl(c) => {
                r = c.get(key, now);
                cv = CacheVariant::Ttl(c);
            },
        }
        self.caches.insert(ci, cv);
        proof {
            assert forall|j: int| 0 <= j < caches0.len() && j != ci as int implies self.caches@[j]
                == caches0[j] by {}
            assert(self.caches@.len() == caches0.len());
        }
        r
    }

    /// Stores a fetched payload in the cache the task's rule is bound to, at
    /// time `now`: the write a background fill performs once the upstream
    /// answered. An unbound rule stores nothing; under an LRU policy the
    /// bounded `put` applies; under a TTL policy the entry is written unless
    /// its expiration would not fit the clock's range.
    pub fn store_task_result(&mut self, task: &Task, key: &str, data: CacheData, now: i64)
        requires
            old(self).wf(),
            0 <= now,
        ensures
            final(self).wf(),
            task.rule_id >= old(self).rule_map@.len() ==> *final(self) == *old(self),
            task.rule_id < old(self).rule_map@.len() ==> ({
                let ci = old(self).rule_map@[task.rule_id as int].0 as int;
                &&& (old(self).caches@[ci] matches CacheVariant::Lru(c) ==> ({
                    &&& (final(self).caches@[ci] matches CacheVariant::Lru(c2) && c2.size_limit
                        == c.size_limit && c2.metadata_db.model() == lru_put_meta(
                        c.metadata_db.model(),
                        key@,
                        data,
                        c.size_limit,
                        now,
                    ) && c2.storage@ == lru_put_store(
                        c.storage@,
                        c.metadata_db.model(),
                        key@,
                        data,
                        c.size_limit,
                        now,
                    ))
                }))
                &&& (old(self).caches@[ci] matches CacheVariant::Ttl(c) ==> ({
                    &&& (now + c.ttl * 1_000_000_000 <= i64::MAX ==> (final(self).caches@[ci]
                        matches CacheVariant::Ttl(c2) && c2.ttl == c.ttl
                        && c2.metadata_db.model() == ttl_record(
                        c.metadata_db.model(),
                        key@,
                        (now + c.ttl * 1_000_000_000) as i64,
                    ) && c2.storage@ == c.storage@.insert(key@, data.spec_content())))
                    &&& (now + c.ttl * 1_000_000_000 > i64::MAX ==> final(self).caches@[ci]
                        == old(self).caches@[ci])
                }))
                &&& forall|j: int|
                    0 <= j < old(self).caches@.len() && j != ci ==> final(self).caches@[j] == old(
                        self,
                    ).caches@[j]
                &&& final(self).caches@.len() == old(self).caches@.len()
                &&& final(self).rule_map == old(self).rule_map
                &&& final(self).rewrite_map == old(self).rewrite_map
                &&& final(self).cache_names == old(self).cache_names
                &&& final(self).cache_prescriptions == old(self).cache_prescriptions
                &&& final(self).config == old(self).config
                &&& final(self).task_set == old(self).task_set
            }),
    {
        if task.rule_id >= self.rule_map.len() {
            return ;
        }
        let ci = self.rule_map[task.rule_id].0;
        let ghost caches0 = self.caches@;
        let mut cv = self.caches.remove(ci);
        match cv {
            CacheVariant::Lru(mut c) => {
                c.put(key, data, now);
                cv = CacheVariant::Lru(c);
            },
            CacheVariant::Ttl(mut c) => {
                let fits = c.ttl <= 9_223_372_036 && now <= i64::MAX - (c.ttl as i64)
                    * 1_000_000_000;
                if fits {
                    c.put(key, data, now);
                }
                cv = CacheVariant::Ttl(c);
            },
        }
        self.caches.insert(ci, cv);
        proof {
            assert forall|j: int| 0 <= j < caches0.len() && j != ci as int implies self.caches@[j]
                == caches0[j] by {}
            assert(self.caches@.len() == caches0.len());
        }
    }
}

} // verus!
