//! The routing engine: picks a backend for a request under the active policy,
//! keeps the health and metrics records, and plans failover across backends.
//!
//! Backends are known here by their names, in registration order; a backend is
//! referred to by its index in that order.

use vstd::prelude::*;
use crate::protocol::PolicyType;
use crate::text::chars_to_string;
use crate::health::{HealthTracker, HealthEntry, spec_failures, spec_circuit_open, spec_status, after_success, after_failure};
use crate::protocol::HealthStatus;
use crate::metrics::{MetricsStore, MetricsEntry, spec_entry, spec_percentile, sorted_samples, p50_index, p99_index, after_request, after_error, request_fits};

verus! {

/// Why no backend could be chosen or no backend answered.
#[derive(Debug)]
pub enum RouteError {
    /// The engine has no backends.
    NoBackends,
    /// Every backend has an open circuit, so none may be called.
    AllCircuitsOpen,
    /// Every backend that was tried failed; the last error, if any backend was tried.
    AllFailed { last_error: Option<String> },
}

/// Text of the message that reports that no backend is configured.
pub open spec fn no_backends_text() -> Seq<char> {
    seq!['N', 'o', ' ', 'b', 'a', 'c', 'k', 'e', 'n', 'd', 's', ' ', 'c', 'o', 'n', 'f', 'i', 'g', 'u', 'r', 'e', 'd']
}

/// Text of the message that reports that every backend has an open circuit.
pub open spec fn all_circuits_open_text() -> Seq<char> {
    seq!['A', 'l', 'l', ' ', 'b', 'a', 'c', 'k', 'e', 'n', 'd', 's', ' ', 'h', 'a', 'v', 'e', ' ', 'a', 'n', ' ',
         'o', 'p', 'e', 'n', ' ', 'c', 'i', 'r', 'c', 'u', 'i', 't']
}

/// Text that precedes the last error when every backend failed.
pub open spec fn all_failed_prefix() -> Seq<char> {
    seq!['A', 'l', 'l', ' ', 'b', 'a', 'c', 'k', 'e', 'n', 'd', 's', ' ', 'f', 'a', 'i', 'l', 'e', 'd', '.', ' ',
         'L', 'a', 's', 't', ' ', 'e', 'r', 'r', 'o', 'r', ':', ' ']
}

/// Stands for the last error when no backend was tried.
pub open spec fn unknown_text() -> Seq<char> {
    seq!['u', 'n', 'k', 'n', 'o', 'w', 'n']
}

/// The message of an error.
pub open spec fn route_error_text(e: RouteError) -> Seq<char> {
    match e {
        RouteError::NoBackends => no_backends_text(),
        RouteError::AllCircuitsOpen => all_circuits_open_text(),
        RouteError::AllFailed { last_error } => all_failed_prefix() + match last_error {
            Some(s) => s@,
            None => unknown_text(),
        },
    }
}

impl RouteError {
    /// The human-readable message of the error.
    pub fn message(&self) -> (r: String)
        ensures
            r@ == route_error_text(*self),
    {
        match self {
            RouteError::NoBackends => {
                let t = ['N', 'o', ' ', 'b', 'a', 'c', 'k', 'e', 'n', 'd', 's', ' ', 'c', 'o', 'n', 'f', 'i', 'g', 'u', 'r', 'e', 'd'];
                let r = chars_to_string(&t);
                assert(t@ =~= no_backends_text());
                r
            }
            RouteError::AllCircuitsOpen => {
                let t = ['A', 'l', 'l', ' ', 'b', 'a', 'c', 'k', 'e', 'n', 'd', 's', ' ', 'h', 'a', 'v', 'e', ' ', 'a', 'n', ' ',
                         'o', 'p', 'e', 'n', ' ', 'c', 'i', 'r', 'c', 'u', 'i', 't'];
                let r = chars_to_string(&t);
                assert(t@ =~= all_circuits_open_text());
                r
            }
            RouteError::AllFailed { last_error } => {
                let t = ['A', 'l', 'l', ' ', 'b', 'a', 'c', 'k', 'e', 'n', 'd', 's', ' ', 'f', 'a', 'i', 'l', 'e', 'd', '.', ' ',
                         'L', 'a', 's', 't', ' ', 'e', 'r', 'r', 'o', 'r', ':', ' '];
                let mut r = chars_to_string(&t);
                assert(t@ =~= all_failed_prefix());
                match last_error {
                    Some(s) => {
                        r.append(s.as_str());
                    }
                    None => {
                        let u = ['u', 'n', 'k', 'n', 'o', 'w', 'n'];
                        let us = chars_to_string(&u);
                        assert(u@ =~= unknown_text());
                        r.append(us.as_str());
                    }
                }
                r
            }
        }
    }
}

/// `i` comes no later than `j` when backends are ordered by key, ties kept in
/// registration order (the order of a stable sort by key).
pub open spec fn ranks_before(keys: Seq<u64>, i: int, j: int) -> bool {
    keys[i] < keys[j] || (keys[i] == keys[j] && i <= j)
}

/// `i` is the backend that routing picks: the first backend in key order whose circuit
/// is closed.
pub open spec fn is_route_choice(keys: Seq<u64>, open: Seq<bool>, i: int) -> bool {
    &&& 0 <= i < keys.len()
    &&& !open[i]
    &&& forall|j: int| 0 <= j < keys.len() && !#[trigger] open[j] ==> ranks_before(keys, i, j)
}

/// Every backend has an open circuit.
pub open spec fn all_open(open: Seq<bool>) -> bool {
    forall|j: int| 0 <= j < open.len() ==> #[trigger] open[j]
}

/// The error routing reports when it picks no backend: none is configured, or every
/// circuit is open.
pub open spec fn route_refusal(open: Seq<bool>) -> RouteError {
    if open.len() == 0 { RouteError::NoBackends } else { RouteError::AllCircuitsOpen }
}

/// Key of a backend under the latency policy: its median latency, 0 when unmeasured.
pub open spec fn latency_key(m: Map<Seq<char>, MetricsEntry>, name: Seq<char>) -> u64 {
    match spec_percentile(spec_entry(m, name).3, p50_index(spec_entry(m, name).3.len())) {
        Some(v) => v,
        None => 0,
    }
}

/// Indices `< k` of the backends whose name differs from `primary_name`, in order.
pub open spec fn others(names: Seq<Seq<char>>, primary_name: Seq<char>, k: nat) -> Seq<usize>
    decreases k,
{
    if k == 0 {
        Seq::empty()
    } else {
        let r = others(names, primary_name, (k - 1) as nat);
        if names[k - 1] != primary_name { r.push((k - 1) as usize) } else { r }
    }
}

/// The order in which failover tries backends: the primary, then every backend whose
/// name differs from the primary's, in registration order.
pub open spec fn attempt_order(names: Seq<Seq<char>>, primary: int) -> Seq<usize> {
    seq![primary as usize] + others(names, names[primary], names.len())
}

/// Position `k` of the attempt order is skipped: the backend there has an open circuit.
pub open spec fn skipped(order: Seq<usize>, open: Seq<bool>, k: int) -> bool {
    open[order[k] as int]
}

/// Progress through a failover.
pub struct FallbackPlan {
    order: Vec<usize>,
    pos: usize,
    current: usize,
    attempt: u32,
    last_error: Option<String>,
}

impl FallbackPlan {
    /// Backends in the order they are to be tried.
    pub closed spec fn order(&self) -> Seq<usize> {
        self.order@
    }

    /// Next position of the order to consider.
    pub closed spec fn pos(&self) -> nat {
        self.pos as nat
    }

    /// Position of the backend tried last.
    pub closed spec fn current(&self) -> nat {
        self.current as nat
    }

    /// Attempts made so far.
    pub closed spec fn attempts(&self) -> u32 {
        self.attempt
    }

    /// Error of the last failed attempt.
    pub closed spec fn last_error_spec(&self) -> Option<String> {
        self.last_error
    }

    /// The plan fits an engine of `n` backends.
    pub open spec fn valid_for(&self, n: nat) -> bool {
        &&& self.order().len() <= n
        &&& n < u32::MAX
        &&& self.pos() <= self.order().len()
        &&& self.current() < self.order().len()
        &&& self.attempts() <= self.pos()
        &&& forall|k: int| 0 <= k < self.order().len() ==> (#[trigger] self.order()[k]) < n
    }

    /// The error reported when the plan ran out of backends.
    pub fn exhausted_error(&self) -> (r: RouteError)
        ensures
            r == (RouteError::AllFailed { last_error: self.last_error_spec() }),
    {
        RouteError::AllFailed { last_error: self.last_error.clone() }
    }
}

/// What the mesh reports of one backend: its status, latency percentiles and counters.
#[derive(Debug)]
pub struct BackendReport {
    pub name: String,
    pub status: HealthStatus,
    pub p50_ms: Option<u64>,
    pub p99_ms: Option<u64>,
    pub total_requests: u64,
    pub total_errors: u64,
    pub total_tokens: u64,
}

/// The report of backend `name` from the health and metrics records: a backend without
/// metrics has no percentiles and zero counters.
pub open spec fn report_matches(r: BackendReport, name: Seq<char>, h: Map<Seq<char>, HealthEntry>, m: Map<Seq<char>, MetricsEntry>) -> bool {
    &&& r.name@ == name
    &&& r.status == spec_status(h, name)
    &&& if m.contains_key(name) {
        &&& r.p50_ms == spec_percentile(m[name].3, p50_index(m[name].3.len()))
        &&& r.p99_ms == spec_percentile(m[name].3, p99_index(m[name].3.len()))
        &&& r.total_requests == m[name].0
        &&& r.total_errors == m[name].1
        &&& r.total_tokens == m[name].2
    } else {
        &&& r.p50_ms is None
        &&& r.p99_ms is None
        &&& r.total_requests == 0
        &&& r.total_errors == 0
        &&& r.total_tokens == 0
    }
}

/// Picks a backend for a request and keeps the records that routing reads.
pub struct RoutingEngine {
    backends: Vec<String>,
    policy: PolicyType,
    health_tracker: HealthTracker,
    metrics: MetricsStore,
}

impl RoutingEngine {
    /// Names of the backends, in registration order.
    pub closed spec fn names(&self) -> Seq<Seq<char>> {
        Seq::new(self.backends@.len(), |i: int| self.backends@[i]@)
    }

    /// The active policy.
    pub closed spec fn policy(&self) -> PolicyType {
        self.policy
    }

    /// The health records.
    pub closed spec fn health(&self) -> Map<Seq<char>, HealthEntry> {
        self.health_tracker@
    }

    /// The metrics records.
    pub closed spec fn metrics_view(&self) -> Map<Seq<char>, MetricsEntry> {
        self.metrics@
    }

    /// The records are well formed.
    pub closed spec fn wf(&self) -> bool {
        self.health_tracker.wf() && self.metrics.wf()
    }

    /// Which backends have an open circuit.
    pub open spec fn open_flags(&self) -> Seq<bool> {
        Seq::new(self.names().len(), |i: int| spec_circuit_open(self.health(), self.names()[i]))
    }

    /// Keys under the latency policy.
    pub open spec fn latency_keys(&self) -> Seq<u64> {
        Seq::new(self.names().len(), |i: int| latency_key(self.metrics_view(), self.names()[i]))
    }

    /// Keys by which the active policy orders the backends, given their cost keys.
    pub open spec fn policy_keys(&self, cost_keys: Seq<u64>) -> Seq<u64> {
        match self.policy() {
            PolicyType::Availability => Seq::new(self.names().len(), |i: int| 0u64),
            PolicyType::Cost => cost_keys,
            PolicyType::Latency => self.latency_keys(),
        }
    }

    /// An engine over the given backends, with no records, under the cost policy (the
    /// mesh's default policy).
    pub fn new(backends: Vec<String>) -> (r: Self)
        ensures
            r.wf(),
            r.names() == Seq::new(backends@.len(), |i: int| backends@[i]@),
            r.policy() == PolicyType::Cost,
            r.health() == Map::<Seq<char>, HealthEntry>::empty(),
            r.metrics_view() == Map::<Seq<char>, MetricsEntry>::empty(),
    {
        RoutingEngine {
            backends,
            policy: PolicyType::Cost,
            health_tracker: HealthTracker::new(),
            metrics: MetricsStore::new(),
        }
    }

    /// Sets the routing policy.
    pub fn set_policy(&mut self, policy: PolicyType)
        ensures
            final(self).policy() == policy,
            final(self).names() == old(self).names(),
            final(self).health() == old(self).health(),
            final(self).metrics_view() == old(self).metrics_view(),
            final(self).wf() == old(self).wf(),
    {
        self.policy = policy;
    }

    /// The routing policy.
    pub fn get_policy(&self) -> (r: PolicyType)
        ensures
            r == self.policy(),
    {
        self.policy
    }

    /// The metrics records.
    pub fn metrics(&self) -> (r: &MetricsStore)
        ensures
            r@ == self.metrics_view(),
            self.wf() ==> r.wf(),
    {
        &self.metrics
    }

    /// The health records.
    pub fn health_tracker(&self) -> (r: &HealthTracker)
        ensures
            r@ == self.health(),
            self.wf() ==> r.wf(),
    {
        &self.health_tracker
    }

    /// Names of the backends, in registration order.
    pub fn backends(&self) -> (r: &Vec<String>)
        ensures
            r@.len() == self.names().len(),
            forall|i: int| 0 <= i < r@.len() ==> #[trigger] r@[i]@ == self.names()[i],
    {
        &self.backends
    }

    /// Whether the circuit of backend `i` is open.
    fn open_at(&self, i: usize) -> (r: bool)
        requires
            self.wf(),
            i < self.names().len(),
        ensures
            r == self.open_flags()[i as int],
    {
        self.health_tracker.is_circuit_open(self.backends[i].as_str())
    }

    /// Median latency of every backend, 0 for a backend without samples.
    pub fn latency_scores(&self) -> (r: Vec<u64>)
        requires
            self.wf(),
        ensures
            r@ == self.latency_keys(),
    {
        let n = self.backends.len();
        let mut r: Vec<u64> = Vec::new();
        let mut i: usize = 0;
        while i < n
            invariant
                self.wf(),
                n == self.names().len(),
                i <= n,
                r@.len() == i,
                forall|j: int| 0 <= j < i ==> r@[j] == #[trigger] self.latency_keys()[j],
            decreases n - i,
        {
            let v = match self.metrics.p50_of(self.backends[i].as_str()) {
                Some(v) => v,
                None => 0,
            };
            r.push(v);
            i = i + 1;
        }
        assert(r@ =~= self.latency_keys());
        r
    }

    /// Picks the backend with the smallest key whose circuit is closed (ties to the
    /// earlier backend); refuses when there is none.
    fn choose_by_keys(&self, keys: &Vec<u64>) -> (r: Result<usize, RouteError>)
        requires
            self.wf(),
            keys@.len() == self.names().len(),
        ensures
            match r {
                Ok(i) => is_route_choice(keys@, self.open_flags(), i as int),
                Err(e) => all_open(self.open_flags()) && e == route_refusal(self.open_flags()),
            },
    {
        let n = self.backends.len();
        let ghost open = self.open_flags();
        let mut best: Option<usize> = None;
        let mut i: usize = 0;
        while i < n
            invariant
                self.wf(),
                n == self.names().len(),
                n == keys@.len(),
                open == self.open_flags(),
                i <= n,
                match best {
                    Some(b) => b < i && !open[b as int]
                        && forall|j: int| 0 <= j < i && !#[trigger] open[j] ==> ranks_before(keys@, b as int, j),
                    None => forall|j: int| 0 <= j < i ==> #[trigger] open[j],
                },
            decreases n - i,
        {
            if !self.open_at(i) {
                match best {
                    Some(b) => {
                        if keys[i] < keys[b] {
                            best = Some(i);
                            assert forall|j: int| 0 <= j < i && !#[trigger] open[j] implies ranks_before(keys@, i as int, j) by {
                                assert(ranks_before(keys@, b as int, j));
                            }
                        }
                    }
                    None => {
                        best = Some(i);
                    }
                }
            }
            i = i + 1;
        }
        match best {
            Some(b) => Ok(b),
            None => {
                if n == 0 {
                    Err(RouteError::NoBackends)
                } else {
                    Err(RouteError::AllCircuitsOpen)
                }
            }
        }
    }

    /// The backend for a request under the active policy. Under the cost policy the
    /// backends are ordered by `cost_keys` (one per backend, ordered as their estimated
    /// costs); under the latency policy by median latency (0 when unmeasured); under
    /// the availability policy by registration order alone. A backend whose circuit is
    /// open is never picked: when every circuit is open (or there is no backend) the
    /// request is refused.
    pub fn route(&self, cost_keys: &Vec<u64>) -> (r: Result<usize, RouteError>)
        requires
            self.wf(),
            cost_keys@.len() == self.names().len(),
        ensures
            match r {
                Ok(i) => {
                    &&& is_route_choice(self.policy_keys(cost_keys@), self.open_flags(), i as int)
                    &&& self.policy() == PolicyType::Availability ==>
                        forall|j: int| 0 <= j < i ==> #[trigger] self.open_flags()[j]
                    &&& self.policy() == PolicyType::Cost ==>
                        forall|j: int| 0 <= j < self.names().len() && !#[trigger] self.open_flags()[j] ==>
                            cost_keys@[i as int] <= cost_keys@[j]
                    &&& self.policy() == PolicyType::Latency ==>
                        forall|j: int| 0 <= j < self.names().len() && !#[trigger] self.open_flags()[j] ==>
                            median_or_zero(spec_entry(self.metrics_view(), self.names()[i as int]).3)
                                <= median_or_zero(spec_entry(self.metrics_view(), self.names()[j]).3)
                },
                Err(e) => all_open(self.open_flags()) && e == route_refusal(self.open_flags()),
            },
    {
        let r = self.route_by_policy(cost_keys);
        proof {
            if let Ok(i) = r {
                law_route_follows_policy(*self, cost_keys@, i as int);
            }
        }
        r
    }

    /// The choice among the backends under the active policy's keys.
    fn route_by_policy(&self, cost_keys: &Vec<u64>) -> (r: Result<usize, RouteError>)
        requires
            self.wf(),
            cost_keys@.len() == self.names().len(),
        ensures
            match r {
                Ok(i) => is_route_choice(self.policy_keys(cost_keys@), self.open_flags(), i as int),
                Err(e) => all_open(self.open_flags()) && e == route_refusal(self.open_flags()),
            },
    {
        match self.policy {
            PolicyType::Availability => {
                let n = self.backends.len();
                let mut keys: Vec<u64> = Vec::new();
                let mut i: usize = 0;
                while i < n
                    invariant
                        i <= n,
                        keys@.len() == i,
                        forall|j: int| 0 <= j < i ==> keys@[j] == 0,
                    decreases n - i,
                {
                    keys.push(0);
                    i = i + 1;
                }
                assert(keys@ =~= self.policy_keys(cost_keys@));
                self.choose_by_keys(&keys)
            }
            PolicyType::Cost => self.choose_by_keys(cost_keys),
            PolicyType::Latency => {
                let keys = self.latency_scores();
                self.choose_by_keys(&keys)
            }
        }
    }

    /// Index of the first backend named `name`, if any.
    pub fn find_backend(&self, name: &str) -> (r: Option<usize>)
        ensures
            match r {
                Some(i) => i < self.names().len() && self.names()[i as int] == name@
                    && forall|j: int| 0 <= j < i ==> #[trigger] self.names()[j] != name@,
                None => forall|j: int| 0 <= j < self.names().len() ==> #[trigger] self.names()[j] != name@,
            },
    {
        let key = name.to_owned();
        let mut i: usize = 0;
        while i < self.backends.len()
            invariant
                key@ == name@,
                i <= self.names().len(),
                forall|j: int| 0 <= j < i ==> #[trigger] self.names()[j] != name@,
            decreases self.names().len() - i,
        {
            assert(self.names()[i as int] == self.backends@[i as int]@);
            if self.backends[i] == key {
                return Some(i);
            }
            i = i + 1;
        }
        None
    }

    /// Status and circuit of the first backend named `name`, if any.
    pub fn backend_health(&self, name: &str) -> (r: Option<(usize, HealthStatus, bool)>)
        requires
            self.wf(),
        ensures
            match r {
                Some((i, st, open)) => i < self.names().len() && self.names()[i as int] == name@
                    && (forall|j: int| 0 <= j < i ==> #[trigger] self.names()[j] != name@)
                    && st == spec_status(self.health(), name@)
                    && open == spec_circuit_open(self.health(), name@),
                None => forall|j: int| 0 <= j < self.names().len() ==> #[trigger] self.names()[j] != name@,
            },
    {
        match self.find_backend(name) {
            Some(i) => {
                let st = self.health_tracker.get_status(self.backends[i].as_str());
                let open = self.health_tracker.is_circuit_open(self.backends[i].as_str());
                Some((i, st, open))
            }
            None => None,
        }
    }

    /// A report of every backend, in registration order.
    pub fn backend_reports(&self) -> (r: Vec<BackendReport>)
        requires
            self.wf(),
        ensures
            r@.len() == self.names().len(),
            forall|i: int| 0 <= i < r@.len() ==> report_matches(#[trigger] r@[i], self.names()[i], self.health(), self.metrics_view()),
    {
        let n = self.backends.len();
        let mut out: Vec<BackendReport> = Vec::new();
        let mut i: usize = 0;
        while i < n
            invariant
                self.wf(),
                n == self.names().len(),
                i <= n,
                out@.len() == i,
                forall|j: int| 0 <= j < i ==> report_matches(#[trigger] out@[j], self.names()[j], self.health(), self.metrics_view()),
            decreases n - i,
        {
            let name = self.backends[i].as_str();
            let status = self.health_tracker.get_status(name);
            let report = match self.metrics.get_metrics(name) {
                Some(rec) => BackendReport {
                    name: self.backends[i].clone(),
                    status,
                    p50_ms: rec.latency_window.p50(),
                    p99_ms: rec.latency_window.p99(),
                    total_requests: rec.total_requests,
                    total_errors: rec.total_errors,
                    total_tokens: rec.total_tokens,
                },
                None => BackendReport {
                    name: self.backends[i].clone(),
                    status,
                    p50_ms: None,
                    p99_ms: None,
                    total_requests: 0,
                    total_errors: 0,
                    total_tokens: 0,
                },
            };
            out.push(report);
            i = i + 1;
        }
        out
    }

    /// Trips the circuit of `backend` by recording three failures in a row.
    pub fn simulate_failure(&mut self, backend: &str)
        requires
            old(self).wf(),
            spec_failures(old(self).health(), backend@) + CIRCUIT_TRIPS <= u32::MAX,
        ensures
            final(self).wf(),
            final(self).health() == after_failure(after_failure(after_failure(old(self).health(), backend@), backend@), backend@),
            spec_circuit_open(final(self).health(), backend@),
            final(self).names() == old(self).names(),
            final(self).policy() == old(self).policy(),
            final(self).metrics_view() == old(self).metrics_view(),
    {
        self.health_tracker.record_failure(backend);
        self.health_tracker.record_failure(backend);
        self.health_tracker.record_failure(backend);
    }

    /// Starts a failover whose first attempt is `primary`.
    pub fn start_fallback(&self, primary: usize) -> (plan: FallbackPlan)
        requires
            primary < self.names().len(),
            self.names().len() < u32::MAX,
        ensures
            plan.valid_for(self.names().len()),
            plan.order() == attempt_order(self.names(), primary as int),
            plan.pos() == 0,
            plan.attempts() == 0,
            plan.last_error_spec() == None::<String>,
    {
        let n = self.backends.len();
        let ghost names = self.names();
        let mut order: Vec<usize> = Vec::new();
        order.push(primary);
        let mut k: usize = 0;
        while k < n
            invariant
                n == names.len(),
                names == self.names(),
                primary < n,
                k <= n,
                order@ == seq![primary] + others(names, names[primary as int], k as nat),
                order@.len() <= k + 1,
                forall|j: int| 0 <= j < order@.len() ==> (#[trigger] order@[j]) < n,
            decreases n - k,
        {
            if !(self.backends[k] == self.backends[primary]) {
                order.push(k);
            }
            proof {
                assert(names[k as int] == self.backends@[k as int]@);
            }
            k = k + 1;
        }
        proof {
            lemma_others_len(names, primary as int, n as nat);
        }
        FallbackPlan { order, pos: 0, current: 0, attempt: 0, last_error: None }
    }

    /// The next backend to try: the first position of the order from the plan's
    /// position on whose backend has a closed circuit. Returns the backend and the
    /// attempt number, or nothing when the order is exhausted.
    pub fn next_attempt(&self, plan: &mut FallbackPlan) -> (r: Option<(usize, u32)>)
        requires
            self.wf(),
            old(plan).valid_for(self.names().len()),
        ensures
            final(plan).valid_for(self.names().len()),
            final(plan).order() == old(plan).order(),
            final(plan).last_error_spec() == old(plan).last_error_spec(),
            forall|k: int| old(plan).pos() <= k < final(plan).current() ==> skipped(old(plan).order(), self.open_flags(), k),
            match r {
                Some((b, a)) => {
                    &&& old(plan).pos() <= final(plan).current() < old(plan).order().len()
                    &&& !skipped(old(plan).order(), self.open_flags(), final(plan).current() as int)
                    &&& b == old(plan).order()[final(plan).current() as int]
                    &&& final(plan).pos() == final(plan).current() + 1
                    &&& a == old(plan).attempts() + 1
                    &&& final(plan).attempts() == a
                },
                None => {
                    &&& forall|k: int| old(plan).pos() <= k < old(plan).order().len() ==> skipped(old(plan).order(), self.open_flags(), k)
                    &&& final(plan).pos() == old(plan).order().len()
                    &&& final(plan).attempts() == old(plan).attempts()
                    &&& final(plan).current() == old(plan).current()
                },
            },
    {
        let len = plan.order.len();
        let ghost start = plan.pos;
        while plan.pos < len
            invariant
                self.wf(),
                len <= self.names().len(),
                self.names().len() < u32::MAX,
                plan.attempt <= start,
                len == plan.order@.len(),
                plan.order@ == old(plan).order(),
                plan.last_error == old(plan).last_error_spec(),
                plan.attempt == old(plan).attempts(),
                plan.current == old(plan).current(),
                start == old(plan).pos(),
                start <= plan.pos <= len,
                forall|k: int| 0 <= k < len ==> (#[trigger] plan.order@[k]) < self.names().len(),
                forall|k: int| start <= k < plan.pos ==> skipped(plan.order@, self.open_flags(), k),
            decreases len - plan.pos,
        {
            let k = plan.pos;
            if self.open_at(plan.order[k]) {
                plan.pos = k + 1;
            } else {
                plan.current = k;
                plan.pos = k + 1;
                plan.attempt = plan.attempt + 1;
                return Some((plan.order[k], plan.attempt));
            }
        }
        None
    }

    /// Records that the backend tried last answered: its failure run resets and the
    /// request is counted with its latency and tokens.
    pub fn on_success(&mut self, plan: &FallbackPlan, latency_ms: u64, tokens: u32)
        requires
            old(self).wf(),
            plan.valid_for(old(self).names().len()),
            request_fits(old(self).metrics_view(), old(self).names()[plan.order()[plan.current() as int] as int], tokens),
        ensures
            final(self).wf(),
            final(self).health() == after_success(old(self).health(), old(self).names()[plan.order()[plan.current() as int] as int]),
            final(self).metrics_view() == after_request(old(self).metrics_view(), old(self).names()[plan.order()[plan.current() as int] as int], latency_ms, tokens),
            final(self).names() == old(self).names(),
            final(self).policy() == old(self).policy(),
    {
        let b = plan.order[plan.current];
        self.health_tracker.record_success(self.backends[b].as_str());
        self.metrics.record_request(self.backends[b].as_str(), latency_ms, tokens);
    }

    /// Records that the backend tried last failed with `error`, and returns the backend
    /// that follows it in the order (the one failover moves to, if its circuit allows).
    pub fn on_failure(&mut self, plan: &mut FallbackPlan, error: String) -> (next: Option<usize>)
        requires
            old(self).wf(),
            old(plan).valid_for(old(self).names().len()),
            spec_failures(old(self).health(), old(self).names()[old(plan).order()[old(plan).current() as int] as int]) < u32::MAX,
            spec_entry(old(self).metrics_view(), old(self).names()[old(plan).order()[old(plan).current() as int] as int]).1 < u64::MAX,
        ensures
            final(self).wf(),
            final(self).health() == after_failure(old(self).health(), old(self).names()[old(plan).order()[old(plan).current() as int] as int]),
            final(self).metrics_view() == after_error(old(self).metrics_view(), old(self).names()[old(plan).order()[old(plan).current() as int] as int]),
            final(self).names() == old(self).names(),
            final(self).policy() == old(self).policy(),
            final(plan).valid_for(old(self).names().len()),
            final(plan).order() == old(plan).order(),
            final(plan).pos() == old(plan).pos(),
            final(plan).current() == old(plan).current(),
            final(plan).attempts() == old(plan).attempts(),
            final(plan).last_error_spec() == Some(error),
            next == (if old(plan).current() + 1 < old(plan).order().len() {
                Some(old(plan).order()[old(plan).current() + 1int])
            } else {
                None::<usize>
            }),
    {
        let b = plan.order[plan.current];
        self.health_tracker.record_failure(self.backends[b].as_str());
        self.metrics.record_error(self.backends[b].as_str());
        plan.last_error = Some(error);
        if plan.current + 1 < plan.order.len() {
            Some(plan.order[plan.current + 1])
        } else {
            None
        }
    }
}

/// Failures that `simulate_failure` records.
pub const CIRCUIT_TRIPS: u32 = 3;

proof fn lemma_others_exclude(names: Seq<Seq<char>>, primary: int, k: nat)
    requires
        0 <= primary < names.len(),
        k <= names.len(),
        names.len() <= usize::MAX,
    ensures
        forall|j: int| 0 <= j < others(names, names[primary], k).len() ==> {
            &&& (#[trigger] others(names, names[primary], k)[j]) < k
            &&& others(names, names[primary], k)[j] != primary
        },
    decreases k,
{
    if k > 0 {
        lemma_others_exclude(names, primary, (k - 1) as nat);
        let r = others(names, names[primary], (k - 1) as nat);
        let o = others(names, names[primary], k);
        assert forall|j: int| 0 <= j < o.len() implies (#[trigger] o[j]) < k && o[j] != primary by {
            if j < r.len() {
                assert(o[j] == r[j]);
            } else {
                assert(names[k - 1] != names[primary]);
                assert(o[j] == (k - 1) as usize);
            }
        }
    }
}

proof fn lemma_others_len(names: Seq<Seq<char>>, primary: int, k: nat)
    requires
        0 <= primary < names.len(),
        k <= names.len(),
        names.len() <= usize::MAX,
    ensures
        others(names, names[primary], k).len() <= k,
        primary < k ==> others(names, names[primary], k).len() < k,
    decreases k,
{
    if k > 0 {
        lemma_others_len(names, primary, (k - 1) as nat);
    }
}

/// Routing is a function of the keys and the circuits: at most one backend is the choice.
pub proof fn law_route_choice_unique(keys: Seq<u64>, open: Seq<bool>, i: int, j: int)
    requires
        keys.len() == open.len(),
        is_route_choice(keys, open, i),
        is_route_choice(keys, open, j),
    ensures
        i == j,
{
    assert(ranks_before(keys, i, j) && ranks_before(keys, j, i));
}

/// The circuit breaker keeps requests away from unhealthy backends: routing never picks
/// a backend whose circuit is open, and it picks one whenever some circuit is closed.
pub proof fn law_route_avoids_open_circuits(keys: Seq<u64>, open: Seq<bool>, i: int)
    requires
        keys.len() == open.len(),
        is_route_choice(keys, open, i),
    ensures
        !open[i],
        !all_open(open),
{
}

/// Under the cost policy the choice is a cheapest backend among those with a closed
/// circuit (and the earliest registered among equally cheap ones).
pub proof fn law_cost_route_is_cheapest(keys: Seq<u64>, open: Seq<bool>, i: int, j: int)
    requires
        keys.len() == open.len(),
        is_route_choice(keys, open, i),
        0 <= j < open.len(),
        !open[j],
    ensures
        keys[i] <= keys[j],
        keys[i] == keys[j] ==> i <= j,
{
    assert(ranks_before(keys, i, j));
}

/// Under the availability policy the choice is the first registered backend whose
/// circuit is closed.
pub proof fn law_availability_route_is_first_closed(open: Seq<bool>, i: int)
    requires
        is_route_choice(Seq::new(open.len(), |k: int| 0u64), open, i),
    ensures
        !open[i],
        forall|j: int| 0 <= j < i ==> #[trigger] open[j],
{
    let keys = Seq::new(open.len(), |k: int| 0u64);
    assert forall|j: int| 0 <= j < i implies #[trigger] open[j] by {
        if !open[j] {
            assert(ranks_before(keys, i, j));
        }
    }
}

/// The median of latency samples: the sample at index `len / 2` of the samples in
/// ascending order, and 0 when there is none.
pub open spec fn median_or_zero(samples: Seq<u64>) -> u64 {
    if samples.len() == 0 { 0 } else { sorted_samples(samples)[samples.len() as int / 2] }
}

/// Under the latency policy each backend is keyed by the median of its recorded latency
/// samples (0 for a backend without samples, which is thus tried first).
pub proof fn law_latency_keys_are_medians(e: RoutingEngine)
    ensures
        e.latency_keys().len() == e.names().len(),
        forall|i: int| 0 <= i < e.names().len() ==>
            #[trigger] e.latency_keys()[i] == {
                let samples = spec_entry(e.metrics_view(), e.names()[i]).3;
                if samples.len() == 0 { 0 } else { sorted_samples(samples)[samples.len() as int / 2] }
            },
{
}

/// What the policy makes of a routing choice `i`: under availability it is the first
/// registered backend with a closed circuit, whatever the costs; under cost it is a
/// cheapest backend with a closed circuit; under latency one with the lowest median
/// latency among those with a closed circuit.
pub proof fn law_route_follows_policy(e: RoutingEngine, cost_keys: Seq<u64>, i: int)
    requires
        cost_keys.len() == e.names().len(),
        is_route_choice(e.policy_keys(cost_keys), e.open_flags(), i),
    ensures
        !e.open_flags()[i],
        e.policy() == PolicyType::Availability ==> forall|j: int| 0 <= j < i ==> #[trigger] e.open_flags()[j],
        e.policy() == PolicyType::Cost ==> forall|j: int| 0 <= j < e.names().len() && !#[trigger] e.open_flags()[j] ==>
            cost_keys[i] <= cost_keys[j],
        e.policy() == PolicyType::Latency ==> forall|j: int| 0 <= j < e.names().len() && !#[trigger] e.open_flags()[j] ==>
            median_or_zero(spec_entry(e.metrics_view(), e.names()[i]).3)
                <= median_or_zero(spec_entry(e.metrics_view(), e.names()[j]).3),
{
    let open = e.open_flags();
    let keys = e.policy_keys(cost_keys);
    assert forall|j: int| 0 <= j < e.names().len() && !#[trigger] open[j] implies keys[i] <= keys[j] by {
        assert(ranks_before(keys, i, j));
    }
    if e.policy() == PolicyType::Availability {
        assert(keys =~= Seq::new(open.len(), |k: int| 0u64));
        law_availability_route_is_first_closed(open, i);
    }
    law_latency_keys_are_medians(e);
}

/// Failover tries the primary first, never tries a backend twice, and never tries
/// another backend that shares the primary's name.
pub proof fn law_attempt_order_primary_first(names: Seq<Seq<char>>, primary: int)
    requires
        0 <= primary < names.len(),
        names.len() <= usize::MAX,
    ensures
        attempt_order(names, primary)[0] == primary,
        forall|k: int| 1 <= k < attempt_order(names, primary).len() ==>
            names[#[trigger] attempt_order(names, primary)[k] as int] != names[primary],
        forall|a: int, b: int| 0 <= a < b < attempt_order(names, primary).len() ==>
            attempt_order(names, primary)[a] != attempt_order(names, primary)[b],
{
    lemma_others_exclude(names, primary, names.len());
    lemma_others_shape(names, primary, names.len());
    let o = others(names, names[primary], names.len());
    let order = attempt_order(names, primary);
    assert forall|k: int| 1 <= k < order.len() implies names[#[trigger] order[k] as int] != names[primary] by {
        assert(order[k] == o[k - 1]);
    }
    assert forall|a: int, b: int| 0 <= a < b < order.len() implies order[a] != order[b] by {
        assert(order[b] == o[b - 1]);
        if a > 0 {
            assert(order[a] == o[a - 1]);
        }
    }
}

proof fn lemma_others_shape(names: Seq<Seq<char>>, primary: int, k: nat)
    requires
        0 <= primary < names.len(),
        k <= names.len(),
        names.len() <= usize::MAX,
    ensures
        forall|j: int| 0 <= j < others(names, names[primary], k).len() ==>
            names[#[trigger] others(names, names[primary], k)[j] as int] != names[primary],
        forall|a: int, b: int| 0 <= a < b < others(names, names[primary], k).len() ==>
            others(names, names[primary], k)[a] < others(names, names[primary], k)[b],
    decreases k,
{
    if k > 0 {
        lemma_others_shape(names, primary, (k - 1) as nat);
        lemma_others_exclude(names, primary, (k - 1) as nat);
        let r = others(names, names[primary], (k - 1) as nat);
        let o = others(names, names[primary], k);
        assert forall|j: int| 0 <= j < o.len() implies names[#[trigger] o[j] as int] != names[primary] by {
            if j < r.len() {
                assert(o[j] == r[j]);
            }
        }
        assert forall|a: int, b: int| 0 <= a < b < o.len() implies o[a] < o[b] by {
            assert(o[a] == r[a]);
            if b < r.len() {
                assert(o[b] == r[b]);
            } else {
                assert(r[a] < k - 1);
            }
        }
    }
}

} // verus!
