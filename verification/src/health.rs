//! Per-backend health records and the circuit breaker built on them.

use vstd::prelude::*;
use crate::assoc::{keys_unique, assoc_map, lemma_assoc_index, lemma_assoc_update, lemma_assoc_push, lemma_assoc_contains, find_key};
use crate::protocol::HealthStatus;

verus! {

/// Consecutive failures at which a backend's circuit opens.
pub const CIRCUIT_BREAKER_THRESHOLD: u32 = 3;

/// `std::time::Instant`, carried through opaque: nothing is read from it.
#[verifier::external_type_specification]
#[verifier::external_body]
pub struct ExInstant(std::time::Instant);

/// The current instant of the monotonic clock (`std::time::Instant::now`); nothing
/// is stated of the value.
#[verifier::external_body]
fn instant_now() -> (r: std::time::Instant) {
    std::time::Instant::now()
}

/// Health of one backend.
#[derive(Clone, Copy, Debug)]
pub struct BackendHealthRecord {
    pub status: HealthStatus,
    pub consecutive_failures: u32,
    pub last_check: std::time::Instant,
}

/// What the tracker knows of a backend: its status and its run of failures.
pub type HealthEntry = (HealthStatus, u32);

/// Health records of all backends that have reported, keyed by backend name.
pub struct HealthTracker {
    records: Vec<(String, BackendHealthRecord)>,
}

/// The entries of the tracker, abstracted to name, status and failure count.
pub open spec fn health_entries(r: Seq<(String, BackendHealthRecord)>) -> Seq<(Seq<char>, HealthEntry)> {
    Seq::new(r.len(), |i: int| (r[i].0@, (r[i].1.status, r[i].1.consecutive_failures)))
}

/// Consecutive failures recorded for `name` (0 when it never reported).
pub open spec fn spec_failures(m: Map<Seq<char>, HealthEntry>, name: Seq<char>) -> u32 {
    if m.contains_key(name) { m[name].1 } else { 0 }
}

/// Status recorded for `name` (`Unknown` when it never reported).
pub open spec fn spec_status(m: Map<Seq<char>, HealthEntry>, name: Seq<char>) -> HealthStatus {
    if m.contains_key(name) { m[name].0 } else { HealthStatus::Unknown }
}

/// The circuit of `name` is open: it failed at least the threshold number of times in a row.
pub open spec fn spec_circuit_open(m: Map<Seq<char>, HealthEntry>, name: Seq<char>) -> bool {
    spec_failures(m, name) >= CIRCUIT_BREAKER_THRESHOLD
}

/// The health map after a success of `name`.
pub open spec fn after_success(m: Map<Seq<char>, HealthEntry>, name: Seq<char>) -> Map<Seq<char>, HealthEntry> {
    m.insert(name, (HealthStatus::Healthy, 0u32))
}

/// The health map after a failure of `name`.
pub open spec fn after_failure(m: Map<Seq<char>, HealthEntry>, name: Seq<char>) -> Map<Seq<char>, HealthEntry> {
    m.insert(name, (HealthStatus::Unhealthy, (spec_failures(m, name) + 1) as u32))
}

impl View for HealthTracker {
    type V = Map<Seq<char>, HealthEntry>;

    closed spec fn view(&self) -> Map<Seq<char>, HealthEntry> {
        assoc_map(health_entries(self.records@))
    }
}

impl Default for HealthTracker {
    /// An empty tracker.
    fn default() -> (r: Self)
        ensures
            r.wf(),
            r@ == Map::<Seq<char>, HealthEntry>::empty(),
    {
        Self::new()
    }
}

impl HealthTracker {
    /// Each backend has at most one record.
    pub closed spec fn wf(&self) -> bool {
        keys_unique(health_entries(self.records@))
    }

    /// An empty tracker.
    pub fn new() -> (r: Self)
        ensures
            r.wf(),
            r@ == Map::<Seq<char>, HealthEntry>::empty(),
    {
        let r = HealthTracker { records: Vec::new() };
        assert(health_entries(r.records@) =~= Seq::<(Seq<char>, HealthEntry)>::empty());
        r
    }

    /// Sets the record of `name` to its new value, adding the record if there is none.
    fn put(&mut self, name: &str, status: HealthStatus, failures: u32)
        requires
            old(self).wf(),
        ensures
            final(self).wf(),
            final(self)@ == old(self)@.insert(name@, (status, failures)),
    {
        let key = name.to_owned();
        let rec = BackendHealthRecord { status, consecutive_failures: failures, last_check: instant_now() };
        let ghost s = health_entries(self.records@);
        match find_key(&self.records, &key) {
            Some(i) => {
                proof {
                    assert(s[i as int].0 == name@);
                    lemma_assoc_update(s, i as int, (status, failures));
                }
                self.records.set(i, (key, rec));
                assert(health_entries(self.records@) =~= s.update(i as int, (s[i as int].0, (status, failures))));
            }
            None => {
                proof {
                    assert forall|j: int| 0 <= j < s.len() implies #[trigger] s[j].0 != name@ by {
                        assert(self.records@[j].0@ != key@);
                    }
                    lemma_assoc_push(s, name@, (status, failures));
                }
                self.records.push((key, rec));
                assert(health_entries(self.records@) =~= s.push((name@, (status, failures))));
            }
        }
    }

    /// Looks up the record of `name`.
    fn lookup(&self, name: &str) -> (r: Option<HealthEntry>)
        requires
            self.wf(),
        ensures
            match r {
                Some(e) => self@.contains_key(name@) && self@[name@] == e,
                None => !self@.contains_key(name@),
            },
    {
        let key = name.to_owned();
        let ghost s = health_entries(self.records@);
        match find_key(&self.records, &key) {
            Some(i) => {
                proof {
                    lemma_assoc_index(s, i as int);
                }
                Some((self.records[i].1.status, self.records[i].1.consecutive_failures))
            }
            None => {
                proof {
                    lemma_assoc_contains(s, name@);
                    if self@.contains_key(name@) {
                        let j = choose|j: int| 0 <= j < s.len() && #[trigger] s[j].0 == name@;
                        assert(self.records@[j].0@ != key@);
                    }
                }
                None
            }
        }
    }

    /// A success of `name`: its failure run resets and it is healthy again.
    pub fn record_success(&mut self, backend: &str)
        requires
            old(self).wf(),
        ensures
            final(self).wf(),
            final(self)@ == after_success(old(self)@, backend@),
    {
        self.put(backend, HealthStatus::Healthy, 0);
    }

    /// A failure of `name`: its failure run grows by one and it is unhealthy.
    pub fn record_failure(&mut self, backend: &str)
        requires
            old(self).wf(),
            spec_failures(old(self)@, backend@) < u32::MAX,
        ensures
            final(self).wf(),
            final(self)@ == after_failure(old(self)@, backend@),
    {
        let failures = match self.lookup(backend) {
            Some(e) => e.1,
            None => 0,
        };
        self.put(backend, HealthStatus::Unhealthy, failures + 1);
    }

    /// Status of `backend`, `Unknown` for a backend that never reported.
    pub fn get_status(&self, backend: &str) -> (r: HealthStatus)
        requires
            self.wf(),
        ensures
            r == spec_status(self@, backend@),
    {
        match self.lookup(backend) {
            Some(e) => e.0,
            None => HealthStatus::Unknown,
        }
    }

    /// Consecutive failures of `backend` (0 for a backend that never reported).
    pub fn consecutive_failures(&self, backend: &str) -> (r: u32)
        requires
            self.wf(),
        ensures
            r == spec_failures(self@, backend@),
    {
        match self.lookup(backend) {
            Some(e) => e.1,
            None => 0,
        }
    }

    /// Whether the circuit of `backend` is open.
    pub fn is_circuit_open(&self, backend: &str) -> (r: bool)
        requires
            self.wf(),
        ensures
            r == spec_circuit_open(self@, backend@),
    {
        self.consecutive_failures(backend) >= CIRCUIT_BREAKER_THRESHOLD
    }
}

/// Three failures in a row open a backend's circuit, whatever its record was.
pub proof fn law_three_failures_open_circuit(m: Map<Seq<char>, HealthEntry>, name: Seq<char>)
    requires
        spec_failures(m, name) + 3 <= u32::MAX,
    ensures
        spec_circuit_open(after_failure(after_failure(after_failure(m, name), name), name), name),
        spec_status(after_failure(m, name), name) == HealthStatus::Unhealthy,
{
}

/// A success closes a backend's circuit and marks it healthy.
pub proof fn law_success_closes_circuit(m: Map<Seq<char>, HealthEntry>, name: Seq<char>)
    ensures
        !spec_circuit_open(after_success(m, name), name),
        spec_status(after_success(m, name), name) == HealthStatus::Healthy,
        spec_failures(after_success(m, name), name) == 0,
{
}

/// Fewer than three failures since the last success leave the circuit closed.
pub proof fn law_two_failures_keep_circuit_closed(m: Map<Seq<char>, HealthEntry>, name: Seq<char>)
    ensures
        !spec_circuit_open(after_failure(after_failure(after_success(m, name), name), name), name),
{
}

/// Reports about one backend leave every other backend's record as it was.
pub proof fn law_other_backends_unchanged(m: Map<Seq<char>, HealthEntry>, name: Seq<char>, other: Seq<char>)
    requires
        name != other,
    ensures
        spec_failures(after_success(m, name), other) == spec_failures(m, other),
        spec_status(after_success(m, name), other) == spec_status(m, other),
        spec_failures(after_failure(m, name), other) == spec_failures(m, other),
        spec_status(after_failure(m, name), other) == spec_status(m, other),
{
}

/// One report to the tracker: a backend's name and whether its call succeeded.
pub type HealthReport = (Seq<char>, bool);

/// The health map after the reports, one by one, starting from `m`.
pub open spec fn replay_reports(m: Map<Seq<char>, HealthEntry>, reports: Seq<HealthReport>) -> Map<Seq<char>, HealthEntry>
    decreases reports.len(),
{
    if reports.len() == 0 {
        m
    } else {
        let before = replay_reports(m, reports.drop_last());
        let last = reports.last();
        if last.1 { after_success(before, last.0) } else { after_failure(before, last.0) }
    }
}

/// Failures of `name` among the reports since its last success (all of its failures
/// when it never succeeded).
pub open spec fn failures_since_success(reports: Seq<HealthReport>, name: Seq<char>) -> nat
    decreases reports.len(),
{
    if reports.len() == 0 {
        0
    } else {
        let last = reports.last();
        if last.0 != name {
            failures_since_success(reports.drop_last(), name)
        } else if last.1 {
            0
        } else {
            failures_since_success(reports.drop_last(), name) + 1
        }
    }
}

/// The outcome of the last report of `name`, if it reported.
pub open spec fn last_outcome(reports: Seq<HealthReport>, name: Seq<char>) -> Option<bool>
    decreases reports.len(),
{
    if reports.len() == 0 {
        None
    } else if reports.last().0 == name {
        Some(reports.last().1)
    } else {
        last_outcome(reports.drop_last(), name)
    }
}

/// After every prefix of the reports, the failure run of `name` fits its `u32` counter
/// (the tracker refuses a failure that would overflow it).
pub open spec fn runs_fit(reports: Seq<HealthReport>, name: Seq<char>) -> bool
    decreases reports.len(),
{
    if reports.len() == 0 {
        true
    } else {
        runs_fit(reports.drop_last(), name) && failures_since_success(reports, name) <= u32::MAX
    }
}

/// What a tracker that starts empty holds after a run of reports: for each backend,
/// its failure count is the number of failures since its last success, its circuit is
/// open exactly when that count reaches the threshold, and its status follows its last
/// report (`Unknown` when it never reported).
pub proof fn law_health_follows_reports(reports: Seq<HealthReport>, name: Seq<char>)
    requires
        runs_fit(reports, name),
    ensures
        spec_failures(replay_reports(Map::empty(), reports), name) == failures_since_success(reports, name),
        spec_circuit_open(replay_reports(Map::empty(), reports), name)
            <==> failures_since_success(reports, name) >= CIRCUIT_BREAKER_THRESHOLD,
        spec_status(replay_reports(Map::empty(), reports), name) == match last_outcome(reports, name) {
            None => HealthStatus::Unknown,
            Some(true) => HealthStatus::Healthy,
            Some(false) => HealthStatus::Unhealthy,
        },
    decreases reports.len(),
{
    if reports.len() > 0 {
        law_health_follows_reports(reports.drop_last(), name);
    }
}

} // verus!
