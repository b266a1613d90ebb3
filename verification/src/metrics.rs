//! Latency windows and per-backend request counters.

use vstd::prelude::*;
use vstd::relations::{sorted_by, total_ordering};
use vstd::seq_lib::lemma_sorted_unique;
use std::collections::VecDeque;
use crate::assoc::{keys_unique, assoc_map, lemma_assoc_index, lemma_assoc_update, lemma_assoc_push, lemma_assoc_contains, find_key};

verus! {

broadcast use vstd::seq_lib::group_to_multiset_ensures;

/// Samples that the metrics store keeps per backend.
pub const METRICS_WINDOW: usize = 100;

/// The order on latency samples.
pub open spec fn sample_leq() -> spec_fn(u64, u64) -> bool {
    |a: u64, b: u64| a <= b
}

/// The samples in ascending order.
pub open spec fn sorted_samples(s: Seq<u64>) -> Seq<u64> {
    s.sort_by(sample_leq())
}

/// Index of the median in a sorted run of `n` samples.
pub open spec fn p50_index(n: nat) -> int {
    n as int / 2
}

/// Index of the 99th percentile in a sorted run of `n > 0` samples:
/// `floor(n * 0.99)`, at most the last index.
pub open spec fn p99_index(n: nat) -> int {
    if n * 99 / 100 < n - 1 { (n * 99 / 100) as int } else { n - 1 }
}

/// The sample at position `idx(len)` of the sorted samples, or nothing without samples.
pub open spec fn spec_percentile(s: Seq<u64>, idx: int) -> Option<u64> {
    if s.len() == 0 { None } else { Some(sorted_samples(s)[idx]) }
}

/// The window after one more sample: the oldest sample leaves when the window is full.
pub open spec fn window_after_add(s: Seq<u64>, max_samples: usize, x: u64) -> Seq<u64> {
    if s.len() >= max_samples && s.len() > 0 { s.drop_first().push(x) } else { s.push(x) }
}

/// The window that results from adding `xs` one by one to an empty window.
pub open spec fn window_of(xs: Seq<u64>, max_samples: usize) -> Seq<u64>
    decreases xs.len(),
{
    if xs.len() == 0 {
        Seq::empty()
    } else {
        window_after_add(window_of(xs.drop_last(), max_samples), max_samples, xs.last())
    }
}

/// How many samples a window of capacity `max_samples` holds at most.
pub open spec fn window_bound(max_samples: usize) -> nat {
    if max_samples == 0 { 1 } else { max_samples as nat }
}

proof fn lemma_sample_leq_total()
    ensures
        total_ordering(sample_leq()),
{
}

/// A bounded window of the most recent latency samples, in arrival order.
pub struct LatencyWindow {
    samples: VecDeque<u64>,
    max_samples: usize,
}

impl View for LatencyWindow {
    type V = Seq<u64>;

    closed spec fn view(&self) -> Seq<u64> {
        self.samples@
    }
}

impl LatencyWindow {
    /// The capacity the window was made with.
    pub closed spec fn capacity(&self) -> usize {
        self.max_samples
    }

    /// An empty window that keeps at most `max_samples` samples.
    pub fn new(max_samples: usize) -> (r: Self)
        ensures
            r@ == Seq::<u64>::empty(),
            r.capacity() == max_samples,
    {
        LatencyWindow { samples: VecDeque::new(), max_samples }
    }

    /// Adds a sample; when the window is full the oldest sample is dropped first.
    pub fn add(&mut self, latency_ms: u64)
        ensures
            final(self)@ == window_after_add(old(self)@, old(self).capacity(), latency_ms),
            final(self).capacity() == old(self).capacity(),
    {
        if self.samples.len() >= self.max_samples {
            self.samples.pop_front();
        }
        self.samples.push_back(latency_ms);
        proof {
            if old(self)@.len() >= old(self).capacity() && old(self)@.len() > 0 {
                assert(old(self)@.subrange(1, old(self)@.len() as int) =~= old(self)@.drop_first());
            }
        }
    }

    /// Number of samples held.
    pub fn len(&self) -> (r: usize)
        ensures
            r == self@.len(),
    {
        self.samples.len()
    }

    /// The samples in ascending order.
    fn sorted(&self) -> (v: Vec<u64>)
        ensures
            v@ == sorted_samples(self@),
            v@.len() == self@.len(),
    {
        let n = self.samples.len();
        let ghost s = self.samples@;
        let mut v: Vec<u64> = Vec::new();
        let mut i: usize = 0;
        while i < n
            invariant
                n == s.len(),
                s == self.samples@,
                i <= n,
                v@.len() == i,
                sorted_by(v@, sample_leq()),
                v@.to_multiset() == s.take(i as int).to_multiset(),
            decreases n - i,
        {
            let x = self.samples[i];
            let mut p: usize = 0;
            while p < v.len() && v[p] <= x
                invariant
                    p <= v@.len(),
                    forall|j: int| 0 <= j < p ==> v@[j] <= x,
                decreases v@.len() - p,
            {
                p = p + 1;
            }
            let ghost old_v = v@;
            v.insert(p, x);
            proof {
                assert(v@ == old_v.insert(p as int, x));
                assert forall|a: int, b: int| 0 <= a < b < v@.len() implies #[trigger] (sample_leq())(v@[a], v@[b]) by {
                    if b < p {
                        assert(v@[a] == old_v[a] && v@[b] == old_v[b]);
                        assert((sample_leq())(old_v[a], old_v[b]));
                    } else if b == p {
                        assert(v@[a] == old_v[a]);
                    } else if a == p {
                        assert(v@[b] == old_v[b - 1]);
                        if p < old_v.len() {
                            assert(old_v[p as int] > x);
                            if b - 1 > p {
                                assert((sample_leq())(old_v[p as int], old_v[b - 1]));
                            }
                        }
                    } else if a < p {
                        assert(v@[a] == old_v[a] && v@[b] == old_v[b - 1]);
                        assert((sample_leq())(old_v[a], old_v[b - 1]));
                    } else {
                        assert(v@[a] == old_v[a - 1] && v@[b] == old_v[b - 1]);
                        assert((sample_leq())(old_v[a - 1], old_v[b - 1]));
                    }
                }
                vstd::seq_lib::to_multiset_insert(old_v, p as int, x);
                assert(s.take(i + 1) =~= s.take(i as int).push(x));
                vstd::seq_lib::to_multiset_build(s.take(i as int), x);
            }
            i = i + 1;
        }
        proof {
            assert(s.take(n as int) =~= s);
            lemma_sample_leq_total();
            s.lemma_sort_by_ensures(sample_leq());
            lemma_sorted_unique(v@, s.sort_by(sample_leq()), sample_leq());
        }
        v
    }

    /// Median latency: the sample at index `len / 2` of the sorted samples.
    pub fn p50(&self) -> (r: Option<u64>)
        ensures
            r == spec_percentile(self@, p50_index(self@.len())),
    {
        let n = self.samples.len();
        if n == 0 {
            return None;
        }
        let sorted = self.sorted();
        Some(sorted[n / 2])
    }

    /// 99th-percentile latency: the sample at index `floor(len * 0.99)` of the sorted samples.
    pub fn p99(&self) -> (r: Option<u64>)
        ensures
            r == spec_percentile(self@, p99_index(self@.len())),
    {
        let n = self.samples.len();
        if n == 0 {
            return None;
        }
        let sorted = self.sorted();
        let scaled = (n / 100) * 99 + (n % 100) * 99 / 100;
        assert(scaled == n * 99 / 100) by (nonlinear_arith)
            requires
                scaled == (n / 100) * 99 + (n % 100) * 99 / 100,
        {
        }
        let idx = if scaled < n - 1 { scaled } else { n - 1 };
        Some(sorted[idx])
    }
}

/// Adding samples one by one leaves the most recent ones in the window:
/// exactly the last `min(len, capacity)` of them (at least one when the capacity is 0).
pub proof fn law_window_keeps_most_recent(xs: Seq<u64>, max_samples: usize)
    ensures
        window_of(xs, max_samples) =~= xs.subrange(
            xs.len() - (if xs.len() < window_bound(max_samples) { xs.len() } else { window_bound(max_samples) }),
            xs.len() as int,
        ),
        window_of(xs, max_samples).len() <= window_bound(max_samples),
    decreases xs.len(),
{
    if xs.len() > 0 {
        let d = xs.drop_last();
        law_window_keeps_most_recent(d, max_samples);
        let w = window_of(d, max_samples);
        let b = window_bound(max_samples);
        if w.len() >= max_samples && w.len() > 0 {
            assert(w.len() == b);
        }
    }
}

/// Counters and latency samples of one backend (the dollar total lives beside it,
/// with the caller, since it is a floating-point sum).
pub struct BackendMetricsRecord {
    pub total_requests: u64,
    pub total_errors: u64,
    pub total_tokens: u64,
    pub latency_window: LatencyWindow,
}

/// What a metrics record holds: requests, errors, tokens and the latency samples.
pub type MetricsEntry = (u64, u64, u64, Seq<u64>);

/// The entry of a backend that has no record yet.
pub open spec fn empty_entry() -> MetricsEntry {
    (0u64, 0u64, 0u64, Seq::<u64>::empty())
}

/// The entry of `name`, or the empty entry.
pub open spec fn spec_entry(m: Map<Seq<char>, MetricsEntry>, name: Seq<char>) -> MetricsEntry {
    if m.contains_key(name) { m[name] } else { empty_entry() }
}

/// The metrics map after a completed request of `name`.
pub open spec fn after_request(m: Map<Seq<char>, MetricsEntry>, name: Seq<char>, latency_ms: u64, tokens: u32) -> Map<Seq<char>, MetricsEntry> {
    let e = spec_entry(m, name);
    m.insert(name, ((e.0 + 1) as u64, e.1, (e.2 + tokens) as u64, window_after_add(e.3, METRICS_WINDOW, latency_ms)))
}

/// The metrics map after a failed request of `name`.
pub open spec fn after_error(m: Map<Seq<char>, MetricsEntry>, name: Seq<char>) -> Map<Seq<char>, MetricsEntry> {
    let e = spec_entry(m, name);
    m.insert(name, (e.0, (e.1 + 1) as u64, e.2, e.3))
}

/// The request of `name` can be counted without overflowing a counter.
pub open spec fn request_fits(m: Map<Seq<char>, MetricsEntry>, name: Seq<char>, tokens: u32) -> bool {
    let e = spec_entry(m, name);
    e.0 < u64::MAX && e.2 + tokens <= u64::MAX
}

impl BackendMetricsRecord {
    /// The abstract content of the record.
    pub open spec fn entry(&self) -> MetricsEntry {
        (self.total_requests, self.total_errors, self.total_tokens, self.latency_window@)
    }

    /// The record keeps the store's window of samples.
    pub open spec fn wf(&self) -> bool {
        &&& self.latency_window.capacity() == METRICS_WINDOW
        &&& self.latency_window@.len() <= METRICS_WINDOW
    }

    fn fresh() -> (r: Self)
        ensures
            r.wf(),
            r.entry() == empty_entry(),
    {
        BackendMetricsRecord {
            total_requests: 0,
            total_errors: 0,
            total_tokens: 0,
            latency_window: LatencyWindow::new(METRICS_WINDOW),
        }
    }

    /// A copy whose window is rebuilt from the samples.
    fn snapshot(&self) -> (r: Self)
        requires
            self.wf(),
        ensures
            r.wf(),
            r.entry() == self.entry(),
    {
        let mut lw = LatencyWindow::new(METRICS_WINDOW);
        let n = self.latency_window.samples.len();
        let ghost s = self.latency_window@;
        let mut i: usize = 0;
        while i < n
            invariant
                n == s.len(),
                s == self.latency_window.samples@,
                n <= METRICS_WINDOW,
                i <= n,
                lw.capacity() == METRICS_WINDOW,
                lw@ == s.take(i as int),
            decreases n - i,
        {
            lw.add(self.latency_window.samples[i]);
            assert(s.take(i + 1) =~= s.take(i as int).push(s[i as int]));
            i = i + 1;
        }
        assert(s.take(n as int) =~= s);
        BackendMetricsRecord {
            total_requests: self.total_requests,
            total_errors: self.total_errors,
            total_tokens: self.total_tokens,
            latency_window: lw,
        }
    }
}

/// Metrics records of all backends that have served or failed a request.
pub struct MetricsStore {
    records: Vec<(String, BackendMetricsRecord)>,
}

/// The entries of a list of records, abstracted.
pub open spec fn metrics_entries(r: Seq<(String, BackendMetricsRecord)>) -> Seq<(Seq<char>, MetricsEntry)> {
    Seq::new(r.len(), |i: int| (r[i].0@, r[i].1.entry()))
}

impl View for MetricsStore {
    type V = Map<Seq<char>, MetricsEntry>;

    closed spec fn view(&self) -> Map<Seq<char>, MetricsEntry> {
        assoc_map(metrics_entries(self.records@))
    }
}

impl Default for MetricsStore {
    /// An empty store.
    fn default() -> (r: Self)
        ensures
            r.wf(),
            r@ == Map::<Seq<char>, MetricsEntry>::empty(),
    {
        Self::new()
    }
}

impl MetricsStore {
    /// One record per backend, each with the store's window.
    pub closed spec fn wf(&self) -> bool {
        &&& keys_unique(metrics_entries(self.records@))
        &&& forall|i: int| 0 <= i < self.records@.len() ==> (#[trigger] self.records@[i]).1.wf()
    }

    /// An empty store.
    pub fn new() -> (r: Self)
        ensures
            r.wf(),
            r@ == Map::<Seq<char>, MetricsEntry>::empty(),
    {
        let r = MetricsStore { records: Vec::new() };
        assert(metrics_entries(r.records@) =~= Seq::<(Seq<char>, MetricsEntry)>::empty());
        r
    }

    /// Index of the record of `name`, created empty if there is none.
    fn entry_index(&mut self, name: &str) -> (i: usize)
        requires
            old(self).wf(),
        ensures
            final(self).wf(),
            i < final(self).records@.len(),
            final(self).records@[i as int].0@ == name@,
            final(self).records@[i as int].1.entry() == spec_entry(old(self)@, name@),
            final(self)@ == old(self)@.insert(name@, spec_entry(old(self)@, name@)),
    {
        let key = name.to_owned();
        let ghost s = metrics_entries(self.records@);
        match find_key(&self.records, &key) {
            Some(i) => {
                proof {
                    lemma_assoc_index(s, i as int);
                    assert(self@.insert(name@, spec_entry(self@, name@)) =~= self@);
                }
                i
            }
            None => {
                proof {
                    assert forall|j: int| 0 <= j < s.len() implies #[trigger] s[j].0 != name@ by {
                        assert(self.records@[j].0@ != key@);
                    }
                    lemma_assoc_contains(s, name@);
                    lemma_assoc_push(s, name@, empty_entry());
                }
                let rec = BackendMetricsRecord::fresh();
                self.records.push((key, rec));
                assert(metrics_entries(self.records@) =~= s.push((name@, empty_entry())));
                self.records.len() - 1
            }
        }
    }

    /// Replaces the record at `i` (whose key is `name`).
    fn replace_at(&mut self, i: usize, name: &str, rec: BackendMetricsRecord)
        requires
            old(self).wf(),
            i < old(self).records@.len(),
            old(self).records@[i as int].0@ == name@,
            rec.wf(),
        ensures
            final(self).wf(),
            final(self)@ == old(self)@.insert(name@, rec.entry()),
    {
        let ghost s = metrics_entries(self.records@);
        proof {
            lemma_assoc_update(s, i as int, rec.entry());
        }
        self.records.set(i, (name.to_owned(), rec));
        assert(metrics_entries(self.records@) =~= s.update(i as int, (s[i as int].0, rec.entry())));
    }

    /// Counts a completed request of `backend`: one more request, its tokens, and its
    /// latency in the window.
    pub fn record_request(&mut self, backend: &str, latency_ms: u64, tokens: u32)
        requires
            old(self).wf(),
            request_fits(old(self)@, backend@, tokens),
        ensures
            final(self).wf(),
            final(self)@ == after_request(old(self)@, backend@, latency_ms, tokens),
    {
        let i = self.entry_index(backend);
        let old_rec = self.records[i].1.snapshot();
        let mut window = old_rec.latency_window;
        window.add(latency_ms);
        let rec = BackendMetricsRecord {
            total_requests: old_rec.total_requests + 1,
            total_errors: old_rec.total_errors,
            total_tokens: old_rec.total_tokens + tokens as u64,
            latency_window: window,
        };
        self.replace_at(i, backend, rec);
    }

    /// Counts a failed request of `backend`.
    pub fn record_error(&mut self, backend: &str)
        requires
            old(self).wf(),
            spec_entry(old(self)@, backend@).1 < u64::MAX,
        ensures
            final(self).wf(),
            final(self)@ == after_error(old(self)@, backend@),
    {
        let i = self.entry_index(backend);
        let old_rec = self.records[i].1.snapshot();
        let rec = BackendMetricsRecord {
            total_requests: old_rec.total_requests,
            total_errors: old_rec.total_errors + 1,
            total_tokens: old_rec.total_tokens,
            latency_window: old_rec.latency_window,
        };
        self.replace_at(i, backend, rec);
    }

    /// A copy of the record of `backend`, if it has one.
    pub fn get_metrics(&self, backend: &str) -> (r: Option<BackendMetricsRecord>)
        requires
            self.wf(),
        ensures
            match r {
                Some(rec) => self@.contains_key(backend@) && rec.entry() == self@[backend@] && rec.wf(),
                None => !self@.contains_key(backend@),
            },
    {
        let key = backend.to_owned();
        let ghost s = metrics_entries(self.records@);
        match find_key(&self.records, &key) {
            Some(i) => {
                proof {
                    lemma_assoc_index(s, i as int);
                }
                Some(self.records[i].1.snapshot())
            }
            None => {
                proof {
                    lemma_assoc_contains(s, backend@);
                    if self@.contains_key(backend@) {
                        let j = choose|j: int| 0 <= j < s.len() && #[trigger] s[j].0 == backend@;
                        assert(self.records@[j].0@ != key@);
                    }
                }
                None
            }
        }
    }

    /// Median latency of `backend`, if it has samples.
    pub fn p50_of(&self, backend: &str) -> (r: Option<u64>)
        requires
            self.wf(),
        ensures
            r == spec_percentile(spec_entry(self@, backend@).3, p50_index(spec_entry(self@, backend@).3.len())),
    {
        match self.get_metrics(backend) {
            Some(rec) => rec.latency_window.p50(),
            None => None,
        }
    }

    /// A copy of every record, with its backend's name.
    pub fn all_metrics(&self) -> (r: Vec<(String, BackendMetricsRecord)>)
        requires
            self.wf(),
        ensures
            keys_unique(metrics_entries(r@)),
            assoc_map(metrics_entries(r@)) == self@,
            forall|i: int| 0 <= i < r@.len() ==> (#[trigger] r@[i]).1.wf(),
    {
        let n = self.records.len();
        let mut out: Vec<(String, BackendMetricsRecord)> = Vec::new();
        let mut i: usize = 0;
        while i < n
            invariant
                self.wf(),
                n == self.records@.len(),
                i <= n,
                out@.len() == i,
                forall|j: int| 0 <= j < i ==> (#[trigger] out@[j]).0@ == self.records@[j].0@
                    && out@[j].1.entry() == self.records@[j].1.entry() && out@[j].1.wf(),
            decreases n - i,
        {
            let name = self.records[i].0.clone();
            let rec = self.records[i].1.snapshot();
            out.push((name, rec));
            i = i + 1;
        }
        assert(metrics_entries(out@) =~= metrics_entries(self.records@));
        out
    }
}

/// A percentile is one of the samples, and the median never exceeds the 99th percentile.
pub proof fn law_percentiles_are_ordered_samples(s: Seq<u64>)
    requires
        s.len() > 0,
    ensures
        s.contains(spec_percentile(s, p50_index(s.len())).unwrap()),
        s.contains(spec_percentile(s, p99_index(s.len())).unwrap()),
        spec_percentile(s, p50_index(s.len())).unwrap() <= spec_percentile(s, p99_index(s.len())).unwrap(),
{
    lemma_sample_leq_total();
    s.lemma_sort_by_ensures(sample_leq());
    let t = sorted_samples(s);
    assert(t.len() == s.len()) by {
        vstd::seq_lib::to_multiset_len(s);
        vstd::seq_lib::to_multiset_len(t);
    }
    let a = p50_index(s.len());
    let b = p99_index(s.len());
    assert(a <= b) by (nonlinear_arith)
        requires
            a == s.len() as int / 2,
            b == (if s.len() * 99 / 100 < s.len() - 1 { (s.len() * 99 / 100) as int } else { s.len() - 1 }),
            s.len() > 0,
    {
    }
    assert(t.contains(t[a]));
    assert(t.contains(t[b]));
    if a < b {
        assert((sample_leq())(t[a], t[b]));
    }
}

/// A completed request adds one request, its tokens and its latency, and leaves the
/// error count alone; a failed request adds one error and nothing else.
pub proof fn law_request_and_error_counts(m: Map<Seq<char>, MetricsEntry>, name: Seq<char>, latency_ms: u64, tokens: u32)
    requires
        request_fits(m, name, tokens),
    ensures
        spec_entry(after_request(m, name, latency_ms, tokens), name).0 == spec_entry(m, name).0 + 1,
        spec_entry(after_request(m, name, latency_ms, tokens), name).1 == spec_entry(m, name).1,
        spec_entry(after_request(m, name, latency_ms, tokens), name).2 == spec_entry(m, name).2 + tokens,
        spec_entry(after_request(m, name, latency_ms, tokens), name).3.last() == latency_ms,
        spec_entry(m, name).1 < u64::MAX ==> spec_entry(after_error(m, name), name) == (
            spec_entry(m, name).0, (spec_entry(m, name).1 + 1) as u64, spec_entry(m, name).2, spec_entry(m, name).3),
{
}

/// One outcome reported to the store: a backend's name and, for a completed request,
/// its latency and tokens (nothing for a failed request).
pub type MetricsReport = (Seq<char>, Option<(u64, u32)>);

/// The metrics map after the reports, one by one, starting from an empty store.
pub open spec fn replay_metrics(reports: Seq<MetricsReport>) -> Map<Seq<char>, MetricsEntry>
    decreases reports.len(),
{
    if reports.len() == 0 {
        Map::empty()
    } else {
        let before = replay_metrics(reports.drop_last());
        let last = reports.last();
        match last.1 {
            Some((latency_ms, tokens)) => after_request(before, last.0, latency_ms, tokens),
            None => after_error(before, last.0),
        }
    }
}

/// The names that occur in the reports.
pub open spec fn reported_names(reports: Seq<MetricsReport>) -> Set<Seq<char>>
    decreases reports.len(),
{
    if reports.len() == 0 {
        Set::empty()
    } else {
        reported_names(reports.drop_last()).insert(reports.last().0)
    }
}

/// Completed requests of `name`, and the tokens they used.
pub open spec fn completed_of(reports: Seq<MetricsReport>, name: Seq<char>) -> (nat, nat)
    decreases reports.len(),
{
    if reports.len() == 0 {
        (0, 0)
    } else {
        let before = completed_of(reports.drop_last(), name);
        let last = reports.last();
        match last.1 {
            Some((latency_ms, tokens)) => if last.0 == name { (before.0 + 1, (before.1 + tokens) as nat) } else { before },
            None => before,
        }
    }
}

/// Failed requests of `name`.
pub open spec fn failed_of(reports: Seq<MetricsReport>, name: Seq<char>) -> nat
    decreases reports.len(),
{
    if reports.len() == 0 {
        0
    } else {
        let before = failed_of(reports.drop_last(), name);
        let last = reports.last();
        if last.0 == name && last.1 is None { before + 1 } else { before }
    }
}

/// Latencies of the completed requests of `name`, in order.
pub open spec fn latencies_of(reports: Seq<MetricsReport>, name: Seq<char>) -> Seq<u64>
    decreases reports.len(),
{
    if reports.len() == 0 {
        Seq::empty()
    } else {
        let before = latencies_of(reports.drop_last(), name);
        let last = reports.last();
        match last.1 {
            Some((latency_ms, tokens)) => if last.0 == name { before.push(latency_ms) } else { before },
            None => before,
        }
    }
}

/// What a store that starts empty holds after a run of reports: a record for exactly
/// the names reported so far, and for each name its completed and failed requests, the
/// tokens of the completed ones, and the window of their most recent latencies. The
/// counts of `name` must fit their `u64` counters (the store refuses a report that
/// would overflow one).
pub proof fn law_metrics_follow_reports(reports: Seq<MetricsReport>, name: Seq<char>)
    requires
        completed_of(reports, name).0 <= u64::MAX,
        completed_of(reports, name).1 <= u64::MAX,
        failed_of(reports, name) <= u64::MAX,
    ensures
        replay_metrics(reports).dom() == reported_names(reports),
        spec_entry(replay_metrics(reports), name) == (
            completed_of(reports, name).0 as u64,
            failed_of(reports, name) as u64,
            completed_of(reports, name).1 as u64,
            window_of(latencies_of(reports, name), METRICS_WINDOW),
        ),
    decreases reports.len(),
{
    if reports.len() > 0 {
        let d = reports.drop_last();
        let last = reports.last();
        law_metrics_follow_reports(d, name);
        assert(replay_metrics(reports).dom() =~= reported_names(reports));
        match last.1 {
            Some((latency_ms, tokens)) => {
                if last.0 == name {
                    assert(latencies_of(reports, name).drop_last() =~= latencies_of(d, name));
                }
            }
            None => {}
        }
    }
}

} // verus!
