use vstd::prelude::*;

verus! {

/// `x + 1`, wrapping to 0 past the largest `usize`.
pub open spec fn bump(x: usize) -> usize {
    if x == usize::MAX {
        0
    } else {
        (x + 1) as usize
    }
}

/// `x - 1`, wrapping to the largest `usize` below 0.
pub open spec fn drop_one(x: usize) -> usize {
    if x == 0 {
        usize::MAX
    } else {
        (x - 1) as usize
    }
}

/// The values of the server's counters.
pub struct MetricsCounts {
    pub active_connections: usize,
    pub total_requests: usize,
    pub cache_hits: usize,
    pub cache_misses: usize,
    pub parse_failures: usize,
    pub rejected_connections: usize,
}

/// Counters of what the server has done.
#[derive(Debug)]
pub struct Metrics {
    active_connections: usize,
    total_requests: usize,
    cache_hits: usize,
    cache_misses: usize,
    parse_failures: usize,
    rejected_connections: usize,
}

impl View for Metrics {
    type V = MetricsCounts;

    closed spec fn view(&self) -> MetricsCounts {
        MetricsCounts {
            active_connections: self.active_connections,
            total_requests: self.total_requests,
            cache_hits: self.cache_hits,
            cache_misses: self.cache_misses,
            parse_failures: self.parse_failures,
            rejected_connections: self.rejected_connections,
        }
    }
}

/// Whether every counter is zero.
pub open spec fn all_zero(m: MetricsCounts) -> bool {
    &&& m.active_connections == 0
    &&& m.total_requests == 0
    &&& m.cache_hits == 0
    &&& m.cache_misses == 0
    &&& m.parse_failures == 0
    &&& m.rejected_connections == 0
}

/// The counters after one connection opened.
pub open spec fn spec_opened(m: MetricsCounts) -> MetricsCounts {
    MetricsCounts { active_connections: bump(m.active_connections), ..m }
}

/// The counters after one connection closed.
pub open spec fn spec_closed(m: MetricsCounts) -> MetricsCounts {
    MetricsCounts { active_connections: drop_one(m.active_connections), ..m }
}

/// The counters after one request was counted.
pub open spec fn spec_counted(m: MetricsCounts) -> MetricsCounts {
    MetricsCounts { total_requests: bump(m.total_requests), ..m }
}

/// The counters after `k` requests were counted one after another.
pub open spec fn spec_counted_n(m: MetricsCounts, k: nat) -> MetricsCounts
    decreases k,
{
    if k == 0 {
        m
    } else {
        spec_counted(spec_counted_n(m, (k - 1) as nat))
    }
}

/// `x + 1` with the wrap of an atomic counter.
fn wrapping_inc(x: usize) -> (r: usize)
    ensures
        r == bump(x),
{
    if x == usize::MAX {
        0
    } else {
        x + 1
    }
}

/// `x - 1` with the wrap of an atomic counter.
fn wrapping_dec(x: usize) -> (r: usize)
    ensures
        r == drop_one(x),
{
    if x == 0 {
        usize::MAX
    } else {
        x - 1
    }
}

impl Default for Metrics {
    fn default() -> (m: Metrics)
        ensures
            all_zero(m@),
    {
        Metrics::new()
    }
}

impl Metrics {
    /// All counters at zero.
    pub fn new() -> (m: Metrics)
        ensures
            all_zero(m@),
    {
        Metrics {
            active_connections: 0,
            rejected_connections: 0,
            total_requests: 0,
            parse_failures: 0,
            cache_hits: 0,
            cache_misses: 0,
        }
    }

    /// Counts a connection that opened.
    pub fn inc_active_connections(&mut self)
        ensures
            final(self)@ == spec_opened(old(self)@),
    {
        self.active_connections = wrapping_inc(self.active_connections);
    }

    /// Counts a connection that closed.
    pub fn dec_active_connections(&mut self)
        ensures
            final(self)@ == spec_closed(old(self)@),
    {
        self.active_connections = wrapping_dec(self.active_connections);
    }

    /// Counts a connection that could not be accepted.
    pub fn inc_rejected_connections(&mut self)
        ensures
            final(self)@ == (MetricsCounts {
                rejected_connections: bump(old(self)@.rejected_connections),
                ..old(self)@
            }),
    {
        self.rejected_connections = wrapping_inc(self.rejected_connections);
    }

    /// Counts a request.
    pub fn inc_total_requests(&mut self)
        ensures
            final(self)@ == spec_counted(old(self)@),
    {
        self.total_requests = wrapping_inc(self.total_requests);
    }

    /// Counts a request that was not a valid command.
    pub fn inc_parse_failures(&mut self)
        ensures
            final(self)@ == (MetricsCounts {
                parse_failures: bump(old(self)@.parse_failures),
                ..old(self)@
            }),
    {
        self.parse_failures = wrapping_inc(self.parse_failures);
    }

    /// Counts a read that found its key.
    pub fn inc_cache_hits(&mut self)
        ensures
            final(self)@ == (MetricsCounts {
                cache_hits: bump(old(self)@.cache_hits),
                ..old(self)@
            }),
    {
        self.cache_hits = wrapping_inc(self.cache_hits);
    }

    /// Counts a read that did not find its key.
    pub fn inc_cache_misses(&mut self)
        ensures
            final(self)@ == (MetricsCounts {
                cache_misses: bump(old(self)@.cache_misses),
                ..old(self)@
            }),
    {
        self.cache_misses = wrapping_inc(self.cache_misses);
    }

    /// The number of requests counted.
    pub fn total_requests(&self) -> (n: usize)
        ensures
            n == self@.total_requests,
    {
        self.total_requests
    }

    /// The number of connections open.
    pub fn active_connections(&self) -> (n: usize)
        ensures
            n == self@.active_connections,
    {
        self.active_connections
    }
}

/// A connection that opens and then closes leaves the count of open
/// connections as it was, and so does one that closes and then opens.
pub proof fn law_open_close_restores(x: usize)
    ensures
        drop_one(bump(x)) == x,
        bump(drop_one(x)) == x,
{
}

/// A counter after `n` counted events.
pub open spec fn bump_n(x: usize, n: nat) -> usize
    decreases n,
{
    if n == 0 {
        x
    } else {
        bump(bump_n(x, (n - 1) as nat))
    }
}

/// Each of `n` counted events adds one to a counter, as long as the sum
/// fits: no count is lost.
pub proof fn law_counts_add_up(x: usize, n: nat)
    requires
        x + n <= usize::MAX,
    ensures
        bump_n(x, n) == x + n,
    decreases n,
{
    if n > 0 {
        law_counts_add_up(x, (n - 1) as nat);
    }
}

/// Counting `k` requests one after another, from any counters whose
/// request count leaves room for them, adds exactly `k` to the request
/// count and changes no other counter: no count is lost.
pub proof fn law_requests_add_up(m: MetricsCounts, k: nat)
    requires
        m.total_requests + k <= usize::MAX,
    ensures
        spec_counted_n(m, k) == (MetricsCounts { total_requests: (m.total_requests + k) as usize, ..m }),
    decreases k,
{
    if k > 0 {
        law_requests_add_up(m, (k - 1) as nat);
    }
}

/// A connection that opens, has `k` requests counted and closes leaves the
/// count of open connections as it found it, and adds `k` to the request
/// count when there is room for them.
pub proof fn law_connection_leaves_active_count(m: MetricsCounts, k: nat)
    ensures
        spec_closed(spec_counted_n(spec_opened(m), k)).active_connections == m.active_connections,
        m.total_requests + k <= usize::MAX ==> spec_closed(spec_counted_n(spec_opened(m), k))
            == (MetricsCounts { total_requests: (m.total_requests + k) as usize, ..m }),
{
    lemma_counted_n_keeps_active(spec_opened(m), k);
    if m.total_requests + k <= usize::MAX {
        law_requests_add_up(spec_opened(m), k);
    }
}

/// Counting requests leaves the count of open connections alone.
proof fn lemma_counted_n_keeps_active(m: MetricsCounts, k: nat)
    ensures
        spec_counted_n(m, k).active_connections == m.active_connections,
    decreases k,
{
    if k > 0 {
        lemma_counted_n_keeps_active(m, (k - 1) as nat);
    }
}

} // verus!
