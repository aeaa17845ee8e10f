//! Per-host probe statistics: a bounded history of probe outcomes with
//! lifetime counters, and the metrics derived from them (packet loss,
//! round-trip-time summary, connection quality).

use std::collections::VecDeque;
use vstd::prelude::*;

verus! {

/// One probe outcome.  Round-trip times are whole microseconds; timestamps
/// are microseconds since an origin chosen by the caller.
#[derive(Debug)]
pub enum PingResult {
    Success { rtt: u32, sequence: u16, timestamp: u64 },
    Timeout { sequence: u16, timestamp: u64 },
    Error { error: String, sequence: u16, timestamp: u64 },
}

/// The mathematical value of a `PingResult`: the same three-way outcome with
/// the error text abstracted to a sequence of characters.
pub enum Outcome {
    Success { rtt: u32, sequence: u16, timestamp: u64 },
    Timeout { sequence: u16, timestamp: u64 },
    Error { error: Seq<char>, sequence: u16, timestamp: u64 },
}

impl View for PingResult {
    type V = Outcome;

    open spec fn view(&self) -> Outcome {
        match *self {
            PingResult::Success { rtt, sequence, timestamp } => Outcome::Success {
                rtt,
                sequence,
                timestamp,
            },
            PingResult::Timeout { sequence, timestamp } => Outcome::Timeout {
                sequence,
                timestamp,
            },
            PingResult::Error { error, sequence, timestamp } => Outcome::Error {
                error: error@,
                sequence,
                timestamp,
            },
        }
    }
}

impl Outcome {
    /// Sequence number of the probe, whatever its outcome.
    pub open spec fn sequence(self) -> u16 {
        match self {
            Outcome::Success { sequence, .. } => sequence,
            Outcome::Timeout { sequence, .. } => sequence,
            Outcome::Error { sequence, .. } => sequence,
        }
    }

    /// Issue timestamp of the probe, whatever its outcome.
    pub open spec fn timestamp(self) -> u64 {
        match self {
            Outcome::Success { timestamp, .. } => timestamp,
            Outcome::Timeout { timestamp, .. } => timestamp,
            Outcome::Error { timestamp, .. } => timestamp,
        }
    }

    pub open spec fn is_success(self) -> bool {
        self is Success
    }

    /// Round-trip time of a successful probe; `None` otherwise.
    pub open spec fn rtt(self) -> Option<u32> {
        match self {
            Outcome::Success { rtt, .. } => Some(rtt),
            _ => None,
        }
    }
}

impl PingResult {
    pub fn timestamp(&self) -> (t: u64)
        ensures
            t == self@.timestamp(),
    {
        match self {
            PingResult::Success { timestamp, .. } => *timestamp,
            PingResult::Timeout { timestamp, .. } => *timestamp,
            PingResult::Error { timestamp, .. } => *timestamp,
        }
    }

    pub fn sequence(&self) -> (s: u16)
        ensures
            s == self@.sequence(),
    {
        match self {
            PingResult::Success { sequence, .. } => *sequence,
            PingResult::Timeout { sequence, .. } => *sequence,
            PingResult::Error { sequence, .. } => *sequence,
        }
    }

    pub fn is_success(&self) -> (b: bool)
        ensures
            b == self@.is_success(),
    {
        match self {
            PingResult::Success { .. } => true,
            _ => false,
        }
    }

    pub fn rtt(&self) -> (r: Option<u32>)
        ensures
            r == self@.rtt(),
    {
        match self {
            PingResult::Success { rtt, .. } => Some(*rtt),
            _ => None,
        }
    }
}

impl Clone for PingResult {
    fn clone(&self) -> (res: Self)
        ensures
            res == *self,
    {
        match self {
            PingResult::Success { rtt, sequence, timestamp } => PingResult::Success {
                rtt: *rtt,
                sequence: *sequence,
                timestamp: *timestamp,
            },
            PingResult::Timeout { sequence, timestamp } => PingResult::Timeout {
                sequence: *sequence,
                timestamp: *timestamp,
            },
            PingResult::Error { error, sequence, timestamp } => PingResult::Error {
                error: error.clone(),
                sequence: *sequence,
                timestamp: *timestamp,
            },
        }
    }
}

/// The mathematical value of a `PingStats`: the history as a sequence of
/// outcomes (oldest first), the configured capacity, and the lifetime
/// counters.
#[verifier::ext_equal]
pub struct StatsView {
    pub history: Seq<Outcome>,
    pub max_history: nat,
    pub total: nat,
    pub successful: nat,
    pub timeouts: nat,
    pub errors: nat,
}

/// The view of a freshly created tracker with capacity `cap`.
pub open spec fn fresh_stats(cap: nat) -> StatsView {
    StatsView {
        history: Seq::empty(),
        max_history: cap,
        total: 0,
        successful: 0,
        timeouts: 0,
        errors: 0,
    }
}

/// How one recorded outcome transforms a tracker: the oldest history entry
/// is evicted once the history is full, the outcome is appended (a
/// zero-capacity tracker keeps no history at all), and the counter of its
/// kind and the lifetime total each grow by one.
pub open spec fn record_step(v: StatsView, outcome: Outcome) -> StatsView {
    let trimmed = if v.history.len() >= v.max_history && v.history.len() > 0 {
        v.history.drop_first()
    } else {
        v.history
    };
    StatsView {
        history: if v.max_history == 0 {
            Seq::empty()
        } else {
            trimmed.push(outcome)
        },
        max_history: v.max_history,
        total: v.total + 1,
        successful: v.successful + (if outcome is Success { 1nat } else { 0nat }),
        timeouts: v.timeouts + (if outcome is Timeout { 1nat } else { 0nat }),
        errors: v.errors + (if outcome is Error { 1nat } else { 0nat }),
    }
}

/// Per-host statistics tracker: bounded history plus lifetime counters.
#[derive(Debug)]
pub struct PingStats {
    history: VecDeque<PingResult>,
    max_history: usize,
    total_pings: u64,
    successful_pings: u64,
    timeouts: u64,
    errors: u64,
}

impl View for PingStats {
    type V = StatsView;

    closed spec fn view(&self) -> StatsView {
        StatsView {
            history: self.history@.map_values(|r: PingResult| r@),
            max_history: self.max_history as nat,
            total: self.total_pings as nat,
            successful: self.successful_pings as nat,
            timeouts: self.timeouts as nat,
            errors: self.errors as nat,
        }
    }
}

impl PingStats {
    /// Well-formedness: the history never grows past the configured
    /// capacity, and the lifetime counters balance.
    pub open spec fn wf(&self) -> bool {
        &&& self@.history.len() <= self@.max_history
        &&& self@.total == self@.successful + self@.timeouts + self@.errors
        &&& self@.max_history <= usize::MAX
        &&& self@.total <= u64::MAX
    }

    pub fn new(max_history: usize) -> (s: Self)
        ensures
            s@ == fresh_stats(max_history as nat),
            s.wf(),
    {
        let s = PingStats {
            history: VecDeque::with_capacity(max_history),
            max_history,
            total_pings: 0,
            successful_pings: 0,
            timeouts: 0,
            errors: 0,
        };
        proof {
            assert(s@ =~= fresh_stats(max_history as nat));
        }
        s
    }

    /// Record one probe outcome; never fails.
    pub fn add_result(&mut self, result: &PingResult)
        requires
            old(self).wf(),
            old(self)@.total < u64::MAX,
        ensures
            final(self)@ == record_step(old(self)@, result@),
            final(self).wf(),
    {
        if self.max_history > 0 {
            if self.history.len() >= self.max_history {
                let _ = self.history.pop_front();
            }
            self.history.push_back(result.clone());
        }

        self.total_pings = self.total_pings + 1;
        match result {
            PingResult::Success { .. } => self.successful_pings = self.successful_pings + 1,
            PingResult::Timeout { .. } => self.timeouts = self.timeouts + 1,
            PingResult::Error { .. } => self.errors = self.errors + 1,
        }
        proof {
            assert(self@.history =~= record_step(old(self)@, result@).history);
            assert(self@ =~= record_step(old(self)@, result@));
        }
    }
}

/// Number of successful outcomes in a history.
pub open spec fn count_success(h: Seq<Outcome>) -> int
    decreases h.len(),
{
    if h.len() == 0 {
        0
    } else {
        count_success(h.drop_last()) + (if h.last() is Success {
            1int
        } else {
            0int
        })
    }
}

/// Number of timed-out outcomes in a history.
pub open spec fn count_timeout(h: Seq<Outcome>) -> int
    decreases h.len(),
{
    if h.len() == 0 {
        0
    } else {
        count_timeout(h.drop_last()) + (if h.last() is Timeout {
            1int
        } else {
            0int
        })
    }
}

/// Number of errored outcomes in a history.
pub open spec fn count_error(h: Seq<Outcome>) -> int
    decreases h.len(),
{
    if h.len() == 0 {
        0
    } else {
        count_error(h.drop_last()) + (if h.last() is Error {
            1int
        } else {
            0int
        })
    }
}

pub proof fn lemma_count_success_bounds(h: Seq<Outcome>)
    ensures
        0 <= count_success(h) <= h.len(),
    decreases h.len(),
{
    if h.len() > 0 {
        lemma_count_success_bounds(h.drop_last());
    }
}

/// The most recent `w` entries of a history (all of it if shorter).
pub open spec fn recent_window(h: Seq<Outcome>, w: int) -> Seq<Outcome> {
    if w >= h.len() {
        h
    } else {
        h.skip(h.len() - w)
    }
}

/// Packet loss as a fraction of `total`, expressed in hundredths of a
/// percent, rounded towards zero; zero when nothing was recorded.
pub open spec fn loss_hundredths(successful: int, total: int) -> int {
    if total == 0 {
        0
    } else {
        (total - successful) * 10000 / total
    }
}

proof fn lemma_loss_hundredths_range(successful: int, total: int)
    requires
        0 <= successful <= total,
    ensures
        0 <= loss_hundredths(successful, total) <= 10000,
{
    if total > 0 {
        let lost = total - successful;
        assert(lost * 10000 <= total * 10000) by (nonlinear_arith)
            requires 0 <= lost <= total,
        ;
        assert(0 <= lost * 10000 / total <= 10000) by (nonlinear_arith)
            requires total > 0, 0 <= lost * 10000 <= total * 10000,
        ;
    }
}

impl PingStats {
    /// Lifetime packet loss in hundredths of a percent.
    pub fn packet_loss_percent(&self) -> (r: u64)
        requires
            self.wf(),
        ensures
            r == loss_hundredths(self@.successful as int, self@.total as int),
            r <= 10000,
    {
        if self.total_pings == 0 {
            0
        } else {
            let lost = self.total_pings - self.successful_pings;
            proof {
                lemma_loss_hundredths_range(self@.successful as int, self@.total as int);
            }
            ((lost as u128) * 10000 / (self.total_pings as u128)) as u64
        }
    }

    /// Count of successful entries among the most recent `window_size`
    /// history entries, together with the size of that window.
    fn recent_counts(&self, window_size: usize) -> (counts: (usize, usize))
        ensures
            counts.0 == count_success(recent_window(self@.history, window_size as int)),
            counts.1 == recent_window(self@.history, window_size as int).len(),
            counts.0 <= counts.1 <= window_size,
    {
        let len = self.history.len();
        let w = if window_size < len {
            window_size
        } else {
            len
        };
        let ghost window = recent_window(self@.history, window_size as int);
        proof {
            assert(window =~= self@.history.skip(len - w));
        }
        let start = len - w;
        let mut successful: usize = 0;
        let mut i: usize = start;
        while i < len
            invariant
                start <= i <= len,
                len == self@.history.len(),
                len == self.history@.len(),
                start == len - w,
                window == self@.history.skip(start as int),
                successful == count_success(self@.history.subrange(start as int, i as int)),
                successful <= i - start,
            decreases len - i,
        {
            let is_ok = match &self.history[i] {
                PingResult::Success { .. } => true,
                _ => false,
            };
            proof {
                let pre = self@.history.subrange(start as int, i as int);
                let post = self@.history.subrange(start as int, i + 1);
                assert(post.drop_last() =~= pre);
                assert(post.last() == self@.history[i as int]);
            }
            if is_ok {
                successful = successful + 1;
            }
            i = i + 1;
        }
        proof {
            assert(self@.history.subrange(start as int, len as int) =~= window);
        }
        (successful, w)
    }

    /// Packet loss over the most recent `window_size` history entries, in
    /// hundredths of a percent.
    pub fn packet_loss_percent_recent(&self, window_size: usize) -> (r: u64)
        ensures
            ({
                let window = recent_window(self@.history, window_size as int);
                r == loss_hundredths(count_success(window), window.len() as int)
            }),
            r <= 10000,
    {
        let (successful, total) = self.recent_counts(window_size);
        if total == 0 {
            0
        } else {
            let lost = total - successful;
            proof {
                let window = recent_window(self@.history, window_size as int);
                lemma_loss_hundredths_range(count_success(window), window.len() as int);
            }
            ((lost as u128) * 10000 / (total as u128)) as u64
        }
    }
}

/// Summary of the round-trip times of the successful entries in the bounded
/// history.  All fields are whole microseconds; `jitter` is the (integer)
/// population standard deviation of the round-trip times around `avg`.
#[derive(Debug, Clone, Copy, PartialEq, Eq, Structural)]
pub struct RttStats {
    pub min: u32,
    pub max: u32,
    pub avg: u32,
    pub median: u32,
    pub jitter: u32,
}

impl RttStats {
    /// The all-zero summary reported while no probe has succeeded.
    pub open spec fn zero() -> RttStats {
        RttStats { min: 0, max: 0, avg: 0, median: 0, jitter: 0 }
    }
}

impl Default for RttStats {
    fn default() -> (r: Self)
        ensures
            r == RttStats::zero(),
    {
        RttStats { min: 0, max: 0, avg: 0, median: 0, jitter: 0 }
    }
}

/// Round-trip time of a successful outcome (unused default otherwise).
pub open spec fn rtt_of(o: Outcome) -> u32 {
    match o {
        Outcome::Success { rtt, .. } => rtt,
        _ => 0,
    }
}

/// The round-trip times of the successful entries of a history, in history
/// order.
pub open spec fn success_rtts(h: Seq<Outcome>) -> Seq<u32>
    decreases h.len(),
{
    if h.len() == 0 {
        Seq::empty()
    } else {
        let rest = success_rtts(h.drop_last());
        if h.last() is Success {
            rest.push(rtt_of(h.last()))
        } else {
            rest
        }
    }
}

/// Sum of a sequence of round-trip times.
pub open spec fn rtt_sum(s: Seq<u32>) -> int
    decreases s.len(),
{
    if s.len() == 0 {
        0
    } else {
        rtt_sum(s.drop_last()) + s.last()
    }
}

/// Arithmetic mean, rounded towards zero; zero for an empty sequence.
pub open spec fn mean_of(s: Seq<u32>) -> int {
    if s.len() == 0 {
        0
    } else {
        rtt_sum(s) / (s.len() as int)
    }
}

/// Sum of squared deviations from `mean`.
pub open spec fn sq_dev_sum(s: Seq<u32>, mean: int) -> int
    decreases s.len(),
{
    if s.len() == 0 {
        0
    } else {
        sq_dev_sum(s.drop_last(), mean) + (s.last() - mean) * (s.last() - mean)
    }
}

/// Population variance around the truncated mean; zero for an empty sequence.
pub open spec fn variance_of(s: Seq<u32>) -> int {
    if s.len() == 0 {
        0
    } else {
        sq_dev_sum(s, mean_of(s)) / (s.len() as int)
    }
}

/// `r` is the integer square root of `n`.
pub open spec fn is_isqrt(n: int, r: int) -> bool {
    &&& 0 <= r
    &&& r * r <= n
    &&& n < (r + 1) * (r + 1)
}

/// The ordering by which round-trip times are sorted.
pub open spec fn rtt_le() -> spec_fn(u32, u32) -> bool {
    |a: u32, b: u32| a <= b
}

/// The sorted rearrangement of a sequence of round-trip times.
pub open spec fn sorted_of(s: Seq<u32>) -> Seq<u32> {
    choose|t: Seq<u32>|
        vstd::relations::sorted_by(t, rtt_le()) && t.to_multiset() == s.to_multiset()
}

/// The median: midpoint of the sorted rearrangement, the mean of the two
/// central values for an even count; zero for an empty sequence.
pub open spec fn median_of(s: Seq<u32>) -> int {
    let t = sorted_of(s);
    let n = s.len() as int;
    if n == 0 {
        0
    } else if n % 2 == 0 {
        (t[n / 2 - 1] + t[n / 2]) / 2
    } else {
        t[n / 2] as int
    }
}

proof fn lemma_rtt_sum_bounds(s: Seq<u32>)
    ensures
        0 <= rtt_sum(s) <= s.len() * (u32::MAX as int),
    decreases s.len(),
{
    if s.len() > 0 {
        lemma_rtt_sum_bounds(s.drop_last());
    }
}

proof fn lemma_sq_dev_sum_bounds(s: Seq<u32>, mean: int)
    requires
        0 <= mean <= u32::MAX,
    ensures
        0 <= sq_dev_sum(s, mean) <= s.len() * ((u32::MAX as int) * (u32::MAX as int)),
    decreases s.len(),
{
    if s.len() > 0 {
        lemma_sq_dev_sum_bounds(s.drop_last(), mean);
        let d = s.last() - mean;
        assert(d * d <= (u32::MAX as int) * (u32::MAX as int)) by (nonlinear_arith)
            requires -(u32::MAX as int) <= d <= u32::MAX as int,
        ;
        assert(0 <= d * d) by (nonlinear_arith);
    }
}

proof fn lemma_div_bound(total: int, n: int, bound: int)
    requires
        0 < n,
        0 <= bound,
        0 <= total <= n * bound,
    ensures
        0 <= total / n <= bound,
{
    vstd::arithmetic::div_mod::lemma_div_is_ordered(total, n * bound, n);
    vstd::arithmetic::div_mod::lemma_div_multiples_vanish(bound, n);
    vstd::arithmetic::div_mod::lemma_div_pos_is_pos(total, n);
}

/// Integer square root of a 64-bit value, by binary search.
fn isqrt64(n: u64) -> (r: u32)
    ensures
        is_isqrt(n as int, r as int),
{
    let mut lo: u64 = 0;
    let mut hi: u64 = 0x1_0000_0000;
    proof {
        assert((0x1_0000_0000int) * (0x1_0000_0000int) > n as int);
    }
    while hi - lo > 1
        invariant
            lo < hi <= 0x1_0000_0000,
            (lo as int) * (lo as int) <= n as int,
            (hi as int) * (hi as int) > n as int,
        decreases hi - lo,
    {
        let mid = lo + (hi - lo) / 2;
        proof {
            assert((mid as int) * (mid as int) <= (0xffff_ffffint) * (0xffff_ffffint))
                by (nonlinear_arith)
                requires mid <= 0xffff_ffffu64,
            ;
        }
        if mid * mid <= n {
            lo = mid;
        } else {
            hi = mid;
        }
    }
    lo as u32
}

/// Insert `x` into an already sorted vector, keeping it sorted.
fn sorted_insert(v: &mut Vec<u32>, x: u32)
    requires
        vstd::relations::sorted_by(old(v)@, rtt_le()),
        old(v)@.len() < usize::MAX,
    ensures
        vstd::relations::sorted_by(final(v)@, rtt_le()),
        final(v)@.to_multiset() == old(v)@.to_multiset().insert(x),
        final(v)@.len() == old(v)@.len() + 1,
{
    broadcast use vstd::seq_lib::group_to_multiset_ensures;

    let mut p: usize = 0;
    while p < v.len() && v[p] < x
        invariant
            p <= v@.len(),
            forall|j: int| 0 <= j < p ==> v@[j] < x,
            v == old(v),
        decreases v@.len() - p,
    {
        p = p + 1;
    }
    proof {
        assert(p == v@.len() || v@[p as int] >= x);
    }
    v.insert(p, x);
    proof {
        let s = old(v)@;
        let t = v@;
        assert(t =~= s.subrange(0, p as int).push(x) + s.subrange(p as int, s.len() as int));
        assert forall|i: int, j: int| 0 <= i < j < t.len() implies rtt_le()(t[i], t[j]) by {
            let ti: u32 = if i < p {
                s[i]
            } else if i == p {
                x
            } else {
                s[i - 1]
            };
            let tj: u32 = if j < p {
                s[j]
            } else if j == p {
                x
            } else {
                s[j - 1]
            };
            assert(t[i] == ti);
            assert(t[j] == tj);
            if i < p && j < p {
                assert(rtt_le()(s[i], s[j]));
            }
            if i < p && j > p {
                assert(rtt_le()(s[i], s[j - 1]));
            }
            if i == p && j > p {
                assert(s[p as int] >= x);
                if j - 1 > p {
                    assert(rtt_le()(s[p as int], s[j - 1]));
                }
            }
            if i > p {
                assert(rtt_le()(s[i - 1], s[j - 1]));
            }
            assert(ti <= tj);
        }
        vstd::seq_lib::lemma_multiset_commutative(
            s.subrange(0, p as int).push(x),
            s.subrange(p as int, s.len() as int),
        );
        vstd::seq_lib::lemma_multiset_commutative(
            s.subrange(0, p as int),
            s.subrange(p as int, s.len() as int),
        );
        assert(s =~= s.subrange(0, p as int) + s.subrange(p as int, s.len() as int));
        assert(s.subrange(0, p as int).push(x).to_multiset() =~= s.subrange(
            0,
            p as int,
        ).to_multiset().insert(x));
        assert(t.to_multiset() =~= s.to_multiset().insert(x));
    }
}

/// Sort a vector of round-trip times (insertion sort).
fn sort_rtts(input: &Vec<u32>) -> (out: Vec<u32>)
    ensures
        vstd::relations::sorted_by(out@, rtt_le()),
        out@.to_multiset() == input@.to_multiset(),
        out@.len() == input@.len(),
{
    broadcast use vstd::seq_lib::group_to_multiset_ensures;

    let mut out: Vec<u32> = Vec::new();
    let mut i: usize = 0;
    proof {
        assert(input@.take(0) =~= Seq::<u32>::empty());
        assert(out@.to_multiset() =~= input@.take(0).to_multiset());
    }
    while i < input.len()
        invariant
            i <= input@.len(),
            out@.len() == i,
            vstd::relations::sorted_by(out@, rtt_le()),
            out@.to_multiset() == input@.take(i as int).to_multiset(),
        decreases input@.len() - i,
    {
        sorted_insert(&mut out, input[i]);
        proof {
            assert(input@.take(i + 1) =~= input@.take(i as int).push(input@[i as int]));
            input@.take(i as int).to_multiset_ensures();
            assert(input@.take(i as int).push(input@[i as int]).to_multiset() =~= input@.take(
                i as int,
            ).to_multiset().insert(input@[i as int]));
            assert(out@.to_multiset() == input@.take(i + 1).to_multiset());
        }
        i = i + 1;
    }
    proof {
        assert(input@.take(input@.len() as int) =~= input@);
    }
    out
}

impl PingStats {
    /// Summary of the round-trip times of the successful history entries:
    /// exact min, max, truncated mean, median over the sorted rearrangement,
    /// and jitter as the integer square root of the population variance.
    /// All-zero when no history entry is a success.
    pub fn rtt_stats(&self) -> (r: RttStats)
        ensures
            ({
                let rtts = success_rtts(self@.history);
                if rtts.len() == 0 {
                    r == RttStats::zero()
                } else {
                    &&& rtts.contains(r.min)
                    &&& (forall|k: int| 0 <= k < rtts.len() ==> r.min <= rtts[k])
                    &&& rtts.contains(r.max)
                    &&& (forall|k: int| 0 <= k < rtts.len() ==> rtts[k] <= r.max)
                    &&& r.avg == mean_of(rtts)
                    &&& r.median == median_of(rtts)
                    &&& is_isqrt(variance_of(rtts), r.jitter as int)
                }
            }),
    {
        let ghost hist = self@.history;
        // Collect the round-trip times of the successful entries.
        let len = self.history.len();
        let mut rtts: Vec<u32> = Vec::new();
        let mut i: usize = 0;
        proof {
            assert(rtts@ =~= success_rtts(hist.take(0)));
        }
        while i < len
            invariant
                i <= len,
                len == self.history@.len(),
                hist == self@.history,
                hist.len() == len,
                rtts@ == success_rtts(hist.take(i as int)),
            decreases len - i,
        {
            match &self.history[i] {
                PingResult::Success { rtt, .. } => rtts.push(*rtt),
                _ => {},
            }
            proof {
                assert(hist.take(i + 1).drop_last() =~= hist.take(i as int));
                assert(hist.take(i + 1).last() == hist[i as int]);
            }
            i = i + 1;
        }
        proof {
            assert(hist.take(len as int) =~= hist);
        }

        if rtts.len() == 0 {
            return RttStats { min: 0, max: 0, avg: 0, median: 0, jitter: 0 };
        }

        let n = rtts.len();
        // Min, max and sum in one pass.
        let mut minv = rtts[0];
        let mut maxv = rtts[0];
        let mut sum: u128 = 0;
        let mut j: usize = 0;
        proof {
            assert(rtts@.take(0) =~= Seq::<u32>::empty());
        }
        while j < n
            invariant
                j <= n,
                n == rtts@.len(),
                n > 0,
                rtts@.contains(minv),
                rtts@.contains(maxv),
                forall|k: int| 0 <= k < j ==> minv <= rtts@[k],
                forall|k: int| 0 <= k < j ==> rtts@[k] <= maxv,
                sum == rtt_sum(rtts@.take(j as int)),
                sum <= (j as int) * (u32::MAX as int),
            decreases n - j,
        {
            let x = rtts[j];
            if x < minv {
                minv = x;
            }
            if x > maxv {
                maxv = x;
            }
            proof {
                assert(rtts@.take(j + 1).drop_last() =~= rtts@.take(j as int));
                assert(rtts@.take(j + 1).last() == rtts@[j as int]);
            }
            sum = sum + (x as u128);
            j = j + 1;
        }
        proof {
            assert(rtts@.take(n as int) =~= rtts@);
            lemma_rtt_sum_bounds(rtts@);
            lemma_div_bound(rtt_sum(rtts@), n as int, u32::MAX as int);
        }
        let avg = (sum / (n as u128)) as u32;

        // Median over the sorted rearrangement.
        let sorted = sort_rtts(&rtts);
        proof {
            let t = sorted_of(rtts@);
            assert(vstd::relations::sorted_by(sorted@, rtt_le()) && sorted@.to_multiset()
                == rtts@.to_multiset());
            assert(vstd::relations::sorted_by(t, rtt_le()) && t.to_multiset()
                == rtts@.to_multiset());
            assert(vstd::relations::total_ordering(rtt_le()));
            vstd::seq_lib::lemma_sorted_unique(t, sorted@, rtt_le());
            assert(t =~= sorted@);
        }
        let median = if n % 2 == 0 {
            let mid = n / 2;
            (((sorted[mid - 1] as u64) + (sorted[mid] as u64)) / 2) as u32
        } else {
            sorted[n / 2]
        };

        // Jitter: integer square root of the population variance.
        let mut ssd: u128 = 0;
        let mut k: usize = 0;
        proof {
            assert(rtts@.take(0) =~= Seq::<u32>::empty());
        }
        while k < n
            invariant
                k <= n,
                n == rtts@.len(),
                avg <= u32::MAX,
                ssd == sq_dev_sum(rtts@.take(k as int), avg as int),
                ssd <= (k as int) * ((u32::MAX as int) * (u32::MAX as int)),
            decreases n - k,
        {
            let x = rtts[k];
            let d: u64 = if x >= avg {
                (x - avg) as u64
            } else {
                (avg - x) as u64
            };
            proof {
                assert((d as int) * (d as int) <= (u32::MAX as int) * (u32::MAX as int))
                    by (nonlinear_arith)
                    requires 0 <= d as int <= u32::MAX as int,
                ;
                assert((x as int - avg as int) * (x as int - avg as int) == (d as int) * (
                d as int)) by (nonlinear_arith)
                    requires
                        d as int == (if x >= avg {
                            x as int - avg as int
                        } else {
                            avg as int - x as int
                        }),
                ;
                assert(rtts@.take(k + 1).drop_last() =~= rtts@.take(k as int));
                assert(rtts@.take(k + 1).last() == rtts@[k as int]);
            }
            let sq: u128 = (d as u128) * (d as u128);
            ssd = ssd + sq;
            k = k + 1;
        }
        proof {
            assert(rtts@.take(n as int) =~= rtts@);
            lemma_sq_dev_sum_bounds(rtts@, avg as int);
            lemma_div_bound(
                sq_dev_sum(rtts@, avg as int),
                n as int,
                (u32::MAX as int) * (u32::MAX as int),
            );
        }
        let variance = (ssd / (n as u128)) as u64;
        let jitter = isqrt64(variance);

        RttStats { min: minv, max: maxv, avg, median, jitter }
    }
}

/// Three-level connection quality classification.
#[derive(Debug, Clone, Copy, PartialEq, Eq, Structural)]
pub enum ConnectionQuality {
    Good,
    Fair,
    Poor,
}

/// Number of history entries the quality classification looks back over.
pub const QUALITY_WINDOW: usize = 20;

/// Quality classification: Poor when windowed loss exceeds 10% or the mean
/// round-trip time exceeds 500ms; else Fair when windowed loss exceeds 2% or
/// the mean exceeds 100ms; else Good.  Loss thresholds are compared exactly
/// (`lost / window > 1/10` as `lost * 10 > window`).
pub open spec fn quality_of(v: StatsView) -> ConnectionQuality {
    let recent = recent_window(v.history, QUALITY_WINDOW as int);
    let lost = recent.len() - count_success(recent);
    let avg = mean_of(success_rtts(v.history));
    if lost * 10 > recent.len() || avg > 500000 {
        ConnectionQuality::Poor
    } else if lost * 50 > recent.len() || avg > 100000 {
        ConnectionQuality::Fair
    } else {
        ConnectionQuality::Good
    }
}

impl ConnectionQuality {
    pub fn color(&self) -> (c: &'static str)
        ensures
            c@ == (match *self {
                ConnectionQuality::Good => "green"@,
                ConnectionQuality::Fair => "yellow"@,
                ConnectionQuality::Poor => "red"@,
            }),
    {
        match self {
            ConnectionQuality::Good => "green",
            ConnectionQuality::Fair => "yellow",
            ConnectionQuality::Poor => "red",
        }
    }

    pub fn symbol(&self) -> (s: &'static str)
        ensures
            s@ == (match *self {
                ConnectionQuality::Good => "●"@,
                ConnectionQuality::Fair => "◐"@,
                ConnectionQuality::Poor => "○"@,
            }),
    {
        match self {
            ConnectionQuality::Good => "●",
            ConnectionQuality::Fair => "◐",
            ConnectionQuality::Poor => "○",
        }
    }
}

impl PingStats {
    /// Classify the current connection quality from the windowed loss and
    /// the mean round-trip time.
    pub fn connection_quality(&self) -> (q: ConnectionQuality)
        ensures
            q == quality_of(self@),
    {
        let (successful, total) = self.recent_counts(QUALITY_WINDOW);
        let lost = total - successful;
        let rtt = self.rtt_stats();
        proof {
            lemma_count_success_bounds(recent_window(self@.history, QUALITY_WINDOW as int));
        }
        if lost * 10 > total || rtt.avg > 500000 {
            ConnectionQuality::Poor
        } else if lost * 50 > total || rtt.avg > 100000 {
            ConnectionQuality::Fair
        } else {
            ConnectionQuality::Good
        }
    }

    /// The most recent `count` outcomes, newest first.
    pub fn recent_results(&self, count: usize) -> (r: Vec<&PingResult>)
        ensures
            r@.len() == (if count as int <= self@.history.len() {
                count as int
            } else {
                self@.history.len() as int
            }),
            forall|i: int|
                0 <= i < r@.len() ==> r@[i]@ == self@.history[self@.history.len() - 1 - i],
    {
        let len = self.history.len();
        let w = if count < len {
            count
        } else {
            len
        };
        let mut r: Vec<&PingResult> = Vec::new();
        let mut j: usize = 0;
        while j < w
            invariant
                j <= w <= len,
                len == self.history@.len(),
                r@.len() == j,
                forall|i: int| 0 <= i < j ==> r@[i]@ == self@.history[len - 1 - i],
            decreases w - j,
        {
            r.push(&self.history[len - 1 - j]);
            j = j + 1;
        }
        r
    }

    /// Read-only access to the bounded history, oldest first.
    pub fn history(&self) -> (h: &VecDeque<PingResult>)
        ensures
            h@.len() == self@.history.len(),
            forall|i: int| 0 <= i < h@.len() ==> h@[i]@ == self@.history[i],
    {
        &self.history
    }

    pub fn total_pings(&self) -> (n: u64)
        ensures
            n as nat == self@.total,
    {
        self.total_pings
    }

    pub fn successful_pings(&self) -> (n: u64)
        ensures
            n as nat == self@.successful,
    {
        self.successful_pings
    }

    pub fn timeouts(&self) -> (n: u64)
        ensures
            n as nat == self@.timeouts,
    {
        self.timeouts
    }

    pub fn errors(&self) -> (n: u64)
        ensures
            n as nat == self@.errors,
    {
        self.errors
    }

    /// Sample the history down to `points` graph values: every `step`-th
    /// entry's round-trip time (`None` for unsuccessful entries), padded
    /// with `None` up to `points`.
    pub fn rtt_history_for_graph(&self, points: usize) -> (r: Vec<Option<u32>>)
        requires
            points > 0 || self@.history.len() == 0,
        ensures
            r@.len() == points,
            ({
                let total = self@.history.len() as int;
                let step: int = if total <= points as int {
                    1
                } else {
                    total / (points as int)
                };
                forall|j: int|
                    0 <= j < points ==> r@[j] == (if j * step < total {
                        self@.history[j * step].rtt()
                    } else {
                        Option::<u32>::None
                    })
            }),
    {
        let total = self.history.len();
        let mut out: Vec<Option<u32>> = Vec::new();
        if total == 0 {
            let mut j: usize = 0;
            while j < points
                invariant
                    j <= points,
                    out@.len() == j,
                    forall|t: int| 0 <= t < j ==> out@[t] == Option::<u32>::None,
                decreases points - j,
            {
                out.push(None);
                j = j + 1;
            }
            return out;
        }
        let step = if total <= points {
            1
        } else {
            total / points
        };
        proof {
            if total > points {
                vstd::arithmetic::div_mod::lemma_div_pos_is_pos(total as int, points as int);
                vstd::arithmetic::div_mod::lemma_div_non_zero(total as int, points as int);
            }
        }
        let last_sample = (total - 1) / step;
        let mut j: usize = 0;
        while j < points
            invariant
                j <= points,
                out@.len() == j,
                step >= 1,
                total == self@.history.len(),
                total == self.history@.len(),
                total >= 1,
                last_sample == (total - 1) as int / step as int,
                step as int == (if total as int <= points as int {
                    1int
                } else {
                    total as int / points as int
                }),
                forall|t: int|
                    0 <= t < j ==> out@[t] == (if t * (step as int) < total as int {
                        self@.history[t * (step as int)].rtt()
                    } else {
                        Option::<u32>::None
                    }),
            decreases points - j,
        {
            if j <= last_sample {
                proof {
                    assert((j as int) * (step as int) <= ((total - 1) as int / step as int) * (
                    step as int)) by (nonlinear_arith)
                        requires
                            0 <= j as int <= (total - 1) as int / step as int,
                            step as int >= 1,
                    ;
                    assert(((total - 1) as int / step as int) * (step as int) <= (total
                        - 1) as int) by (nonlinear_arith)
                        requires
                            step as int >= 1,
                            (total - 1) as int >= 0,
                    ;
                }
                let idx = j * step;
                out.push(self.history[idx].rtt());
            } else {
                proof {
                    assert((j as int) * (step as int) >= total as int) by (nonlinear_arith)
                        requires
                            j as int > (total - 1) as int / step as int,
                            step as int >= 1,
                            total as int >= 1,
                    ;
                }
                out.push(None);
            }
            j = j + 1;
        }
        out
    }
}

impl Clone for PingStats {
    fn clone(&self) -> (res: Self)
        ensures
            res@ == self@,
    {
        let history = self.history.clone();
        proof {
            assert forall|i: int| 0 <= i < self.history@.len() implies history@[i]
                == self.history@[i] by {
                assert(cloned::<PingResult>(self.history@[i], history@[i]));
            }
            assert(history@ =~= self.history@);
        }
        let res = PingStats {
            history,
            max_history: self.max_history,
            total_pings: self.total_pings,
            successful_pings: self.successful_pings,
            timeouts: self.timeouts,
            errors: self.errors,
        };
        proof {
            assert(res@ =~= self@);
        }
        res
    }
}

/// The tracker view that results from recording `outcomes` in order into a
/// fresh tracker of capacity `cap`.
pub open spec fn replay(cap: nat, outcomes: Seq<Outcome>) -> StatsView
    decreases outcomes.len(),
{
    if outcomes.len() == 0 {
        fresh_stats(cap)
    } else {
        record_step(replay(cap, outcomes.drop_last()), outcomes.last())
    }
}

/// Law: after any sequence of recorded outcomes, the lifetime total equals
/// the number of outcomes and splits exactly into the successful, timed-out
/// and errored counters.
pub proof fn lemma_counters_balance(cap: nat, outcomes: Seq<Outcome>)
    ensures
        replay(cap, outcomes).total == outcomes.len(),
        replay(cap, outcomes).successful == count_success(outcomes),
        replay(cap, outcomes).timeouts == count_timeout(outcomes),
        replay(cap, outcomes).errors == count_error(outcomes),
        replay(cap, outcomes).successful + replay(cap, outcomes).timeouts + replay(
            cap,
            outcomes,
        ).errors == replay(cap, outcomes).total,
    decreases outcomes.len(),
{
    if outcomes.len() > 0 {
        lemma_counters_balance(cap, outcomes.drop_last());
    }
}

/// Law: the history never exceeds the configured capacity `cap` and holds
/// exactly the most recent outcomes, in recording order: after `cap + k`
/// records the `k` oldest have been evicted.
pub proof fn lemma_history_window(cap: nat, outcomes: Seq<Outcome>)
    ensures
        replay(cap, outcomes).max_history == cap,
        replay(cap, outcomes).history.len() <= cap,
        replay(cap, outcomes).history == outcomes.skip(
            if outcomes.len() <= cap {
                0
            } else {
                outcomes.len() - cap
            },
        ),
    decreases outcomes.len(),
{
    let n = outcomes.len() as int;
    if n > 0 {
        let prior = outcomes.drop_last();
        lemma_history_window(cap, prior);
        let prev = replay(cap, prior);
        let cur = replay(cap, outcomes);
        if cap == 0 {
            assert(cur.history =~= outcomes.skip(n));
        } else if n - 1 < cap {
            assert(prev.history =~= prior);
            assert(cur.history =~= outcomes.skip(0));
        } else {
            assert(prev.history =~= prior.skip(n - 1 - cap));
            assert(prev.history.len() == cap);
            assert(cur.history =~= outcomes.skip(n - cap));
        }
    } else {
        assert(replay(cap, outcomes).history =~= outcomes.skip(0));
    }
}

} // verus!
