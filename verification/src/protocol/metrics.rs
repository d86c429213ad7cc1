//! Latency metrics: three counters and a bounded ring of round-trip times.
//!
//! Every duration and clock reading is a number of nanoseconds.

use std::collections::VecDeque;
use vstd::prelude::*;
use vstd::relations::sorted_by;
use vstd::relations::total_ordering;
use vstd::seq_lib::lemma_sorted_unique;

verus! {

/// The largest round-trip time, squared.
pub open spec fn max_square() -> int {
    0xFFFF_FFFF_FFFF_FFFFint * 0xFFFF_FFFF_FFFF_FFFFint
}

/// The order in which samples are ranked.
pub open spec fn ascending() -> spec_fn(u64, u64) -> bool {
    |a: u64, b: u64| a <= b
}

/// The samples in ascending order.
pub open spec fn ranked(s: Seq<u64>) -> Seq<u64> {
    s.sort_by(ascending())
}

/// Sum of the first `k` samples.
pub open spec fn sum_to(s: Seq<u64>, k: int) -> int
    decreases k,
{
    if k <= 0 {
        0
    } else {
        sum_to(s, k - 1) + s[k - 1]
    }
}

/// Sum of the squared distances of the first `k` samples from `mean`.
pub open spec fn square_dev_to(s: Seq<u64>, mean: int, k: int) -> int
    decreases k,
{
    if k <= 0 {
        0
    } else {
        square_dev_to(s, mean, k - 1) + (s[k - 1] - mean) * (s[k - 1] - mean)
    }
}

/// The arithmetic mean of a non-empty sequence, rounded down.
pub open spec fn mean_of(s: Seq<u64>) -> int {
    sum_to(s, s.len() as int) / (s.len() as int)
}

/// The population variance around the rounded mean, rounded down.
pub open spec fn variance_of(s: Seq<u64>) -> int {
    square_dev_to(s, mean_of(s), s.len() as int) / (s.len() as int)
}

/// `r` is the square root of `v`, rounded down.
pub open spec fn is_floor_sqrt(r: int, v: int) -> bool {
    0 <= r && r * r <= v && v < (r + 1) * (r + 1)
}

/// The rank that a percentile reads in `n` ranked samples: `n * pct / 100`
/// rounded down, and at most `n - 1`.
pub open spec fn percentile_rank(n: int, pct: int) -> int {
    let i = n * pct / 100;
    if i > n - 1 {
        n - 1
    } else {
        i
    }
}

/// What the ring holds after one more sample, with room for `cap` samples.
pub open spec fn ring_after(ring: Seq<u64>, cap: int, rtt: u64) -> Seq<u64> {
    if ring.len() >= cap && ring.len() > 0 {
        ring.subrange(1, ring.len() as int).push(rtt)
    } else {
        ring.push(rtt)
    }
}

/// A counter after one more event; it stays at the largest value once there.
pub open spec fn bumped(c: u64) -> u64 {
    if c < u64::MAX {
        (c + 1) as u64
    } else {
        c
    }
}

/// A summary of the samples in the ring.
#[derive(Debug, Clone, Copy)]
pub struct LatencyStats {
    pub min: u64,
    pub max: u64,
    pub mean: u64,
    pub p50: u64,
    pub p95: u64,
    pub p99: u64,
    pub jitter: u64,
    pub sample_count: usize,
}

impl LatencyStats {
    /// This summary is the one of the non-empty sample sequence `s`.
    pub open spec fn summarizes(&self, s: Seq<u64>) -> bool {
        let n = s.len() as int;
        let r = ranked(s);
        &&& self.sample_count == n
        &&& self.min == r[0]
        &&& self.max == r[n - 1]
        &&& self.mean == mean_of(s)
        &&& self.p50 == r[n / 2]
        &&& self.p95 == r[percentile_rank(n, 95)]
        &&& self.p99 == r[percentile_rank(n, 99)]
        &&& is_floor_sqrt(self.jitter as int, variance_of(s))
    }

    /// One line of text with every field, each duration in nanoseconds.
    pub fn describe(&self) -> (text: String)
        ensures
            text@ == self.text(),
    {
        let mut text = String::from_str("RTT: min=");
        append_decimal(&mut text, self.min);
        text.append("ns max=");
        append_decimal(&mut text, self.max);
        text.append("ns mean=");
        append_decimal(&mut text, self.mean);
        text.append("ns p50=");
        append_decimal(&mut text, self.p50);
        text.append("ns p95=");
        append_decimal(&mut text, self.p95);
        text.append("ns p99=");
        append_decimal(&mut text, self.p99);
        text.append("ns jitter=");
        append_decimal(&mut text, self.jitter);
        text.append("ns (n=");
        append_decimal(&mut text, self.sample_count as u64);
        text.append(")");
        text
    }

    /// The line that describes the summary: each field by its name and its
    /// decimal digits, the durations with their unit.
    pub open spec fn text(&self) -> Seq<char> {
        "RTT: min="@ + decimal(self.min as nat)
            + "ns max="@ + decimal(self.max as nat)
            + "ns mean="@ + decimal(self.mean as nat)
            + "ns p50="@ + decimal(self.p50 as nat)
            + "ns p95="@ + decimal(self.p95 as nat)
            + "ns p99="@ + decimal(self.p99 as nat)
            + "ns jitter="@ + decimal(self.jitter as nat)
            + "ns (n="@ + decimal(self.sample_count as nat) + ")"@
    }
}

/// The decimal digit for `d`, which is below ten.
pub open spec fn digit_char(d: int) -> char {
    if d == 0 {
        '0'
    } else if d == 1 {
        '1'
    } else if d == 2 {
        '2'
    } else if d == 3 {
        '3'
    } else if d == 4 {
        '4'
    } else if d == 5 {
        '5'
    } else if d == 6 {
        '6'
    } else if d == 7 {
        '7'
    } else if d == 8 {
        '8'
    } else {
        '9'
    }
}

/// The decimal digits of `n`, most significant first, without leading
/// zeros.
pub open spec fn decimal(n: nat) -> Seq<char>
    decreases n,
{
    if n < 10 {
        seq![digit_char(n as int)]
    } else {
        decimal(n / 10).push(digit_char((n % 10) as int))
    }
}

/// The text of one decimal digit.
fn digit_text(d: u64) -> (t: &'static str)
    requires
        d < 10,
    ensures
        t@ == seq![digit_char(d as int)],
{
    if d == 0 {
        proof {
            reveal_strlit("0");
            assert("0"@ =~= seq!['0']);
        }
        "0"
    } else if d == 1 {
        proof {
            reveal_strlit("1");
            assert("1"@ =~= seq!['1']);
        }
        "1"
    } else if d == 2 {
        proof {
            reveal_strlit("2");
            assert("2"@ =~= seq!['2']);
        }
        "2"
    } else if d == 3 {
        proof {
            reveal_strlit("3");
            assert("3"@ =~= seq!['3']);
        }
        "3"
    } else if d == 4 {
        proof {
            reveal_strlit("4");
            assert("4"@ =~= seq!['4']);
        }
        "4"
    } else if d == 5 {
        proof {
            reveal_strlit("5");
            assert("5"@ =~= seq!['5']);
        }
        "5"
    } else if d == 6 {
        proof {
            reveal_strlit("6");
            assert("6"@ =~= seq!['6']);
        }
        "6"
    } else if d == 7 {
        proof {
            reveal_strlit("7");
            assert("7"@ =~= seq!['7']);
        }
        "7"
    } else if d == 8 {
        proof {
            reveal_strlit("8");
            assert("8"@ =~= seq!['8']);
        }
        "8"
    } else {
        proof {
            reveal_strlit("9");
            assert("9"@ =~= seq!['9']);
        }
        "9"
    }
}

/// Appends the decimal digits of `n` to `text`.
pub fn append_decimal(text: &mut String, n: u64)
    ensures
        final(text)@ == old(text)@ + decimal(n as nat),
    decreases n,
{
    if n >= 10 {
        append_decimal(text, n / 10);
    }
    text.append(digit_text(n % 10));
    proof {
        if n >= 10 {
            assert(final(text)@ =~= old(text)@ + decimal((n / 10) as nat).push(
                digit_char((n % 10) as int),
            ));
        }
    }
}

/// Counters and recent round-trip times of one node.
pub struct LatencyMetrics {
    pub samples: VecDeque<u64>,
    pub max_samples: usize,
    pub start_time: u64,
    pub pings_sent: u64,
    pub acks_received: u64,
    pub timeouts: u64,
}

/// std's `sort` on a vector of integers: the same values, in ascending order.
#[verifier::external_body]
fn sort_ascending(v: &mut Vec<u64>)
    ensures
        final(v)@.to_multiset() == old(v)@.to_multiset(),
        forall|i: int, j: int| 0 <= i < j < final(v)@.len() ==> final(v)@[i] <= final(v)@[j],
{
    v.sort();
}

proof fn lemma_ascending_total()
    ensures
        total_ordering(ascending()),
{
}

proof fn lemma_sum_bound(s: Seq<u64>, k: int)
    requires
        0 <= k <= s.len(),
    ensures
        0 <= sum_to(s, k) <= k * 0xFFFF_FFFF_FFFF_FFFF,
    decreases k,
{
    if k > 0 {
        lemma_sum_bound(s, k - 1);
        assert((k - 1) * 0xFFFF_FFFF_FFFF_FFFF + 0xFFFF_FFFF_FFFF_FFFF == k
            * 0xFFFF_FFFF_FFFF_FFFF) by (nonlinear_arith);
    }
}

proof fn lemma_square_bound(d: int)
    requires
        0 <= d <= 0xFFFF_FFFF_FFFF_FFFF,
    ensures
        0 <= d * d <= max_square(),
        max_square() < 0x1_0000_0000_0000_0000_0000_0000_0000_0000,
{
    assert(0 <= d * d <= 0xFFFF_FFFF_FFFF_FFFF * 0xFFFF_FFFF_FFFF_FFFF) by (nonlinear_arith)
        requires
            0 <= d <= 0xFFFF_FFFF_FFFF_FFFF,
    ;
    assert(0xFFFF_FFFF_FFFF_FFFF * 0xFFFF_FFFF_FFFF_FFFF
        < 0x1_0000_0000_0000_0000_0000_0000_0000_0000) by (nonlinear_arith);
}

/// A quotient and remainder of `total` by `n` determine `total / n`.
proof fn lemma_quotient(total: int, n: int, q: int, r: int)
    requires
        n > 0,
        0 <= r < n,
        q * n + r == total,
    ensures
        total / n == q,
{
    assert(total / n == q) by (nonlinear_arith)
        requires
            n > 0,
            0 <= r < n,
            q * n + r == total,
    ;
}

/// A quotient is at most `bound` when the dividend is at most `n * bound`.
proof fn lemma_quotient_bound(q: int, n: int, total: int, bound: int)
    requires
        n > 0,
        q * n <= total,
        total <= n * bound,
    ensures
        q <= bound,
{
    assert(q <= bound) by (nonlinear_arith)
        requires
            n > 0,
            q * n <= total,
            total <= n * bound,
    ;
}

/// The mean of a non-empty vector of samples, rounded down.
fn mean_nanos(v: &Vec<u64>) -> (m: u64)
    requires
        v.len() > 0,
    ensures
        m == mean_of(v@),
{
    let mut sum: u128 = 0;
    let mut i: usize = 0;
    while i < v.len()
        invariant
            i <= v.len(),
            sum == sum_to(v@, i as int),
        decreases v.len() - i,
    {
        proof {
            lemma_sum_bound(v@, i as int);
            assert(i * 0xFFFF_FFFF_FFFF_FFFF <= 0xFFFF_FFFF_FFFF_FFFF * 0xFFFF_FFFF_FFFF_FFFF)
                by (nonlinear_arith)
                requires
                    0 <= i <= 0xFFFF_FFFF_FFFF_FFFF,
            ;
            lemma_square_bound(0);
        }
        sum = sum + v[i] as u128;
        i += 1;
    }
    let n: u128 = v.len() as u128;
    let m: u128 = sum / n;
    proof {
        lemma_sum_bound(v@, v.len() as int);
        assert(m * n <= sum) by (nonlinear_arith)
            requires
                n > 0,
                m == sum / n,
        ;
        lemma_quotient_bound(m as int, n as int, sum as int, 0xFFFF_FFFF_FFFF_FFFF);
    }
    m as u64
}

/// The population variance of a non-empty vector around `mean`, rounded down.
fn variance_nanos(v: &Vec<u64>, mean: u64) -> (q: u128)
    requires
        v.len() > 0,
    ensures
        q == square_dev_to(v@, mean as int, v.len() as int) / (v.len() as int),
        q <= max_square(),
{
    let n: u128 = v.len() as u128;
    let mut q: u128 = 0;
    let mut r: u128 = 0;
    let mut i: usize = 0;
    while i < v.len()
        invariant
            n == v.len(),
            n > 0,
            i <= v.len(),
            r < n,
            q * n + r == square_dev_to(v@, mean as int, i as int),
            square_dev_to(v@, mean as int, i as int) <= i * max_square(),
        decreases v.len() - i,
    {
        let x: u64 = v[i];
        let d: u64 = if x >= mean { x - mean } else { mean - x };
        proof {
            lemma_square_bound(d as int);
            assert((x - mean) * (x - mean) == d * d) by (nonlinear_arith)
                requires
                    d == x - mean || d == mean - x,
            ;
        }
        let t: u128 = (d as u128) * (d as u128);
        let tq: u128 = t / n;
        let tr: u128 = t % n;
        proof {
            let total = square_dev_to(v@, mean as int, i as int) + t;
            assert(total == square_dev_to(v@, mean as int, i + 1));
            assert(tq * n + tr == t) by (nonlinear_arith)
                requires
                    n > 0,
                    tq == t / n,
                    tr == t % n,
            ;
            assert((i + 1) * max_square() == i * max_square() + max_square())
                by (nonlinear_arith);
            assert((i + 1) * max_square() <= n * max_square()) by (nonlinear_arith)
                requires
                    i + 1 <= n,
            ;
            assert((q + tq) * n + (r + tr) == total) by (nonlinear_arith)
                requires
                    q * n + r + tq * n + tr == total,
            ;
            assert((q + tq + 1) * n + (r + tr - n) == total) by (nonlinear_arith)
                requires
                    (q + tq) * n + (r + tr) == total,
            ;
            if r + tr >= n {
                lemma_quotient_bound(q + tq + 1, n as int, total, max_square());
            } else {
                lemma_quotient_bound(q + tq, n as int, total, max_square());
            }
        }
        if r + tr >= n {
            q = q + tq + 1;
            r = r + tr - n;
        } else {
            q = q + tq;
            r = r + tr;
        }
        i += 1;
    }
    proof {
        let total = square_dev_to(v@, mean as int, v.len() as int);
        lemma_quotient(total, n as int, q as int, r as int);
        assert(v.len() * max_square() == n * max_square());
        lemma_quotient_bound(q as int, n as int, total, max_square());
    }
    q
}

/// The square root of `v`, rounded down.
pub fn floor_sqrt(v: u128) -> (r: u64)
    ensures
        is_floor_sqrt(r as int, v as int),
{
    let mut lo: u128 = 0;
    let mut hi: u128 = 0x1_0000_0000_0000_0000;
    proof {
        assert(0x1_0000_0000_0000_0000int * 0x1_0000_0000_0000_0000int
            == 0x1_0000_0000_0000_0000_0000_0000_0000_0000int) by (nonlinear_arith);
    }
    while hi - lo > 1
        invariant
            lo < hi <= 0x1_0000_0000_0000_0000,
            lo * lo <= v,
            v < hi * hi,
        decreases hi - lo,
    {
        let mid: u128 = lo + (hi - lo) / 2;
        proof {
            lemma_square_bound(mid as int);
        }
        if mid * mid <= v {
            lo = mid;
        } else {
            hi = mid;
        }
    }
    lo as u64
}

impl LatencyMetrics {
    /// The samples in the ring, oldest first.
    pub open spec fn ring(&self) -> Seq<u64> {
        self.samples@
    }

    /// The number of samples the ring was made for.
    pub open spec fn capacity(&self) -> usize {
        self.max_samples
    }

    /// The clock reading at which the metrics were made.
    pub open spec fn started_at(&self) -> u64 {
        self.start_time
    }

    /// Empty metrics with room for `max_samples` samples, made at `now`.
    pub fn new(max_samples: usize, now: u64) -> (m: Self)
        ensures
            m.ring() == Seq::<u64>::empty(),
            m.capacity() == max_samples,
            m.started_at() == now,
            m.pings_sent == 0,
            m.acks_received == 0,
            m.timeouts == 0,
    {
        Self {
            samples: VecDeque::new(),
            max_samples,
            start_time: now,
            pings_sent: 0,
            acks_received: 0,
            timeouts: 0,
        }
    }

    /// Appends a round-trip time, dropping the oldest sample when the ring
    /// is full, and counts one acknowledgement.
    pub fn record_rtt(&mut self, rtt: u64)
        ensures
            final(self).ring() == ring_after(old(self).ring(), old(self).capacity() as int, rtt),
            final(self).acks_received == bumped(old(self).acks_received),
            final(self).capacity() == old(self).capacity(),
            final(self).started_at() == old(self).started_at(),
            final(self).pings_sent == old(self).pings_sent,
            final(self).timeouts == old(self).timeouts,
    {
        if self.samples.len() >= self.max_samples {
            self.samples.pop_front();
        }
        self.samples.push_back(rtt);
        if self.acks_received < u64::MAX {
            self.acks_received += 1;
        }
    }

    /// Counts one direct ping.
    pub fn record_ping_sent(&mut self)
        ensures
            final(self).pings_sent == bumped(old(self).pings_sent),
            final(self).ring() == old(self).ring(),
            final(self).capacity() == old(self).capacity(),
            final(self).started_at() == old(self).started_at(),
            final(self).acks_received == old(self).acks_received,
            final(self).timeouts == old(self).timeouts,
    {
        if self.pings_sent < u64::MAX {
            self.pings_sent += 1;
        }
    }

    /// Counts one probe that failed for good.
    pub fn record_timeout(&mut self)
        ensures
            final(self).timeouts == bumped(old(self).timeouts),
            final(self).ring() == old(self).ring(),
            final(self).capacity() == old(self).capacity(),
            final(self).started_at() == old(self).started_at(),
            final(self).acks_received == old(self).acks_received,
            final(self).pings_sent == old(self).pings_sent,
    {
        if self.timeouts < u64::MAX {
            self.timeouts += 1;
        }
    }

    /// Time since the metrics were made, zero if `now` lies before that.
    pub fn uptime(&self, now: u64) -> (d: u64)
        ensures
            d == if now >= self.started_at() {
                now - self.started_at()
            } else {
                0
            },
    {
        if now >= self.start_time {
            now - self.start_time
        } else {
            0
        }
    }

    /// The number of samples in the ring.
    pub fn sample_count(&self) -> (n: usize)
        ensures
            n == self.ring().len(),
    {
        self.samples.len()
    }

    /// The samples in the ring, oldest first.
    pub fn raw_samples(&self) -> (v: Vec<u64>)
        ensures
            v@ == self.ring(),
    {
        let mut v: Vec<u64> = Vec::new();
        let mut i: usize = 0;
        while i < self.samples.len()
            invariant
                i <= self.samples.len(),
                v@ == self.samples@.subrange(0, i as int),
            decreases self.samples.len() - i,
        {
            v.push(self.samples[i]);
            proof {
                assert(v@ =~= self.samples@.subrange(0, i + 1));
            }
            i += 1;
        }
        proof {
            assert(v@ =~= self.samples@);
        }
        v
    }

    /// Minimum, maximum, mean, percentiles and jitter of the samples in the
    /// ring; `None` when the ring is empty.
    pub fn stats(&self) -> (r: Option<LatencyStats>)
        ensures
            self.ring().len() == 0 <==> r is None,
            r matches Some(s) ==> s.summarizes(self.ring()),
    {
        if self.samples.len() == 0 {
            return None;
        }
        let raw = self.raw_samples();
        let mut sorted = self.raw_samples();
        sort_ascending(&mut sorted);
        proof {
            lemma_ascending_total();
            raw@.lemma_sort_by_ensures(ascending());
            assert(sorted_by(sorted@, ascending()));
            lemma_sorted_unique(sorted@, ranked(raw@), ascending());
            sorted@.to_multiset_ensures();
            raw@.to_multiset_ensures();
        }
        let count: usize = sorted.len();
        let mean = mean_nanos(&raw);
        let variance = variance_nanos(&raw, mean);
        let jitter = floor_sqrt(variance);
        let p95 = sorted[percentile_index(count, 95)];
        let p99 = sorted[percentile_index(count, 99)];
        Some(
            LatencyStats {
                min: sorted[0],
                max: sorted[count - 1],
                mean,
                p50: sorted[count / 2],
                p95,
                p99,
                jitter,
                sample_count: count,
            },
        )
    }
}

/// The rank that the percentile `pct` reads among `n` ranked samples.
pub fn percentile_index(n: usize, pct: u8) -> (i: usize)
    requires
        n > 0,
    ensures
        i == percentile_rank(n as int, pct as int),
        i < n,
{
    proof {
        assert(n * pct <= 0xFFFF_FFFF_FFFF_FFFF * 255) by (nonlinear_arith)
            requires
                0 <= n <= 0xFFFF_FFFF_FFFF_FFFF,
                0 <= pct <= 255,
        ;
    }
    let wide: u128 = (n as u128) * (pct as u128) / 100;
    if wide > (n - 1) as u128 {
        n - 1
    } else {
        wide as usize
    }
}


/// The minimum and the maximum of a summary are samples, no sample lies
/// outside them, and the percentiles lie between them in their order.
pub proof fn lemma_summary_bounds(s: Seq<u64>, st: LatencyStats)
    requires
        s.len() > 0,
        st.summarizes(s),
    ensures
        s.contains(st.min),
        s.contains(st.max),
        forall|i: int| 0 <= i < s.len() ==> st.min <= #[trigger] s[i] <= st.max,
        st.min <= st.p50 <= st.p95 <= st.p99 <= st.max,
{
    let r = ranked(s);
    let n = s.len() as int;
    lemma_ascending_total();
    s.lemma_sort_by_ensures(ascending());
    s.to_multiset_ensures();
    r.to_multiset_ensures();
    assert(r.len() == n);
    assert forall|a: int, b: int| 0 <= a <= b < n implies r[a] <= r[b] by {
        if a < b {
            assert(ascending()(r[a], r[b]));
        }
    }
    assert(r.contains(r[0]));
    assert(r.contains(r[n - 1]));
    assert(s.to_multiset().contains(r[0]));
    assert(s.to_multiset().contains(r[n - 1]));
    assert forall|i: int| 0 <= i < n implies st.min <= #[trigger] s[i] <= st.max by {
        assert(s.contains(s[i]));
        assert(r.to_multiset().contains(s[i]));
        assert(r.contains(s[i]));
        let j = choose|j: int| 0 <= j < r.len() && r[j] == s[i];
        assert(r[0] <= r[j] <= r[n - 1]);
    }
    assert(0 <= n / 2 <= percentile_rank(n, 95) <= percentile_rank(n, 99) <= n - 1);
}


/// The room that a ring made for `cap` samples has: one made for none
/// still holds the latest sample.
pub open spec fn room(cap: int) -> int {
    if cap > 0 {
        cap
    } else {
        1
    }
}

/// A ring within its room stays within it; the new sample is its last,
/// and the samples before it are the old ones without the oldest when the
/// ring was full.
pub proof fn lemma_ring_bounded(ring: Seq<u64>, cap: int, rtt: u64)
    requires
        cap >= 0,
        ring.len() <= room(cap),
    ensures
        ring_after(ring, cap, rtt).len() <= room(cap),
        ring_after(ring, cap, rtt).last() == rtt,
        ring.len() < cap ==> ring_after(ring, cap, rtt) == ring.push(rtt),
        ring.len() == cap && cap > 0 ==> ring_after(ring, cap, rtt).len() == cap && forall|i: int|
            0 <= i < cap - 1 ==> ring_after(ring, cap, rtt)[i] == ring[i + 1],
{
}

} // verus!
