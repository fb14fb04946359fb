//! Per-path latency estimation and path ranking.
//!
//! A `Stat` estimates one path's round-trip latency from local send and
//! receive timestamps alone. A `Rank` turns the latencies of all paths into a
//! probability distribution: the weight of path `i` is the rational
//! `values[i] / total`, where `values[i]` is path `i`'s latency floored at one
//! millisecond and `total` is the sum of all the floored latencies. Higher
//! latency therefore means higher weight: the weighted sampler
//! (`choose_exploit`) probabilistically targets the paths whose estimate most
//! needs a refresh, while the uniform sampler (`choose_explore`) covers the
//! rest, and the sender transmits on both picks when both fire.
//!
//! All weights are exact integers, so the distribution sums to one exactly:
//! the numerators sum to the denominator.

use vstd::prelude::*;

verus! {

/// Floor for every latency estimate, in nanoseconds: one millisecond. Keeps
/// every rank weight positive.
pub const EPSILON_LATENCY_NS: u64 = 1_000_000;

/// How long a rank distribution is reused before it may be recomputed, in
/// nanoseconds: one second.
pub const RANK_UPDATE_COOL_DOWN_NS: u64 = 1_000_000_000;

/// Probability, in thousandths, that `choose_explore` skips exploration.
pub const EXPLORE_SKIP_PER_MILLE: u64 = 300;

/// Denominator of the `choose_explore` draw.
pub const PER_MILLE: u64 = 1000;

/// Relies on `rand::Rng::gen_range` on a `Range<u64>`: the result lies in the
/// half-open range. The call panics on an empty range, which the
/// precondition rules out.
#[verifier::external_body]
fn rand_range_u64(lo: u64, hi: u64) -> (r: u64)
    requires
        lo < hi,
    ensures
        lo <= r < hi,
{
    rand::Rng::gen_range(&mut rand::thread_rng(), lo..hi)
}

/// Relies on `rand::Rng::gen_range` on a `Range<u128>`: the result lies in
/// the half-open range. The call panics on an empty range, which the
/// precondition rules out.
#[verifier::external_body]
fn rand_range_u128(lo: u128, hi: u128) -> (r: u128)
    requires
        lo < hi,
    ensures
        lo <= r < hi,
{
    rand::Rng::gen_range(&mut rand::thread_rng(), lo..hi)
}

/// One path's latency estimator. Timestamps are nanosecond counts on the
/// monotonic clock; callers pass `now` values that never decrease.
#[derive(Debug, Clone, Copy, PartialEq, Eq, Structural)]
pub struct Stat {
    /// Time of the most recent transmit on this path.
    pub last_sent_start: u64,
    /// Time of the most recent receive on this path.
    pub last_recv: u64,
    /// Latency sample taken when a receive closed the previous send-receive
    /// gap, in nanoseconds.
    pub prev_latency: u64,
}

/// The latency estimate before the one-millisecond floor: the closed gap if a
/// receive has arrived since the last send, else the larger of the previous
/// sample and the still-open gap, which grows while the path stays silent.
pub open spec fn spec_raw_latency(s: Stat, now: u64) -> int
    recommends
        now >= s.last_sent_start,
{
    if s.last_sent_start < s.last_recv {
        s.last_recv - s.last_sent_start
    } else if s.prev_latency >= now - s.last_sent_start {
        s.prev_latency as int
    } else {
        now - s.last_sent_start
    }
}

/// The latency estimate: the raw estimate, floored at one millisecond.
pub open spec fn spec_latency(s: Stat, now: u64) -> int
    recommends
        now >= s.last_sent_start,
{
    if spec_raw_latency(s, now) >= EPSILON_LATENCY_NS {
        spec_raw_latency(s, now)
    } else {
        EPSILON_LATENCY_NS as int
    }
}

/// The state after recording a transmit at `now`: if the previous exchange
/// has closed, the closed gap becomes the latency sample and the send clock
/// restarts; if a send is still outstanding, nothing changes, so the open
/// gap keeps growing from the first unanswered send.
pub open spec fn spec_sent(s: Stat, now: u64) -> Stat {
    if s.last_recv < s.last_sent_start {
        s
    } else {
        Stat {
            last_sent_start: now,
            last_recv: s.last_recv,
            prev_latency: (s.last_recv - s.last_sent_start) as u64,
        }
    }
}

impl Stat {
    pub fn new(now: u64) -> (s: Stat)
        ensures
            s == (Stat { last_sent_start: now, last_recv: now, prev_latency: 0u64 }),
    {
        Stat { last_sent_start: now, last_recv: now, prev_latency: 0 }
    }

    /// The current latency estimate. Never below the one-millisecond floor,
    /// whatever the path's history.
    pub fn latency(&self, now: u64) -> (r: u64)
        requires
            now >= self.last_sent_start,
        ensures
            r == spec_latency(*self, now),
            r >= EPSILON_LATENCY_NS,
    {
        let raw: u64 = if self.last_sent_start < self.last_recv {
            self.last_recv - self.last_sent_start
        } else {
            let gap = now - self.last_sent_start;
            if self.prev_latency >= gap {
                self.prev_latency
            } else {
                gap
            }
        };
        if raw >= EPSILON_LATENCY_NS {
            raw
        } else {
            EPSILON_LATENCY_NS
        }
    }

    /// Records a transmit at `now`.
    pub fn sent(&mut self, now: u64)
        requires
            now >= old(self).last_sent_start,
            now >= old(self).last_recv,
        ensures
            *final(self) == spec_sent(*old(self), now),
    {
        if self.last_recv < self.last_sent_start {
            return ;
        }
        self.prev_latency = self.last_recv - self.last_sent_start;
        self.last_sent_start = now;
    }

    /// Records a receive at `now`.
    pub fn recv(&mut self, now: u64)
        ensures
            *final(self) == (Stat {
                last_sent_start: old(self).last_sent_start,
                last_recv: now,
                prev_latency: old(self).prev_latency,
            }),
    {
        self.last_recv = now;
    }
}

/// The latency estimate of every path, each one at least the floor: these are
/// the weight numerators of the rank distribution.
pub open spec fn rank_weights(stats: Seq<Stat>, now: u64) -> Seq<u64> {
    stats.map(|i: int, s: Stat| spec_latency(s, now) as u64)
}

/// Sum of a weight vector.
pub open spec fn sum_weights(s: Seq<u64>) -> int
    decreases s.len(),
{
    if s.len() == 0 {
        0
    } else {
        sum_weights(s.drop_last()) + s.last()
    }
}

/// Sum of the first `n` weights.
pub open spec fn prefix_sum(s: Seq<u64>, n: int) -> int
    recommends
        0 <= n <= s.len(),
{
    sum_weights(s.take(n))
}

/// If every weight is at least `b`, the sum is at least `len * b`.
pub proof fn lemma_sum_weights_lower_bound(s: Seq<u64>, b: u64)
    requires
        forall|i: int| 0 <= i < s.len() ==> s[i] >= b,
    ensures
        sum_weights(s) >= s.len() * b,
    decreases s.len(),
{
    if s.len() == 0 {
    } else {
        lemma_sum_weights_lower_bound(s.drop_last(), b);
        assert(s.len() * b == (s.len() - 1) * b + b) by (nonlinear_arith);
    }
}

pub proof fn lemma_prefix_sum_step(s: Seq<u64>, n: int)
    requires
        0 <= n < s.len(),
    ensures
        prefix_sum(s, n + 1) == prefix_sum(s, n) + s[n],
    decreases s.len(),
{
    assert(s.take(n + 1).drop_last() =~= s.take(n));
    assert(s.take(n + 1).last() == s[n]);
}

pub proof fn lemma_prefix_sum_full(s: Seq<u64>)
    ensures
        prefix_sum(s, s.len() as int) == sum_weights(s),
{
    assert(s.take(s.len() as int) =~= s);
}

/// The rank distribution over the paths: weight numerators and their sum.
/// The weight of path `i` is the rational `values[i] / total`.
#[derive(Debug, Clone)]
pub struct Rank {
    /// Weight numerators, one per path, each at least one.
    pub values: Vec<u64>,
    /// Sum of the numerators: the common denominator of all the weights.
    pub total: u128,
    /// When the distribution was last computed.
    pub last_update: u64,
}

impl Rank {
    /// The numerators are positive and sum exactly to the denominator: the
    /// weights form a probability distribution that sums to one exactly.
    pub open spec fn wf(self) -> bool {
        &&& self.total == sum_weights(self.values@)
        &&& forall|i: int| 0 <= i < self.values@.len() ==> self.values@[i] >= 1
    }

    /// A uniform distribution over `n` paths: every numerator is one.
    pub fn new(n: usize, now: u64) -> (r: Rank)
        ensures
            r.wf(),
            r.values@.len() == n,
            forall|i: int| 0 <= i < n ==> r.values@[i] == 1u64,
            r.last_update == now,
    {
        let mut values: Vec<u64> = Vec::new();
        let mut i: usize = 0;
        while i < n
            invariant
                i <= n,
                values@.len() == i,
                forall|j: int| 0 <= j < i ==> values@[j] == 1u64,
                sum_weights(values@) == i,
            decreases n - i,
        {
            let ghost prev = values@;
            values.push(1);
            proof {
                assert(values@.drop_last() =~= prev);
            }
            i += 1;
        }
        Rank { values, total: n as u128, last_update: now }
    }

    /// Whether the cool-down has elapsed and the distribution may be
    /// recomputed.
    pub fn needs_update(&self, now: u64) -> (r: bool)
        requires
            now >= self.last_update,
        ensures
            r == (now - self.last_update > RANK_UPDATE_COOL_DOWN_NS),
    {
        now - self.last_update > RANK_UPDATE_COOL_DOWN_NS
    }

    /// Recomputes the distribution from the given path stats: each path's
    /// weight numerator becomes its floored latency, the denominator their
    /// sum.
    pub fn update_rank(&mut self, stats: &Vec<Stat>, now: u64)
        requires
            forall|i: int| 0 <= i < stats@.len() ==> now >= stats@[i].last_sent_start,
        ensures
            final(self).values@ == rank_weights(stats@, now),
            final(self).wf(),
            final(self).values@.len() == stats@.len(),
            final(self).last_update == now,
    {
        let ghost target = rank_weights(stats@, now);
        let mut values: Vec<u64> = Vec::new();
        let mut total: u128 = 0;
        let mut i: usize = 0;
        while i < stats.len()
            invariant
                i <= stats@.len(),
                forall|k: int| 0 <= k < stats@.len() ==> now >= stats@[k].last_sent_start,
                target == rank_weights(stats@, now),
                values@ =~= target.take(i as int),
                total == sum_weights(values@),
                total <= i * (u64::MAX as int),
                forall|j: int| 0 <= j < i ==> values@[j] >= 1,
            decreases stats@.len() - i,
        {
            let lat = stats[i].latency(now);
            let ghost prev = values@;
            proof {
                assert(i * (u64::MAX as int) + (u64::MAX as int) == (i + 1) * (u64::MAX as int))
                    by (nonlinear_arith);
                assert((i + 1) * (u64::MAX as int) <= (u64::MAX as int) * (u64::MAX as int)) by (
                nonlinear_arith)
                    requires
                        0 <= i,
                        i + 1 <= u64::MAX as int,
                ;
                assert((u64::MAX as int) * (u64::MAX as int) < u128::MAX as int);
            }
            total = total + lat as u128;
            values.push(lat);
            proof {
                assert(values@.drop_last() =~= prev);
                assert(values@ =~= target.take(i + 1));
            }
            i += 1;
        }
        proof {
            assert(target.take(stats@.len() as int) =~= target);
        }
        self.values = values;
        self.total = total;
        self.last_update = now;
    }

    /// Samples the weighted distribution: path `i` is returned with
    /// probability `values[i] / total`. Returns `None` exactly when there are
    /// no paths; a returned index always has positive weight.
    pub fn choose_exploit(&self) -> (r: Option<usize>)
        requires
            self.wf(),
        ensures
            (r is None) <==> self.values@.len() == 0,
            r matches Some(i) ==> i < self.values@.len() && self.values@[i as int] >= 1,
    {
        if self.values.len() == 0 {
            return None;
        }
        proof {
            lemma_sum_weights_lower_bound(self.values@, 1);
        }
        let draw = rand_range_u128(0, self.total);
        Some(pick_index(&self.values, draw))
    }

    /// Uniformly samples a path other than `except`, or skips the tick.
    /// Returns `None` when the draw says to skip, and always when `except` is
    /// the only path.
    pub fn choose_explore(&self, except: usize) -> (r: Option<usize>)
        requires
            except < self.values@.len(),
        ensures
            r matches Some(j) ==> j < self.values@.len() && j != except,
            self.values@.len() == 1 ==> r is None,
    {
        let n = self.values.len();
        if n < 2 {
            return None;
        }
        let p = rand_range_u64(0, PER_MILLE);
        if p < EXPLORE_SKIP_PER_MILLE {
            return None;
        }
        let draw = rand_range_u64(0, (n - 1) as u64);
        Some(pick_other(n, except, draw as usize))
    }
}

/// The deterministic half of the weighted sample: returns the index whose
/// cumulative weight interval contains `draw`.
pub fn pick_index(values: &Vec<u64>, draw: u128) -> (i: usize)
    requires
        values@.len() > 0,
        draw < sum_weights(values@),
    ensures
        i < values@.len(),
        prefix_sum(values@, i as int) <= draw < prefix_sum(values@, i + 1),
{
    let ghost s = values@;
    let mut remaining = draw;
    let mut i: usize = 0;
    proof {
        lemma_prefix_sum_full(s);
    }
    while i < values.len()
        invariant
            0 <= i <= s.len(),
            s == values@,
            draw < sum_weights(s),
            prefix_sum(s, s.len() as int) == sum_weights(s),
            prefix_sum(s, i as int) <= draw,
            remaining == draw - prefix_sum(s, i as int),
        decreases s.len() - i,
    {
        let v = values[i];
        proof {
            lemma_prefix_sum_step(s, i as int);
        }
        if remaining < v as u128 {
            return i;
        }
        remaining = remaining - v as u128;
        i += 1;
    }
    proof {
        assert(false);
    }
    0
}

/// The deterministic half of the uniform sample over `[0, n)` without
/// `except`: maps a draw from `[0, n - 1)` into that set.
pub fn pick_other(n: usize, except: usize, draw: usize) -> (j: usize)
    requires
        except < n,
        draw < n - 1,
    ensures
        j < n,
        j != except,
        j == if draw < except {
            draw as int
        } else {
            draw + 1
        },
{
    if draw < except {
        draw
    } else {
        draw + 1
    }
}

// --- laws -----------------------------------------------------------------

/// After an update the weights form a probability distribution: every weight
/// is positive and the numerators sum exactly to the denominator, so the
/// rational weights sum to one exactly.
pub proof fn lemma_weights_distribution(r: Rank)
    requires
        r.wf(),
    ensures
        sum_weights(r.values@) == r.total,
        forall|i: int| 0 <= i < r.values@.len() ==> r.values@[i] >= 1,
{
}

/// The latency estimate never falls below the one-millisecond floor, at any
/// time from the path's initialisation on.
pub proof fn lemma_latency_floor(s: Stat, now: u64)
    requires
        now >= s.last_sent_start,
    ensures
        spec_latency(s, now) >= EPSILON_LATENCY_NS,
{
}

/// A silent path's estimate only grows: while a send is outstanding and no
/// receive closes it, the latency estimate never falls as time passes, and
/// once the open gap passes both the previous sample and the floor, the
/// estimate is exactly the gap. Its weight under the next update grows with
/// it, so the weighted sampler probes the silent path ever more often while
/// the uniform sampler keeps covering the live ones.
pub proof fn lemma_silent_path_latency_grows(s: Stat, now1: u64, now2: u64)
    requires
        s.last_recv <= s.last_sent_start,
        s.last_sent_start <= now1 <= now2,
    ensures
        spec_latency(s, now1) <= spec_latency(s, now2),
        (now2 - s.last_sent_start >= s.prev_latency && now2 - s.last_sent_start
            >= EPSILON_LATENCY_NS) ==> spec_latency(s, now2) == now2 - s.last_sent_start,
{
}

/// Updating the rank is deterministic in the stats and the time: two updates
/// that see the same stats produce identical weight vectors.
pub proof fn lemma_update_rank_deterministic(a: Rank, b: Rank, stats: Seq<Stat>, now: u64)
    requires
        a.values@ == rank_weights(stats, now),
        b.values@ == rank_weights(stats, now),
    ensures
        a.values@ == b.values@,
{
}

} // verus!
