//! Aggregate metrics of a run: percentiles, fairness, utilization,
//! throughput and waiting time, all in exact integer arithmetic.

use vstd::prelude::*;
use vstd::relations::{sorted_by, total_ordering};
use crate::state::Assignment;

verus! {

/// An exact fraction `num / den`. Where there is nothing to divide by, the
/// fraction is `0 / 1`.
#[derive(Clone, Copy, Debug, PartialEq, Eq, Structural)]
pub struct Ratio {
    pub num: u128,
    pub den: u128,
}

/// The aggregate metrics of a run.
#[derive(Clone, Debug)]
pub struct Metrics {
    /// 95th percentile of the response times, by nearest rank.
    pub p95_response_ms: Option<u64>,
    /// 99th percentile of the response times, by nearest rank.
    pub p99_response_ms: Option<u64>,
    /// Jain's fairness index of the per-server request counts.
    pub fairness: Ratio,
    /// Per server, in input order: the share of the active window spent in
    /// service, in hundredths of a percent.
    pub utilization: Vec<u128>,
    /// Requests per second over the active window.
    pub throughput_rps: Ratio,
    /// Mean time between arrival and start of service, in milliseconds.
    pub avg_wait_ms: Ratio,
}

/// `a <= b` on 64-bit values, as a relation.
pub open spec fn at_most() -> spec_fn(u64, u64) -> bool {
    |a: u64, b: u64| a <= b
}

/// The values in ascending order.
pub open spec fn ascending(values: Seq<u64>) -> bool {
    forall|i: int, j: int| 0 <= i < j < values.len() ==> values[i] <= values[j]
}

/// The samples in ascending order.
pub open spec fn sorted_samples(samples: Seq<u64>) -> Seq<u64> {
    samples.sort_by(at_most())
}

/// The position of the `percent`-th percentile among `samples` sorted
/// samples: the rank `ceil(percent / 100 * samples)`, less one, kept within
/// the samples.
pub open spec fn nearest_rank_index(samples: int, percent: int) -> int {
    let rank = (percent * samples + 99) / 100;
    if rank - 1 < 0 {
        0
    } else if rank - 1 > samples - 1 {
        samples - 1
    } else {
        rank - 1
    }
}

/// The `percent`-th percentile of samples that are already in order.
pub open spec fn nearest_rank_of(sorted: Seq<u64>, percent: int) -> Option<u64> {
    if sorted.len() == 0 {
        None
    } else {
        Some(sorted[nearest_rank_index(sorted.len() as int, percent)])
    }
}

/// The `percent`-th percentile of samples in any order.
pub open spec fn percentile_of(samples: Seq<u64>, percent: int) -> Option<u64> {
    nearest_rank_of(sorted_samples(samples), percent)
}

/// The sum of the first `upto` counts.
pub open spec fn count_sum(counts: Seq<u32>, upto: int) -> int
    decreases upto,
{
    if upto <= 0 {
        0
    } else {
        count_sum(counts, upto - 1) + counts[upto - 1]
    }
}

/// The sum of the squares of the first `upto` counts.
pub open spec fn square_sum(counts: Seq<u32>, upto: int) -> int
    decreases upto,
{
    if upto <= 0 {
        0
    } else {
        square_sum(counts, upto - 1) + counts[upto - 1] * counts[upto - 1]
    }
}

/// Jain's fairness index `(sum c)^2 / (n * sum c^2)`; `0 / 1` when every count is zero.
pub open spec fn jain_index(counts: Seq<u32>) -> (int, int) {
    let n = counts.len() as int;
    let total = count_sum(counts, n);
    if total == 0 {
        (0, 1)
    } else {
        (total * total, n * square_sum(counts, n))
    }
}

/// `part / whole` in hundredths of a percent, rounded to the nearest, halves
/// up; 0 where `whole` is 0.
pub open spec fn rounded_share(part: int, whole: int) -> int {
    if whole <= 0 {
        0
    } else {
        (part * 10000 + whole / 2) / whole
    }
}

/// `num / den`, or `0 / 1` where `den` is 0.
pub open spec fn ratio_of(num: int, den: int) -> (int, int) {
    if den <= 0 {
        (0, 1)
    } else {
        (num, den)
    }
}

impl Ratio {
    /// The fraction as a pair of integers.
    pub open spec fn parts(self) -> (int, int) {
        (self.num as int, self.den as int)
    }
}

/// What `measure` adds up to over a history.
pub open spec fn total_of(history: Seq<Assignment>, measure: spec_fn(Assignment) -> int) -> int
    decreases history.len(),
{
    if history.len() == 0 {
        0
    } else {
        total_of(history.drop_last(), measure) + measure(history.last())
    }
}

/// 1 for an assignment to `server`, 0 for any other.
pub open spec fn routed_to(server: int) -> spec_fn(Assignment) -> int {
    |assignment: Assignment|
        if assignment.server_id == server {
            1int
        } else {
            0int
        }
}

/// The response time of an assignment to `server`, 0 for any other.
pub open spec fn response_on(server: int) -> spec_fn(Assignment) -> int {
    |assignment: Assignment|
        if assignment.server_id == server {
            assignment.response_ms()
        } else {
            0int
        }
}

/// The service time of an assignment to `server`, 0 for any other.
pub open spec fn service_on(server: int) -> spec_fn(Assignment) -> int {
    |assignment: Assignment|
        if assignment.server_id == server {
            assignment.service_ms()
        } else {
            0int
        }
}

/// The waiting time of an assignment.
pub open spec fn waiting() -> spec_fn(Assignment) -> int {
    |assignment: Assignment| assignment.wait_ms()
}

/// How many requests of a history went to `server`.
pub open spec fn assigned_to(history: Seq<Assignment>, server: int) -> int {
    total_of(history, routed_to(server))
}

/// The latest completion of a history; 0 for an empty one.
pub open spec fn latest_completion(history: Seq<Assignment>) -> u64
    decreases history.len(),
{
    if history.len() == 0 {
        0
    } else {
        let earlier = latest_completion(history.drop_last());
        if history.last().completed_at > earlier {
            history.last().completed_at
        } else {
            earlier
        }
    }
}

/// The earliest arrival of a history; 0 for an empty one.
pub open spec fn earliest_arrival(history: Seq<Assignment>) -> u64
    decreases history.len(),
{
    if history.len() == 0 {
        0
    } else if history.len() == 1 {
        history.last().arrival_time_ms
    } else {
        let earlier = earliest_arrival(history.drop_last());
        if history.last().arrival_time_ms < earlier {
            history.last().arrival_time_ms
        } else {
            earlier
        }
    }
}

/// The span in which the run was active: from the earliest arrival, which
/// leaves out the idle time before a delayed burst, to the latest completion.
pub open spec fn active_window(history: Seq<Assignment>) -> int {
    if latest_completion(history) >= earliest_arrival(history) {
        latest_completion(history) - earliest_arrival(history)
    } else {
        0
    }
}

/// The response times of a history, in processing order.
pub open spec fn response_times(history: Seq<Assignment>) -> Seq<u64> {
    history.map_values(|assignment: Assignment| assignment.response_ms() as u64)
}

/// `slice::sort_unstable` on 64-bit values: the same values, rearranged in
/// place into ascending order.
#[verifier::external_body]
fn sort_ascending(values: &mut Vec<u64>)
    ensures
        ascending(final(values)@),
        final(values)@.to_multiset() == old(values)@.to_multiset(),
{
    values.sort_unstable()
}

proof fn lemma_at_most_is_total()
    ensures
        total_ordering(at_most()),
{
    let leq = at_most();
    assert(vstd::relations::reflexive(leq));
    assert(vstd::relations::antisymmetric(leq));
    assert(vstd::relations::transitive(leq));
    assert(vstd::relations::strongly_connected(leq));
}

/// The sorted samples are the samples, in ascending order.
pub proof fn lemma_sorted_samples(samples: Seq<u64>)
    ensures
        ascending(sorted_samples(samples)),
        sorted_samples(samples).to_multiset() == samples.to_multiset(),
        sorted_samples(samples).len() == samples.len(),
{
    broadcast use vstd::seq_lib::group_to_multiset_ensures;

    lemma_at_most_is_total();
    samples.lemma_sort_by_ensures(at_most());
    let sorted = sorted_samples(samples);
    assert(sorted_by(sorted, at_most()));
    vstd::seq_lib::to_multiset_len(sorted);
    vstd::seq_lib::to_multiset_len(samples);
    assert forall|i: int, j: int| 0 <= i < j < sorted.len() implies sorted[i] <= sorted[j] by {
        assert(at_most()(sorted[i], sorted[j]));
    }
}

/// The percentile of samples that are already in ascending order.
pub fn nearest_rank(sorted: &[u64], percent: u64) -> (value: Option<u64>)
    ensures
        value == nearest_rank_of(sorted@, percent as int),
{
    let n: usize = sorted.len();
    if n == 0 {
        return None;
    }
    assert((percent as int) * (n as int) <= 0xffff_ffff_ffff_ffff * 0xffff_ffff_ffff_ffff)
        by (nonlinear_arith)
        requires
            0 <= percent as int <= 0xffff_ffff_ffff_ffff,
            0 <= n as int <= 0xffff_ffff_ffff_ffff,
    ;
    let rank: u128 = ((percent as u128) * (n as u128) + 99) / 100;
    let index: usize = if rank < 1 {
        0
    } else if rank - 1 > (n - 1) as u128 {
        n - 1
    } else {
        (rank - 1) as usize
    };
    Some(sorted[index])
}

/// The percentile of samples in any order.
pub fn percentile(samples: &Vec<u64>, percent: u64) -> (value: Option<u64>)
    ensures
        value == percentile_of(samples@, percent as int),
{
    let mut sorted: Vec<u64> = Vec::new();
    let mut k: usize = 0;
    while k < samples.len()
        invariant
            k <= samples.len(),
            sorted@ == samples@.take(k as int),
        decreases samples.len() - k,
    {
        sorted.push(samples[k]);
        proof {
            assert(sorted@ =~= samples@.take(k as int + 1));
        }
        k += 1;
    }
    proof {
        assert(samples@.take(k as int) =~= samples@);
    }
    sort_ascending(&mut sorted);
    proof {
        lemma_at_most_is_total();
        samples@.lemma_sort_by_ensures(at_most());
        assert(sorted_by(sorted@, at_most()));
        vstd::seq_lib::lemma_sorted_unique(sorted@, sorted_samples(samples@), at_most());
    }
    nearest_rank(sorted.as_slice(), percent)
}

proof fn lemma_count_sum_rises(counts: Seq<u32>, from: int, upto: int)
    requires
        0 <= from <= upto,
    ensures
        0 <= count_sum(counts, from) <= count_sum(counts, upto),
        0 <= square_sum(counts, from) <= square_sum(counts, upto),
    decreases upto,
{
    if from < upto {
        lemma_count_sum_rises(counts, from, upto - 1);
        assert(0 <= counts[upto - 1] * counts[upto - 1]) by (nonlinear_arith);
    } else {
        lemma_sums_not_negative(counts, from);
    }
}

proof fn lemma_sums_not_negative(counts: Seq<u32>, upto: int)
    ensures
        0 <= count_sum(counts, upto),
        0 <= square_sum(counts, upto),
    decreases upto,
{
    if upto > 0 {
        lemma_sums_not_negative(counts, upto - 1);
        assert(0 <= counts[upto - 1] * counts[upto - 1]) by (nonlinear_arith);
    }
}

/// Jain's fairness index of per-server request counts, as an exact fraction.
pub fn jain_fairness(counts: &[u32]) -> (index: Ratio)
    requires
        count_sum(counts@, counts@.len() as int) * count_sum(counts@, counts@.len() as int)
            <= u128::MAX,
        counts@.len() * square_sum(counts@, counts@.len() as int) <= u128::MAX,
    ensures
        index.parts() == jain_index(counts@),
{
    let n: usize = counts.len();
    let mut total: u128 = 0;
    let mut squares: u128 = 0;
    let mut k: usize = 0;
    proof {
        lemma_sums_not_negative(counts@, n as int);
        let whole = count_sum(counts@, n as int);
        let whole_squares = square_sum(counts@, n as int);
        assert(whole <= whole * whole) by (nonlinear_arith)
            requires
                0 <= whole,
        ;
        if n > 0 {
            assert(whole_squares <= n * whole_squares) by (nonlinear_arith)
                requires
                    0 <= whole_squares,
                    1 <= n,
            ;
        }
    }
    while k < n
        invariant
            k <= n == counts@.len(),
            total == count_sum(counts@, k as int),
            squares == square_sum(counts@, k as int),
            count_sum(counts@, n as int) <= u128::MAX,
            square_sum(counts@, n as int) <= u128::MAX,
        decreases n - k,
    {
        proof {
            lemma_count_sum_rises(counts@, k as int + 1, n as int);
            lemma_sums_not_negative(counts@, k as int);
            assert(counts@[k as int] * counts@[k as int] <= 0xffff_ffff * 0xffff_ffff)
                by (nonlinear_arith)
                requires
                    0 <= counts@[k as int] <= 0xffff_ffff,
            ;
        }
        let count: u128 = counts[k] as u128;
        total = total + count;
        squares = squares + count * count;
        k += 1;
    }
    if total == 0 {
        Ratio { num: 0, den: 1 }
    } else {
        Ratio { num: total * total, den: (n as u128) * squares }
    }
}

/// With the same count on every server, and the count above zero, Jain's
/// fairness index is exactly one: numerator and denominator are equal.
pub proof fn lemma_equal_counts_are_fair(counts: Seq<u32>, count: u32)
    requires
        counts.len() > 0,
        count > 0,
        forall|i: int| 0 <= i < counts.len() ==> counts[i] == count,
    ensures
        jain_index(counts).0 == jain_index(counts).1,
        jain_index(counts).1 > 0,
{
    let n = counts.len() as int;
    lemma_equal_sums(counts, count, n);
    let c = count as int;
    assert((n * c) * (n * c) == n * (n * (c * c))) by (nonlinear_arith);
    assert(n * c > 0) by (nonlinear_arith)
        requires
            n > 0,
            c > 0,
    ;
    assert((n * c) * (n * c) > 0) by (nonlinear_arith)
        requires
            n * c > 0,
    ;
}

proof fn lemma_equal_sums(counts: Seq<u32>, count: u32, upto: int)
    requires
        0 <= upto <= counts.len(),
        forall|i: int| 0 <= i < counts.len() ==> counts[i] == count,
    ensures
        count_sum(counts, upto) == upto * count,
        square_sum(counts, upto) == upto * (count * count),
    decreases upto,
{
    let c = count as int;
    if upto > 0 {
        lemma_equal_sums(counts, count, upto - 1);
        assert(counts[upto - 1] == count);
        assert((upto - 1) * c + c == upto * c) by (nonlinear_arith);
        assert((upto - 1) * (c * c) + c * c == upto * (c * c)) by (nonlinear_arith);
        assert(count_sum(counts, upto) == count_sum(counts, upto - 1) + c);
        assert(square_sum(counts, upto) == square_sum(counts, upto - 1) + c * c);
    } else {
        assert(upto * c == 0) by (nonlinear_arith)
            requires
                upto == 0,
        ;
        assert(upto * (c * c) == 0) by (nonlinear_arith)
            requires
                upto == 0,
        ;
    }
}

/// The share of `window_ms` that `service_ms` makes up, in hundredths of a
/// percent, rounded to the nearest.
pub fn utilization(service_ms: u128, window_ms: u64) -> (share: u128)
    requires
        service_ms * 10000 + window_ms / 2 <= u128::MAX,
    ensures
        share == rounded_share(service_ms as int, window_ms as int),
{
    if window_ms == 0 {
        0
    } else {
        (service_ms * 10000 + (window_ms / 2) as u128) / (window_ms as u128)
    }
}

/// Requests per second: `requests / window_ms * 1000` as an exact fraction.
pub fn throughput(requests: u64, window_ms: u64) -> (rate: Ratio)
    ensures
        rate.parts() == ratio_of(requests * 1000, window_ms as int),
{
    if window_ms == 0 {
        Ratio { num: 0, den: 1 }
    } else {
        Ratio { num: (requests as u128) * 1000, den: window_ms as u128 }
    }
}

/// The mean `total / count` as an exact fraction.
pub fn mean(total: u128, count: u64) -> (average: Ratio)
    ensures
        average.parts() == ratio_of(total as int, count as int),
{
    if count == 0 {
        Ratio { num: 0, den: 1 }
    } else {
        Ratio { num: total, den: count as u128 }
    }
}

/// The running aggregates of a run: what the metrics need of the history,
/// kept up to date assignment by assignment.
pub struct Tally {
    response_ms: Vec<u128>,
    service_ms: Vec<u128>,
    wait_ms: u128,
    latest_completion_ms: u64,
    earliest_arrival_ms: u64,
    response_times: Vec<u64>,
    history: Ghost<Seq<Assignment>>,
}

impl Tally {
    /// The assignments recorded so far.
    pub closed spec fn history(&self) -> Seq<Assignment> {
        self.history@
    }

    /// For how many servers the tally keeps sums.
    pub closed spec fn servers(&self) -> int {
        self.response_ms@.len() as int
    }

    /// The aggregates are those of the recorded history.
    pub closed spec fn consistent(&self) -> bool {
        let history = self.history@;
        &&& self.service_ms@.len() == self.response_ms@.len()
        &&& forall|i: int|
            0 <= i < self.response_ms@.len() ==> #[trigger] self.response_ms@[i] == total_of(
                history,
                response_on(i),
            )
        &&& forall|i: int|
            0 <= i < self.service_ms@.len() ==> #[trigger] self.service_ms@[i] == total_of(
                history,
                service_on(i),
            )
        &&& self.wait_ms == total_of(history, waiting())
        &&& self.latest_completion_ms == latest_completion(history)
        &&& self.earliest_arrival_ms == earliest_arrival(history)
        &&& self.response_times@ == response_times(history)
        &&& forall|k: int|
            0 <= k < history.len() ==> (#[trigger] history[k]).timely() && history[k].server_id
                < self.response_ms@.len()
    }

    /// An empty tally for `servers` servers.
    pub fn new(servers: usize) -> (tally: Self)
        ensures
            tally.consistent(),
            tally.servers() == servers,
            tally.history() == Seq::<Assignment>::empty(),
    {
        let mut response_ms: Vec<u128> = Vec::new();
        let mut service_ms: Vec<u128> = Vec::new();
        let mut k: usize = 0;
        while k < servers
            invariant
                k <= servers,
                response_ms@.len() == k,
                service_ms@.len() == k,
                forall|i: int| 0 <= i < k ==> #[trigger] response_ms@[i] == 0,
                forall|i: int| 0 <= i < k ==> #[trigger] service_ms@[i] == 0,
            decreases servers - k,
        {
            response_ms.push(0);
            service_ms.push(0);
            k += 1;
        }
        let tally = Tally {
            response_ms,
            service_ms,
            wait_ms: 0,
            latest_completion_ms: 0,
            earliest_arrival_ms: 0,
            response_times: Vec::new(),
            history: Ghost(Seq::empty()),
        };
        proof {
            assert(tally.response_times@ =~= response_times(Seq::<Assignment>::empty()));
        }
        tally
    }

    /// Takes one more assignment into the aggregates.
    pub fn record(&mut self, assignment: &Assignment)
        requires
            old(self).consistent(),
            assignment.timely(),
            assignment.server_id < old(self).servers(),
            old(self).history().len() < u64::MAX,
        ensures
            final(self).consistent(),
            final(self).servers() == old(self).servers(),
            final(self).history() == old(self).history().push(*assignment),
    {
        let ghost before = self.history@;
        let ghost now = before.push(*assignment);
        proof {
            assert(now.drop_last() =~= before);
            lemma_totals_bounded(before, waiting());
            lemma_totals_bounded(before, response_on(assignment.server_id as int));
            lemma_totals_bounded(before, service_on(assignment.server_id as int));
            lemma_budget(before.len() as int);
        }
        let server: usize = assignment.server_id;
        let response: u64 = assignment.completed_at - assignment.arrival_time_ms;
        let service: u64 = assignment.completed_at - assignment.started_at;
        let wait: u64 = assignment.started_at - assignment.arrival_time_ms;
        let response_before: u128 = self.response_ms[server];
        let service_before: u128 = self.service_ms[server];
        self.response_ms[server] = response_before + response as u128;
        self.service_ms[server] = service_before + service as u128;
        self.wait_ms = self.wait_ms + wait as u128;
        if assignment.completed_at > self.latest_completion_ms {
            self.latest_completion_ms = assignment.completed_at;
        }
        if self.response_times.len() == 0 || assignment.arrival_time_ms < self.earliest_arrival_ms {
            self.earliest_arrival_ms = assignment.arrival_time_ms;
        }
        self.response_times.push(response);
        self.history = Ghost(now);
        proof {
            assert(self.response_times@ =~= response_times(now));
            assert forall|k: int| 0 <= k < now.len() implies (#[trigger] now[k]).timely() && now[k].server_id
                < self.response_ms@.len() by {
                if k < before.len() {
                    assert(before[k].timely());
                }
            }
        }
    }
}

/// The mean response time of the requests that went to `server`, in whole
/// milliseconds, rounded down; 0 where none went there.
pub open spec fn average_response(history: Seq<Assignment>, server: int) -> int {
    let count = assigned_to(history, server);
    if count <= 0 {
        0
    } else {
        total_of(history, response_on(server)) / count
    }
}

/// The metrics are those of a history in which the servers, in input
/// order, served `counts` requests.
pub open spec fn describes(
    metrics: Metrics,
    history: Seq<Assignment>,
    counts: Seq<u32>,
) -> bool {
    let window = active_window(history);
    &&& metrics.p95_response_ms == percentile_of(response_times(history), 95)
    &&& metrics.p99_response_ms == percentile_of(response_times(history), 99)
    &&& metrics.fairness.parts() == jain_index(counts)
    &&& metrics.utilization@.len() == counts.len()
    &&& forall|i: int|
        0 <= i < counts.len() ==> #[trigger] metrics.utilization@[i] == rounded_share(
            total_of(history, service_on(i)),
            window,
        )
    &&& metrics.throughput_rps.parts() == ratio_of((history.len() * 1000) as int, window)
    &&& metrics.avg_wait_ms.parts() == ratio_of(
        total_of(history, waiting()),
        history.len() as int,
    )
}

impl Tally {
    /// The mean response time of one server that served `count` requests.
    pub fn average_response(&self, server: usize, count: u32) -> (average: u64)
        requires
            self.consistent(),
            server < self.servers(),
            count == assigned_to(self.history(), server as int),
        ensures
            average == average_response(self.history(), server as int),
    {
        if count == 0 {
            0
        } else {
            proof {
                lemma_response_bounded(self.history@, server as int);
                let total = total_of(self.history@, response_on(server as int));
                assert(total / (count as int) <= u64::MAX) by (nonlinear_arith)
                    requires
                        0 <= total <= count * u64::MAX,
                        count > 0,
                ;
                assert(0 <= total / (count as int)) by (nonlinear_arith)
                    requires
                        0 <= total,
                        count > 0,
                ;
            }
            (self.response_ms[server] / (count as u128)) as u64
        }
    }

    /// The latest completion time recorded: how long the run took.
    pub fn duration_ms(&self) -> (duration: u64)
        requires
            self.consistent(),
        ensures
            duration == latest_completion(self.history()),
    {
        self.latest_completion_ms
    }

    /// The metrics of the recorded history, given the per-server request counts.
    pub fn metrics(&self, counts: &[u32]) -> (metrics: Metrics)
        requires
            self.consistent(),
            counts@.len() == self.servers(),
            self.history().len() <= u32::MAX,
            count_sum(counts@, counts@.len() as int) <= u32::MAX,
            forall|i: int| 0 <= i < counts@.len() ==> counts@[i] == assigned_to(self.history(), i),
        ensures
            describes(metrics, self.history(), counts@),
    {
        let ghost history = self.history@;
        let window: u64 = if self.latest_completion_ms >= self.earliest_arrival_ms {
            self.latest_completion_ms - self.earliest_arrival_ms
        } else {
            0
        };
        let p95 = percentile(&self.response_times, 95);
        let p99 = percentile(&self.response_times, 99);
        let servers: usize = counts.len();
        proof {
            assert(counts@.len() == servers);
            lemma_fairness_fits(counts@);
        }
        let fairness = jain_fairness(counts);
        let mut shares: Vec<u128> = Vec::new();
        let mut k: usize = 0;
        while k < self.service_ms.len()
            invariant
                k <= self.service_ms@.len(),
                self.consistent(),
                history == self.history@,
                history.len() <= u32::MAX,
                window == active_window(history),
                shares@.len() == k,
                forall|i: int|
                    0 <= i < k ==> #[trigger] shares@[i] == rounded_share(
                        total_of(history, service_on(i)),
                        window as int,
                    ),
            decreases self.service_ms@.len() - k,
        {
            proof {
                lemma_totals_bounded(history, service_on(k as int));
                assert(history.len() * u64::MAX * 10000 + u64::MAX <= u128::MAX)
                    by (nonlinear_arith)
                    requires
                        history.len() <= 0xffff_ffff,
                        u64::MAX == 0xffff_ffff_ffff_ffff,
                        u128::MAX == 0xffff_ffff_ffff_ffff_ffff_ffff_ffff_ffff,
                ;
            }
            let share = utilization(self.service_ms[k], window);
            shares.push(share);
            k += 1;
        }
        let routed: u64 = self.response_times.len() as u64;
        Metrics {
            p95_response_ms: p95,
            p99_response_ms: p99,
            fairness,
            utilization: shares,
            throughput_rps: throughput(routed, window),
            avg_wait_ms: mean(self.wait_ms, routed),
        }
    }
}

/// Counts that add up to no more than 32 bits have a fairness index whose
/// parts fit 128 bits.
proof fn lemma_fairness_fits(counts: Seq<u32>)
    requires
        count_sum(counts, counts.len() as int) <= u32::MAX,
        counts.len() <= usize::MAX,
    ensures
        count_sum(counts, counts.len() as int) * count_sum(counts, counts.len() as int)
            <= u128::MAX,
        counts.len() * square_sum(counts, counts.len() as int) <= u128::MAX,
{
    let n = counts.len() as int;
    let total = count_sum(counts, n);
    let squares = square_sum(counts, n);
    lemma_sums_not_negative(counts, n);
    lemma_squares_below_square(counts, n);
    assert(total * total <= 0xffff_ffff * 0xffff_ffff) by (nonlinear_arith)
        requires
            0 <= total <= 0xffff_ffff,
    ;
    assert(n * squares <= 0xffff_ffff_ffff_ffff * (0xffff_ffff * 0xffff_ffff)) by (nonlinear_arith)
        requires
            0 <= n <= 0xffff_ffff_ffff_ffff,
            0 <= squares <= 0xffff_ffff * 0xffff_ffff,
    ;
}

proof fn lemma_squares_below_square(counts: Seq<u32>, upto: int)
    ensures
        square_sum(counts, upto) <= count_sum(counts, upto) * count_sum(counts, upto),
    decreases upto,
{
    if upto > 0 {
        lemma_squares_below_square(counts, upto - 1);
        lemma_sums_not_negative(counts, upto - 1);
        let a = count_sum(counts, upto - 1);
        let c = counts[upto - 1] as int;
        assert(a * a + c * c <= (a + c) * (a + c)) by (nonlinear_arith)
            requires
                0 <= a,
                0 <= c,
        ;
    } else {
        assert(count_sum(counts, upto) * count_sum(counts, upto) == 0) by (nonlinear_arith)
            requires
                count_sum(counts, upto) == 0,
        ;
    }
}

/// The responses of one server add up to no more than 64 bits per request.
proof fn lemma_response_bounded(history: Seq<Assignment>, server: int)
    requires
        forall|k: int| 0 <= k < history.len() ==> (#[trigger] history[k]).timely(),
    ensures
        0 <= total_of(history, response_on(server)) <= assigned_to(history, server) * u64::MAX,
        0 <= assigned_to(history, server),
    decreases history.len(),
{
    if history.len() > 0 {
        let earlier = history.drop_last();
        assert forall|k: int| 0 <= k < earlier.len() implies (#[trigger] earlier[k]).timely() by {
            assert(history[k].timely());
        }
        lemma_response_bounded(earlier, server);
        assert(history.last() == history[history.len() - 1]);
        assert(history.last().timely());
        let count = assigned_to(earlier, server);
        assert(count * u64::MAX + u64::MAX == (count + 1) * u64::MAX) by (nonlinear_arith);
    } else {
        assert(assigned_to(history, server) * u64::MAX == 0) by (nonlinear_arith)
            requires
                assigned_to(history, server) == 0,
        ;
    }
}

/// A history whose times are in order adds up to no more than 64 bits a piece.
proof fn lemma_totals_bounded(history: Seq<Assignment>, measure: spec_fn(Assignment) -> int)
    requires
        forall|k: int| 0 <= k < history.len() ==> (#[trigger] history[k]).timely(),
        measure == waiting() || exists|server: int|
            measure == response_on(server) || measure == service_on(server),
    ensures
        0 <= total_of(history, measure) <= history.len() * u64::MAX,
    decreases history.len(),
{
    if history.len() > 0 {
        let earlier = history.drop_last();
        assert forall|k: int| 0 <= k < earlier.len() implies (#[trigger] earlier[k]).timely() by {
            assert(history[k].timely());
        }
        lemma_totals_bounded(earlier, measure);
        assert(history.last() == history[history.len() - 1]);
        assert(history.last().timely());
        assert(0 <= measure(history.last()) <= u64::MAX);
        assert((history.len() - 1) * u64::MAX + u64::MAX == history.len() * u64::MAX)
            by (nonlinear_arith);
    } else {
        assert(history.len() * u64::MAX == 0) by (nonlinear_arith)
            requires
                history.len() == 0,
        ;
    }
}

proof fn lemma_budget(entries: int)
    requires
        0 <= entries < u64::MAX,
    ensures
        entries * u64::MAX + u64::MAX <= u128::MAX,
{
    assert(entries * u64::MAX + u64::MAX <= u128::MAX) by (nonlinear_arith)
        requires
            0 <= entries < 0xffff_ffff_ffff_ffff,
            u64::MAX == 0xffff_ffff_ffff_ffff,
            u128::MAX == 0xffff_ffff_ffff_ffff_ffff_ffff_ffff_ffff,
    ;
}

} // verus!
