//! One run of a single-server queue whose server switches off when idle and
//! needs a warm-up before serving again.
//!
//! Time is measured in integer ticks, so every quantity of a run is exact and
//! the timeline identities hold without rounding.
use vstd::prelude::*;

use crate::measures::{
    lemma_prefix_sum_monotonic, lemma_square_sum_monotonic, prefix_sum, square_sum, sum, total, Ratio,
    StatError,
};

verus! {

/// Absolute arrival time of client `i`: the sum of the first `i + 1` gaps.
pub open spec fn arrival_at(gaps: Seq<u64>, i: int) -> int {
    prefix_sum(gaps, i + 1)
}

/// Departure time of client `i - 1`, or `0` for the first client: the instant
/// at which the server becomes free for client `i`.
pub open spec fn departure_before(gaps: Seq<u64>, services: Seq<u64>, draws: Seq<u64>, i: int) -> int
    decreases i,
{
    if i <= 0 {
        0
    } else {
        let previous = departure_before(gaps, services, draws, i - 1);
        let arrival = arrival_at(gaps, i - 1);
        if arrival > previous {
            arrival + draws[i - 1] + services[i - 1]
        } else {
            previous + services[i - 1]
        }
    }
}

/// Client `i` finds the server switched off.
pub open spec fn finds_idle(gaps: Seq<u64>, services: Seq<u64>, draws: Seq<u64>, i: int) -> bool {
    arrival_at(gaps, i) > departure_before(gaps, services, draws, i)
}

/// Time client `i` waits behind the previous client.
pub open spec fn delay_at(gaps: Seq<u64>, services: Seq<u64>, draws: Seq<u64>, i: int) -> int {
    if finds_idle(gaps, services, draws, i) {
        0
    } else {
        departure_before(gaps, services, draws, i) - arrival_at(gaps, i)
    }
}

/// Warm-up that client `i` waits for: the draw of index `i` when it finds the
/// server off, else nothing.
pub open spec fn warmup_at(gaps: Seq<u64>, services: Seq<u64>, draws: Seq<u64>, i: int) -> int {
    if finds_idle(gaps, services, draws, i) {
        draws[i] as int
    } else {
        0
    }
}

/// Time the server spent off just before client `i` arrived.
pub open spec fn nap_at(gaps: Seq<u64>, services: Seq<u64>, draws: Seq<u64>, i: int) -> int {
    if finds_idle(gaps, services, draws, i) {
        arrival_at(gaps, i) - departure_before(gaps, services, draws, i)
    } else {
        0
    }
}

/// The whole content of a run.
pub struct RunView {
    pub arrivals: Seq<u64>,
    pub delays: Seq<u64>,
    pub warmups: Seq<u64>,
    pub services: Seq<u64>,
    pub nap_times: Seq<u64>,
    pub departures: Seq<u64>,
}

impl RunView {
    /// Number of clients.
    pub open spec fn len(self) -> nat {
        self.arrivals.len()
    }

    /// All sequences have one entry per client, and each departure is the
    /// arrival plus the delay, the warm-up and the service of that client.
    pub open spec fn consistent(self) -> bool {
        &&& self.delays.len() == self.len()
        &&& self.warmups.len() == self.len()
        &&& self.services.len() == self.len()
        &&& self.nap_times.len() == self.len()
        &&& self.departures.len() == self.len()
        &&& forall|i: int|
            0 <= i < self.len() ==> #[trigger] self.departures[i] == self.arrivals[i]
                + self.delays[i] + self.warmups[i] + self.services[i]
    }

    /// Last departure; undefined for a run without clients.
    pub open spec fn total_time(self) -> Option<u64> {
        if self.len() == 0 {
            None
        } else {
            Some(self.departures[self.len() - 1])
        }
    }

    /// Every entry is what the queue produces from these samples.
    pub open spec fn follows(self, gaps: Seq<u64>, services: Seq<u64>, draws: Seq<u64>) -> bool {
        &&& self.len() == gaps.len()
        &&& self.consistent()
        &&& self.services == services
        &&& forall|i: int|
            0 <= i < self.len() ==> {
                &&& #[trigger] self.arrivals[i] == arrival_at(gaps, i)
                &&& self.delays[i] == delay_at(gaps, services, draws, i)
                &&& self.warmups[i] == warmup_at(gaps, services, draws, i)
                &&& self.nap_times[i] == nap_at(gaps, services, draws, i)
                &&& self.departures[i] == departure_before(gaps, services, draws, i + 1)
            }
    }
}

/// Sum of the sojourn times `departures[k] - arrivals[k]` of the first `i`
/// clients.
pub open spec fn sojourn_sum(v: RunView, i: int) -> int
    decreases i,
{
    if i <= 0 {
        0
    } else {
        sojourn_sum(v, i - 1) + (v.departures[i - 1] - v.arrivals[i - 1])
    }
}

/// The sojourn times of a consistent run add up to the difference between
/// the sums of departures and of arrivals, and none is negative.
pub proof fn lemma_sojourn_sum(v: RunView, i: int)
    requires
        v.consistent(),
        0 <= i <= v.len(),
    ensures
        sojourn_sum(v, i) == prefix_sum(v.departures, i) - prefix_sum(v.arrivals, i),
        0 <= sojourn_sum(v, i),
    decreases i,
{
    if i > 0 {
        lemma_sojourn_sum(v, i - 1);
        assert(v.departures[i - 1] == v.arrivals[i - 1] + v.delays[i - 1] + v.warmups[i - 1]
            + v.services[i - 1]);
    }
}

/// The stored values of one simulation run.
pub struct Simulation {
    arrivals: Vec<u64>,
    delays: Vec<u64>,
    warmups: Vec<u64>,
    services: Vec<u64>,
    nap_times: Vec<u64>,
    departures: Vec<u64>,
    total_time: Option<u64>,
}

impl View for Simulation {
    type V = RunView;

    closed spec fn view(&self) -> RunView {
        RunView {
            arrivals: self.arrivals@,
            delays: self.delays@,
            warmups: self.warmups@,
            services: self.services@,
            nap_times: self.nap_times@,
            departures: self.departures@,
        }
    }
}

impl Simulation {
    #[verifier::type_invariant]
    spec fn well_formed(self) -> bool {
        &&& self@.consistent()
        &&& self.total_time == self@.total_time()
    }

    /// Builds a run from its per-client values and derives the departures.
    pub fn new(
        arrivals: Vec<u64>,
        delays: Vec<u64>,
        warmups: Vec<u64>,
        services: Vec<u64>,
        nap_times: Vec<u64>,
    ) -> (r: Self)
        requires
            delays.len() == arrivals.len(),
            warmups.len() == arrivals.len(),
            services.len() == arrivals.len(),
            nap_times.len() == arrivals.len(),
            forall|i: int|
                0 <= i < arrivals.len() ==> #[trigger] arrivals[i] + delays[i] + warmups[i]
                    + services[i] <= u64::MAX,
        ensures
            r@.arrivals == arrivals@,
            r@.delays == delays@,
            r@.warmups == warmups@,
            r@.services == services@,
            r@.nap_times == nap_times@,
            r@.consistent(),
    {
        let departures = Self::departures(&arrivals, &delays, &warmups, &services);
        let n = departures.len();
        let total_time = if n == 0 {
            None
        } else {
            Some(departures[n - 1])
        };
        Simulation { arrivals, delays, warmups, services, nap_times, departures, total_time }
    }

    /// Instant at which each client leaves: its arrival plus its delay, its
    /// warm-up and its service.
    fn departures(arrivals: &Vec<u64>, delays: &Vec<u64>, warmups: &Vec<u64>, services: &Vec<u64>) -> (r: Vec<u64>)
        requires
            delays.len() == arrivals.len(),
            warmups.len() == arrivals.len(),
            services.len() == arrivals.len(),
            forall|i: int|
                0 <= i < arrivals.len() ==> #[trigger] arrivals[i] + delays[i] + warmups[i]
                    + services[i] <= u64::MAX,
        ensures
            r.len() == arrivals.len(),
            forall|i: int|
                0 <= i < arrivals.len() ==> #[trigger] r[i] == arrivals[i] + delays[i] + warmups[i]
                    + services[i],
    {
        let mut r: Vec<u64> = Vec::new();
        let mut i: usize = 0;
        while i < arrivals.len()
            invariant
                i <= arrivals.len(),
                r.len() == i,
                delays.len() == arrivals.len(),
                warmups.len() == arrivals.len(),
                services.len() == arrivals.len(),
                forall|k: int|
                    0 <= k < arrivals.len() ==> #[trigger] arrivals[k] + delays[k] + warmups[k]
                        + services[k] <= u64::MAX,
                forall|k: int|
                    0 <= k < i ==> #[trigger] r[k] == arrivals[k] + delays[k] + warmups[k]
                        + services[k],
            decreases arrivals.len() - i,
        {
            assert(arrivals[i as int] + delays[i as int] + warmups[i as int] + services[i as int] <= u64::MAX);
            r.push(arrivals[i] + delays[i] + warmups[i] + services[i]);
            i = i + 1;
        }
        r
    }
}

/// The server is free for client `i` no later than the sum of the first `i`
/// gaps, services and warm-up draws.
pub proof fn lemma_departure_bound(gaps: Seq<u64>, services: Seq<u64>, draws: Seq<u64>, i: int)
    requires
        0 <= i <= gaps.len(),
        services.len() == gaps.len(),
        draws.len() == gaps.len(),
    ensures
        0 <= departure_before(gaps, services, draws, i),
        departure_before(gaps, services, draws, i) <= prefix_sum(gaps, i) + prefix_sum(services, i)
            + prefix_sum(draws, i),
    decreases i,
{
    if i > 0 {
        lemma_departure_bound(gaps, services, draws, i - 1);
        lemma_prefix_sum_monotonic(services, 0, i - 1);
        lemma_prefix_sum_monotonic(draws, 0, i - 1);
    }
}

impl Simulation {
    /// Mean service time.
    pub fn avg_service(&self) -> (r: Result<Ratio, StatError>)
        ensures
            self@.len() == 0 ==> r == Err::<Ratio, StatError>(StatError::DivisionUndefined),
            self@.len() > 0 ==> r == Ok::<Ratio, StatError>(
                Ratio { num: total(self@.services) as u128, den: self@.len() as u128 },
            ),
    {
        proof {
            use_type_invariant(self);
        }
        let n = self.arrivals.len();
        if n == 0 {
            Err(StatError::DivisionUndefined)
        } else {
            Ok(Ratio { num: sum(&self.services), den: n as u128 })
        }
    }

    /// Mean sojourn time: the mean of `departures[i] - arrivals[i]`.
    pub fn avg_stay(&self) -> (r: Result<Ratio, StatError>)
        ensures
            self@.len() == 0 ==> r == Err::<Ratio, StatError>(StatError::DivisionUndefined),
            self@.len() > 0 ==> r == Ok::<Ratio, StatError>(
                Ratio { num: sojourn_sum(self@, self@.len() as int) as u128, den: self@.len() as u128 },
            ),
    {
        proof {
            use_type_invariant(self);
            lemma_sojourn_sum(self@, self@.len() as int);
        }
        let n = self.arrivals.len();
        if n == 0 {
            Err(StatError::DivisionUndefined)
        } else {
            let departed = sum(&self.departures);
            let arrived = sum(&self.arrivals);
            Ok(Ratio { num: departed - arrived, den: n as u128 })
        }
    }

    /// Share of the total time that `part` ticks take, or why it is undefined.
    fn share_of_total_time(&self, part: u128) -> (r: Result<Ratio, StatError>)
        ensures
            self@.total_time() is None || self@.total_time() == Some(0u64) ==> r == Err::<
                Ratio,
                StatError,
            >(StatError::DivisionUndefined),
            self@.total_time() matches Some(t) ==> (t > 0 ==> r == Ok::<Ratio, StatError>(
                Ratio { num: part, den: t as u128 },
            )),
    {
        proof {
            use_type_invariant(self);
        }
        match self.total_time {
            None => Err(StatError::DivisionUndefined),
            Some(t) => if t == 0 {
                Err(StatError::DivisionUndefined)
            } else {
                Ok(Ratio { num: part, den: t as u128 })
            },
        }
    }

    /// Probability of finding the server serving: the sum of the service
    /// times over the total time.
    pub fn probability_server_on(&self) -> (r: Result<Ratio, StatError>)
        ensures
            self@.total_time() is None || self@.total_time() == Some(0u64) ==> r == Err::<
                Ratio,
                StatError,
            >(StatError::DivisionUndefined),
            self@.total_time() matches Some(t) ==> (t > 0 ==> r == Ok::<Ratio, StatError>(
                Ratio { num: total(self@.services) as u128, den: t as u128 },
            )),
    {
        self.share_of_total_time(sum(&self.services))
    }

    /// Probability of finding the server warming up: the sum of the warm-up
    /// times over the total time.
    pub fn probability_server_setup(&self) -> (r: Result<Ratio, StatError>)
        ensures
            self@.total_time() is None || self@.total_time() == Some(0u64) ==> r == Err::<
                Ratio,
                StatError,
            >(StatError::DivisionUndefined),
            self@.total_time() matches Some(t) ==> (t > 0 ==> r == Ok::<Ratio, StatError>(
                Ratio { num: total(self@.warmups) as u128, den: t as u128 },
            )),
    {
        self.share_of_total_time(sum(&self.warmups))
    }

    /// Probability of finding the server switched off: the sum of the nap
    /// times over the total time.
    pub fn probability_server_off(&self) -> (r: Result<Ratio, StatError>)
        ensures
            self@.total_time() is None || self@.total_time() == Some(0u64) ==> r == Err::<
                Ratio,
                StatError,
            >(StatError::DivisionUndefined),
            self@.total_time() matches Some(t) ==> (t > 0 ==> r == Ok::<Ratio, StatError>(
                Ratio { num: total(self@.nap_times) as u128, den: t as u128 },
            )),
    {
        self.share_of_total_time(sum(&self.nap_times))
    }

    /// Second moment of the queueing delay: the mean of the squared delays.
    pub fn second_order_moment_waiting_delay(&self) -> (r: Result<Ratio, StatError>)
        ensures
            self@.len() == 0 ==> r == Err::<Ratio, StatError>(StatError::DivisionUndefined),
            self@.len() > 0 ==> (r == Err::<Ratio, StatError>(StatError::Overflow) <==> square_sum(
                self@.delays,
                self@.len() as int,
            ) > u128::MAX),
            self@.len() > 0 && square_sum(self@.delays, self@.len() as int) <= u128::MAX ==> r
                == Ok::<Ratio, StatError>(
                Ratio {
                    num: square_sum(self@.delays, self@.len() as int) as u128,
                    den: self@.len() as u128,
                },
            ),
    {
        proof {
            use_type_invariant(self);
        }
        let n = self.delays.len();
        if n == 0 {
            return Err(StatError::DivisionUndefined);
        }
        let mut acc: u128 = 0;
        let mut i: usize = 0;
        while i < n
            invariant
                n == self.delays@.len(),
                n == self@.len(),
                i <= n,
                acc == square_sum(self.delays@, i as int),
            decreases n - i,
        {
            let d = self.delays[i] as u128;
            assert(d * d <= 0xffff_ffff_ffff_ffffu128 * 0xffff_ffff_ffff_ffffu128) by (nonlinear_arith)
                requires
                    d <= 0xffff_ffff_ffff_ffffu128,
            ;
            proof {
                lemma_square_sum_monotonic(self.delays@, i + 1, n as int);
            }
            match acc.checked_add(d * d) {
                None => {
                    return Err(StatError::Overflow);
                },
                Some(next) => {
                    acc = next;
                },
            }
            i = i + 1;
        }
        Ok(Ratio { num: acc, den: n as u128 })
    }
}

impl Simulation {
    /// Number of clients.
    pub fn len(&self) -> (r: usize)
        ensures
            r == self@.len(),
    {
        self.arrivals.len()
    }

    /// Arrival time of each client.
    pub fn arrivals(&self) -> (r: &Vec<u64>)
        ensures
            r@ == self@.arrivals,
    {
        &self.arrivals
    }

    /// Time each client waited behind the previous one.
    pub fn delays(&self) -> (r: &Vec<u64>)
        ensures
            r@ == self@.delays,
    {
        &self.delays
    }

    /// Time each client waited for the server to warm up.
    pub fn warmups(&self) -> (r: &Vec<u64>)
        ensures
            r@ == self@.warmups,
    {
        &self.warmups
    }

    /// Service time of each client.
    pub fn services(&self) -> (r: &Vec<u64>)
        ensures
            r@ == self@.services,
    {
        &self.services
    }

    /// Time the server spent off before each client arrived.
    pub fn nap_times(&self) -> (r: &Vec<u64>)
        ensures
            r@ == self@.nap_times,
    {
        &self.nap_times
    }

    /// Departure time of each client.
    pub fn departure_times(&self) -> (r: &Vec<u64>)
        ensures
            r@ == self@.departures,
    {
        &self.departures
    }

    /// Last departure, or `None` for a run without clients.
    pub fn total_time(&self) -> (r: Option<u64>)
        ensures
            r == self@.total_time(),
    {
        proof {
            use_type_invariant(self);
        }
        self.total_time
    }
}

/// Simulates one run of the queue from its samples: `gaps[i]` is the time
/// between the arrivals of clients `i - 1` and `i`, `services[i]` the service
/// time of client `i`, and `warmup_draws[i]` the warm-up that the server
/// needs if client `i` finds it switched off.
pub fn queue(gaps: &Vec<u64>, services: Vec<u64>, warmup_draws: &Vec<u64>) -> (r: Simulation)
    requires
        services.len() == gaps.len(),
        warmup_draws.len() == gaps.len(),
        total(gaps@) + total(services@) + total(warmup_draws@) <= u64::MAX,
    ensures
        r@.follows(gaps@, services@, warmup_draws@),
        r@.len() == gaps.len(),
        r@.consistent(),
        forall|i: int| 0 <= i < r@.len() ==> #[trigger] r@.delays[i] * r@.warmups[i] == 0,
{
    let n = gaps.len();
    let ghost g = gaps@;
    let ghost sv = services@;
    let ghost w = warmup_draws@;
    let mut arrivals: Vec<u64> = Vec::new();
    let mut delays: Vec<u64> = Vec::new();
    let mut warmups: Vec<u64> = Vec::new();
    let mut nap_times: Vec<u64> = Vec::new();
    let mut accumulator: u64 = 0;
    let mut previous_departure: u64 = 0;
    let mut i: usize = 0;
    while i < n
        invariant
            n == g.len(),
            sv == services@,
            g == gaps@,
            w == warmup_draws@,
            sv.len() == n,
            w.len() == n,
            total(g) + total(sv) + total(w) <= u64::MAX,
            i <= n,
            accumulator == prefix_sum(g, i as int),
            previous_departure == departure_before(g, sv, w, i as int),
            arrivals.len() == i,
            delays.len() == i,
            warmups.len() == i,
            nap_times.len() == i,
            forall|k: int|
                0 <= k < i ==> {
                    &&& #[trigger] arrivals[k] == arrival_at(g, k)
                    &&& delays[k] == delay_at(g, sv, w, k)
                    &&& warmups[k] == warmup_at(g, sv, w, k)
                    &&& nap_times[k] == nap_at(g, sv, w, k)
                    &&& arrivals[k] + delays[k] + warmups[k] + sv[k] == departure_before(
                        g,
                        sv,
                        w,
                        k + 1,
                    )
                    &&& departure_before(g, sv, w, k + 1) <= u64::MAX
                },
        decreases n - i,
    {
        proof {
            lemma_prefix_sum_monotonic(g, i + 1, n as int);
            lemma_prefix_sum_monotonic(sv, i + 1, n as int);
            lemma_prefix_sum_monotonic(w, i + 1, n as int);
            lemma_departure_bound(g, sv, w, i + 1);
            lemma_departure_bound(g, sv, w, i as int);
        }
        accumulator = accumulator + gaps[i];
        let delay: u64;
        let warmup: u64;
        let nap_time: u64;
        if accumulator > previous_departure {
            delay = 0;
            warmup = warmup_draws[i];
            nap_time = accumulator - previous_departure;
            previous_departure = accumulator + warmup + services[i];
        } else {
            delay = previous_departure - accumulator;
            warmup = 0;
            nap_time = 0;
            previous_departure = previous_departure + services[i];
        }
        arrivals.push(accumulator);
        delays.push(delay);
        warmups.push(warmup);
        nap_times.push(nap_time);
        i = i + 1;
    }
    let r = Simulation::new(arrivals, delays, warmups, services, nap_times);
    assert forall|i: int| 0 <= i < r@.len() implies #[trigger] r@.delays[i] * r@.warmups[i] == 0 by {
        assert(r@.arrivals[i] == arrival_at(gaps@, i));
    }
    r
}

/// The departure of client `i` is the instant at which the server becomes
/// free for client `i + 1`, and it comes at least one service time later.
proof fn lemma_departure_step(gaps: Seq<u64>, services: Seq<u64>, draws: Seq<u64>, i: int)
    requires
        0 <= i,
    ensures
        departure_before(gaps, services, draws, i + 1) >= departure_before(gaps, services, draws, i)
            + services[i],
{
}

/// When every service time is positive, clients leave in strictly
/// increasing order of time.
pub proof fn lemma_departures_increasing(
    v: RunView,
    gaps: Seq<u64>,
    services: Seq<u64>,
    draws: Seq<u64>,
)
    requires
        v.follows(gaps, services, draws),
        forall|i: int| 0 <= i < services.len() ==> #[trigger] services[i] > 0,
    ensures
        forall|i: int, j: int| 0 <= i < j < v.len() ==> v.departures[i] < v.departures[j],
{
    assert forall|i: int, j: int| 0 <= i < j < v.len() implies v.departures[i] < v.departures[j] by {
        lemma_departure_increases(gaps, services, draws, i, j);
        assert(v.departures[i] == departure_before(gaps, services, draws, i + 1));
        assert(v.departures[j] == departure_before(gaps, services, draws, j + 1));
    }
}

/// Departures of the samples strictly increase from client `i` to client `j`
/// when the services in between are positive.
proof fn lemma_departure_increases(gaps: Seq<u64>, services: Seq<u64>, draws: Seq<u64>, i: int, j: int)
    requires
        0 <= i < j < services.len(),
        forall|k: int| 0 <= k < services.len() ==> #[trigger] services[k] > 0,
    ensures
        departure_before(gaps, services, draws, i + 1) < departure_before(gaps, services, draws, j + 1),
    decreases j - i,
{
    lemma_departure_step(gaps, services, draws, j);
    assert(services[j] > 0);
    if i + 1 < j {
        lemma_departure_increases(gaps, services, draws, i, j - 1);
    }
}

/// Up to client `i`, the elapsed time splits into service, warm-up and nap
/// time.
proof fn lemma_partition_prefix(v: RunView, gaps: Seq<u64>, services: Seq<u64>, draws: Seq<u64>, i: int)
    requires
        v.follows(gaps, services, draws),
        0 <= i <= v.len(),
    ensures
        prefix_sum(v.services, i) + prefix_sum(v.warmups, i) + prefix_sum(v.nap_times, i)
            == departure_before(gaps, services, draws, i),
    decreases i,
{
    if i > 0 {
        lemma_partition_prefix(v, gaps, services, draws, i - 1);
        assert(v.arrivals[i - 1] == arrival_at(gaps, i - 1));
    }
}

/// Every instant of a run, from the start to the last departure, is spent
/// serving, warming up or switched off, and in exactly one of these: the
/// three probabilities of the server's state have the total time as common
/// denominator and numerators that add up to it.
pub proof fn lemma_time_partition(v: RunView, gaps: Seq<u64>, services: Seq<u64>, draws: Seq<u64>)
    requires
        v.follows(gaps, services, draws),
        v.len() > 0,
    ensures
        v.total_time() == Some(v.departures[v.len() - 1]),
        total(v.services) + total(v.warmups) + total(v.nap_times) == v.departures[v.len() - 1],
{
    let n = v.len() as int;
    lemma_partition_prefix(v, gaps, services, draws, n);
    assert(v.arrivals[n - 1] == arrival_at(gaps, n - 1));
}

} // verus!
