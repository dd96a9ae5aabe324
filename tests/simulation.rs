use queue::measures::{Ratio, StatError};
use queue::simulation::{queue, Simulation};

fn ratio(num: u128, den: u128) -> Ratio {
    Ratio { num, den }
}

/// Deterministic pseudo-random samples in `1..=bound`.
fn samples(seed: u64, n: usize, bound: u64) -> Vec<u64> {
    let mut state = seed;
    let mut v = Vec::new();
    for _ in 0..n {
        state = state
            .wrapping_mul(6364136223846793005)
            .wrapping_add(1442695040888963407);
        v.push((state >> 33) % bound + 1);
    }
    v
}

fn sample_run(seed: u64, n: usize) -> Simulation {
    let gaps = samples(seed, n, 20);
    let services = samples(seed + 1, n, 12);
    let draws = samples(seed + 2, n, 6);
    queue(&gaps, services, &draws)
}

#[test]
fn first_arrival_at_time_zero_takes_busy_branch() {
    let run = queue(&vec![0], vec![5], &vec![7]);
    assert_eq!(run.len(), 1);
    assert_eq!(run.arrivals(), &vec![0]);
    assert_eq!(run.delays(), &vec![0]);
    assert_eq!(run.warmups(), &vec![0]);
    assert_eq!(run.nap_times(), &vec![0]);
    assert_eq!(run.departure_times(), &vec![5]);
    assert_eq!(run.total_time(), Some(5));
}

#[test]
fn idle_server_warms_up_before_serving() {
    let run = queue(&vec![5], vec![3], &vec![2]);
    assert_eq!(run.arrivals(), &vec![5]);
    assert_eq!(run.delays(), &vec![0]);
    assert_eq!(run.warmups(), &vec![2]);
    assert_eq!(run.nap_times(), &vec![5]);
    assert_eq!(run.departure_times(), &vec![10]);
}

#[test]
fn busy_server_delays_next_client() {
    let run = queue(&vec![1, 1], vec![5, 2], &vec![3, 9]);
    assert_eq!(run.arrivals(), &vec![1, 2]);
    assert_eq!(run.delays(), &vec![0, 7]);
    assert_eq!(run.warmups(), &vec![3, 0]);
    assert_eq!(run.nap_times(), &vec![1, 0]);
    assert_eq!(run.services(), &vec![5, 2]);
    assert_eq!(run.departure_times(), &vec![9, 11]);
    assert_eq!(run.total_time(), Some(11));
}

#[test]
fn new_idle_period_draws_a_fresh_warmup() {
    let run = queue(&vec![2, 1, 10], vec![1, 1, 1], &vec![4, 5, 6]);
    assert_eq!(run.arrivals(), &vec![2, 3, 13]);
    assert_eq!(run.delays(), &vec![0, 4, 0]);
    assert_eq!(run.warmups(), &vec![4, 0, 6]);
    assert_eq!(run.nap_times(), &vec![2, 0, 5]);
    assert_eq!(run.departure_times(), &vec![7, 8, 20]);
}

#[test]
fn run_metrics_are_exact() {
    let run = queue(&vec![1, 1], vec![5, 2], &vec![3, 9]);
    assert_eq!(run.avg_service(), Ok(ratio(7, 2)));
    assert_eq!(run.avg_stay(), Ok(ratio(17, 2)));
    assert_eq!(run.probability_server_on(), Ok(ratio(7, 11)));
    assert_eq!(run.probability_server_setup(), Ok(ratio(3, 11)));
    assert_eq!(run.probability_server_off(), Ok(ratio(1, 11)));
    assert_eq!(run.second_order_moment_waiting_delay(), Ok(ratio(49, 2)));
}

#[test]
fn empty_run_has_no_metrics() {
    let run = queue(&vec![], vec![], &vec![]);
    assert_eq!(run.len(), 0);
    assert_eq!(run.total_time(), None);
    let undefined = Err(StatError::DivisionUndefined);
    assert_eq!(run.avg_service(), undefined);
    assert_eq!(run.avg_stay(), undefined);
    assert_eq!(run.probability_server_on(), undefined);
    assert_eq!(run.probability_server_setup(), undefined);
    assert_eq!(run.probability_server_off(), undefined);
    assert_eq!(run.second_order_moment_waiting_delay(), undefined);
}

#[test]
fn zero_total_time_has_no_probabilities() {
    let run = queue(&vec![0], vec![0], &vec![0]);
    assert_eq!(run.total_time(), Some(0));
    let undefined = Err(StatError::DivisionUndefined);
    assert_eq!(run.probability_server_on(), undefined);
    assert_eq!(run.probability_server_setup(), undefined);
    assert_eq!(run.probability_server_off(), undefined);
    assert_eq!(run.avg_service(), Ok(ratio(0, 1)));
}

#[test]
fn new_derives_departures_and_total_time() {
    let run = Simulation::new(
        vec![1, 2],
        vec![0, 3],
        vec![4, 0],
        vec![5, 6],
        vec![1, 0],
    );
    assert_eq!(run.departure_times(), &vec![10, 11]);
    assert_eq!(run.total_time(), Some(11));
    assert_eq!(run.avg_stay(), Ok(ratio(18, 2)));
}

#[test]
fn second_moment_reports_overflow() {
    let max = u64::MAX;
    let run = Simulation::new(
        vec![0, 0],
        vec![max, max],
        vec![0, 0],
        vec![0, 0],
        vec![0, 0],
    );
    assert_eq!(run.second_order_moment_waiting_delay(), Err(StatError::Overflow));
    let single = Simulation::new(vec![0], vec![max], vec![0], vec![0], vec![0]);
    let square = (max as u128) * (max as u128);
    assert_eq!(single.second_order_moment_waiting_delay(), Ok(ratio(square, 1)));
}

#[test]
fn sequences_share_length_and_never_delay_and_warm_up() {
    for seed in 0..20u64 {
        let n = 50 + seed as usize;
        let run = sample_run(seed * 7, n);
        assert_eq!(run.len(), n);
        assert_eq!(run.arrivals().len(), n);
        assert_eq!(run.delays().len(), n);
        assert_eq!(run.warmups().len(), n);
        assert_eq!(run.services().len(), n);
        assert_eq!(run.nap_times().len(), n);
        assert_eq!(run.departure_times().len(), n);
        for i in 0..n {
            assert_eq!(run.delays()[i] * run.warmups()[i], 0);
        }
    }
}

#[test]
fn departures_strictly_increase_with_positive_services() {
    for seed in 0..20u64 {
        let run = sample_run(seed * 11 + 3, 80);
        let departures = run.departure_times();
        for i in 1..departures.len() {
            assert!(departures[i - 1] < departures[i]);
        }
    }
}

#[test]
fn server_state_probabilities_partition_total_time() {
    for seed in 0..20u64 {
        let run = sample_run(seed * 13 + 5, 60);
        let on = run.probability_server_on().unwrap();
        let setup = run.probability_server_setup().unwrap();
        let off = run.probability_server_off().unwrap();
        assert_eq!(on.den, setup.den);
        assert_eq!(on.den, off.den);
        assert_eq!(on.num + setup.num + off.num, on.den);
        let sum = on.num as f64 / on.den as f64
            + setup.num as f64 / setup.den as f64
            + off.num as f64 / off.den as f64;
        assert!((sum - 1.0).abs() < 1e-9);
    }
}
