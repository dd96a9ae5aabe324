use queue::measures::{corrected_variance, sample_mean};
use queue::simulation::queue;
use rand::rngs::StdRng;
use rand::SeedableRng;
use rand_distr::{Distribution, Exp};

const TICKS_PER_UNIT: f64 = 1_000_000.0;

fn draw(rng: &mut StdRng, law: &Exp<f64>, n: usize) -> Vec<u64> {
    (0..n)
        .map(|_| (law.sample(rng) * TICKS_PER_UNIT).round() as u64)
        .collect()
}

/// Sum of the sojourn times of one run of `n` clients, in ticks.
fn sojourn_total(rng: &mut StdRng, n: usize, lambda: f64, mu: f64, theta: f64) -> u64 {
    let gaps = draw(rng, &Exp::new(lambda).unwrap(), n);
    let services = draw(rng, &Exp::new(mu).unwrap(), n);
    let warmups = draw(rng, &Exp::new(theta).unwrap(), n);
    let run = queue(&gaps, services, &warmups);
    let stay = run.avg_stay().unwrap();
    assert_eq!(stay.den, n as u128);
    stay.num as u64
}

#[test]
fn exponential_sojourn_matches_theory() {
    let (lambda, mu, theta) = (1.0, 2.0, 1.0e6);
    let rho = lambda / mu;
    let theoretical = (1.0 / mu) / (1.0 - rho) + 1.0 / theta;
    let (batches, runs, clients) = (40usize, 100usize, 1000usize);
    let mut rng = StdRng::seed_from_u64(20240611);
    let mut accepted = 0;
    for _ in 0..batches {
        let totals: Vec<u64> = (0..runs)
            .map(|_| sojourn_total(&mut rng, clients, lambda, mu, theta))
            .collect();
        let scale = clients as f64 * TICKS_PER_UNIT;
        let mean = sample_mean(&totals).unwrap();
        let mean = mean.num as f64 / mean.den as f64 / scale;
        let variance = corrected_variance(&totals).unwrap();
        let deviation = (variance.num as f64 / variance.den as f64).sqrt() / scale;
        let t = (mean - theoretical) / (deviation / ((runs - 1) as f64).sqrt());
        if -1.96 <= t && t <= 1.96 {
            accepted += 1;
        }
    }
    println!("accepted {} of {}", accepted, batches);
    assert!(accepted as f64 >= 0.85 * batches as f64);
}
