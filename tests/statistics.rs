use lps_sim::engine::{Simulation, StepKind, TICKS_PER_UNIT};
use rand::rngs::StdRng;
use rand::{Rng, SeedableRng};
use rand_distr::{Distribution, Exp};

fn to_ticks(x: f64) -> u64 {
    (x * TICKS_PER_UNIT as f64).round() as u64
}

/// Mean response time of a run with exponential job sizes of mean 1, drawn
/// as a two-phase mixture whose phases are equal.
fn mean_response(num_servers: usize, num_jobs: u64, rho: f64, seed: u64) -> f64 {
    let mut rng = StdRng::seed_from_u64(seed);
    let arrival_dist = Exp::new(rho).unwrap();
    let size_dist = Exp::new(1.0).unwrap();
    let mut sim = Simulation::new(num_servers, to_ticks(arrival_dist.sample(&mut rng)));
    while sim.num_completions < num_jobs {
        sim.sort_jobs();
        if sim.advance() == StepKind::Arrival {
            let _phase: f64 = rng.gen();
            let size = to_ticks(size_dist.sample(&mut rng));
            let gap = to_ticks(arrival_dist.sample(&mut rng));
            sim.arrive(size, gap).unwrap();
        }
    }
    sim.total_response as f64 / TICKS_PER_UNIT as f64 / num_jobs as f64
}

#[test]
fn same_seed_gives_the_same_result() {
    let a = mean_response(2, 20_000, 0.7, 7);
    let b = mean_response(2, 20_000, 0.7, 7);
    assert_eq!(a.to_bits(), b.to_bits());
}

#[test]
fn response_grows_with_load() {
    let rhos = [0.1, 0.3, 0.5, 0.7, 0.9];
    let results: Vec<f64> = rhos.iter().map(|&rho| mean_response(1, 100_000, rho, 42)).collect();
    println!("{:?}", results);
    for w in results.windows(2) {
        assert!(w[0] < w[1], "{:?}", results);
    }
}

/// With one slot the discipline is preemptive shortest-remaining-work, which
/// beats first-come-first-served: the mean response lies between the mean
/// job size and the M/M/1 value `1 / (1 - rho)`.
#[test]
fn light_load_below_fcfs_closed_form() {
    let r = mean_response(1, 1_000_000, 0.5, 42);
    assert!(r > 1.0 && r < 2.0 - 0.1, "{}", r);
}

#[test]
fn low_load_below_fcfs_closed_form() {
    let r = mean_response(1, 1_000_000, 0.1, 42);
    assert!(r > 1.0 && r < 1.111 - 0.02, "{}", r);
}

#[test]
fn four_slots_slow_a_lone_job_fourfold() {
    let one = mean_response(1, 100_000, 0.001, 3);
    let four = mean_response(4, 100_000, 0.001, 3);
    println!("{} {}", one, four);
    assert!((four / one - 4.0).abs() < 0.1, "{} {}", one, four);
}
