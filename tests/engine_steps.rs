use lps_sim::engine::{AdmitError, Simulation, StepKind};
use lps_sim::job::{sort_by_remaining, Job};

fn job(arrival_time: u64, remaining: u64) -> Job {
    Job { arrival_time, remaining }
}

/// A run with one slot whose first job (of `size` ticks) arrives at tick 100,
/// with the next arrival `gap` ticks later.
fn one_job(num_servers: usize, size: u64, gap: u64) -> Simulation {
    let mut sim = Simulation::new(num_servers, 100);
    assert_eq!(sim.advance(), StepKind::Arrival);
    assert_eq!(sim.arrive(size, gap), Ok(()));
    sim
}

#[test]
fn sort_orders_by_remaining_and_keeps_ties_in_place() {
    let mut jobs = vec![job(0, 30), job(1, 10), job(2, 20), job(3, 10), job(4, 0)];
    sort_by_remaining(&mut jobs);
    assert_eq!(jobs, vec![job(4, 0), job(1, 10), job(3, 10), job(2, 20), job(0, 30)]);
}

#[test]
fn sort_of_empty_and_single() {
    let mut empty: Vec<Job> = vec![];
    sort_by_remaining(&mut empty);
    assert!(empty.is_empty());
    let mut one = vec![job(7, 3)];
    sort_by_remaining(&mut one);
    assert_eq!(one, vec![job(7, 3)]);
}

#[test]
fn new_run_is_empty() {
    let sim = Simulation::new(3, 42);
    assert_eq!(sim.num_servers, 3);
    assert!(sim.jobs.is_empty());
    assert_eq!(sim.clock, 0);
    assert_eq!(sim.next_arrival_time, 42);
    assert_eq!(sim.num_completions, 0);
    assert_eq!(sim.total_response, 0);
    assert_eq!(sim.next_completion(), None);
}

#[test]
fn empty_system_steps_to_the_arrival() {
    let mut sim = Simulation::new(2, 250);
    assert_eq!(sim.advance(), StepKind::Arrival);
    assert_eq!(sim.clock, 250);
    assert_eq!(sim.num_completions, 0);
}

#[test]
fn arrival_scales_work_by_slot_count() {
    let sim = one_job(3, 1000, 500);
    assert_eq!(sim.jobs, vec![job(100, 3000)]);
    assert_eq!(sim.next_arrival_time, 600);
}

#[test]
fn next_completion_looks_only_at_the_in_service_prefix() {
    let mut sim = Simulation::new(2, 1_000_000);
    sim.jobs = vec![job(0, 50), job(0, 40), job(0, 10)];
    assert_eq!(sim.next_completion(), Some(40));
    sim.sort_jobs();
    assert_eq!(sim.jobs, vec![job(0, 10), job(0, 40), job(0, 50)]);
    assert_eq!(sim.next_completion(), Some(10));
}

#[test]
fn single_job_completes_after_its_size() {
    let mut sim = one_job(1, 1000, 5000);
    sim.sort_jobs();
    assert_eq!(sim.advance(), StepKind::Completion);
    assert_eq!(sim.clock, 1100);
    assert!(sim.jobs.is_empty());
    assert_eq!(sim.num_completions, 1);
    assert_eq!(sim.total_response, 1000);
}

#[test]
fn lone_job_with_four_slots_takes_four_times_as_long() {
    let mut sim = one_job(4, 1000, 1_000_000);
    sim.sort_jobs();
    assert_eq!(sim.advance(), StepKind::Completion);
    assert_eq!(sim.clock, 4100);
    assert_eq!(sim.num_completions, 1);
    assert_eq!(sim.total_response, 4000);
}

#[test]
fn tie_between_arrival_and_completion_is_a_completion() {
    let mut sim = one_job(1, 1000, 1000);
    sim.sort_jobs();
    assert_eq!(sim.advance(), StepKind::Completion);
    assert_eq!(sim.clock, 1100);
    assert_eq!(sim.num_completions, 1);
    assert_eq!(sim.next_arrival_time, 1100);
    assert_eq!(sim.advance(), StepKind::Arrival);
    assert_eq!(sim.clock, 1100);
}

#[test]
fn arrival_step_serves_without_completing() {
    let mut sim = one_job(2, 1000, 300);
    sim.sort_jobs();
    assert_eq!(sim.advance(), StepKind::Arrival);
    assert_eq!(sim.clock, 400);
    assert_eq!(sim.jobs, vec![job(100, 1700)]);
    assert_eq!(sim.num_completions, 0);
}

#[test]
fn only_the_shortest_jobs_are_served() {
    let mut sim = Simulation::new(2, 1_000);
    sim.jobs = vec![job(0, 900), job(0, 100), job(0, 500)];
    sim.sort_jobs();
    assert_eq!(sim.advance(), StepKind::Completion);
    assert_eq!(sim.clock, 100);
    assert_eq!(sim.jobs, vec![job(0, 400), job(0, 900)]);
    assert_eq!(sim.num_completions, 1);
    assert_eq!(sim.total_response, 100);
}

#[test]
fn work_below_tolerance_completes_on_an_arrival_step() {
    let mut sim = one_job(1, 15, 6);
    sim.sort_jobs();
    assert_eq!(sim.advance(), StepKind::Arrival);
    assert_eq!(sim.clock, 106);
    assert!(sim.jobs.is_empty());
    assert_eq!(sim.num_completions, 1);
    assert_eq!(sim.total_response, 6);
}

#[test]
fn simultaneous_completions_are_all_counted() {
    let mut sim = Simulation::new(2, 10_000);
    sim.jobs = vec![job(0, 300), job(0, 300), job(0, 300)];
    sim.sort_jobs();
    assert_eq!(sim.advance(), StepKind::Completion);
    assert_eq!(sim.clock, 300);
    assert_eq!(sim.jobs, vec![job(0, 300)]);
    assert_eq!(sim.num_completions, 2);
    assert_eq!(sim.total_response, 600);
}

#[test]
fn arrival_rejects_work_overflow() {
    let mut sim = Simulation::new(2, 5);
    sim.advance();
    assert_eq!(sim.arrive(u64::MAX, 1), Err(AdmitError::WorkOverflow));
    assert!(sim.jobs.is_empty());
    assert_eq!(sim.next_arrival_time, 5);
}

#[test]
fn arrival_rejects_clock_overflow() {
    let mut sim = Simulation::new(1, u64::MAX);
    sim.advance();
    assert_eq!(sim.clock, u64::MAX);
    assert_eq!(sim.arrive(10, 1), Err(AdmitError::ClockOverflow));
    assert!(sim.jobs.is_empty());
}

#[test]
fn arrival_rejects_too_many_jobs() {
    let mut sim = Simulation::new(1, 5);
    sim.num_completions = u64::MAX;
    assert_eq!(sim.arrive(10, 1), Err(AdmitError::TooManyJobs));
    assert!(sim.jobs.is_empty());
}
