use vstd::prelude::*;
use crate::job::{Job, sort_by_remaining, sorted_by_remaining, sorted_jobs};

verus! {

/// Clock ticks in one unit of time; one unit of work takes this many ticks
/// at the full service capacity.
pub const TICKS_PER_UNIT: u64 = 1_000_000_000;

/// A job whose remaining work falls below this many ticks of full-capacity
/// service counts as completed.
pub const COMPLETION_TOLERANCE: u64 = 10;

/// What ended a step: the next arrival, or the completion of an in-service job.
#[derive(Clone, Copy, Debug, PartialEq, Eq, Structural)]
pub enum StepKind {
    Arrival,
    Completion,
}

/// Why a new job could not be admitted.
#[derive(Clone, Copy, Debug, PartialEq, Eq, Structural)]
pub enum AdmitError {
    /// The job's service at the per-slot rate does not fit in a `u64`.
    WorkOverflow,
    /// The next arrival lies beyond the last representable tick.
    ClockOverflow,
    /// The count of jobs seen would no longer fit in a `u64`.
    TooManyJobs,
}

/// The state of one run: the active jobs, the clock and the statistics.
pub struct Simulation {
    /// The number of service slots; each in-service job is served at
    /// `1 / num_servers` of the total capacity.
    pub num_servers: usize,
    /// The jobs in the system.
    pub jobs: Vec<Job>,
    /// The current tick.
    pub clock: u64,
    /// The tick of the next arrival.
    pub next_arrival_time: u64,
    /// How many jobs have completed.
    pub num_completions: u64,
    /// The sum of the response times of the completed jobs, in ticks.
    pub total_response: u128,
}

/// How many jobs are in service: the first `min(k, n)` of `n` jobs.
pub open spec fn in_service_len(k: int, n: int) -> int {
    if k < n {
        k
    } else {
        n
    }
}

/// The least remaining service among the jobs (0 for no job).
pub open spec fn min_remaining(s: Seq<Job>) -> int
    decreases s.len(),
{
    if s.len() == 0 {
        0
    } else if s.len() == 1 {
        s[0].remaining as int
    } else {
        let m = min_remaining(s.drop_last());
        if s.last().remaining < m {
            s.last().remaining as int
        } else {
            m
        }
    }
}

/// Ticks until the first in-service job completes; `None` (never) when no
/// job is present.
pub open spec fn next_completion_of(k: int, s: Seq<Job>) -> Option<int> {
    if s.len() == 0 {
        None
    } else {
        Some(min_remaining(s.take(in_service_len(k, s.len() as int))))
    }
}

/// The first `p` jobs after `e` ticks of service each; the rest unchanged.
pub open spec fn served(s: Seq<Job>, p: int, e: int) -> Seq<Job> {
    Seq::new(
        s.len(),
        |i: int|
            if i < p {
                Job { arrival_time: s[i].arrival_time, remaining: (s[i].remaining - e) as u64 }
            } else {
                s[i]
            },
    )
}

/// The job's remaining work is below the tolerance, with `k` slots.
pub open spec fn is_complete(j: Job, k: int) -> bool {
    j.remaining < COMPLETION_TOLERANCE * k
}

/// The jobs that have not completed, in their order.
pub open spec fn unfinished(s: Seq<Job>, k: int) -> Seq<Job>
    decreases s.len(),
{
    if s.len() == 0 {
        s
    } else if is_complete(s[0], k) {
        unfinished(s.drop_first(), k)
    } else {
        seq![s[0]] + unfinished(s.drop_first(), k)
    }
}

/// How many of the jobs have completed.
pub open spec fn num_finished(s: Seq<Job>, k: int) -> int
    decreases s.len(),
{
    if s.len() == 0 {
        0
    } else {
        (if is_complete(s[0], k) {
            1int
        } else {
            0int
        }) + num_finished(s.drop_first(), k)
    }
}

/// The sum of `t - arrival_time` over the jobs that have completed.
pub open spec fn finished_response(s: Seq<Job>, k: int, t: int) -> int
    decreases s.len(),
{
    if s.len() == 0 {
        0
    } else {
        (if is_complete(s[0], k) {
            t - s[0].arrival_time
        } else {
            0int
        }) + finished_response(s.drop_first(), k, t)
    }
}

/// The least remaining service is that of one of the jobs, and no job has less.
pub proof fn lemma_min_remaining(s: Seq<Job>)
    requires
        s.len() > 0,
    ensures
        exists|i: int| 0 <= i < s.len() && s[i].remaining == min_remaining(s),
        forall|i: int| 0 <= i < s.len() ==> min_remaining(s) <= s[i].remaining,
    decreases s.len(),
{
    if s.len() > 1 {
        lemma_min_remaining(s.drop_last());
        let i = choose|i: int|
            0 <= i < s.drop_last().len() && s.drop_last()[i].remaining == min_remaining(
                s.drop_last(),
            );
        if s.last().remaining >= min_remaining(s.drop_last()) {
            assert(s[i].remaining == min_remaining(s));
        } else {
            assert(s[s.len() - 1].remaining == min_remaining(s));
        }
        assert forall|j: int| 0 <= j < s.len() implies min_remaining(s) <= s[j].remaining by {
            if j < s.len() - 1 {
                assert(s.drop_last()[j] == s[j]);
            }
        }
    } else {
        assert(s[0].remaining == min_remaining(s));
    }
}

/// A job alone in the system is served at `1 / num_servers` of the
/// capacity, whatever the free slots: with no arrival before it finishes,
/// the next step completes it after `num_servers` times its work, and that
/// is its whole response time when it arrived at the current tick.
pub proof fn lemma_lone_job_served_at_slot_rate(s: &Simulation, size: u64)
    requires
        s.wf(),
        s.jobs@ == seq![Job { arrival_time: s.clock, remaining: (size * s.num_servers) as u64 }],
        size * s.num_servers <= u64::MAX,
        size * s.num_servers <= s.time_to_next_arrival(),
    ensures
        !s.is_arrival_step(),
        s.elapsed() == size * s.num_servers,
        num_finished(s.jobs_served().take(s.in_service()), s.num_servers as int) == 1,
        unfinished(s.jobs_served().take(s.in_service()), s.num_servers as int).len() == 0,
        finished_response(
            s.jobs_served().take(s.in_service()),
            s.num_servers as int,
            s.clock + s.elapsed(),
        ) == size * s.num_servers,
{
    let k = s.num_servers as int;
    let sv = s.jobs_served().take(s.in_service());
    assert(s.in_service() == 1);
    assert(s.jobs@.take(1) =~= s.jobs@);
    assert(sv[0].remaining == 0);
    assert(is_complete(sv[0], k));
    assert(sv.drop_first().len() == 0);
    assert(num_finished(sv.drop_first(), k) == 0);
    assert(finished_response(sv.drop_first(), k, s.clock + s.elapsed()) == 0);
    assert(unfinished(sv.drop_first(), k).len() == 0);
}

impl Simulation {
    /// The state's invariant.
    pub open spec fn wf(&self) -> bool {
        &&& self.num_servers >= 1
        &&& self.clock <= self.next_arrival_time
        &&& forall|i: int| 0 <= i < self.jobs.len() ==> #[trigger] self.jobs@[i].arrival_time <= self.clock
        &&& self.num_completions + self.jobs.len() <= u64::MAX
        &&& self.total_response <= self.num_completions * self.clock
    }

    /// How many jobs are in service now.
    pub open spec fn in_service(&self) -> int {
        in_service_len(self.num_servers as int, self.jobs.len() as int)
    }

    /// Ticks until the next arrival.
    pub open spec fn time_to_next_arrival(&self) -> int {
        self.next_arrival_time - self.clock
    }

    /// The next step ends with an arrival: it comes strictly before any
    /// completion (a tie counts as a completion).
    pub open spec fn is_arrival_step(&self) -> bool {
        match next_completion_of(self.num_servers as int, self.jobs@) {
            None => true,
            Some(c) => self.time_to_next_arrival() < c,
        }
    }

    /// The ticks that the next step lasts: until the earlier of the next
    /// arrival and the next completion.
    pub open spec fn elapsed(&self) -> int {
        match next_completion_of(self.num_servers as int, self.jobs@) {
            None => self.time_to_next_arrival(),
            Some(c) => if self.time_to_next_arrival() < c {
                self.time_to_next_arrival()
            } else {
                c
            },
        }
    }

    /// The jobs after the next step's service, before completed ones leave.
    pub open spec fn jobs_served(&self) -> Seq<Job> {
        served(self.jobs@, self.in_service(), self.elapsed())
    }

    /// The work taken off an in-service job in the next step never exceeds
    /// its remaining work, so remaining work never becomes negative.
    pub proof fn lemma_service_within_remaining(&self)
        requires
            self.wf(),
        ensures
            0 <= self.elapsed(),
            forall|i: int|
                0 <= i < self.in_service() ==> self.elapsed() <= #[trigger] self.jobs@[i].remaining,
    {
        if self.jobs.len() > 0 {
            let pre = self.jobs@.take(self.in_service());
            lemma_min_remaining(pre);
            assert forall|i: int| 0 <= i < self.in_service() implies self.elapsed()
                <= #[trigger] self.jobs@[i].remaining by {
                assert(pre[i] == self.jobs@[i]);
            }
        }
    }

    /// Ticks until the first in-service job completes, `None` with no job.
    pub fn next_completion(&self) -> (r: Option<u64>)
        requires
            self.num_servers >= 1,
        ensures
            r matches Some(c) ==> next_completion_of(self.num_servers as int, self.jobs@) == Some(
                c as int,
            ),
            r is None ==> next_completion_of(self.num_servers as int, self.jobs@) is None,
    {
        let n = self.jobs.len();
        if n == 0 {
            return None;
        }
        let p = if self.num_servers < n {
            self.num_servers
        } else {
            n
        };
        let ghost pre = self.jobs@.take(p as int);
        let mut best = self.jobs[0].remaining;
        let mut i: usize = 1;
        assert(pre.take(1).drop_last().len() == 0);
        while i < p
            invariant
                1 <= i <= p <= n,
                n == self.jobs.len(),
                pre == self.jobs@.take(p as int),
                best == min_remaining(pre.take(i as int)),
            decreases p - i,
        {
            assert(pre.take(i + 1).drop_last() =~= pre.take(i as int));
            if self.jobs[i].remaining < best {
                best = self.jobs[i].remaining;
            }
            i += 1;
        }
        assert(pre.take(p as int) =~= pre);
        Some(best)
    }

    /// Begins an iteration: orders the jobs by non-decreasing remaining work,
    /// so that those in service are the ones with the least.
    pub fn sort_jobs(&mut self)
        requires
            old(self).wf(),
        ensures
            final(self).wf(),
            final(self).jobs@ == sorted_jobs(old(self).jobs@),
            sorted_by_remaining(final(self).jobs@),
            sorted_by_remaining(final(self).jobs@.take(final(self).in_service())),
            final(self).jobs@.to_multiset() == old(self).jobs@.to_multiset(),
            final(self).num_servers == old(self).num_servers,
            final(self).clock == old(self).clock,
            final(self).next_arrival_time == old(self).next_arrival_time,
            final(self).num_completions == old(self).num_completions,
            final(self).total_response == old(self).total_response,
    {
        sort_by_remaining(&mut self.jobs);
        proof {
            broadcast use vstd::seq_lib::group_to_multiset_ensures;
            let s = self.jobs@;
            assert forall|i: int| 0 <= i < s.len() implies #[trigger] s[i].arrival_time
                <= self.clock by {
                assert(s.to_multiset().count(s[i]) > 0);
                assert(old(self).jobs@.to_multiset().count(s[i]) > 0);
                assert(old(self).jobs@.contains(s[i]));
                let k = choose|k: int|
                    0 <= k < old(self).jobs@.len() && old(self).jobs@[k] == s[i];
                assert(old(self).jobs@[k].arrival_time <= self.clock);
            }
            assert(s.len() == s.to_multiset().len());
            assert(old(self).jobs@.len() == old(self).jobs@.to_multiset().len());
            let pre = s.take(self.in_service());
            assert forall|i: int, j: int| 0 <= i <= j < pre.len() implies pre[i].remaining
                <= pre[j].remaining by {
                assert(pre[i] == s[i] && pre[j] == s[j]);
            }
        }
    }

    /// Runs an iteration once the jobs are ordered. The step lasts until the earlier of the
    /// next arrival and the next completion among the in-service jobs (the
    /// first `min(num_servers, |jobs|)`); each of those receives that many
    /// ticks of service, whatever the number of jobs present; then the
    /// in-service jobs whose remaining work is below the tolerance leave, and
    /// their response times are added to the statistics.
    pub fn advance(&mut self) -> (kind: StepKind)
        requires
            old(self).wf(),
        ensures
            final(self).wf(),
            kind == StepKind::Arrival <==> old(self).is_arrival_step(),
            final(self).clock == old(self).clock + old(self).elapsed(),
            final(self).jobs@ == unfinished(
                old(self).jobs_served().take(old(self).in_service()),
                old(self).num_servers as int,
            ) + old(self).jobs_served().skip(old(self).in_service()),
            final(self).num_completions == old(self).num_completions + num_finished(
                old(self).jobs_served().take(old(self).in_service()),
                old(self).num_servers as int,
            ),
            final(self).total_response == old(self).total_response + finished_response(
                old(self).jobs_served().take(old(self).in_service()),
                old(self).num_servers as int,
                final(self).clock as int,
            ),
            final(self).num_servers == old(self).num_servers,
            final(self).next_arrival_time == old(self).next_arrival_time,
    {
        proof {
            self.lemma_service_within_remaining();
        }
        let k = self.num_servers;
        let n = self.jobs.len();
        let p = if k < n {
            k
        } else {
            n
        };
        let to_arrival = self.next_arrival_time - self.clock;
        let (elapsed, kind) = match self.next_completion() {
            None => (to_arrival, StepKind::Arrival),
            Some(c) => if to_arrival < c {
                (to_arrival, StepKind::Arrival)
            } else {
                (c, StepKind::Completion)
            },
        };
        let ghost sv = old(self).jobs_served();
        let ghost c0 = self.num_completions as int;
        let ghost r0 = self.total_response as int;
        let old_clock = self.clock;
        self.clock = self.clock + elapsed;
        let ghost t = self.clock as int;
        proof {
            assert(c0 * old_clock <= c0 * t) by (nonlinear_arith)
                requires
                    0 <= c0,
                    old_clock <= t,
            ;
        }
        let mut i: usize = 0;
        while i < p
            invariant
                self.jobs.len() == n,
                n == old(self).jobs.len(),
                i <= p <= n,
                p as int == old(self).in_service(),
                elapsed == old(self).elapsed(),
                sv == old(self).jobs_served(),
                forall|j: int| 0 <= j < i ==> self.jobs@[j] == sv[j],
                forall|j: int| i <= j < n ==> self.jobs@[j] == old(self).jobs@[j],
                forall|j: int| 0 <= j < p ==> elapsed <= #[trigger] old(self).jobs@[j].remaining,
                self.num_servers == k,
                self.clock == t,
                self.next_arrival_time == old(self).next_arrival_time,
                self.num_completions == c0,
                self.total_response == r0,
            decreases p - i,
        {
            let job = self.jobs[i];
            self.jobs[i] = Job {
                arrival_time: job.arrival_time,
                remaining: job.remaining - elapsed,
            };
            i += 1;
        }
        assert(self.jobs@ =~= sv);
        let ghost kk = k as int;
        let ghost pre = sv.take(p as int);
        assert(pre.skip(p as int) =~= Seq::<Job>::empty());
        assert(sv.take(p as int) + Seq::<Job>::empty() + sv.skip(p as int) =~= sv);
        let mut i: usize = p;
        while i > 0
            invariant
                i <= p <= n,
                n == sv.len(),
                pre == sv.take(p as int),
                k >= 1,
                kk == k,
                self.jobs@ == sv.take(i as int) + unfinished(pre.skip(i as int), kk) + sv.skip(
                    p as int,
                ),
                self.num_completions == c0 + num_finished(pre.skip(i as int), kk),
                self.total_response == r0 + finished_response(pre.skip(i as int), kk, t),
                self.num_completions + self.jobs.len() <= u64::MAX,
                self.total_response <= self.num_completions * t,
                forall|j: int|
                    0 <= j < self.jobs.len() ==> #[trigger] self.jobs@[j].arrival_time <= t,
                self.num_servers == k,
                self.clock == t,
                self.next_arrival_time == old(self).next_arrival_time,
            decreases i,
        {
            i -= 1;
            let ghost rest = unfinished(pre.skip(i + 1), kk);
            assert(pre.skip(i as int).drop_first() =~= pre.skip(i + 1));
            assert(pre.skip(i as int)[0] == sv[i as int]);
            assert(sv.take(i + 1) =~= sv.take(i as int).push(sv[i as int]));
            assert(self.jobs@[i as int] == sv[i as int]);
            let job = self.jobs[i];
            proof {
                let x = job.remaining as int;
                let d = k as int;
                vstd::arithmetic::div_mod::lemma_fundamental_div_mod(x, d);
                vstd::arithmetic::div_mod::lemma_mod_pos_bound(x, d);
                let q = x / d;
                let r = x % d;
                assert(q < 10 <==> x < 10 * d) by (nonlinear_arith)
                    requires
                        x == d * q + r,
                        0 <= r < d,
                        0 <= q,
                ;
            }
            if job.remaining / (k as u64) < COMPLETION_TOLERANCE {
                let ghost before = self.jobs@;
                self.jobs.remove(i);
                assert(self.jobs@ =~= sv.take(i as int) + rest + sv.skip(p as int));
                assert forall|j: int| 0 <= j < self.jobs.len() implies #[trigger] self.jobs@[j].arrival_time <= t by {
                    if j < i {
                        assert(self.jobs@[j] == before[j]);
                    } else {
                        assert(self.jobs@[j] == before[j + 1]);
                    }
                }
                let ghost c = self.num_completions as int;
                assert(before[i as int].arrival_time <= t);
                proof {
                    assert((c + 1) * t == c * t + t) by (nonlinear_arith);
                    assert((c + 1) * t <= 0xffff_ffff_ffff_ffffint * 0xffff_ffff_ffff_ffffint) by (nonlinear_arith)
                        requires
                            0 <= c + 1 <= 0xffff_ffff_ffff_ffffint,
                            0 <= t <= 0xffff_ffff_ffff_ffffint,
                    ;
                }
                self.total_response = self.total_response + (self.clock - job.arrival_time) as u128;
                self.num_completions = self.num_completions + 1;
            } else {
                assert(self.jobs@ =~= sv.take(i as int) + unfinished(pre.skip(i as int), kk)
                    + sv.skip(p as int));
            }
        }
        assert(pre.skip(0) =~= pre);
        assert(sv.take(0) + unfinished(pre.skip(0), kk) + sv.skip(p as int) =~= unfinished(
            pre,
            kk,
        ) + sv.skip(p as int));
        kind
    }

    /// Completes an arrival step: a job with `size` ticks of work arrives at
    /// the current tick, and the next arrival is set `gap` ticks later. The
    /// job's remaining service is its size times the number of slots, the
    /// time it takes at the per-slot rate. Fails, changing nothing, when a
    /// quantity would not fit.
    pub fn arrive(&mut self, size: u64, gap: u64) -> (r: Result<(), AdmitError>)
        requires
            old(self).wf(),
        ensures
            final(self).wf(),
            r == Err::<(), AdmitError>(AdmitError::WorkOverflow) <==> size * old(self).num_servers
                > u64::MAX,
            r == Err::<(), AdmitError>(AdmitError::ClockOverflow) <==> size * old(self).num_servers
                <= u64::MAX && old(self).clock + gap > u64::MAX,
            r == Err::<(), AdmitError>(AdmitError::TooManyJobs) <==> size * old(self).num_servers
                <= u64::MAX && old(self).clock + gap <= u64::MAX && old(self).num_completions
                + old(self).jobs.len() >= u64::MAX,
            r is Ok ==> final(self).jobs@ == old(self).jobs@.push(
                (Job {
                    arrival_time: old(self).clock,
                    remaining: (size * old(self).num_servers) as u64,
                }),
            ),
            r is Ok ==> final(self).next_arrival_time == old(self).clock + gap,
            r is Err ==> *final(self) == *old(self),
            final(self).num_servers == old(self).num_servers,
            final(self).clock == old(self).clock,
            final(self).num_completions == old(self).num_completions,
            final(self).total_response == old(self).total_response,
    {
        let k = self.num_servers as u64;
        let work = match size.checked_mul(k) {
            Some(w) => w,
            None => return Err(AdmitError::WorkOverflow),
        };
        let next = match self.clock.checked_add(gap) {
            Some(t) => t,
            None => return Err(AdmitError::ClockOverflow),
        };
        if self.num_completions >= u64::MAX - self.jobs.len() as u64 {
            return Err(AdmitError::TooManyJobs);
        }
        self.jobs.push(Job { arrival_time: self.clock, remaining: work });
        self.next_arrival_time = next;
        Ok(())
    }

    /// A run with `num_servers` slots, no job, the clock at 0 and the first
    /// arrival at `first_gap`.
    pub fn new(num_servers: usize, first_gap: u64) -> (r: Simulation)
        requires
            num_servers >= 1,
        ensures
            r.wf(),
            r.num_servers == num_servers,
            r.jobs@.len() == 0,
            r.clock == 0,
            r.next_arrival_time == first_gap,
            r.num_completions == 0,
            r.total_response == 0,
    {
        Simulation {
            num_servers,
            jobs: Vec::new(),
            clock: 0,
            next_arrival_time: first_gap,
            num_completions: 0,
            total_response: 0,
        }
    }
}

} // verus!
