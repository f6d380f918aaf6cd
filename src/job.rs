use vstd::prelude::*;

verus! {

broadcast use vstd::seq_lib::group_to_multiset_ensures;

/// One job in the system.
#[derive(Clone, Copy, Debug, PartialEq, Eq, Structural)]
pub struct Job {
    /// The tick at which the job entered the system; never changes.
    pub arrival_time: u64,
    /// The service the job still needs, as the number of ticks it takes at the
    /// per-slot rate (its remaining work times the number of slots).
    pub remaining: u64,
}

/// The jobs are in non-decreasing order of remaining service.
pub open spec fn sorted_by_remaining(s: Seq<Job>) -> bool {
    forall|i: int, j: int| 0 <= i <= j < s.len() ==> s[i].remaining <= s[j].remaining
}

/// `x` placed into `s` after the last job whose remaining service is at most
/// its own, counting from the back.
pub open spec fn insert_by_remaining(s: Seq<Job>, x: Job) -> Seq<Job>
    decreases s.len(),
{
    if s.len() == 0 || s.last().remaining <= x.remaining {
        s.push(x)
    } else {
        insert_by_remaining(s.drop_last(), x).push(s.last())
    }
}

/// The jobs ordered by remaining service; jobs with equal remaining service
/// stay in their original order.
pub open spec fn sorted_jobs(s: Seq<Job>) -> Seq<Job>
    decreases s.len(),
{
    if s.len() == 0 {
        s
    } else {
        insert_by_remaining(sorted_jobs(s.drop_last()), s.last())
    }
}

/// Inserting past a tail of jobs with more remaining service than `x`
/// leaves that tail after `x`.
proof fn lemma_insert_past_tail(s: Seq<Job>, x: Job, j: int)
    requires
        0 <= j <= s.len(),
        forall|m: int| j <= m < s.len() ==> s[m].remaining > x.remaining,
    ensures
        insert_by_remaining(s, x) == insert_by_remaining(s.take(j), x) + s.skip(j),
    decreases s.len() - j,
{
    if j == s.len() {
        assert(s.take(j) =~= s);
        assert(s.skip(j) =~= Seq::<Job>::empty());
        assert(insert_by_remaining(s, x) + Seq::<Job>::empty() =~= insert_by_remaining(s, x));
    } else {
        let d = s.drop_last();
        lemma_insert_past_tail(d, x, j);
        assert(d.take(j) =~= s.take(j));
        assert(d.skip(j).push(s.last()) =~= s.skip(j));
        assert((insert_by_remaining(d.take(j), x) + d.skip(j)).push(s.last()) =~= insert_by_remaining(
            s.take(j),
            x,
        ) + s.skip(j));
    }
}

/// Reorders the jobs by non-decreasing remaining service, keeping the same
/// jobs. Jobs with equal remaining service keep their relative order.
pub fn sort_by_remaining(jobs: &mut Vec<Job>)
    ensures
        final(jobs)@ == sorted_jobs(old(jobs)@),
        sorted_by_remaining(final(jobs)@),
        final(jobs)@.to_multiset() == old(jobs)@.to_multiset(),
{
    let n = jobs.len();
    let mut i: usize = 0;
    while i < n
        invariant
            n == jobs.len(),
            n == old(jobs)@.len(),
            i <= n,
            sorted_by_remaining(jobs@.take(i as int)),
            jobs@.to_multiset() == old(jobs)@.to_multiset(),
            jobs@.take(i as int) == sorted_jobs(old(jobs)@.take(i as int)),
            jobs@.skip(i as int) == old(jobs)@.skip(i as int),
        decreases n - i,
    {
        assert forall|a: int, b: int| 0 <= a <= b < i implies jobs@[a].remaining
            <= jobs@[b].remaining by {
            assert(jobs@.take(i as int)[a] == jobs@[a]);
            assert(jobs@.take(i as int)[b] == jobs@[b]);
        }
        let ghost before = jobs@;
        let ghost x = before[i as int];
        assert(before =~= before.take(i as int) + seq![x] + before.subrange(i as int, i as int)
            + before.skip(i + 1));
        let mut j: usize = i;
        while j > 0 && jobs[j - 1].remaining > jobs[j].remaining
            invariant
                n == jobs.len(),
                n == before.len(),
                x == before[i as int],
                j <= i < n,
                forall|a: int, b: int|
                    0 <= a <= b <= i && a != j && b != j ==> jobs@[a].remaining
                        <= jobs@[b].remaining,
                forall|b: int| j < b <= i ==> jobs@[j as int].remaining <= jobs@[b].remaining,
                jobs@.to_multiset() == old(jobs)@.to_multiset(),
                jobs@ == before.take(j as int) + seq![x] + before.subrange(j as int, i as int)
                    + before.skip(i + 1),
                forall|m: int| j <= m < i ==> #[trigger] before[m].remaining > x.remaining,
            decreases j,
        {
            let lower = jobs[j - 1];
            let upper = jobs[j];
            let ghost prev = jobs@;
            jobs[j - 1] = upper;
            jobs[j] = lower;
            proof {
                let mid = prev.update(j - 1, upper);
                assert(jobs@ == mid.update(j as int, lower));
                assert(mid.to_multiset() =~= prev.to_multiset().insert(upper).remove(lower));
                assert(jobs@.to_multiset() =~= mid.to_multiset().insert(lower).remove(mid[j as int]));
                assert(jobs@.to_multiset() =~= prev.to_multiset());
                assert(prev[j as int] == x);
                assert(lower == before[j - 1]);
                assert(jobs@ =~= before.take(j - 1) + seq![x] + before.subrange(j - 1, i as int)
                    + before.skip(i + 1));
            }
            j -= 1;
        }
        proof {
            let t = before.take(i as int);
            assert(jobs@[j as int] == x);
            lemma_insert_past_tail(t, x, j as int);
            assert(t.take(j as int) =~= before.take(j as int));
            assert(t.skip(j as int) =~= before.subrange(j as int, i as int));
            if j > 0 {
                assert(jobs@[j - 1] == before[j - 1]);
            }
            assert(insert_by_remaining(before.take(j as int), x) == before.take(j as int).push(x));
            let o = old(jobs)@.take(i + 1);
            assert(o.drop_last() =~= old(jobs)@.take(i as int));
            assert(before.skip(i as int)[0] == old(jobs)@.skip(i as int)[0]);
            assert(o.last() == x);
            assert(jobs@.take(i + 1) =~= before.take(j as int).push(x) + before.subrange(
                j as int,
                i as int,
            ));
            assert(jobs@.skip(i + 1) =~= before.skip(i + 1));
            assert(before.skip(i + 1) =~= before.skip(i as int).skip(1));
            assert(old(jobs)@.skip(i + 1) =~= old(jobs)@.skip(i as int).skip(1));
        }
        i += 1;
    }
    assert(jobs@.take(n as int) =~= jobs@);
    assert(old(jobs)@.take(n as int) =~= old(jobs)@);
}

} // verus!
