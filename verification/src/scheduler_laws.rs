//! What the scheduler promises: who is admitted, who is counted, and what a departure
//! changes.

use crate::double;
use crate::scheduler;
use crate::scheduler::{Fate, JobView, Priority, SchedulerStats, SchedulerView, Stage};
use vstd::prelude::*;

verus! {

/// A high priority is above a normal one, which is above a low one.
pub proof fn priorities_are_ordered(a: Priority, b: Priority)
    ensures
        a.level() > b.level() <==> (a is High && !(b is High)) || (a is Normal && b is Low),
        a.level() == b.level() <==> a == b,
{
}

/// A name stands for a priority whatever its capitals, and only for the one that it spells.
/// No name at all stands for the normal one.
pub proof fn priorities_go_by_their_names(name: Seq<char>)
    ensures
        Priority::named(name) == Some(Priority::Low) <==> scheduler::lowered(name) == "low"@,
        Priority::named(name) == Some(Priority::High) <==> scheduler::lowered(name) == "high"@,
        Priority::named(name) == Some(Priority::Normal) <==> scheduler::lowered(name) == "normal"@
            || name.len() == 0,
        Priority::named(name) is None <==> scheduler::lowered(name) != "low"@
            && scheduler::lowered(name) != "normal"@ && scheduler::lowered(name) != "high"@
            && name.len() > 0,
{
    reveal_strlit("low");
    reveal_strlit("normal");
    reveal_strlit("high");
    reveal_strlit("");
    assert("low"@.len() == 3 && "normal"@.len() == 6 && "high"@.len() == 4 && ""@.len() == 0);
    assert(scheduler::lowered(name).len() == name.len());
    if name.len() == 0 {
        assert(scheduler::lowered(name) =~= ""@);
    }
}

/// A request counts for its own user, and for no other; it waits or it runs; it decodes once
/// its prompt is in; and it is withdrawn where it waits and its client is gone.
pub proof fn requests_are_told_apart(j: JobView, user: Seq<char>, gone: Seq<u64>)
    ensures
        scheduler::of_user(user)(j) <==> j.user == user,
        scheduler::waits()(j) <==> j.stage == Stage::Waiting,
        scheduler::runs()(j) <==> j.stage == Stage::Prefilling || j.stage == Stage::Decoding,
        scheduler::decodes()(j) <==> j.stage == Stage::Decoding,
        scheduler::deserted(gone)(j) <==> j.stage == Stage::Waiting && gone.contains(j.ticket),
        scheduler::stays(gone)(j) <==> j.stage != Stage::Waiting || !gone.contains(j.ticket),
{
}

/// A count grows by one with every request that it is about, and by nothing with any other.
pub proof fn counts_count(jobs: Seq<JobView>, j: JobView, p: spec_fn(JobView) -> bool)
    ensures
        scheduler::count(Seq::empty(), p) == 0,
        p(j) ==> scheduler::count(jobs.push(j), p) == scheduler::count(jobs, p) + 1,
        !p(j) ==> scheduler::count(jobs.push(j), p) == scheduler::count(jobs, p),
{
    scheduler::count_push(jobs, j, p);
}

/// At least one request may run and at least one may wait, and otherwise as many as the
/// configuration says.
pub proof fn limits_are_configured(v: SchedulerView)
    ensures
        v.config.max_concurrent > 0 ==> v.max_active() == v.config.max_concurrent,
        v.config.max_concurrent == 0 ==> v.max_active() == 1,
        v.config.queue_capacity > 0 ==> v.capacity() == v.config.queue_capacity,
        v.config.queue_capacity == 0 ==> v.capacity() == 1,
{
}

/// The request to admit next waits, no waiting request has a higher priority, and no older one
/// has the same.
pub proof fn the_next_request_is_the_most_urgent(v: SchedulerView, i: int, j: int)
    requires
        v.is_next(i),
        0 <= j < v.jobs.len(),
        v.jobs[j].stage == Stage::Waiting,
    ensures
        v.jobs[i].stage == Stage::Waiting,
        v.jobs[j].priority is High ==> v.jobs[i].priority is High,
        v.jobs[j].priority is Normal ==> !(v.jobs[i].priority is Low),
        v.jobs[j].priority == v.jobs[i].priority ==> i <= j,
{
}

/// An admitted request goes on to its prompt, and nothing else changes.
pub proof fn admissions_move_one_request(v: SchedulerView, k: nat, ticket: u64)
    requires
        v.admission(k, ticket),
    ensures
        ({
            let (before, after) = (v.after_admitting(k), v.after_admitting(k + 1));
            let at = before.next();
            &&& 0 <= at < before.jobs.len()
            &&& before.jobs[at].ticket == ticket
            &&& before.jobs[at].stage == Stage::Waiting
            &&& after.jobs.len() == before.jobs.len()
            &&& after.jobs[at] == (JobView { stage: Stage::Prefilling, ..before.jobs[at] })
            &&& forall|i: int|
                0 <= i < after.jobs.len() && i != at ==> #[trigger] after.jobs[i] == before.jobs[i]
            &&& after.stats == before.stats && after.config == before.config
            &&& after.next_ticket == before.next_ticket && after.closed == before.closed
        }),
        v.after_admitting(0) == v,
{
}

/// A request that leaves is gone, and nobody else is: the others keep their order and their
/// stages.
pub proof fn a_departure_takes_one_out(v: SchedulerView, ticket: u64, other: u64)
    requires
        v.wf(),
        v.has(ticket),
    ensures
        !v.dropped(ticket).has(ticket),
        v.dropped(ticket).jobs.len() + 1 == v.jobs.len(),
        other != ticket && v.has(other) ==> v.dropped(ticket).has(other),
        forall|i: int|
            0 <= i < v.dropped(ticket).jobs.len() ==> v.jobs.contains(
                #[trigger] v.dropped(ticket).jobs[i],
            ),
        v.dropped(ticket).stats == v.stats,
        v.dropped(ticket).config == v.config,
        v.dropped(ticket).next_ticket == v.next_ticket,
        v.dropped(ticket).closed == v.closed,
{
    let at = v.place(ticket);
    assert(v.jobs[at].ticket == ticket);
    let w = v.dropped(ticket);
    assert forall|i: int| 0 <= i < w.jobs.len() implies (#[trigger] w.jobs[i]).ticket != ticket
        && v.jobs.contains(w.jobs[i]) by {
        let a = if i < at {
            i
        } else {
            i + 1
        };
        assert(w.jobs[i] == v.jobs[a]);
        if a < at {
            assert(v.jobs[a].ticket < v.jobs[at].ticket);
        } else {
            assert(v.jobs[at].ticket < v.jobs[a].ticket);
        }
    }
    if other != ticket && v.has(other) {
        let i = v.place(other);
        assert(v.jobs[i].ticket == other);
        let b = if i < at {
            i
        } else {
            i - 1
        };
        assert(w.jobs[b] == v.jobs[i]);
    }
}

/// Every way out has a counter of its own, which grows by one; the others stay.
pub proof fn departures_are_counted_apart(v: SchedulerView)
    ensures
        ({
            let s = v.stats;
            &&& v.counted_cancelled() == v.with_stats(
                SchedulerStats { cancelled: s.cancelled.wrapping_add(1), ..s },
            )
            &&& v.counted_timed_out() == v.with_stats(
                SchedulerStats { timed_out: s.timed_out.wrapping_add(1), ..s },
            )
            &&& v.counted_failed() == v.with_stats(
                SchedulerStats { failed: s.failed.wrapping_add(1), ..s },
            )
            &&& v.counted_completed() == v.with_stats(
                SchedulerStats { completed: s.completed.wrapping_add(1), ..s },
            )
            &&& s.cancelled < u64::MAX ==> v.counted_cancelled().stats.cancelled == s.cancelled + 1
            &&& s.timed_out < u64::MAX ==> v.counted_timed_out().stats.timed_out == s.timed_out + 1
            &&& s.failed < u64::MAX ==> v.counted_failed().stats.failed == s.failed + 1
            &&& s.completed < u64::MAX ==> v.counted_completed().stats.completed == s.completed + 1
            &&& v.counted_cancelled().jobs == v.jobs && v.counted_timed_out().jobs == v.jobs
            &&& v.counted_failed().jobs == v.jobs && v.counted_completed().jobs == v.jobs
        }),
{
}

/// A request runs on exactly where it was not cancelled, its client is there and its time is
/// not up. A cancellation is told before a lost client, and that before a timeout.
pub proof fn fates_follow_their_causes(cancelled: bool, closed: bool, expired: bool)
    ensures
        Fate::of(cancelled, closed, expired) is Runs <==> !cancelled && !closed && !expired,
        Fate::of(cancelled, closed, expired) is Cancelled <==> cancelled,
        Fate::of(cancelled, closed, expired) is Gone <==> closed && !cancelled,
        Fate::of(cancelled, closed, expired) is TimedOut <==> expired && !cancelled && !closed,
{
}

/// Three parts of an average are old and one is new: the weights are three quarters and a
/// quarter, and the first sample is the average.
pub proof fn averages_weigh_three_to_one(average: (nat, int), sample: (nat, int))
    ensures
        scheduler::averaged(None, sample) == sample,
        scheduler::averaged(Some(average), sample) == double::at_most_largest(
            double::sum(
                double::product(average, (6_755_399_441_055_744, -53)),
                double::product(sample, (4_503_599_627_370_496, -54)),
            ),
        ),
        4 * 6_755_399_441_055_744 == 3 * 0x20_0000_0000_0000,
        4 * 4_503_599_627_370_496 == 0x40_0000_0000_0000,
{
}

/// A whole number of seconds is that number, and any other time is its whole seconds and the
/// nanoseconds over a thousand million.
pub proof fn seconds_are_seconds(k: nat, rest: nat)
    requires
        rest < 1_000_000_000,
    ensures
        scheduler::seconds(k * 1_000_000_000 + rest) == double::sum(
            double::rounded(k, 0),
            double::quotient(double::rounded(rest, 0), double::rounded(1_000_000_000, 0)),
        ),
{
    assert((k * 1_000_000_000 + rest) / 1_000_000_000 == k);
    assert((k * 1_000_000_000 + rest) % 1_000_000_000 == rest);
}

} // verus!
