//! Multi-user scheduler: priority queue, bounded concurrency, cancellation, timeouts.
//!
//! A request is in the system from the moment it is accepted until it is dropped, on
//! whatever path: completed, failed, timed out, cancelled, or because the client hung
//! up. What a user may have outstanding is counted over the requests in the system,
//! so a slot comes back with the request that held it.
//!
//! Requests wait until a decode slot frees up, so a high-priority request that arrives
//! while the machine is busy runs before the low-priority ones queued ahead of it.

use crate::cache::kv;
use crate::double;
use crate::double::Double;
use crate::runtime::StopReason;
use crate::text;
use crate::text::{ascii_lowercase, same_text};
use crate::types::{GarudaError, Token};
use vstd::prelude::*;
use vstd::string::*;

verus! {

#[derive(Debug, Clone, Copy, PartialEq, Eq, PartialOrd, Ord, Structural)]
pub enum Priority {
    Low,
    Normal,
    High,
}

impl Default for Priority {
    fn default() -> (p: Self)
        ensures
            p == Priority::Normal,
    {
        Priority::Normal
    }
}

pub open spec fn lowered(s: Seq<char>) -> Seq<char> {
    s.map_values(|c: char| text::lower_char(c))
}

impl Priority {
    pub open spec fn level(self) -> int {
        match self {
            Priority::Low => 0,
            Priority::Normal => 1,
            Priority::High => 2,
        }
    }

    /// The priority that a name stands for, capitals or not; no name is normal.
    pub open spec fn named(name: Seq<char>) -> Option<Priority> {
        if lowered(name) == "low"@ {
            Some(Priority::Low)
        } else if lowered(name) == "normal"@ || lowered(name) == ""@ {
            Some(Priority::Normal)
        } else if lowered(name) == "high"@ {
            Some(Priority::High)
        } else {
            None
        }
    }

    fn rank(&self) -> (n: u8)
        ensures
            n == self.level(),
    {
        match self {
            Priority::Low => 0,
            Priority::Normal => 1,
            Priority::High => 2,
        }
    }

    /// Reads a priority by its name.
    pub fn parse(name: &str) -> (r: Result<Priority, GarudaError>)
        ensures
            match r {
                Ok(p) => Priority::named(name@) == Some(p),
                Err(e) => Priority::named(name@) is None && (e matches GarudaError::Config(m) && m@
                    == "unknown priority '"@ + lowered(name@)
                    + "' (expected low, normal or high)"@),
            },
            r is Ok <==> lowered(name@) == "low"@ || lowered(name@) == "normal"@ || lowered(name@)
                == "high"@ || name@.len() == 0,
    {
        let lower = ascii_lowercase(name);
        proof {
            reveal_strlit("");
            if name@.len() == 0 {
                assert(lowered(name@) =~= ""@);
            } else {
                assert(lowered(name@).len() > 0);
            }
        }
        if same_text(lower.as_str(), "low") {
            return Ok(Priority::Low);
        }
        if same_text(lower.as_str(), "normal") || same_text(lower.as_str(), "") {
            return Ok(Priority::Normal);
        }
        if same_text(lower.as_str(), "high") {
            return Ok(Priority::High);
        }
        let mut m = "unknown priority '".to_owned();
        m.append(lower.as_str());
        m.append("' (expected low, normal or high)");
        Err(GarudaError::Config(m))
    }
}

impl std::str::FromStr for Priority {
    type Err = GarudaError;

    fn from_str(s: &str) -> Result<Self, GarudaError> {
        Priority::parse(s)
    }
}

/// Set when the client goes away, checked between tokens. There is one flag to a request:
/// whoever may cancel it and whoever runs it reach the same one, so it cannot be copied.
#[derive(Debug, PartialEq, Eq)]
pub struct CancelFlag {
    cancelled: bool,
}

impl Default for CancelFlag {
    fn default() -> (f: Self)
        ensures
            !f.raised(),
    {
        CancelFlag { cancelled: false }
    }
}

impl CancelFlag {
    pub closed spec fn raised(self) -> bool {
        self.cancelled
    }

    /// Stop generation. Idempotent.
    pub fn cancel(&mut self)
        ensures
            final(self).raised(),
            old(self).raised() ==> *final(self) == *old(self),
    {
        self.cancelled = true;
    }

    pub fn is_cancelled(&self) -> (r: bool)
        ensures
            r == self.raised(),
    {
        self.cancelled
    }
}

/// One event on a request's output stream.
#[derive(Debug, PartialEq)]
pub enum StreamEvent {
    Token(Token),
    Done(StopReason),
    Error(GarudaError),
}

#[derive(Debug, Clone, Copy, PartialEq, Eq)]
pub struct SchedulerConfig {
    /// Sequences decoding at once.
    pub max_concurrent: usize,
    /// Tokens to guess ahead when only one sequence is decoding. Zero disables it.
    pub speculative_lookahead: usize,
    /// Requests that may wait for a decode slot before submissions are refused.
    pub queue_capacity: usize,
    /// Concurrent requests one user may have in the system.
    pub max_concurrent_per_user: usize,
}

impl Default for SchedulerConfig {
    fn default() -> (c: Self)
        ensures
            c.max_concurrent == 4,
            c.speculative_lookahead == 4,
            c.queue_capacity == 256,
            c.max_concurrent_per_user == 8,
    {
        SchedulerConfig {
            max_concurrent: 4,
            speculative_lookahead: 4,
            queue_capacity: 256,
            max_concurrent_per_user: 8,
        }
    }
}

#[derive(Debug, Clone, Copy, PartialEq, Eq)]
pub struct SchedulerStats {
    pub submitted: u64,
    pub completed: u64,
    pub cancelled: u64,
    pub timed_out: u64,
    pub failed: u64,
    pub rejected_busy: u64,
    pub rejected_rate_limit: u64,
}

impl Default for SchedulerStats {
    fn default() -> (s: Self)
        ensures
            s == (SchedulerStats {
                submitted: 0,
                completed: 0,
                cancelled: 0,
                timed_out: 0,
                failed: 0,
                rejected_busy: 0,
                rejected_rate_limit: 0,
            }),
    {
        SchedulerStats {
            submitted: 0,
            completed: 0,
            cancelled: 0,
            timed_out: 0,
            failed: 0,
            rejected_busy: 0,
            rejected_rate_limit: 0,
        }
    }
}

/// How far a request in the system has come.
#[derive(Debug, Clone, Copy, PartialEq, Eq, Structural)]
pub enum Stage {
    /// Waiting for a decode slot.
    Waiting,
    /// Admitted, its prompt still going in.
    Prefilling,
    /// Admitted and decoding.
    Decoding,
}

/// A request in the system.
#[derive(Debug)]
struct Job {
    ticket: u64,
    user: String,
    priority: Priority,
    stage: Stage,
}

#[verifier::ext_equal]
pub struct JobView {
    pub ticket: u64,
    pub user: Seq<char>,
    pub priority: Priority,
    pub stage: Stage,
}

impl Job {
    spec fn view(&self) -> JobView {
        JobView {
            ticket: self.ticket,
            user: self.user@,
            priority: self.priority,
            stage: self.stage,
        }
    }
}

/// How many of `jobs` satisfy `p`.
pub open spec fn count(jobs: Seq<JobView>, p: spec_fn(JobView) -> bool) -> nat
    decreases jobs.len(),
{
    if jobs.len() == 0 {
        0
    } else {
        count(jobs.drop_last(), p) + if p(jobs.last()) {
            1nat
        } else {
            0
        }
    }
}

pub open spec fn of_user(user: Seq<char>) -> spec_fn(JobView) -> bool {
    |j: JobView| j.user == user
}

pub open spec fn waits() -> spec_fn(JobView) -> bool {
    |j: JobView| j.stage == Stage::Waiting
}

pub open spec fn runs() -> spec_fn(JobView) -> bool {
    |j: JobView| j.stage != Stage::Waiting
}

pub open spec fn decodes() -> spec_fn(JobView) -> bool {
    |j: JobView| j.stage == Stage::Decoding
}

/// A waiting request whose client is among the `gone`.
pub open spec fn deserted(gone: Seq<u64>) -> spec_fn(JobView) -> bool {
    |j: JobView| j.stage == Stage::Waiting && gone.contains(j.ticket)
}

pub open spec fn stays(gone: Seq<u64>) -> spec_fn(JobView) -> bool {
    |j: JobView| !(j.stage == Stage::Waiting && gone.contains(j.ticket))
}

/// The scheduler as contracts speak of it. Requests are in order of arrival.
#[verifier::ext_equal]
pub struct SchedulerView {
    pub config: SchedulerConfig,
    pub jobs: Seq<JobView>,
    pub next_ticket: u64,
    pub closed: bool,
    pub stats: SchedulerStats,
    /// Requests lost with a decode worker that died.
    pub lost: u64,
}

/// Two to the sixty-fourth: where the counters start over.
pub const WRAP: u128 = 0x1_0000_0000_0000_0000;

impl SchedulerView {
    pub open spec fn max_active(self) -> nat {
        kv::at_least_one(self.config.max_concurrent as nat)
    }

    pub open spec fn capacity(self) -> nat {
        kv::at_least_one(self.config.queue_capacity as nat)
    }

    /// What every operation keeps: requests are in order of arrival, nobody has more
    /// requests than allowed, no more wait and no more run than allowed, and every
    /// request that was ever accepted is in the system or was counted on its way out
    /// or went down with a worker.
    pub open spec fn wf(self) -> bool {
        &&& forall|i: int, j: int|
            0 <= i < j < self.jobs.len() ==> (#[trigger] self.jobs[i]).ticket
                < (#[trigger] self.jobs[j]).ticket
        &&& forall|i: int|
            0 <= i < self.jobs.len() ==> (#[trigger] self.jobs[i]).ticket < self.next_ticket
        &&& forall|user: Seq<char>|
            #![trigger of_user(user)]
            count(self.jobs, of_user(user)) <= self.config.max_concurrent_per_user
        &&& count(self.jobs, waits()) <= self.capacity()
        &&& count(self.jobs, runs()) <= self.max_active()
        &&& self.accounted()
    }

    /// The counters add up, up to their wrapping around.
    pub open spec fn accounted(self) -> bool {
        (self.stats.completed + self.stats.cancelled + self.stats.timed_out + self.stats.failed
            + self.lost + self.jobs.len() - self.stats.submitted) % (WRAP as int) == 0
    }

    pub open spec fn has(self, ticket: u64) -> bool {
        exists|i: int| 0 <= i < self.jobs.len() && (#[trigger] self.jobs[i]).ticket == ticket
    }

    /// Where the request with `ticket` stands.
    pub open spec fn place(self, ticket: u64) -> int {
        choose|i: int| 0 <= i < self.jobs.len() && (#[trigger] self.jobs[i]).ticket == ticket
    }

    pub open spec fn job(self, ticket: u64) -> JobView {
        self.jobs[self.place(ticket)]
    }

    /// The system without the request with `ticket`.
    pub open spec fn dropped(self, ticket: u64) -> SchedulerView {
        SchedulerView { jobs: self.jobs.remove(self.place(ticket)), ..self }
    }

    pub open spec fn staged(self, at: int, stage: Stage) -> SchedulerView {
        SchedulerView {
            jobs: self.jobs.update(at, JobView { stage, ..self.jobs[at] }),
            ..self
        }
    }

    /// The request at `i` is the one to admit next: of the highest priority among
    /// those that wait, and the oldest of these.
    pub open spec fn is_next(self, i: int) -> bool {
        &&& 0 <= i < self.jobs.len()
        &&& self.jobs[i].stage == Stage::Waiting
        &&& forall|j: int|
            0 <= j < self.jobs.len() && (#[trigger] self.jobs[j]).stage == Stage::Waiting ==> {
                ||| self.jobs[j].priority.level() < self.jobs[i].priority.level()
                ||| self.jobs[j].priority.level() == self.jobs[i].priority.level() && i <= j
            }
    }

    pub open spec fn next(self) -> int {
        choose|i: int| self.is_next(i)
    }

    /// Another request can be admitted.
    pub open spec fn admits(self) -> bool {
        count(self.jobs, runs()) < self.max_active() && count(self.jobs, waits()) > 0
    }

    /// The system after `n` admissions.
    pub open spec fn after_admitting(self, n: nat) -> SchedulerView
        decreases n,
    {
        if n == 0 {
            self
        } else {
            let before = self.after_admitting((n - 1) as nat);
            before.staged(before.next(), Stage::Prefilling)
        }
    }

    /// The `k`-th admission can take place, and takes the request with `ticket`.
    pub open spec fn admission(self, k: nat, ticket: u64) -> bool {
        let then = self.after_admitting(k);
        &&& then.admits()
        &&& then.is_next(then.next())
        &&& ticket == then.jobs[then.next()].ticket
    }

    pub open spec fn with_stats(self, stats: SchedulerStats) -> SchedulerView {
        SchedulerView { stats, ..self }
    }

    pub open spec fn counted_cancelled(self) -> SchedulerView {
        self.with_stats(
            SchedulerStats { cancelled: self.stats.cancelled.wrapping_add(1), ..self.stats },
        )
    }

    pub open spec fn counted_timed_out(self) -> SchedulerView {
        self.with_stats(
            SchedulerStats { timed_out: self.stats.timed_out.wrapping_add(1), ..self.stats },
        )
    }

    pub open spec fn counted_failed(self) -> SchedulerView {
        self.with_stats(SchedulerStats { failed: self.stats.failed.wrapping_add(1), ..self.stats })
    }

    pub open spec fn counted_completed(self) -> SchedulerView {
        self.with_stats(
            SchedulerStats { completed: self.stats.completed.wrapping_add(1), ..self.stats },
        )
    }
}

pub(crate) proof fn count_push(jobs: Seq<JobView>, j: JobView, p: spec_fn(JobView) -> bool)
    ensures
        count(jobs.push(j), p) == count(jobs, p) + if p(j) {
            1nat
        } else {
            0
        },
{
    assert(jobs.push(j).drop_last() =~= jobs);
}

pub(crate) proof fn count_remove(jobs: Seq<JobView>, at: int, p: spec_fn(JobView) -> bool)
    requires
        0 <= at < jobs.len(),
    ensures
        count(jobs.remove(at), p) + (if p(jobs[at]) {
            1nat
        } else {
            0
        }) == count(jobs, p),
    decreases jobs.len(),
{
    if at == jobs.len() - 1 {
        assert(jobs.remove(at) =~= jobs.drop_last());
    } else {
        assert(jobs.remove(at).drop_last() =~= jobs.drop_last().remove(at));
        assert(jobs.remove(at).last() == jobs.last());
        count_remove(jobs.drop_last(), at, p);
    }
}

pub(crate) proof fn count_update(
    jobs: Seq<JobView>,
    at: int,
    j: JobView,
    p: spec_fn(JobView) -> bool,
)
    requires
        0 <= at < jobs.len(),
    ensures
        count(jobs.update(at, j), p) + (if p(jobs[at]) {
            1nat
        } else {
            0
        }) == count(jobs, p) + (if p(j) {
            1nat
        } else {
            0
        }),
    decreases jobs.len(),
{
    if at == jobs.len() - 1 {
        assert(jobs.update(at, j).drop_last() =~= jobs.drop_last());
    } else {
        assert(jobs.update(at, j).drop_last() =~= jobs.drop_last().update(at, j));
        assert(jobs.update(at, j).last() == jobs.last());
        count_update(jobs.drop_last(), at, j, p);
    }
}

pub(crate) proof fn count_bounds(jobs: Seq<JobView>, p: spec_fn(JobView) -> bool)
    ensures
        count(jobs, p) <= jobs.len(),
    decreases jobs.len(),
{
    if jobs.len() > 0 {
        count_bounds(jobs.drop_last(), p);
    }
}

/// Where something is counted, there is something to count.
proof fn counted_exists(jobs: Seq<JobView>, p: spec_fn(JobView) -> bool) -> (i: int)
    requires
        count(jobs, p) > 0,
    ensures
        0 <= i < jobs.len(),
        p(jobs[i]),
    decreases jobs.len(),
{
    if p(jobs.last()) {
        jobs.len() - 1
    } else {
        counted_exists(jobs.drop_last(), p)
    }
}

/// Taking a request out keeps everything but the account, which lacks it now.
proof fn drop_keeps(v: SchedulerView, at: int)
    requires
        v.wf(),
        0 <= at < v.jobs.len(),
    ensures
        ({
            let w = SchedulerView { jobs: v.jobs.remove(at), ..v };
            &&& forall|i: int, j: int|
                0 <= i < j < w.jobs.len() ==> (#[trigger] w.jobs[i]).ticket
                    < (#[trigger] w.jobs[j]).ticket
            &&& forall|i: int|
                0 <= i < w.jobs.len() ==> (#[trigger] w.jobs[i]).ticket < w.next_ticket
            &&& forall|user: Seq<char>|
                #![trigger of_user(user)]
                count(w.jobs, of_user(user)) <= w.config.max_concurrent_per_user
            &&& count(w.jobs, waits()) <= w.capacity()
            &&& count(w.jobs, runs()) <= w.max_active()
            &&& w.jobs.len() == v.jobs.len() - 1
        }),
{
    let w = SchedulerView { jobs: v.jobs.remove(at), ..v };
    assert forall|i: int, j: int| 0 <= i < j < w.jobs.len() implies (#[trigger] w.jobs[i]).ticket
        < (#[trigger] w.jobs[j]).ticket by {
        let a = if i < at {
            i
        } else {
            i + 1
        };
        let b = if j < at {
            j
        } else {
            j + 1
        };
        assert(w.jobs[i] == v.jobs[a] && w.jobs[j] == v.jobs[b]);
    }
    assert forall|i: int| 0 <= i < w.jobs.len() implies (#[trigger] w.jobs[i]).ticket
        < w.next_ticket by {
        let a = if i < at {
            i
        } else {
            i + 1
        };
        assert(w.jobs[i] == v.jobs[a]);
    }
    assert forall|user: Seq<char>|
        #![trigger of_user(user)]
        count(w.jobs, of_user(user)) <= w.config.max_concurrent_per_user by {
        count_remove(v.jobs, at, of_user(user));
    }
    count_remove(v.jobs, at, waits());
    count_remove(v.jobs, at, runs());
}

/// What the checks between two steps say of a running request.
#[derive(Debug, Clone, Copy, PartialEq, Eq, Structural)]
pub enum Fate {
    /// Nothing stands in its way.
    Runs,
    /// It was cancelled; its stream is told so.
    Cancelled,
    /// The client is gone: there is nobody to tell.
    Gone,
    /// It outran its timeout; its stream is told so.
    TimedOut,
}

impl Fate {
    /// A client that is gone stops the work rather than paying for it to finish.
    pub open spec fn of(cancelled: bool, closed: bool, expired: bool) -> Fate {
        if cancelled {
            Fate::Cancelled
        } else if closed {
            Fate::Gone
        } else if expired {
            Fate::TimedOut
        } else {
            Fate::Runs
        }
    }

    /// What the stream of the request is told.
    pub fn event(&self) -> (e: Option<StreamEvent>)
        ensures
            e == match self {
                Fate::Cancelled => Some(StreamEvent::Error(GarudaError::Cancelled)),
                Fate::TimedOut => Some(StreamEvent::Error(GarudaError::Timeout)),
                _ => None,
            },
    {
        match self {
            Fate::Cancelled => Some(StreamEvent::Error(GarudaError::Cancelled)),
            Fate::TimedOut => Some(StreamEvent::Error(GarudaError::Timeout)),
            _ => None,
        }
    }
}

/// How a stretch of prefill went.
#[derive(Debug, Clone, Copy, PartialEq, Eq, Structural)]
pub enum PrefillOutcome {
    /// The prompt is all in.
    Ready,
    /// There is more to absorb.
    More,
    Failed,
}

/// The requests in the system, and who is next.
pub struct Scheduler {
    config: SchedulerConfig,
    /// In order of arrival.
    jobs: Vec<Job>,
    next_ticket: u64,
    closed: bool,
    stats: SchedulerStats,
    lost: u64,
}

impl View for Scheduler {
    type V = SchedulerView;

    closed spec fn view(&self) -> SchedulerView {
        SchedulerView {
            config: self.config,
            jobs: self.jobs@.map_values(|j: Job| j@),
            next_ticket: self.next_ticket,
            closed: self.closed,
            stats: self.stats,
            lost: self.lost,
        }
    }
}

impl Scheduler {
    pub open spec fn wf(&self) -> bool {
        self@.wf()
    }

    pub fn new(config: SchedulerConfig) -> (s: Self)
        ensures
            s.wf(),
            s@.config == config,
            s@.jobs == Seq::<JobView>::empty(),
            s@.next_ticket == 0,
            !s@.closed,
            s@.stats.submitted == 0,
            s@.stats.completed == 0,
            s@.stats.cancelled == 0,
            s@.stats.timed_out == 0,
            s@.stats.failed == 0,
            s@.stats.rejected_busy == 0,
            s@.stats.rejected_rate_limit == 0,
            s@.lost == 0,
    {
        let s = Scheduler {
            config,
            jobs: Vec::new(),
            next_ticket: 0,
            closed: false,
            stats: SchedulerStats::default(),
            lost: 0,
        };
        assert(s@.jobs =~= Seq::<JobView>::empty());
        s
    }

    pub fn stats(&self) -> (s: SchedulerStats)
        ensures
            s == self@.stats,
    {
        self.stats
    }

    pub fn config(&self) -> (c: SchedulerConfig)
        ensures
            c == self@.config,
    {
        self.config
    }

    /// True when there is nothing to do but to wait for a request.
    pub fn is_idle(&self) -> (b: bool)
        ensures
            b == (self@.jobs.len() == 0),
    {
        assert(self@.jobs.len() == self.jobs@.len());
        self.jobs.len() == 0
    }

    /// Refuses every request from now on.
    pub fn shut_down(&mut self)
        requires
            old(self).wf(),
        ensures
            final(self).wf(),
            final(self)@ == (SchedulerView { closed: true, ..old(self)@ }),
    {
        let ghost before = self@;
        self.closed = true;
        assert(self@ =~= (SchedulerView { closed: true, ..before }));
    }

    fn user_load(&self, user: &str) -> (n: usize)
        ensures
            n == count(self@.jobs, of_user(user@)),
    {
        let mut n: usize = 0;
        let mut i: usize = 0;
        while i < self.jobs.len()
            invariant
                n <= i <= self.jobs@.len(),
                self@.jobs.len() == self.jobs@.len(),
                n == count(self@.jobs.take(i as int), of_user(user@)),
            decreases self.jobs@.len() - i,
        {
            proof {
                let next = self@.jobs.take(i + 1);
                assert(next.drop_last() =~= self@.jobs.take(i as int));
                assert(next.last() == self.jobs@[i as int]@);
            }
            if same_text(self.jobs[i].user.as_str(), user) {
                n += 1;
            }
            i += 1;
        }
        assert(self@.jobs.take(self@.jobs.len() as int) =~= self@.jobs);
        n
    }

    /// How many requests wait, and how many run.
    fn load(&self) -> (r: (usize, usize))
        ensures
            r.0 == count(self@.jobs, waits()),
            r.1 == count(self@.jobs, runs()),
    {
        let mut waiting: usize = 0;
        let mut running: usize = 0;
        let mut i: usize = 0;
        while i < self.jobs.len()
            invariant
                waiting <= i <= self.jobs@.len(),
                running <= i,
                self@.jobs.len() == self.jobs@.len(),
                waiting == count(self@.jobs.take(i as int), waits()),
                running == count(self@.jobs.take(i as int), runs()),
            decreases self.jobs@.len() - i,
        {
            proof {
                let next = self@.jobs.take(i + 1);
                assert(next.drop_last() =~= self@.jobs.take(i as int));
                assert(next.last() == self.jobs@[i as int]@);
            }
            if self.jobs[i].stage == Stage::Waiting {
                waiting += 1;
            } else {
                running += 1;
            }
            i += 1;
        }
        assert(self@.jobs.take(self@.jobs.len() as int) =~= self@.jobs);
        (waiting, running)
    }

    /// Queues a request. The ticket stands for it from now on.
    ///
    /// Fails with [`GarudaError::RateLimit`] if the user is already at their
    /// concurrency limit, or [`GarudaError::Busy`] if the queue is full: a full queue
    /// is refused now, not absorbed into unbounded memory.
    pub fn submit(&mut self, user: &str, priority: Priority) -> (r: Result<u64, GarudaError>)
        requires
            old(self).wf(),
            old(self)@.next_ticket < u64::MAX,
        ensures
            final(self).wf(),
            if count(old(self)@.jobs, of_user(user@)) >= old(self)@.config.max_concurrent_per_user {
                &&& r matches Err(e) && e == GarudaError::RateLimit
                &&& final(self)@ == old(self)@.with_stats(
                    SchedulerStats {
                        rejected_rate_limit: old(self)@.stats.rejected_rate_limit.wrapping_add(1),
                        ..old(self)@.stats
                    },
                )
            } else if old(self)@.closed || count(old(self)@.jobs, waits()) >= old(
                self,
            )@.capacity() {
                &&& final(self)@ == (SchedulerView {
                    next_ticket: (old(self)@.next_ticket + 1) as u64,
                    stats: SchedulerStats {
                        rejected_busy: old(self)@.stats.rejected_busy.wrapping_add(1),
                        ..old(self)@.stats
                    },
                    ..old(self)@
                })
                &&& r matches Err(e) && if old(self)@.closed {
                    e matches GarudaError::Scheduler(m) && m@ == "scheduler has shut down"@
                } else {
                    e == GarudaError::Busy
                }
            } else {
                &&& r == Ok::<u64, GarudaError>(old(self)@.next_ticket)
                &&& final(self)@ == (SchedulerView {
                    jobs: old(self)@.jobs.push(
                        JobView {
                            ticket: old(self)@.next_ticket,
                            user: user@,
                            priority,
                            stage: Stage::Waiting,
                        },
                    ),
                    next_ticket: (old(self)@.next_ticket + 1) as u64,
                    stats: SchedulerStats {
                        submitted: old(self)@.stats.submitted.wrapping_add(1),
                        ..old(self)@.stats
                    },
                    ..old(self)@
                })
            },
    {
        let ghost before = self@;
        if self.user_load(user) >= self.config.max_concurrent_per_user {
            self.stats.rejected_rate_limit = self.stats.rejected_rate_limit.wrapping_add(1);
            assert(self@.jobs =~= before.jobs);
            return Err(GarudaError::RateLimit);
        }
        let ticket: u64 = self.next_ticket;
        self.next_ticket = self.next_ticket + 1;
        assert(self@.jobs =~= before.jobs);
        let (waiting, _running) = self.load();
        let capacity: usize = if self.config.queue_capacity == 0 {
            1
        } else {
            self.config.queue_capacity
        };
        if self.closed || waiting >= capacity {
            self.stats.rejected_busy = self.stats.rejected_busy.wrapping_add(1);
            assert(self@.jobs =~= before.jobs);
            return Err(
                if self.closed {
                    GarudaError::Scheduler("scheduler has shut down".to_owned())
                } else {
                    GarudaError::Busy
                },
            );
        }
        let job = Job { ticket, user: user.to_owned(), priority, stage: Stage::Waiting };
        let ghost added = job@;
        self.jobs.push(job);
        self.stats.submitted = self.stats.submitted.wrapping_add(1);
        proof {
            assert(self@.jobs =~= before.jobs.push(added));
            count_push(before.jobs, added, waits());
            count_push(before.jobs, added, runs());
            assert forall|u: Seq<char>|
                #![trigger of_user(u)]
                count(self@.jobs, of_user(u)) <= self@.config.max_concurrent_per_user by {
                count_push(before.jobs, added, of_user(u));
                assert(count(before.jobs, of_user(u)) <= before.config.max_concurrent_per_user);
            }
        }
        Ok(ticket)
    }

    fn find(&self, ticket: u64) -> (r: Option<usize>)
        requires
            self.wf(),
        ensures
            match r {
                Some(i) => self@.has(ticket) && i == self@.place(ticket) && i < self@.jobs.len()
                    && i < self.jobs@.len() && self@.jobs[i as int].ticket == ticket,
                None => !self@.has(ticket),
            },
    {
        let mut i: usize = 0;
        while i < self.jobs.len()
            invariant
                i <= self.jobs@.len(),
                self.wf(),
                self@.jobs.len() == self.jobs@.len(),
                forall|j: int| 0 <= j < i ==> (#[trigger] self@.jobs[j]).ticket != ticket,
            decreases self.jobs@.len() - i,
        {
            assert(self@.jobs[i as int] == self.jobs@[i as int]@);
            if self.jobs[i].ticket == ticket {
                proof {
                    let p = self@.place(ticket);
                    assert(self@.jobs[p].ticket == ticket);
                    assert(p == i);
                }
                return Some(i);
            }
            i += 1;
        }
        None
    }

    /// The stage that the request with `ticket` has come to, if it is in the system.
    pub fn stage(&self, ticket: u64) -> (r: Option<Stage>)
        requires
            self.wf(),
        ensures
            match r {
                Some(s) => self@.has(ticket) && s == self@.job(ticket).stage,
                None => !self@.has(ticket),
            },
    {
        match self.find(ticket) {
            Some(i) => {
                assert(self@.jobs[i as int] == self.jobs@[i as int]@);
                Some(self.jobs[i].stage)
            },
            None => None,
        }
    }

    /// The tickets of the requests in `stage`, in order of arrival.
    pub fn tickets_in(&self, stage: Stage) -> (tickets: Vec<u64>)
        ensures
            tickets@ == self@.jobs.filter(|j: JobView| j.stage == stage).map_values(
                |j: JobView| j.ticket,
            ),
    {
        let mut tickets: Vec<u64> = Vec::new();
        let mut i: usize = 0;
        let ghost p = |j: JobView| j.stage == stage;
        let ghost f = |j: JobView| j.ticket;
        assert(self@.jobs.take(0).filter(p).map_values(f) =~= Seq::<u64>::empty()) by {
            reveal(Seq::filter);
        }
        while i < self.jobs.len()
            invariant
                i <= self.jobs@.len(),
                self@.jobs.len() == self.jobs@.len(),
                p == (|j: JobView| j.stage == stage),
                f == (|j: JobView| j.ticket),
                tickets@ == self@.jobs.take(i as int).filter(p).map_values(f),
            decreases self.jobs@.len() - i,
        {
            let ghost so_far = self@.jobs.take(i as int);
            proof {
                reveal(Seq::filter);
                let next = self@.jobs.take(i + 1);
                assert(next.drop_last() =~= so_far);
                assert(next.last() == self.jobs@[i as int]@);
            }
            if self.jobs[i].stage == stage {
                tickets.push(self.jobs[i].ticket);
            }
            proof {
                let next = self@.jobs.take(i + 1);
                assert(tickets@ =~= next.filter(p).map_values(f));
            }
            i += 1;
        }
        assert(self@.jobs.take(self@.jobs.len() as int) =~= self@.jobs);
        tickets
    }

    /// Takes the request at `at` out of the system.
    fn take_out(&mut self, at: usize)
        requires
            old(self).wf(),
            at < old(self)@.jobs.len(),
        ensures
            final(self)@ == (SchedulerView {
                jobs: old(self)@.jobs.remove(at as int),
                ..old(self)@
            }),
    {
        let ghost before = self@;
        assert(before.jobs.len() == self.jobs@.len());
        let _ = self.jobs.remove(at);
        assert(self@.jobs =~= before.jobs.remove(at as int));
    }

    /// Drops the waiting requests whose client is among the `gone`, rather than waiting
    /// for a decode slot to free up first: holding a dead request would hold a live
    /// caller's slot.
    pub fn withdraw(&mut self, gone: &[u64])
        requires
            old(self).wf(),
        ensures
            final(self).wf(),
            final(self)@.jobs == old(self)@.jobs.filter(stays(gone@)),
            final(self)@ == (SchedulerView {
                jobs: final(self)@.jobs,
                stats: SchedulerStats {
                    cancelled: final(self)@.stats.cancelled,
                    ..old(self)@.stats
                },
                ..old(self)@
            }),
            (final(self)@.stats.cancelled - old(self)@.stats.cancelled - count(
                old(self)@.jobs,
                deserted(gone@),
            )) % (WRAP as int) == 0,
    {
        let ghost before = self@;
        let ghost mut taken: nat = 0;
        let mut i: usize = 0;
        proof {
            reveal(Seq::filter);
            assert(before.jobs.take(0).filter(stays(gone@)) =~= self@.jobs.take(0));
            assert(before.jobs.skip(0) =~= self@.jobs.skip(0));
        }
        while i < self.jobs.len()
            invariant
                i <= self.jobs@.len(),
                self.wf(),
                self@.jobs.len() == self.jobs@.len(),
                taken + self.jobs@.len() == before.jobs.len(),
                self@.jobs.take(i as int) == before.jobs.take((i + taken) as int).filter(
                    stays(gone@),
                ),
                self@.jobs.skip(i as int) == before.jobs.skip((i + taken) as int),
                self@ == (SchedulerView {
                    jobs: self@.jobs,
                    stats: SchedulerStats {
                        cancelled: self@.stats.cancelled,
                        ..before.stats
                    },
                    ..before
                }),
                taken == count(before.jobs.take((i + taken) as int), deserted(gone@)),
                (self@.stats.cancelled - before.stats.cancelled - taken) % (WRAP as int) == 0,
            decreases self.jobs@.len() - i,
        {
            let ghost now = self@;
            let ghost at = (i + taken) as int;
            proof {
                reveal(Seq::filter);
                assert(now.jobs[i as int] == now.jobs.skip(i as int)[0]);
                assert(before.jobs[at] == before.jobs.skip(at)[0]);
                assert(now.jobs[i as int] == self.jobs@[i as int]@);
                let next = before.jobs.take(at + 1);
                assert(next.drop_last() =~= before.jobs.take(at));
                assert(next.last() == before.jobs[at]);
                assert(before.jobs.skip(at + 1) =~= before.jobs.skip(at).skip(1));
            }
            if self.jobs[i].stage == Stage::Waiting && contains(gone, self.jobs[i].ticket) {
                self.take_out(i);
                self.stats.cancelled = self.stats.cancelled.wrapping_add(1);
                proof {
                    drop_keeps(now, i as int);
                    assert(self@.jobs =~= now.jobs.remove(i as int));
                    assert(self@.jobs.take(i as int) =~= now.jobs.take(i as int));
                    assert(self@.jobs.skip(i as int) =~= now.jobs.skip(i as int).skip(1));
                    taken = taken + 1;
                }
            } else {
                proof {
                    assert(now.jobs.take(i + 1) =~= now.jobs.take(i as int).push(
                        now.jobs[i as int],
                    ));
                    assert(now.jobs.skip(i + 1) =~= now.jobs.skip(i as int).skip(1));
                }
                i += 1;
            }
        }
        proof {
            assert(before.jobs.take(before.jobs.len() as int) =~= before.jobs);
            assert(self@.jobs.take(self@.jobs.len() as int) =~= self@.jobs);
        }
    }
}

impl Scheduler {
    /// The decode worker died: every request it ran goes with it, and is counted
    /// neither as completed nor as failed. Those that wait are not touched.
    pub fn lose_batch(&mut self)
        requires
            old(self).wf(),
        ensures
            final(self).wf(),
            final(self)@ == (SchedulerView {
                jobs: old(self)@.jobs.filter(waits()),
                lost: final(self)@.lost,
                ..old(self)@
            }),
            (final(self)@.lost - old(self)@.lost - count(old(self)@.jobs, runs())) % (WRAP as int)
                == 0,
    {
        let ghost before = self@;
        let ghost mut taken: nat = 0;
        let mut i: usize = 0;
        proof {
            reveal(Seq::filter);
            assert(before.jobs.take(0).filter(waits()) =~= self@.jobs.take(0));
            assert(before.jobs.skip(0) =~= self@.jobs.skip(0));
        }
        while i < self.jobs.len()
            invariant
                i <= self.jobs@.len(),
                self.wf(),
                self@.jobs.len() == self.jobs@.len(),
                taken + self.jobs@.len() == before.jobs.len(),
                self@.jobs.take(i as int) == before.jobs.take((i + taken) as int).filter(waits()),
                self@.jobs.skip(i as int) == before.jobs.skip((i + taken) as int),
                self@ == (SchedulerView { jobs: self@.jobs, lost: self@.lost, ..before }),
                taken == count(before.jobs.take((i + taken) as int), runs()),
                (self@.lost - before.lost - taken) % (WRAP as int) == 0,
            decreases self.jobs@.len() - i,
        {
            let ghost now = self@;
            let ghost at = (i + taken) as int;
            proof {
                reveal(Seq::filter);
                assert(now.jobs[i as int] == now.jobs.skip(i as int)[0]);
                assert(before.jobs[at] == before.jobs.skip(at)[0]);
                assert(now.jobs[i as int] == self.jobs@[i as int]@);
                let next = before.jobs.take(at + 1);
                assert(next.drop_last() =~= before.jobs.take(at));
                assert(next.last() == before.jobs[at]);
                assert(before.jobs.skip(at + 1) =~= before.jobs.skip(at).skip(1));
            }
            if self.jobs[i].stage != Stage::Waiting {
                self.take_out(i);
                self.lost = self.lost.wrapping_add(1);
                proof {
                    drop_keeps(now, i as int);
                    assert(self@.jobs =~= now.jobs.remove(i as int));
                    assert(self@.jobs.take(i as int) =~= now.jobs.take(i as int));
                    assert(self@.jobs.skip(i as int) =~= now.jobs.skip(i as int).skip(1));
                    taken = taken + 1;
                }
            } else {
                proof {
                    assert(now.jobs.take(i + 1) =~= now.jobs.take(i as int).push(
                        now.jobs[i as int],
                    ));
                    assert(now.jobs.skip(i + 1) =~= now.jobs.skip(i as int).skip(1));
                }
                i += 1;
            }
        }
        proof {
            assert(before.jobs.take(before.jobs.len() as int) =~= before.jobs);
            assert(self@.jobs.take(self@.jobs.len() as int) =~= self@.jobs);
        }
    }
}

/// Where a request waits, there is one to admit next.
proof fn next_exists(v: SchedulerView)
    requires
        count(v.jobs, waits()) > 0,
    ensures
        v.is_next(v.next()),
{
    let i = counted_exists(v.jobs, waits());
    let b = best_of(v, v.jobs.len() as int, i);
    assert(v.is_next(b));
}

/// The best of the first `n` requests.
proof fn best_of(v: SchedulerView, n: int, i: int) -> (b: int)
    requires
        0 <= i < n <= v.jobs.len(),
        v.jobs[i].stage == Stage::Waiting,
    ensures
        0 <= b < n,
        v.jobs[b].stage == Stage::Waiting,
        forall|j: int|
            0 <= j < n && (#[trigger] v.jobs[j]).stage == Stage::Waiting ==> {
                ||| v.jobs[j].priority.level() < v.jobs[b].priority.level()
                ||| v.jobs[j].priority.level() == v.jobs[b].priority.level() && b <= j
            },
    decreases n,
{
    let last = n - 1;
    if exists|k: int| 0 <= k < last && (#[trigger] v.jobs[k]).stage == Stage::Waiting {
        let k = choose|k: int| 0 <= k < last && (#[trigger] v.jobs[k]).stage == Stage::Waiting;
        let b = best_of(v, last, k);
        if v.jobs[last].stage == Stage::Waiting && v.jobs[last].priority.level()
            > v.jobs[b].priority.level() {
            last
        } else {
            b
        }
    } else {
        assert(i == last);
        i
    }
}

/// Only one request is next.
pub proof fn next_is_unique(v: SchedulerView, i: int)
    requires
        v.is_next(i),
    ensures
        i == v.next(),
{
    let n = v.next();
    assert(v.jobs[n].stage == Stage::Waiting);
    assert(v.jobs[i].stage == Stage::Waiting);
}

/// Moving a request on keeps what a scheduler keeps, where there is room to run it.
proof fn staging_keeps(v: SchedulerView, at: int, stage: Stage)
    requires
        v.wf(),
        0 <= at < v.jobs.len(),
        stage != Stage::Waiting,
        v.jobs[at].stage == Stage::Waiting ==> count(v.jobs, runs()) < v.max_active(),
    ensures
        v.staged(at, stage).wf(),
        v.jobs[at].stage == Stage::Waiting ==> count(v.staged(at, stage).jobs, waits()) + 1
            == count(v.jobs, waits()) && count(v.staged(at, stage).jobs, runs()) == count(
            v.jobs,
            runs(),
        ) + 1,
{
    let w = v.staged(at, stage);
    let moved = JobView { stage, ..v.jobs[at] };
    count_update(v.jobs, at, moved, waits());
    count_update(v.jobs, at, moved, runs());
    assert forall|u: Seq<char>|
        #![trigger of_user(u)]
        count(w.jobs, of_user(u)) <= w.config.max_concurrent_per_user by {
        count_update(v.jobs, at, moved, of_user(u));
        assert(count(v.jobs, of_user(u)) <= v.config.max_concurrent_per_user);
    }
}

impl Scheduler {
    fn find_next(&self) -> (r: Option<usize>)
        ensures
            match r {
                Some(i) => i < self.jobs@.len() && self@.is_next(i as int),
                None => count(self@.jobs, waits()) == 0,
            },
    {
        let mut best: Option<usize> = None;
        let mut i: usize = 0;
        while i < self.jobs.len()
            invariant
                i <= self.jobs@.len(),
                self@.jobs.len() == self.jobs@.len(),
                match best {
                    None => forall|j: int|
                        0 <= j < i ==> (#[trigger] self@.jobs[j]).stage != Stage::Waiting,
                    Some(b) => {
                        &&& b < i
                        &&& self@.jobs[b as int].stage == Stage::Waiting
                        &&& forall|j: int|
                            0 <= j < i && (#[trigger] self@.jobs[j]).stage == Stage::Waiting ==> {
                                ||| self@.jobs[j].priority.level()
                                    < self@.jobs[b as int].priority.level()
                                ||| self@.jobs[j].priority.level()
                                    == self@.jobs[b as int].priority.level() && b <= j
                            }
                    },
                },
            decreases self.jobs@.len() - i,
        {
            assert(self@.jobs[i as int] == self.jobs@[i as int]@);
            if self.jobs[i].stage == Stage::Waiting {
                match best {
                    None => {
                        best = Some(i);
                    },
                    Some(b) => {
                        assert(self@.jobs[b as int] == self.jobs@[b as int]@);
                        if self.jobs[i].priority.rank() > self.jobs[b].priority.rank() {
                            best = Some(i);
                        }
                    },
                }
            }
            i += 1;
        }
        proof {
            if best is None && count(self@.jobs, waits()) > 0 {
                let j = counted_exists(self@.jobs, waits());
                assert(self@.jobs[j].stage == Stage::Waiting);
            }
        }
        best
    }

    fn set_stage(&mut self, at: usize, stage: Stage)
        requires
            at < old(self)@.jobs.len(),
        ensures
            final(self)@ == old(self)@.staged(at as int, stage),
    {
        let ghost before = self@;
        assert(before.jobs.len() == self.jobs@.len());
        assert(before.jobs[at as int] == self.jobs@[at as int]@);
        let job = &mut self.jobs[at];
        job.stage = stage;
        assert(self@.jobs =~= before.staged(at as int, stage).jobs);
    }

    /// Admits waiting requests while there is room, the highest priority first and
    /// within a priority the oldest first. Gives their tickets in that order.
    pub fn admit_waiting(&mut self) -> (tickets: Vec<u64>)
        requires
            old(self).wf(),
        ensures
            final(self).wf(),
            !final(self)@.admits(),
            final(self)@ == old(self)@.after_admitting(tickets@.len()),
            forall|k: int|
                0 <= k < tickets@.len() ==> old(self)@.admission(k as nat, #[trigger] tickets@[k]),
    {
        let ghost before = self@;
        let max_active: usize = if self.config.max_concurrent == 0 {
            1
        } else {
            self.config.max_concurrent
        };
        let mut tickets: Vec<u64> = Vec::new();
        let mut running: usize = self.load().1;
        while running < max_active
            invariant
                self.wf(),
                before == old(self)@,
                max_active == self@.max_active(),
                running == count(self@.jobs, runs()),
                self@ == before.after_admitting(tickets@.len()),
                forall|k: int|
                    0 <= k < tickets@.len() ==> before.admission(k as nat, #[trigger] tickets@[k]),
            ensures
                !self@.admits(),
            decreases max_active - running,
        {
            match self.find_next() {
                None => {
                    break;
                },
                Some(i) => {
                    let ghost now = self@;
                    proof {
                        assert(now.jobs[i as int].stage == Stage::Waiting);
                        next_is_unique(now, i as int);
                        staging_keeps(now, i as int, Stage::Prefilling);
                        waiting_counts(now.jobs, i as int);
                        assert(now.jobs[i as int] == self.jobs@[i as int]@);
                    }
                    assert(before.admission(tickets@.len(), self.jobs@[i as int].ticket));
                    tickets.push(self.jobs[i].ticket);
                    self.set_stage(i, Stage::Prefilling);
                    running += 1;
                    assert(self@ == before.after_admitting(tickets@.len()));
                },
            }
        }
        tickets
    }

    /// Checks a running request between two steps. One that does not run on leaves the
    /// system.
    pub fn check(&mut self, ticket: u64, cancelled: bool, closed: bool, expired: bool) -> (fate:
        Fate)
        requires
            old(self).wf(),
            old(self)@.has(ticket),
        ensures
            final(self).wf(),
            fate == Fate::of(cancelled, closed, expired),
            fate is Cancelled <==> cancelled,
            fate is Gone <==> closed && !cancelled,
            fate is TimedOut <==> expired && !cancelled && !closed,
            final(self)@ == match fate {
                Fate::Runs => old(self)@,
                Fate::TimedOut => old(self)@.dropped(ticket).counted_timed_out(),
                _ => old(self)@.dropped(ticket).counted_cancelled(),
            },
    {
        if cancelled {
            self.drop_cancelled(ticket);
            Fate::Cancelled
        } else if closed {
            self.drop_cancelled(ticket);
            Fate::Gone
        } else if expired {
            if let Some(at) = self.find(ticket) {
                let ghost before = self@;
                proof {
                    drop_keeps(before, at as int);
                }
                self.take_out(at);
                self.stats.timed_out = self.stats.timed_out.wrapping_add(1);
                assert(self@ =~= before.dropped(ticket).counted_timed_out());
            }
            Fate::TimedOut
        } else {
            Fate::Runs
        }
    }

    fn drop_cancelled(&mut self, ticket: u64)
        requires
            old(self).wf(),
            old(self)@.has(ticket),
        ensures
            final(self).wf(),
            final(self)@ == old(self)@.dropped(ticket).counted_cancelled(),
    {
        if let Some(at) = self.find(ticket) {
            let ghost before = self@;
            proof {
                drop_keeps(before, at as int);
            }
            self.take_out(at);
            self.stats.cancelled = self.stats.cancelled.wrapping_add(1);
            assert(self@ =~= before.dropped(ticket).counted_cancelled());
        }
    }

    /// A request could not start, or its pass failed: it leaves the system.
    pub fn fail(&mut self, ticket: u64)
        requires
            old(self).wf(),
            old(self)@.has(ticket),
        ensures
            final(self).wf(),
            final(self)@ == old(self)@.dropped(ticket).counted_failed(),
    {
        if let Some(at) = self.find(ticket) {
            let ghost before = self@;
            proof {
                drop_keeps(before, at as int);
            }
            self.take_out(at);
            self.stats.failed = self.stats.failed.wrapping_add(1);
            assert(self@ =~= before.dropped(ticket).counted_failed());
        }
    }

    fn complete(&mut self, ticket: u64)
        requires
            old(self).wf(),
            old(self)@.has(ticket),
        ensures
            final(self).wf(),
            final(self)@ == old(self)@.dropped(ticket).counted_completed(),
    {
        if let Some(at) = self.find(ticket) {
            let ghost before = self@;
            proof {
                drop_keeps(before, at as int);
            }
            self.take_out(at);
            self.stats.completed = self.stats.completed.wrapping_add(1);
            assert(self@ =~= before.dropped(ticket).counted_completed());
        }
    }

    /// Takes note of how a stretch of prefill went: a request whose prompt is all in
    /// starts decoding.
    pub fn prefilled(&mut self, ticket: u64, outcome: PrefillOutcome)
        requires
            old(self).wf(),
            old(self)@.has(ticket),
            old(self)@.job(ticket).stage != Stage::Waiting,
        ensures
            final(self).wf(),
            final(self)@ == match outcome {
                PrefillOutcome::Ready => old(self)@.staged(
                    old(self)@.place(ticket),
                    Stage::Decoding,
                ),
                PrefillOutcome::More => old(self)@,
                PrefillOutcome::Failed => old(self)@.dropped(ticket).counted_failed(),
            },
    {
        match outcome {
            PrefillOutcome::Ready => {
                if let Some(at) = self.find(ticket) {
                    proof {
                        staging_keeps(self@, at as int, Stage::Decoding);
                    }
                    self.set_stage(at, Stage::Decoding);
                }
            },
            PrefillOutcome::More => {},
            PrefillOutcome::Failed => {
                self.fail(ticket);
            },
        }
    }

    /// Takes note of what a step did for a request: the tokens it produced reached the
    /// client or did not, and it stopped or did not. Gives what the stream is told
    /// last, if anything: a client that is gone is told nothing.
    pub fn stepped(&mut self, ticket: u64, undelivered: bool, stop: Option<StopReason>) -> (last:
        Option<StreamEvent>)
        requires
            old(self).wf(),
            old(self)@.has(ticket),
        ensures
            final(self).wf(),
            if undelivered {
                &&& final(self)@ == old(self)@.dropped(ticket).counted_cancelled()
                &&& last is None
            } else {
                match stop {
                    Some(reason) => {
                        &&& final(self)@ == old(self)@.dropped(ticket).counted_completed()
                        &&& last == Some(StreamEvent::Done(reason))
                    },
                    None => final(self)@ == old(self)@ && last is None,
                }
            },
    {
        if undelivered {
            self.drop_cancelled(ticket);
            return None;
        }
        match stop {
            Some(reason) => {
                self.complete(ticket);
                Some(StreamEvent::Done(reason))
            },
            None => None,
        }
    }

    fn decoding(&self) -> (n: usize)
        ensures
            n == count(self@.jobs, decodes()),
    {
        let mut n: usize = 0;
        let mut i: usize = 0;
        while i < self.jobs.len()
            invariant
                n <= i <= self.jobs@.len(),
                self@.jobs.len() == self.jobs@.len(),
                n == count(self@.jobs.take(i as int), decodes()),
            decreases self.jobs@.len() - i,
        {
            proof {
                let next = self@.jobs.take(i + 1);
                assert(next.drop_last() =~= self@.jobs.take(i as int));
                assert(next.last() == self.jobs@[i as int]@);
            }
            if self.jobs[i].stage == Stage::Decoding {
                n += 1;
            }
            i += 1;
        }
        assert(self@.jobs.take(self@.jobs.len() as int) =~= self@.jobs);
        n
    }

    /// How far to guess ahead in the next step: one sequence has nothing to share a
    /// pass with, so it guesses ahead; several already share one.
    pub fn lookahead(&self) -> (n: usize)
        ensures
            n == if count(self@.jobs, decodes()) == 1 {
                self@.config.speculative_lookahead
            } else {
                0
            },
    {
        if self.decoding() == 1 {
            self.config.speculative_lookahead
        } else {
            0
        }
    }

    /// How many prompt tokens each pending prompt may absorb in this iteration. Where
    /// nothing is streaming there is no one to stall, so the whole prompt goes in.
    pub fn prefill_budget(&self, pacing: &Pacing) -> (n: usize)
        requires
            pacing.wf(),
        ensures
            n == if count(self@.jobs, decodes()) == 0 {
                usize::MAX as nat
            } else {
                pacing.chunk_size()
            },
            count(self@.jobs, decodes()) > 0 ==> n <= 512,
    {
        if self.decoding() == 0 {
            usize::MAX
        } else {
            pacing.chunk()
        }
    }
}

proof fn waiting_counts(jobs: Seq<JobView>, i: int)
    requires
        0 <= i < jobs.len(),
        jobs[i].stage == Stage::Waiting,
    ensures
        count(jobs, waits()) > 0,
    decreases jobs.len(),
{
    if i < jobs.len() - 1 {
        waiting_counts(jobs.drop_last(), i);
    }
}

/// Prompt tokens absorbed per iteration before anything is known about what they cost,
/// and the range the measured estimate is held to.
pub const PREFILL_TOKENS_INITIAL: usize = 32;

pub const PREFILL_TOKENS_MIN: usize = 1;

pub const PREFILL_TOKENS_MAX: usize = 512;

/// Nanoseconds of a second.
pub const NANOS: u64 = 1_000_000_000;

/// 0.75 in parts of two to the 53rd.
pub const OLD_PARTS: u64 = 6_755_399_441_055_744;

/// 0.25 in parts of two to the 54th.
pub const NEW_PARTS: u64 = 4_503_599_627_370_496;

/// Running estimates of what a decode step and a prefill token cost, in seconds.
///
/// The scheduler alternates between the two, so the chunk that keeps them balanced is
/// the one whose work matches a decode step's. Both are exponential moving averages.
#[derive(Debug, Clone, Copy, PartialEq, Eq)]
pub struct Pacing {
    decode_step: Option<Double>,
    prefill_token: Option<Double>,
}

/// A time in seconds, as a double has it: the whole seconds and the rest of one.
pub open spec fn seconds(nanos: nat) -> (nat, int) {
    double::sum(
        double::rounded(nanos / NANOS as nat, 0),
        double::quotient(
            double::rounded(nanos % NANOS as nat, 0),
            double::rounded(NANOS as nat, 0),
        ),
    )
}

/// A moving average after one more sample: three parts old, one part new.
pub open spec fn averaged(average: Option<(nat, int)>, sample: (nat, int)) -> (nat, int) {
    match average {
        Some(prev) => double::blended(
            prev,
            (OLD_PARTS as nat, -53),
            sample,
            (NEW_PARTS as nat, -54),
        ),
        None => sample,
    }
}

pub open spec fn cost_of(d: Option<Double>) -> Option<(nat, int)> {
    match d {
        Some(c) => Some(c@),
        None => None,
    }
}

fn in_seconds(nanos: u64) -> (s: Double)
    ensures
        s@ == seconds(nanos as nat),
        s.wf(),
        -400 <= s@.1 <= 450,
{
    let rest = Double::of(nanos % NANOS).over(Double::of(NANOS));
    Double::of(nanos / NANOS).plus(rest)
}

impl Default for Pacing {
    fn default() -> (p: Self)
        ensures
            p.wf(),
            p.step_cost() is None,
            p.token_cost() is None,
    {
        Pacing { decode_step: None, prefill_token: None }
    }
}

impl Pacing {
    pub closed spec fn step_cost(self) -> Option<(nat, int)> {
        cost_of(self.decode_step)
    }

    pub closed spec fn token_cost(self) -> Option<(nat, int)> {
        cost_of(self.prefill_token)
    }

    pub open spec fn wf(self) -> bool {
        &&& self.step_cost() matches Some(c) ==> double::fits(c)
        &&& self.token_cost() matches Some(c) ==> double::fits(c)
    }

    /// What [`Pacing::chunk`] gives.
    pub open spec fn chunk_size(self) -> nat {
        match (self.step_cost(), self.token_cost()) {
            (Some(step), Some(per_token)) => if per_token.0 == 0 {
                PREFILL_TOKENS_INITIAL as nat
            } else if double::below(step, per_token) {
                PREFILL_TOKENS_MIN as nat
            } else if double::whole(double::quotient(step, per_token)) < PREFILL_TOKENS_MIN {
                PREFILL_TOKENS_MIN as nat
            } else if double::whole(double::quotient(step, per_token)) > PREFILL_TOKENS_MAX {
                PREFILL_TOKENS_MAX as nat
            } else {
                double::whole(double::quotient(step, per_token))
            },
            _ => PREFILL_TOKENS_INITIAL as nat,
        }
    }

    fn blend(average: Option<Double>, sample: Double) -> (r: Double)
        requires
            sample.wf(),
            average matches Some(a) ==> a.wf(),
        ensures
            r@ == averaged(cost_of(average), sample@),
            r.wf(),
    {
        match average {
            Some(prev) => prev.blend(
                Double::new(OLD_PARTS, -53),
                sample,
                Double::new(NEW_PARTS, -54),
            ),
            None => sample,
        }
    }

    /// Takes note of a decode step that took `nanos` nanoseconds.
    pub fn observe_decode(&mut self, nanos: u64)
        requires
            old(self).wf(),
        ensures
            final(self).wf(),
            final(self).token_cost() == old(self).token_cost(),
            final(self).step_cost() == Some(
                averaged(old(self).step_cost(), seconds(nanos as nat)),
            ),
    {
        self.decode_step = Some(Self::blend(self.decode_step, in_seconds(nanos)));
    }

    /// Takes note of a prefill of `tokens` tokens that took `nanos` nanoseconds.
    pub fn observe_prefill(&mut self, nanos: u64, tokens: usize)
        requires
            old(self).wf(),
        ensures
            final(self).wf(),
            final(self).step_cost() == old(self).step_cost(),
            final(self).token_cost() == if tokens == 0 {
                old(self).token_cost()
            } else {
                Some(
                    averaged(
                        old(self).token_cost(),
                        double::quotient(
                            seconds(nanos as nat),
                            double::rounded(tokens as nat, 0),
                        ),
                    ),
                )
            },
    {
        if tokens > 0 {
            let n = Double::of(tokens as u64);
            let each = in_seconds(nanos).over(n);
            self.prefill_token = Some(Self::blend(self.prefill_token, each));
        }
    }

    /// Prompt tokens to absorb in an iteration, given something is decoding: as many
    /// as cost about one decode step.
    pub fn chunk(&self) -> (n: usize)
        requires
            self.wf(),
        ensures
            n == self.chunk_size(),
            PREFILL_TOKENS_MIN <= n <= PREFILL_TOKENS_MAX,
            1 <= n <= 512,
            self.step_cost() is None || self.token_cost() is None ==> n == 32,
            (self.step_cost(), self.token_cost()) matches (Some(step), Some(per_token)) ==> {
                let fit = double::whole(double::quotient(step, per_token));
                &&& per_token.0 == 0 ==> n == 32
                &&& per_token.0 > 0 && double::below(step, per_token) ==> n == 1
                &&& per_token.0 > 0 && !double::below(step, per_token) && 1 <= fit <= 512 ==> n
                    == fit
                &&& per_token.0 > 0 && !double::below(step, per_token) && fit > 512 ==> n == 512
            },
    {
        match (self.decode_step, self.prefill_token) {
            (Some(step), Some(per_token)) => {
                if per_token.is_zero() {
                    return PREFILL_TOKENS_INITIAL;
                }
                if step.is_below(per_token) {
                    return PREFILL_TOKENS_MIN;
                }
                step.whole_ratio(per_token, PREFILL_TOKENS_MIN, PREFILL_TOKENS_MAX)
            },
            _ => PREFILL_TOKENS_INITIAL,
        }
    }
}

/// A request that leaves the system, for whatever reason, gives its user's slot back,
/// and no other user's.
pub proof fn leaving_frees_the_slot(v: SchedulerView, ticket: u64, user: Seq<char>)
    requires
        v.wf(),
        v.has(ticket),
    ensures
        count(v.dropped(ticket).jobs, of_user(user)) + (if v.job(ticket).user == user {
            1nat
        } else {
            0
        }) == count(v.jobs, of_user(user)),
{
    let at = v.place(ticket);
    assert(v.jobs[at].ticket == ticket);
    count_remove(v.jobs, at, of_user(user));
}

/// In every state no user has more requests in the system than one user may have, no more
/// run than may run at once, and no more wait than the queue holds.
pub proof fn load_is_bounded(v: SchedulerView, user: Seq<char>)
    requires
        v.wf(),
    ensures
        count(v.jobs, of_user(user)) <= v.config.max_concurrent_per_user,
        count(v.jobs, runs()) <= v.max_active(),
        count(v.jobs, waits()) <= v.capacity(),
{
}

/// A request of a higher priority is admitted before one of a lower priority, however
/// long the latter has waited; among equals the older one is.
pub proof fn higher_priority_overtakes(v: SchedulerView, i: int, j: int)
    requires
        v.wf(),
        0 <= i < v.jobs.len(),
        0 <= j < v.jobs.len(),
        v.jobs[i].stage == Stage::Waiting,
        v.jobs[j].stage == Stage::Waiting,
        v.jobs[i].priority.level() > v.jobs[j].priority.level() || (v.jobs[i].priority.level()
            == v.jobs[j].priority.level() && i < j),
    ensures
        v.next() != j,
{
    waiting_counts(v.jobs, i);
    next_exists(v);
}

/// Every request that was ever accepted is in the system, was counted exactly once on
/// its way out, or was lost with a worker.
pub proof fn every_request_is_accounted_for(v: SchedulerView)
    requires
        v.wf(),
        v.stats.completed + v.stats.cancelled + v.stats.timed_out + v.stats.failed + v.lost
            + v.jobs.len() < WRAP,
    ensures
        v.stats.submitted == v.stats.completed + v.stats.cancelled + v.stats.timed_out
            + v.stats.failed + v.lost + v.jobs.len(),
{
}

/// True when `xs` holds `x`.
fn contains(xs: &[u64], x: u64) -> (b: bool)
    ensures
        b == xs@.contains(x),
{
    let mut i: usize = 0;
    while i < xs.len()
        invariant
            i <= xs@.len(),
            forall|j: int| 0 <= j < i ==> xs@[j] != x,
        decreases xs@.len() - i,
    {
        if xs[i] == x {
            return true;
        }
        i += 1;
    }
    false
}

} // verus!
