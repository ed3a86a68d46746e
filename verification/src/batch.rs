//! The sequences that run together: prompts that are going in, and sessions that decode.
//!
//! Long prompts go in a piece at a time between two decode steps, so that they do not
//! stall the sequences already streaming. A single session guesses ahead; several share
//! a pass over the weights.

use crate::backend::{InferenceBackend, Sampler};
use crate::decode;
use crate::decode::Ends;
use crate::runtime::{
    InferenceRuntime, Pending, PendingView, RuntimeView, Session, SessionView, StopReason,
};
use crate::sampling::SamplingParams;
use crate::types::{GarudaError, Token};
use vstd::prelude::*;

verus! {

/// A request whose prompt is going in.
struct Prefilling {
    ticket: u64,
    pending: Pending,
    params: SamplingParams,
}

/// What runs together. A request is known by its ticket.
pub struct Batch {
    prefilling: Vec<Prefilling>,
    /// The sessions that decode, with the ticket and the parameters of each.
    tickets: Vec<u64>,
    sessions: Vec<Session>,
    params: Vec<SamplingParams>,
}

#[verifier::ext_equal]
pub struct PrefillView {
    pub ticket: u64,
    pub pending: PendingView,
    pub params: SamplingParams,
}

#[verifier::ext_equal]
pub struct ActiveView {
    pub ticket: u64,
    pub session: SessionView,
    pub params: SamplingParams,
}

#[verifier::ext_equal]
pub struct BatchView {
    pub prefilling: Seq<PrefillView>,
    pub active: Seq<ActiveView>,
}

impl BatchView {
    pub open spec fn wf(self) -> bool {
        &&& forall|i: int|
            0 <= i < self.prefilling.len() ==> (#[trigger] self.prefilling[i]).pending.wf()
        &&& forall|i: int| 0 <= i < self.active.len() ==> (#[trigger] self.active[i]).session.wf()
    }
}

impl Prefilling {
    spec fn view(&self) -> PrefillView {
        PrefillView { ticket: self.ticket, pending: self.pending@, params: self.params }
    }
}

impl View for Batch {
    type V = BatchView;

    closed spec fn view(&self) -> BatchView {
        BatchView {
            prefilling: self.prefilling@.map_values(|p: Prefilling| p@),
            active: Seq::new(
                self.sessions@.len(),
                |i: int|
                    ActiveView {
                        ticket: self.tickets@[i],
                        session: self.sessions@[i]@,
                        params: self.params@[i],
                    },
            ),
        }
    }
}

/// How a stretch of prefill went for one request.
#[derive(Debug)]
pub struct Progress {
    pub ticket: u64,
    /// Prompt tokens that went in.
    pub absorbed: usize,
    /// Whether the prompt is all in, or why it never will be.
    pub outcome: Result<bool, GarudaError>,
}

/// What a step did for one request.
#[derive(Debug)]
pub struct Stepped {
    pub ticket: u64,
    pub tokens: Vec<Token>,
    /// Why the sequence is over, if it is.
    pub stop: Option<StopReason>,
}

/// What a stretch of prefill went through, one request after the other.
pub struct Stretches {
    /// The prompts after their stretch.
    pub after: Seq<PendingView>,
    /// The runtime before each stretch, and after the last.
    pub states: Seq<RuntimeView>,
}

/// Every request had its stretch, in order, and is reported.
pub open spec fn all_stretched<B: InferenceBackend>(
    b: &B,
    before: Seq<PrefillView>,
    budget: nat,
    progress: Seq<Progress>,
    s: Stretches,
) -> bool {
    &&& progress.len() == before.len()
    &&& s.after.len() == before.len()
    &&& s.states.len() == before.len() + 1
    &&& forall|i: int|
        0 <= i < before.len() ==> {
            &&& (#[trigger] progress[i]).ticket == before[i].ticket
            &&& progress[i].absorbed == before[i].pending.remaining() - s.after[i].remaining()
            &&& decode::is_stretch(
                b,
                s.states[i],
                before[i].pending,
                budget,
                progress[i].outcome,
                s.after[i],
                s.states[i + 1],
            )
        }
}

/// `still` are the prompts that go on and `added` the sessions that begin, in the order
/// of the requests. A prompt whose pass failed is neither.
pub open spec fn are_sorted(
    before: Seq<PrefillView>,
    after: Seq<PendingView>,
    progress: Seq<Progress>,
    still: Seq<PrefillView>,
    added: Seq<ActiveView>,
) -> bool
    decreases before.len(),
{
    if before.len() == 0 {
        still.len() == 0 && added.len() == 0
    } else {
        let p = before.last();
        let q = after.last();
        match progress.last().outcome {
            Ok(true) => {
                &&& added.len() > 0
                &&& added.last().ticket == p.ticket
                &&& added.last().params == p.params
                &&& q.begins(added.last().session)
                &&& are_sorted(
                    before.drop_last(),
                    after.drop_last(),
                    progress.drop_last(),
                    still,
                    added.drop_last(),
                )
            },
            Ok(false) => {
                &&& still.len() > 0
                &&& still.last() == (PrefillView { pending: q, ..p })
                &&& are_sorted(
                    before.drop_last(),
                    after.drop_last(),
                    progress.drop_last(),
                    still.drop_last(),
                    added,
                )
            },
            Err(_) => are_sorted(
                before.drop_last(),
                after.drop_last(),
                progress.drop_last(),
                still,
                added,
            ),
        }
    }
}

proof fn one_more_stretched<B: InferenceBackend>(
    b: &B,
    before: Seq<PrefillView>,
    budget: nat,
    progress: Seq<Progress>,
    s: Stretches,
    p: PrefillView,
    pr: Progress,
    t: Stretches,
)
    requires
        all_stretched(b, before, budget, progress, s),
        t.after.len() == s.after.len() + 1,
        t.after.drop_last() == s.after,
        t.states.len() == s.states.len() + 1,
        t.states.drop_last() == s.states,
        pr.ticket == p.ticket,
        pr.absorbed == p.pending.remaining() - t.after.last().remaining(),
        decode::is_stretch(
            b,
            s.states.last(),
            p.pending,
            budget,
            pr.outcome,
            t.after.last(),
            t.states.last(),
        ),
    ensures
        all_stretched(b, before.push(p), budget, progress.push(pr), t),
{
    assert forall|i: int| 0 <= i <= before.len() implies {
        &&& (#[trigger] progress.push(pr)[i]).ticket == before.push(p)[i].ticket
        &&& progress.push(pr)[i].absorbed == before.push(p)[i].pending.remaining()
            - t.after[i].remaining()
        &&& decode::is_stretch(
            b,
            t.states[i],
            before.push(p)[i].pending,
            budget,
            progress.push(pr)[i].outcome,
            t.after[i],
            t.states[i + 1],
        )
    } by {
        if i < before.len() {
            assert(progress[i] == progress.push(pr)[i]);
            assert(t.after[i] == s.after[i]);
            assert(t.states[i] == s.states[i]);
            assert(t.states[i + 1] == s.states[i + 1]);
        } else {
            assert(t.states[i] == s.states.last());
        }
    }
}

proof fn one_more_sorted(
    before: Seq<PrefillView>,
    after: Seq<PendingView>,
    progress: Seq<Progress>,
    still: Seq<PrefillView>,
    added: Seq<ActiveView>,
    p: PrefillView,
    q: PendingView,
    pr: Progress,
    still_after: Seq<PrefillView>,
    added_after: Seq<ActiveView>,
)
    requires
        are_sorted(before, after, progress, still, added),
        match pr.outcome {
            Ok(true) => {
                &&& still_after == still
                &&& added_after.len() == added.len() + 1
                &&& added_after.drop_last() == added
                &&& added_after.last().ticket == p.ticket
                &&& added_after.last().params == p.params
                &&& q.begins(added_after.last().session)
            },
            Ok(false) => added_after == added && still_after == still.push(
                PrefillView { pending: q, ..p },
            ),
            Err(_) => still_after == still && added_after == added,
        },
    ensures
        are_sorted(before.push(p), after.push(q), progress.push(pr), still_after, added_after),
{
    assert(before.push(p).drop_last() =~= before);
    assert(after.push(q).drop_last() =~= after);
    assert(progress.push(pr).drop_last() =~= progress);
    assert(still.push(PrefillView { pending: q, ..p }).drop_last() =~= still);
}

impl Stepped {
    /// A step that gave one token, or the reason why there is none.
    pub open spec fn is_outcome(self, r: Result<Token, StopReason>) -> bool {
        match r {
            Ok(t) => self.tokens@ == seq![t] && self.stop is None,
            Err(reason) => self.tokens@ == Seq::<Token>::empty() && self.stop == Some(reason),
        }
    }
}

/// Every session had its step, and is reported in order.
pub open spec fn all_stepped<B: InferenceBackend, S: Sampler>(
    b: &B,
    s: &S,
    rt: RuntimeView,
    active: Seq<ActiveView>,
    ends: Ends,
    results: Seq<Stepped>,
    after: Seq<SessionView>,
) -> bool {
    &&& results.len() == active.len()
    &&& after.len() == active.len()
    &&& forall|i: int|
        0 <= i < active.len() ==> {
            &&& (#[trigger] results[i]).ticket == active[i].ticket
            &&& exists|r: Result<Token, StopReason>| #[trigger]
                results[i].is_outcome(r) && decode::steps_in_batch(
                    b,
                    s,
                    active[i].session,
                    active[i].params,
                    ends,
                    rt.max_context,
                    after[i],
                    r,
                )
        }
}

/// The only session had its step, and may have guessed ahead.
pub open spec fn one_stepped<B: InferenceBackend, D: InferenceBackend, S: Sampler>(
    b: &B,
    drafter: Option<&D>,
    s: &S,
    rt: RuntimeView,
    active: Seq<ActiveView>,
    lookahead: nat,
    ends: Ends,
    results: Seq<Stepped>,
    after: Seq<SessionView>,
) -> bool {
    &&& results.len() == 1
    &&& after.len() == 1
    &&& results[0].ticket == active[0].ticket
    &&& decode::is_speculation(
        b,
        drafter,
        s,
        rt,
        active[0].session,
        active[0].params,
        lookahead,
        ends,
        after[0],
        match results[0].stop {
            Some(reason) => Err::<(), StopReason>(reason),
            None => Ok(()),
        },
        Seq::empty(),
        results[0].tokens@,
    )
}

/// The sessions that run on, as the step left them.
pub open spec fn survivors(
    active: Seq<ActiveView>,
    after: Seq<SessionView>,
    results: Seq<Stepped>,
) -> Seq<ActiveView>
    decreases active.len(),
{
    if active.len() == 0 {
        Seq::empty()
    } else {
        let rest = survivors(active.drop_last(), after.drop_last(), results.drop_last());
        if results.last().stop is None {
            rest.push(ActiveView { session: after.last(), ..active.last() })
        } else {
            rest
        }
    }
}

pub open spec fn prompts_but(ticket: u64) -> spec_fn(PrefillView) -> bool {
    |p: PrefillView| p.ticket != ticket
}

pub open spec fn sessions_but(ticket: u64) -> spec_fn(ActiveView) -> bool {
    |a: ActiveView| a.ticket != ticket
}

/// No request gets lost between prefill and decoding: one whose prompt is all in decodes
/// from it, one whose prompt is not goes on, and only one whose pass failed is gone.
pub proof fn every_prompt_goes_somewhere(
    before: Seq<PrefillView>,
    after: Seq<PendingView>,
    progress: Seq<Progress>,
    still: Seq<PrefillView>,
    added: Seq<ActiveView>,
    i: int,
)
    requires
        are_sorted(before, after, progress, still, added),
        after.len() == before.len(),
        progress.len() == before.len(),
        0 <= i < before.len(),
    ensures
        match progress[i].outcome {
            Ok(true) => exists|j: int|
                0 <= j < added.len() && (#[trigger] added[j]).ticket == before[i].ticket
                    && after[i].begins(added[j].session),
            Ok(false) => exists|j: int|
                0 <= j < still.len() && (#[trigger] still[j]).ticket == before[i].ticket
                    && still[j].pending == after[i],
            Err(_) => true,
        },
    decreases before.len(),
{
    let last = before.len() - 1;
    let (s, a) = match progress.last().outcome {
        Ok(true) => (still, added.drop_last()),
        Ok(false) => (still.drop_last(), added),
        Err(_) => (still, added),
    };
    if i == last {
        assert(progress.last().outcome matches Ok(true) ==> added[added.len() - 1]
            == added.last());
        assert(progress.last().outcome matches Ok(false) ==> still[still.len() - 1]
            == still.last());
    } else {
        every_prompt_goes_somewhere(
            before.drop_last(),
            after.drop_last(),
            progress.drop_last(),
            s,
            a,
            i,
        );
        match progress[i].outcome {
            Ok(true) => {
                let j = choose|j: int|
                    0 <= j < a.len() && (#[trigger] a[j]).ticket == before[i].ticket
                        && after[i].begins(a[j].session);
                assert(added[j] == a[j]);
            },
            Ok(false) => {
                let j = choose|j: int|
                    0 <= j < s.len() && (#[trigger] s[j]).ticket == before[i].ticket
                        && s[j].pending == after[i];
                assert(still[j] == s[j]);
            },
            Err(_) => {},
        }
    }
}

/// Who survives, and as what, does not hang on the sessions before the step.
proof fn survivors_are_as_stepped(
    a: Seq<ActiveView>,
    b: Seq<ActiveView>,
    after: Seq<SessionView>,
    results: Seq<Stepped>,
)
    requires
        a.len() == b.len(),
        forall|i: int|
            0 <= i < a.len() ==> (#[trigger] a[i]).ticket == b[i].ticket && a[i].params
                == b[i].params,
    ensures
        survivors(a, after, results) == survivors(b, after, results),
    decreases a.len(),
{
    if a.len() > 0 {
        assert forall|i: int| 0 <= i < a.drop_last().len() implies (
        #[trigger] a.drop_last()[i]).ticket == b.drop_last()[i].ticket && a.drop_last()[i].params
            == b.drop_last()[i].params by {
            assert(a.drop_last()[i] == a[i]);
        }
        survivors_are_as_stepped(
            a.drop_last(),
            b.drop_last(),
            after.drop_last(),
            results.drop_last(),
        );
        assert(a[a.len() - 1].ticket == b[a.len() - 1].ticket);
    }
}

impl Batch {
    pub closed spec fn wf(&self) -> bool {
        &&& self@.wf()
        &&& self.tickets@.len() == self.sessions@.len()
        &&& self.params@.len() == self.sessions@.len()
    }

    /// Every prompt and every sequence of a batch keeps its own invariant.
    pub proof fn view_is_wf(&self)
        requires
            self.wf(),
        ensures
            self@.wf(),
    {
    }

    pub fn new() -> (b: Self)
        ensures
            b.wf(),
            b@.prefilling == Seq::<PrefillView>::empty(),
            b@.active == Seq::<ActiveView>::empty(),
    {
        let b = Batch {
            prefilling: Vec::new(),
            tickets: Vec::new(),
            sessions: Vec::new(),
            params: Vec::new(),
        };
        assert(b@.prefilling =~= Seq::<PrefillView>::empty());
        assert(b@.active =~= Seq::<ActiveView>::empty());
        b
    }

    /// Takes in a request whose prompt has yet to be absorbed.
    pub fn begin(&mut self, ticket: u64, pending: Pending, params: SamplingParams)
        requires
            old(self).wf(),
            pending.wf(),
        ensures
            final(self).wf(),
            final(self)@ == (BatchView {
                prefilling: old(self)@.prefilling.push(
                    PrefillView { ticket, pending: pending@, params },
                ),
                ..old(self)@
            }),
    {
        let ghost before = self@;
        self.prefilling.push(Prefilling { ticket, pending, params });
        assert(self@.prefilling =~= before.prefilling.push(
            PrefillView { ticket, pending: pending@, params },
        ));
        assert(self@.active =~= before.active);
    }

    /// Feeds each pending prompt up to `budget` tokens further, and at least one. Those
    /// that are all in begin to decode, and one whose pass failed is dropped.
    pub fn advance_prefills<B: InferenceBackend>(
        &mut self,
        runtime: &mut InferenceRuntime,
        backend: &B,
        budget: usize,
    ) -> (progress: Vec<Progress>)
        requires
            old(self).wf(),
            old(runtime).wf(),
        ensures
            final(self).wf(),
            final(runtime).wf(),
            final(runtime).template() == old(runtime).template(),
            exists|s: Stretches, added: Seq<ActiveView>|
                {
                    &&& #[trigger] all_stretched(
                        backend,
                        old(self)@.prefilling,
                        budget as nat,
                        progress@,
                        s,
                    )
                    &&& s.states[0] == old(runtime)@
                    &&& s.states.last() == final(runtime)@
                    &&& #[trigger] are_sorted(
                        old(self)@.prefilling,
                        s.after,
                        progress@,
                        final(self)@.prefilling,
                        added,
                    )
                    &&& final(self)@.active == old(self)@.active + added
                    &&& forall|i: int|
                        0 <= i < progress@.len() && (#[trigger] progress@[i]).outcome is Err
                            ==> s.after[i].seq.is_let_go()
                },
    {
        let ghost before = self@.prefilling;
        let ghost began = self@.active;
        let n: usize = self.prefilling.len();
        let mut progress: Vec<Progress> = Vec::new();
        let ghost mut s = Stretches { after: Seq::empty(), states: seq![runtime@] };
        let ghost mut still: Seq<PrefillView> = Seq::empty();
        let ghost mut added: Seq<ActiveView> = Seq::empty();
        let mut i: usize = 0;
        let mut k: usize = 0;
        proof {
            assert(self@.prefilling =~= still + before.skip(0));
            assert(self@.active =~= began + added);
            assert(before.take(0) =~= Seq::<PrefillView>::empty());
        }
        while k < n
            invariant
                self.wf(),
                runtime.wf(),
                runtime.template() == old(runtime).template(),
                before == old(self)@.prefilling,
                n == before.len(),
                k <= n,
                i == still.len(),
                i <= k,
                self@.prefilling == still + before.skip(k as int),
                self@.active == began + added,
                s.states[0] == old(runtime)@,
                s.states.len() == k + 1,
                s.states.last() == runtime@,
                all_stretched(backend, before.take(k as int), budget as nat, progress@, s),
                are_sorted(before.take(k as int), s.after, progress@, still, added),
                forall|j: int|
                    0 <= j < progress@.len() && (#[trigger] progress@[j]).outcome is Err
                        ==> s.after[j].seq.is_let_go(),
            decreases n - k,
        {
            let ghost all = self@.prefilling;
            let ghost active_before = self@.active;
            let ghost still_before = still;
            let ghost added_before = added;
            proof {
                assert(all.len() == self.prefilling@.len());
                assert(all.len() == i + (n - k));
                assert(all[i as int] == before[k as int]);
                assert(self.prefilling@[i as int]@ == all[i as int]);
            }
            let mut p = self.prefilling.remove(i);
            let ticket: u64 = p.ticket;
            let ghost p0 = p@;
            let ghost rest = self@.prefilling;
            assert(rest =~= all.remove(i as int));
            assert(rest == still + before.skip(k + 1));
            let left: usize = p.pending.remaining();
            let outcome = runtime.advance_prefill(backend, &mut p.pending, budget);
            let absorbed: usize = left - p.pending.remaining();
            let ghost q = p.pending@;
            match &outcome {
                Ok(true) => {
                    let session = InferenceRuntime::finish_prefill(p.pending);
                    let ghost a = ActiveView {
                        ticket: p.ticket,
                        session: session@,
                        params: p.params,
                    };
                    let ghost active = self@.active;
                    self.tickets.push(p.ticket);
                    self.sessions.push(session);
                    self.params.push(p.params);
                    proof {
                        assert(active == began + added);
                        assert(self@.active =~= active.push(a));
                        assert(active.push(a) =~= began + added.push(a));
                        added = added.push(a);
                        assert(added.drop_last() =~= added_before);
                    }
                },
                Ok(false) => {
                    self.prefilling.insert(i, p);
                    proof {
                        let on = PrefillView { pending: q, ..p0 };
                        assert(self@.prefilling =~= rest.insert(i as int, on));
                        assert(rest.insert(i as int, on) =~= still.push(on) + before.skip(k + 1));
                        still = still.push(on);
                    }
                    i += 1;
                },
                Err(_) => {
                    p.pending.let_go();
                },
            }
            let ghost reported = progress@;
            progress.push(Progress { ticket, absorbed, outcome });
            proof {
                let pr = progress@.last();
                let so_far = before.take(k as int);
                let s1 = Stretches {
                    after: s.after.push(q),
                    states: s.states.push(runtime@),
                };
                assert(progress@ =~= reported.push(pr));
                assert(s1.after.drop_last() =~= s.after);
                assert(s1.states.drop_last() =~= s.states);
                assert forall|j: int|
                    0 <= j < progress@.len() && (
                    #[trigger] progress@[j]).outcome is Err implies s1.after[j].seq.is_let_go() by {
                    if j < reported.len() {
                        assert(progress@[j] == reported[j]);
                        assert(s1.after[j] == s.after[j]);
                    }
                }
                assert(before.take(k + 1) =~= so_far.push(p0));
                one_more_stretched(backend, so_far, budget as nat, reported, s, p0, pr, s1);
                one_more_sorted(
                    so_far,
                    s.after,
                    reported,
                    still_before,
                    added_before,
                    p0,
                    q,
                    pr,
                    still,
                    added,
                );
                s = s1;
                assert(self@.prefilling =~= still + before.skip(k + 1));
                assert(self@.active =~= began + added);
                assert forall|j: int| 0 <= j < self@.prefilling.len() implies (
                #[trigger] self@.prefilling[j]).pending.wf() by {
                    if j < still_before.len() {
                        assert(self@.prefilling[j] == all[j]);
                    } else if j >= still.len() {
                        assert(self@.prefilling[j] == all[j - still.len() + still_before.len() + 1]);
                    }
                }
                assert forall|j: int| 0 <= j < self@.active.len() implies (
                #[trigger] self@.active[j]).session.wf() by {
                    if j < began.len() + added_before.len() {
                        assert(self@.active[j] == active_before[j]);
                    }
                }
            }
            k += 1;
        }
        proof {
            assert(before.take(n as int) =~= before);
            assert(self@.prefilling =~= still);
        }
        progress
    }

    /// True when a session decodes.
    pub fn is_streaming(&self) -> (b: bool)
        requires
            self.wf(),
        ensures
            b == (self@.active.len() > 0),
    {
        self.sessions.len() > 0
    }

    /// Drops the request with `ticket`, wherever it stands.
    pub fn drop_request(&mut self, ticket: u64)
        requires
            old(self).wf(),
        ensures
            final(self).wf(),
            final(self)@.prefilling == old(self)@.prefilling.filter(prompts_but(ticket)),
            final(self)@.active == old(self)@.active.filter(sessions_but(ticket)),
            forall|i: int|
                0 <= i < old(self)@.prefilling.len() && (#[trigger] old(
                    self,
                )@.prefilling[i]).ticket == ticket ==> old(
                    self,
                )@.prefilling[i].pending.seq.is_let_go(),
            forall|i: int|
                0 <= i < old(self)@.active.len() && (#[trigger] old(self)@.active[i]).ticket
                    == ticket ==> old(self)@.active[i].session.is_let_go(),
    {
        self.drop_prompt(ticket);
        self.drop_session(ticket);
    }

    fn drop_prompt(&mut self, ticket: u64)
        requires
            old(self).wf(),
        ensures
            final(self).wf(),
            final(self)@.prefilling == old(self)@.prefilling.filter(prompts_but(ticket)),
            final(self)@.active == old(self)@.active,
            forall|i: int|
                0 <= i < old(self)@.prefilling.len() && (#[trigger] old(
                    self,
                )@.prefilling[i]).ticket == ticket ==> old(
                    self,
                )@.prefilling[i].pending.seq.is_let_go(),
    {
        let ghost before = self@.prefilling;
        let n: usize = self.prefilling.len();
        let ghost mut kept: Seq<PrefillView> = Seq::empty();
        let mut i: usize = 0;
        let mut k: usize = 0;
        proof {
            reveal(Seq::filter);
            assert(self@.prefilling =~= kept + before.skip(0));
        }
        while k < n
            invariant
                self.wf(),
                self@.active == old(self)@.active,
                before == old(self)@.prefilling,
                n == before.len(),
                k <= n,
                i == kept.len(),
                i <= k,
                self@.prefilling == kept + before.skip(k as int),
                kept == before.take(k as int).filter(prompts_but(ticket)),
                forall|j: int|
                    0 <= j < k && (#[trigger] before[j]).ticket == ticket
                        ==> before[j].pending.seq.is_let_go(),
            decreases n - k,
        {
            let ghost all = self@.prefilling;
            proof {
                reveal(Seq::filter);
                assert(all.len() == self.prefilling@.len());
                assert(all.len() == i + (n - k));
                assert(all[i as int] == before[k as int]);
                assert(self.prefilling@[i as int]@ == all[i as int]);
                assert(before.take(k + 1).drop_last() =~= before.take(k as int));
            }
            if self.prefilling[i].ticket != ticket {
                proof {
                    kept = kept.push(before[k as int]);
                    assert(all =~= kept + before.skip(k + 1));
                }
                i += 1;
            } else {
                let gone = self.prefilling.remove(i);
                assert(gone@ == all[i as int]);
                gone.pending.let_go();
                proof {
                    assert(self@.prefilling =~= all.remove(i as int));
                    assert(all.remove(i as int) =~= kept + before.skip(k + 1));
                    assert(self@.active =~= old(self)@.active);
                    assert forall|j: int| 0 <= j < self@.prefilling.len() implies (
                    #[trigger] self@.prefilling[j]).pending.wf() by {
                        if j < i {
                            assert(self@.prefilling[j] == all[j]);
                        } else {
                            assert(self@.prefilling[j] == all[j + 1]);
                        }
                    }
                }
            }
            k += 1;
        }
        proof {
            assert(before.take(n as int) =~= before);
            assert(self@.prefilling =~= kept);
        }
    }

    fn drop_session(&mut self, ticket: u64)
        requires
            old(self).wf(),
        ensures
            final(self).wf(),
            final(self)@.prefilling == old(self)@.prefilling,
            final(self)@.active == old(self)@.active.filter(sessions_but(ticket)),
            forall|i: int|
                0 <= i < old(self)@.active.len() && (#[trigger] old(self)@.active[i]).ticket
                    == ticket ==> old(self)@.active[i].session.is_let_go(),
    {
        let ghost before = self@.active;
        let n: usize = self.sessions.len();
        let ghost mut kept: Seq<ActiveView> = Seq::empty();
        let mut i: usize = 0;
        let mut k: usize = 0;
        proof {
            reveal(Seq::filter);
            assert(self@.active =~= kept + before.skip(0));
        }
        while k < n
            invariant
                self.wf(),
                self@.prefilling == old(self)@.prefilling,
                before == old(self)@.active,
                n == before.len(),
                k <= n,
                i == kept.len(),
                i <= k,
                self@.active == kept + before.skip(k as int),
                kept == before.take(k as int).filter(sessions_but(ticket)),
                forall|j: int|
                    0 <= j < k && (#[trigger] before[j]).ticket == ticket
                        ==> before[j].session.is_let_go(),
            decreases n - k,
        {
            let ghost all = self@.active;
            proof {
                reveal(Seq::filter);
                assert(all.len() == i + (n - k));
                assert(all[i as int] == before[k as int]);
                assert(before.take(k + 1).drop_last() =~= before.take(k as int));
            }
            if self.tickets[i] != ticket {
                proof {
                    kept = kept.push(before[k as int]);
                    assert(all =~= kept + before.skip(k + 1));
                }
                i += 1;
            } else {
                self.tickets.remove(i);
                let gone = self.sessions.remove(i);
                self.params.remove(i);
                assert(gone@ == all[i as int].session);
                gone.let_go();
                proof {
                    assert(self@.active =~= all.remove(i as int));
                    assert(all.remove(i as int) =~= kept + before.skip(k + 1));
                    assert forall|j: int| 0 <= j < self@.active.len() implies (
                    #[trigger] self@.active[j]).session.wf() by {
                        if j < i {
                            assert(self@.active[j] == all[j]);
                        } else {
                            assert(self@.active[j] == all[j + 1]);
                        }
                    }
                }
            }
            k += 1;
        }
        proof {
            assert(before.take(n as int) =~= before);
            assert(self@.active =~= kept);
        }
    }

    /// The tickets of the prompts that are going in, in order.
    pub fn prefilling(&self) -> (t: Vec<u64>)
        requires
            self.wf(),
        ensures
            t@ == self@.prefilling.map_values(|p: PrefillView| p.ticket),
    {
        let mut t: Vec<u64> = Vec::new();
        let mut i: usize = 0;
        while i < self.prefilling.len()
            invariant
                i <= self.prefilling@.len(),
                self@.prefilling.len() == self.prefilling@.len(),
                t@.len() == i,
                forall|j: int| 0 <= j < i ==> #[trigger] t@[j] == self@.prefilling[j].ticket,
            decreases self.prefilling@.len() - i,
        {
            assert(self@.prefilling[i as int] == self.prefilling@[i as int]@);
            t.push(self.prefilling[i].ticket);
            i += 1;
        }
        assert(t@ =~= self@.prefilling.map_values(|p: PrefillView| p.ticket));
        t
    }

    /// The tickets of the sessions that decode, in order.
    pub fn active(&self) -> (t: &Vec<u64>)
        requires
            self.wf(),
        ensures
            t@ == self@.active.map_values(|a: ActiveView| a.ticket),
    {
        assert(self.tickets@ =~= self@.active.map_values(|a: ActiveView| a.ticket));
        &self.tickets
    }

    /// Lets the sessions go that a step ended.
    fn retire(&mut self, results: &[Stepped])
        requires
            old(self).wf(),
            results@.len() == old(self)@.active.len(),
        ensures
            final(self).wf(),
            final(self)@.prefilling == old(self)@.prefilling,
            final(self)@.active == survivors(
                old(self)@.active,
                old(self)@.active.map_values(|a: ActiveView| a.session),
                results@,
            ),
            forall|i: int|
                0 <= i < results@.len() && (#[trigger] results@[i]).stop is Some ==> old(
                    self,
                )@.active[i].session.is_let_go(),
    {
        let ghost active = self@.active;
        let ghost after = active.map_values(|a: ActiveView| a.session);
        let n: usize = self.sessions.len();
        let ghost mut kept: Seq<ActiveView> = Seq::empty();
        let mut i: usize = 0;
        let mut k: usize = 0;
        proof {
            assert(self@.active =~= kept + active.skip(0));
        }
        while k < n
            invariant
                self.wf(),
                self@.prefilling == old(self)@.prefilling,
                active == old(self)@.active,
                after == active.map_values(|a: ActiveView| a.session),
                n == active.len(),
                n == results@.len(),
                k <= n,
                i == kept.len(),
                i <= k,
                self@.active == kept + active.skip(k as int),
                kept == survivors(
                    active.take(k as int),
                    after.take(k as int),
                    results@.take(k as int),
                ),
                forall|j: int|
                    0 <= j < k && (#[trigger] results@[j]).stop is Some
                        ==> active[j].session.is_let_go(),
            decreases n - k,
        {
            let ghost all = self@.active;
            proof {
                assert(all.len() == i + (n - k));
                assert(all[i as int] == active[k as int]);
                assert(active.take(k + 1).drop_last() =~= active.take(k as int));
                assert(after.take(k + 1).drop_last() =~= after.take(k as int));
                assert(results@.take(k + 1).drop_last() =~= results@.take(k as int));
            }
            if results[k].stop.is_none() {
                proof {
                    kept = kept.push(active[k as int]);
                    assert(all =~= kept + active.skip(k + 1));
                }
                i += 1;
            } else {
                self.tickets.remove(i);
                let gone = self.sessions.remove(i);
                self.params.remove(i);
                assert(gone@ == all[i as int].session);
                gone.let_go();
                proof {
                    assert(self@.active =~= all.remove(i as int));
                    assert(all.remove(i as int) =~= kept + active.skip(k + 1));
                    assert forall|j: int| 0 <= j < self@.active.len() implies (
                    #[trigger] self@.active[j]).session.wf() by {
                        if j < i {
                            assert(self@.active[j] == all[j]);
                        } else {
                            assert(self@.active[j] == all[j + 1]);
                        }
                    }
                }
            }
            k += 1;
        }
        proof {
            assert(active.take(n as int) =~= active);
            assert(after.take(n as int) =~= after);
            assert(results@.take(n as int) =~= results@);
            assert(self@.active =~= kept);
        }
    }

    /// Advances every session, and lets those go that are over. Gives what each step did,
    /// in order.
    ///
    /// A session that is alone has nothing to share a pass with, so it guesses up to
    /// `lookahead` tokens ahead; several share one, and guessing on top would only add
    /// work.
    pub fn step<B: InferenceBackend, D: InferenceBackend, S: Sampler>(
        &mut self,
        runtime: &InferenceRuntime,
        backend: &B,
        drafter: Option<&D>,
        sampler: &S,
        ends: Ends,
        lookahead: usize,
    ) -> (results: Vec<Stepped>)
        requires
            old(self).wf(),
            runtime.wf(),
        ensures
            final(self).wf(),
            final(self)@.prefilling == old(self)@.prefilling,
            exists|after: Seq<SessionView>|
                {
                    &&& final(self)@.active == #[trigger] survivors(
                        old(self)@.active,
                        after,
                        results@,
                    )
                    &&& forall|i: int|
                        0 <= i < results@.len() && (#[trigger] results@[i]).stop is Some
                            ==> after[i].is_let_go()
                    &&& if old(self)@.active.len() == 1 && lookahead > 0 {
                        one_stepped(
                            backend,
                            drafter,
                            sampler,
                            runtime@,
                            old(self)@.active,
                            lookahead as nat,
                            ends,
                            results@,
                            after,
                        )
                    } else {
                        all_stepped(
                            backend,
                            sampler,
                            runtime@,
                            old(self)@.active,
                            ends,
                            results@,
                            after,
                        )
                    }
                },
    {
        let ghost active = self@.active;
        let ghost prefilling = self@.prefilling;
        proof {
            assert forall|i: int| 0 <= i < self.sessions@.len() implies (
            #[trigger] self.sessions@[i]).wf() by {
                assert(active[i].session.wf());
            }
        }
        let mut results: Vec<Stepped> = Vec::new();
        if self.sessions.len() == 1 && lookahead > 0 {
            let mut tokens: Vec<Token> = Vec::new();
            let r = runtime.next_tokens_speculative(
                backend,
                drafter,
                sampler,
                &mut self.sessions[0],
                &self.params[0],
                ends,
                lookahead,
                &mut tokens,
            );
            let stop: Option<StopReason> = match r {
                Ok(()) => None,
                Err(reason) => Some(reason),
            };
            results.push(Stepped { ticket: self.tickets[0], tokens, stop });
        } else {
            let outcomes = runtime.next_token_batch(
                backend,
                sampler,
                &mut self.sessions,
                self.params.as_slice(),
                ends,
            );
            let mut i: usize = 0;
            while i < outcomes.len()
                invariant
                    i <= outcomes@.len(),
                    outcomes@.len() == self.tickets@.len(),
                    results@.len() == i,
                    forall|j: int|
                        0 <= j < i ==> (#[trigger] results@[j]).ticket == self.tickets@[j]
                            && results@[j].is_outcome(outcomes@[j]),
                decreases outcomes@.len() - i,
            {
                let mut tokens: Vec<Token> = Vec::new();
                let mut stop: Option<StopReason> = None;
                match outcomes[i] {
                    Ok(t) => {
                        tokens.push(t);
                    },
                    Err(reason) => {
                        stop = Some(reason);
                    },
                }
                let s = Stepped { ticket: self.tickets[i], tokens, stop };
                assert(s.is_outcome(outcomes@[i as int]));
                results.push(s);
                i += 1;
            }
        }
        let ghost moved = self@.active;
        let ghost after = moved.map_values(|a: ActiveView| a.session);
        proof {
            assert(self@.prefilling =~= prefilling);
            assert forall|i: int| 0 <= i < moved.len() implies (
            #[trigger] moved[i]).session.wf() && moved[i].ticket == active[i].ticket
                && moved[i].params == active[i].params by {
                assert(self.sessions@[i].wf());
            }
            survivors_are_as_stepped(moved, active, after, results@);
            if active.len() == 1 && lookahead > 0 {
                assert(one_stepped(
                    backend,
                    drafter,
                    sampler,
                    runtime@,
                    active,
                    lookahead as nat,
                    ends,
                    results@,
                    after,
                ));
            } else {
                assert(all_stepped(backend, sampler, runtime@, active, ends, results@, after));
            }
        }
        self.retire(results.as_slice());
        assert forall|i: int|
            0 <= i < results@.len() && (
            #[trigger] results@[i]).stop is Some implies after[i].is_let_go() by {
            assert(after[i] == moved[i].session);
        }
        results
    }
}

/// A session runs on exactly where its step did not stop it, in the order of the requests and
/// as the step left it.
pub proof fn sessions_run_on_unless_stopped(
    active: Seq<ActiveView>,
    after: Seq<SessionView>,
    results: Seq<Stepped>,
    a: ActiveView,
    w: SessionView,
    r: Stepped,
)
    requires
        active.len() == after.len() == results.len(),
    ensures
        r.stop is Some ==> survivors(active.push(a), after.push(w), results.push(r)) == survivors(
            active,
            after,
            results,
        ),
        r.stop is None ==> survivors(active.push(a), after.push(w), results.push(r)) == survivors(
            active,
            after,
            results,
        ).push(ActiveView { ticket: a.ticket, session: w, params: a.params }),
        survivors(Seq::empty(), Seq::empty(), Seq::empty()).len() == 0,
{
    assert(active.push(a).drop_last() =~= active);
    assert(after.push(w).drop_last() =~= after);
    assert(results.push(r).drop_last() =~= results);
}

/// Dropping a request drops what has its ticket, and nothing else.
pub proof fn tickets_tell_requests_apart(ticket: u64, p: PrefillView, a: ActiveView)
    ensures
        prompts_but(ticket)(p) <==> p.ticket != ticket,
        sessions_but(ticket)(a) <==> a.ticket != ticket,
{
}

} // verus!
