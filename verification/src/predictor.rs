//! Expert-activation predictor: a first-order Markov model over expert usage.
//!
//! Every decode step tells the predictor which experts actually fired. It keeps a
//! transition count from each expert to each other, and predicts the next step's experts
//! as the highest-count successors of the experts that fired last. Cold, it predicts
//! nothing.
//!
//! Being wrong costs a wasted load, not a wrong answer.

use crate::routing;
use crate::routing::top_by_key;
use crate::types::ExpertId;
use vstd::prelude::*;

verus! {

#[derive(Debug, Clone, Copy, PartialEq, Eq)]
pub struct PredictStats {
    /// Experts predicted that were then actually used.
    pub correct: u64,
    /// Experts predicted that were not used.
    pub wasted: u64,
    /// Experts used that were not predicted.
    pub missed: u64,
}

impl Default for PredictStats {
    fn default() -> (s: Self)
        ensures
            s == (PredictStats { correct: 0, wasted: 0, missed: 0 }),
    {
        PredictStats { correct: 0, wasted: 0, missed: 0 }
    }
}

impl PredictStats {
    /// How many of the predicted experts were needed, and how many were predicted.
    pub fn precision_parts(&self) -> (r: (u64, u128))
        ensures
            r.0 == self.correct,
            r.1 == self.correct + self.wasted,
    {
        (self.correct, self.correct as u128 + self.wasted as u128)
    }

    /// How many of the needed experts had been predicted, and how many were needed.
    pub fn recall_parts(&self) -> (r: (u64, u128))
        ensures
            r.0 == self.correct,
            r.1 == self.correct + self.missed,
    {
        (self.correct, self.correct as u128 + self.missed as u128)
    }
}

#[derive(Debug)]
pub struct ExpertPredictor {
    n_experts: usize,
    /// Row-major transition counts.
    pub counts: Vec<u32>,
    hits: PredictStats,
}

/// The predictor as contracts speak of it: the count from one expert to another.
#[verifier::ext_equal]
pub struct PredictorView {
    pub n: nat,
    pub counts: Seq<u32>,
    pub stats: PredictStats,
}

/// One more, short of overflowing.
pub open spec fn bumped(c: u32) -> u32 {
    if c == u32::MAX {
        c
    } else {
        (c + 1) as u32
    }
}

impl PredictorView {
    pub open spec fn wf(self) -> bool {
        self.n >= 1 && self.counts.len() == self.n * self.n
    }

    pub open spec fn count(self, p: int, q: int) -> u32 {
        self.counts[p * self.n + q]
    }

    /// After seeing `q` fire where `p` had fired.
    pub open spec fn saw(self, p: ExpertId, q: ExpertId) -> PredictorView {
        if p < self.n && q < self.n {
            let at = p * self.n + q;
            PredictorView { counts: self.counts.update(at, bumped(self.counts[at])), ..self }
        } else {
            self
        }
    }

    /// After seeing the first `m` of `next` fire where `p` had fired.
    pub open spec fn saw_row(self, p: ExpertId, next: Seq<ExpertId>, m: nat) -> PredictorView
        decreases m,
    {
        if m == 0 {
            self
        } else {
            self.saw_row(p, next, (m - 1) as nat).saw(p, next[m - 1])
        }
    }

    /// After seeing `next` fire where the first `m` of `prev` had fired.
    pub open spec fn saw_step(self, prev: Seq<ExpertId>, next: Seq<ExpertId>, m: nat) -> PredictorView
        decreases m,
    {
        if m == 0 {
            self
        } else {
            self.saw_step(prev, next, (m - 1) as nat).saw_row(prev[m - 1], next, next.len())
        }
    }

    /// How often expert `q` followed the first `m` of `current`.
    pub open spec fn follows(self, current: Seq<ExpertId>, q: int, m: nat) -> nat
        decreases m,
    {
        if m == 0 {
            0
        } else {
            self.follows(current, q, (m - 1) as nat) + if current[m - 1] < self.n {
                self.count(current[m - 1] as int, q) as nat
            } else {
                0
            }
        }
    }

    pub open spec fn likelihoods(self, current: Seq<ExpertId>) -> Seq<u128> {
        Seq::new(self.n, |q: int| self.follows(current, q, current.len()) as u128)
    }

    /// `out` are the `k` experts most likely to fire after `current`: those that ever
    /// followed it, most often first, the lower number first among equals.
    pub open spec fn predicts(self, current: Seq<ExpertId>, k: nat, out: Seq<ExpertId>) -> bool {
        let keys = self.likelihoods(current);
        &&& out.len() <= k
        &&& forall|i: int|
            0 <= i < out.len() ==> (#[trigger] out[i]) < self.n && keys[out[i] as int] > 0
        &&& forall|i: int, j: int|
            0 <= i < j < out.len() ==> routing::ranked_before(
                keys,
                (#[trigger] out[i]) as int,
                (#[trigger] out[j]) as int,
            )
        &&& forall|q: int|
            0 <= q < self.n && #[trigger] keys[q] > 0 && !out.contains(q as u32) ==> out.len() == k
                && forall|i: int|
                0 <= i < out.len() ==> routing::ranked_before(keys, (#[trigger] out[i]) as int, q)
    }
}

impl View for ExpertPredictor {
    type V = PredictorView;

    closed spec fn view(&self) -> PredictorView {
        PredictorView { n: self.n_experts as nat, counts: self.counts@, stats: self.hits }
    }
}

proof fn cell_within(p: int, q: int, n: int)
    requires
        0 <= p < n,
        0 <= q < n,
    ensures
        0 <= p * n + q < n * n,
        0 <= p * n,
{
    assert(0 <= p * n + q < n * n && 0 <= p * n) by (nonlinear_arith)
        requires
            0 <= p < n,
            0 <= q < n,
    ;
}

impl ExpertPredictor {
    pub open spec fn wf(&self) -> bool {
        self@.wf() && self@.n <= u32::MAX && self@.n * self@.n <= usize::MAX
    }

    pub fn new(n_experts: usize) -> (p: Self)
        requires
            n_experts * n_experts <= usize::MAX,
            n_experts <= u32::MAX,
        ensures
            p.wf(),
            p@.n == if n_experts == 0 {
                1
            } else {
                n_experts as nat
            },
            forall|i: int| 0 <= i < p@.counts.len() ==> #[trigger] p@.counts[i] == 0,
            p@.stats == (PredictStats { correct: 0, wasted: 0, missed: 0 }),
    {
        let n: usize = if n_experts == 0 {
            1
        } else {
            n_experts
        };
        let counts: Vec<u32> = vec![0; n * n];
        ExpertPredictor { n_experts: n, counts, hits: PredictStats::default() }
    }

    pub fn n_experts(&self) -> (n: usize)
        ensures
            n == self@.n,
    {
        self.n_experts
    }

    fn bump(&mut self, p: ExpertId, q: ExpertId)
        requires
            old(self).wf(),
        ensures
            final(self).wf(),
            final(self)@ == old(self)@.saw(p, q),
    {
        let n: usize = self.n_experts;
        let (a, b): (usize, usize) = (p as usize, q as usize);
        if a < n && b < n {
            let ghost before = self@;
            proof {
                cell_within(a as int, b as int, n as int);
            }
            let at: usize = a * n + b;
            let c: u32 = self.counts[at].saturating_add(1);
            self.counts.set(at, c);
            assert(self@ =~= before.saw(p, q));
        }
    }

    /// Learns from an observed step: `prev` fired, and next `next` fired.
    pub fn observe(&mut self, prev: &[ExpertId], next: &[ExpertId])
        requires
            old(self).wf(),
        ensures
            final(self).wf(),
            final(self)@ == old(self)@.saw_step(prev@, next@, prev@.len()),
    {
        let ghost before = self@;
        let mut i: usize = 0;
        while i < prev.len()
            invariant
                self.wf(),
                i <= prev@.len(),
                self@ == before.saw_step(prev@, next@, i as nat),
            decreases prev@.len() - i,
        {
            let ghost row = self@;
            let mut j: usize = 0;
            while j < next.len()
                invariant
                    self.wf(),
                    i < prev@.len(),
                    j <= next@.len(),
                    self@ == row.saw_row(prev@[i as int], next@, j as nat),
                decreases next@.len() - j,
            {
                self.bump(prev[i], next[j]);
                j += 1;
            }
            i += 1;
        }
    }

    /// How often each expert followed `current`.
    fn tally(&self, current: &[ExpertId]) -> (out: Vec<u128>)
        requires
            self.wf(),
        ensures
            out@ == self@.likelihoods(current@),
            forall|q: int|
                0 <= q < self@.n ==> #[trigger] out@[q] == self@.follows(
                    current@,
                    q,
                    current@.len(),
                ),
    {
        let n: usize = self.n_experts;
        let len: usize = current.len();
        let mut out: Vec<u128> = Vec::new();
        while out.len() < n
            invariant
                self.wf(),
                n == self@.n,
                len == current@.len(),
                out@.len() <= n,
                forall|q: int|
                    0 <= q < out@.len() ==> #[trigger] out@[q] == self@.follows(
                        current@,
                        q,
                        current@.len(),
                    ),
            decreases n - out@.len(),
        {
            let q: usize = out.len();
            let mut sum: u128 = 0;
            let mut m: usize = 0;
            while m < len
                invariant
                    self.wf(),
                    n == self@.n,
                    q < n,
                    m <= len == current@.len(),
                    sum == self@.follows(current@, q as int, m as nat),
                    sum <= m * u32::MAX,
                decreases len - m,
            {
                let p: usize = current[m] as usize;
                if p < n {
                    proof {
                        cell_within(p as int, q as int, n as int);
                    }
                    sum += self.counts[p * n + q] as u128;
                }
                m += 1;
            }
            out.push(sum);
        }
        assert(out@ =~= self@.likelihoods(current@));
        out
    }

    /// The `k` most likely experts to fire after `current`.
    ///
    /// Empty when the model has seen nothing relevant.
    pub fn predict(&self, current: &[ExpertId], k: usize) -> (out: Vec<ExpertId>)
        requires
            self.wf(),
        ensures
            self@.predicts(current@, k as nat, out@),
    {
        let keys = self.tally(current);
        let top = top_by_key(keys.as_slice(), k);
        let mut out: Vec<ExpertId> = Vec::new();
        while out.len() < top.len() && keys[top[out.len()]] > 0
            invariant
                self.wf(),
                keys@ == self@.likelihoods(current@),
                routing::is_top(top@, keys@, k as nat),
                out@.len() <= top@.len(),
                forall|i: int|
                    0 <= i < out@.len() ==> (#[trigger] out@[i]) == top@[i] && keys@[out@[i] as int]
                        > 0,
            decreases top@.len() - out@.len(),
        {
            let e: usize = top[out.len()];
            assert(e < keys@.len());
            out.push(e as u32);
        }
        proof {
            let n = out@.len() as int;
            assert forall|q: int|
                0 <= q < self@.n && #[trigger] keys@[q] > 0 && !out@.contains(
                    q as u32,
                ) implies out@.len() == k && forall|i: int|
                0 <= i < out@.len() ==> routing::ranked_before(
                    keys@,
                    (#[trigger] out@[i]) as int,
                    q,
                ) by {
                if top@.contains(q as usize) {
                    let j = choose|j: int| 0 <= j < top@.len() && top@[j] == q as usize;
                    if j < n {
                        assert(out@[j] == q as u32);
                        assert(false);
                    }
                    // The list stopped at a key of zero, and keys only fall from there.
                    assert(n < top@.len() && keys@[top@[n] as int] == 0);
                    if j > n {
                        assert(routing::ranked_before(keys@, top@[n] as int, top@[j] as int));
                    }
                    assert(false);
                }
                assert forall|i: int| 0 <= i < out@.len() implies routing::ranked_before(
                    keys@,
                    (#[trigger] out@[i]) as int,
                    q,
                ) by {
                    assert(top@[i] == out@[i]);
                    assert(routing::ranked_before(keys@, top@[i] as int, q));
                }
                if n < top@.len() {
                    assert(routing::ranked_before(keys@, top@[n] as int, q));
                } else if n < k {
                    routing::few_are_all(top@, keys@, k as nat, q);
                }
            }
        }
        out
    }

    /// Scores a prediction against what actually happened.
    pub fn score(&mut self, predicted: &[ExpertId], actual: &[ExpertId])
        requires
            old(self).wf(),
        ensures
            final(self).wf(),
            final(self)@.n == old(self)@.n,
            final(self)@.counts == old(self)@.counts,
            final(self)@.stats == (PredictStats {
                correct: wrapped(old(self)@.stats.correct, shared(predicted@, actual@)),
                wasted: wrapped(
                    old(self)@.stats.wasted,
                    (predicted@.len() - shared(predicted@, actual@)) as nat,
                ),
                missed: wrapped(
                    old(self)@.stats.missed,
                    (actual@.len() - shared(actual@, predicted@)) as nat,
                ),
            }),
    {
        let (hit, other) = count_shared(predicted, actual);
        let (_, miss) = count_shared(actual, predicted);
        self.hits = PredictStats {
            correct: self.hits.correct.wrapping_add(hit),
            wasted: self.hits.wasted.wrapping_add(other),
            missed: self.hits.missed.wrapping_add(miss),
        };
    }

    pub fn stats(&self) -> (s: PredictStats)
        ensures
            s == self@.stats,
    {
        self.hits
    }
}

/// A counter after counting `n` more, wrapping around.
pub open spec fn wrapped(c: u64, n: nat) -> u64 {
    c.wrapping_add(n as u64)
}

/// How many of `a` are among `b`.
pub open spec fn shared(a: Seq<ExpertId>, b: Seq<ExpertId>) -> nat
    decreases a.len(),
{
    if a.len() == 0 {
        0
    } else {
        shared(a.drop_last(), b) + if b.contains(a.last()) {
            1nat
        } else {
            0
        }
    }
}

/// What two lists share is counted over the first: every entry that the second holds counts
/// once, and no other does.
pub proof fn shared_entries_are_counted(a: Seq<ExpertId>, b: Seq<ExpertId>, x: ExpertId)
    ensures
        shared(Seq::empty(), b) == 0,
        b.contains(x) ==> shared(a.push(x), b) == shared(a, b) + 1,
        !b.contains(x) ==> shared(a.push(x), b) == shared(a, b),
{
    assert(a.push(x).drop_last() =~= a);
}

pub(crate) fn holds(ids: &[ExpertId], id: ExpertId) -> (r: bool)
    ensures
        r == ids@.contains(id),
{
    let mut i: usize = 0;
    while i < ids.len()
        invariant
            i <= ids@.len(),
            forall|k: int| 0 <= k < i ==> #[trigger] ids@[k] != id,
        decreases ids@.len() - i,
    {
        if ids[i] == id {
            return true;
        }
        i += 1;
    }
    false
}

fn count_shared(a: &[ExpertId], b: &[ExpertId]) -> (r: (u64, u64))
    ensures
        r.0 == shared(a@, b@),
        r.1 == a@.len() - shared(a@, b@),
{
    let mut hit: u64 = 0;
    let mut other: u64 = 0;
    let mut i: usize = 0;
    assert(a@.take(0) =~= Seq::<ExpertId>::empty());
    while i < a.len()
        invariant
            i <= a@.len(),
            hit == shared(a@.take(i as int), b@),
            hit + other == i,
        decreases a@.len() - i,
    {
        assert(a@.take(i + 1).drop_last() =~= a@.take(i as int));
        if holds(b, a[i]) {
            hit += 1;
        } else {
            other += 1;
        }
        i += 1;
    }
    assert(a@.take(a@.len() as int) =~= a@);
    (hit, other)
}

/// A predictor that has seen nothing predicts nothing.
pub proof fn untrained_stays_silent(v: PredictorView, current: Seq<ExpertId>, k: nat, out: Seq<
    ExpertId,
>)
    requires
        v.wf(),
        forall|i: int| 0 <= i < v.counts.len() ==> #[trigger] v.counts[i] == 0,
        v.predicts(current, k, out),
    ensures
        out.len() == 0,
{
    if out.len() > 0 {
        let q = out[0] as int;
        nothing_follows(v, current, q, current.len());
        assert(v.likelihoods(current)[q] == 0);
    }
}

proof fn nothing_follows(v: PredictorView, current: Seq<ExpertId>, q: int, m: nat)
    requires
        v.wf(),
        0 <= q < v.n,
        m <= current.len(),
        forall|i: int| 0 <= i < v.counts.len() ==> #[trigger] v.counts[i] == 0,
    ensures
        v.follows(current, q, m) == 0,
    decreases m,
{
    if m > 0 {
        nothing_follows(v, current, q, (m - 1) as nat);
        if current[m - 1] < v.n {
            cell_within(current[m - 1] as int, q, v.n as int);
        }
    }
}

/// `n` as far as a count goes.
pub open spec fn capped(n: nat) -> u32 {
    if n <= u32::MAX {
        n as u32
    } else {
        u32::MAX
    }
}

/// How often `e` is among the first `m` of `s`.
pub open spec fn occurrences(s: Seq<ExpertId>, e: ExpertId, m: nat) -> nat
    decreases m,
{
    if m == 0 {
        0
    } else {
        occurrences(s, e, (m - 1) as nat) + if s[m - 1] == e {
            1nat
        } else {
            0
        }
    }
}

/// How often `q` fired where `p` had fired, over all of `history`: each step pairs every
/// expert that fired with every one that fired next.
pub open spec fn times(history: Seq<(Seq<ExpertId>, Seq<ExpertId>)>, p: ExpertId, q: ExpertId) -> nat
    decreases history.len(),
{
    if history.len() == 0 {
        0
    } else {
        let (prev, next) = history.last();
        times(history.drop_last(), p, q) + occurrences(prev, p, prev.len()) * occurrences(
            next,
            q,
            next.len(),
        )
    }
}

impl PredictorView {
    /// After every step of `history` was observed, in order.
    pub open spec fn learned(self, history: Seq<(Seq<ExpertId>, Seq<ExpertId>)>) -> PredictorView
        decreases history.len(),
    {
        if history.len() == 0 {
            self
        } else {
            let (prev, next) = history.last();
            self.learned(history.drop_last()).saw_step(prev, next, prev.len())
        }
    }
}

proof fn cells_are_apart(n: int, p: int, q: int, a: int, b: int)
    requires
        0 <= q < n,
        0 <= b < n,
        p * n + q == a * n + b,
    ensures
        p == a,
        q == b,
{
    assert(p == a) by (nonlinear_arith)
        requires
            0 <= q < n,
            0 <= b < n,
            p * n + q == a * n + b,
    ;
}

proof fn saw_counts(v: PredictorView, a: ExpertId, b: ExpertId, p: ExpertId, q: ExpertId)
    requires
        v.wf(),
        p < v.n,
        q < v.n,
    ensures
        v.saw(a, b).wf(),
        v.saw(a, b).n == v.n,
        v.saw(a, b).count(p as int, q as int) == if a == p && b == q {
            capped(v.count(p as int, q as int) as nat + 1)
        } else {
            v.count(p as int, q as int)
        },
{
    cell_within(p as int, q as int, v.n as int);
    if a < v.n && b < v.n {
        cell_within(a as int, b as int, v.n as int);
        if a * v.n + b == p * v.n + q {
            cells_are_apart(v.n as int, a as int, b as int, p as int, q as int);
        }
    }
}

proof fn saw_row_counts(
    v: PredictorView,
    a: ExpertId,
    next: Seq<ExpertId>,
    m: nat,
    p: ExpertId,
    q: ExpertId,
)
    requires
        v.wf(),
        p < v.n,
        q < v.n,
    ensures
        v.saw_row(a, next, m).wf(),
        v.saw_row(a, next, m).n == v.n,
        v.saw_row(a, next, m).count(p as int, q as int) == if a == p {
            capped(v.count(p as int, q as int) as nat + occurrences(next, q, m))
        } else {
            v.count(p as int, q as int)
        },
    decreases m,
{
    if m > 0 {
        saw_row_counts(v, a, next, (m - 1) as nat, p, q);
        saw_counts(v.saw_row(a, next, (m - 1) as nat), a, next[m - 1], p, q);
    }
}

proof fn saw_step_counts(
    v: PredictorView,
    prev: Seq<ExpertId>,
    next: Seq<ExpertId>,
    m: nat,
    p: ExpertId,
    q: ExpertId,
)
    requires
        v.wf(),
        p < v.n,
        q < v.n,
    ensures
        v.saw_step(prev, next, m).wf(),
        v.saw_step(prev, next, m).n == v.n,
        v.saw_step(prev, next, m).count(p as int, q as int) == capped(
            v.count(p as int, q as int) as nat + occurrences(prev, p, m) * occurrences(
                next,
                q,
                next.len(),
            ),
        ),
    decreases m,
{
    let each = occurrences(next, q, next.len());
    if m == 0 {
        assert(0 * each == 0) by (nonlinear_arith);
    } else {
        let k = (m - 1) as nat;
        saw_step_counts(v, prev, next, k, p, q);
        saw_row_counts(v.saw_step(prev, next, k), prev[m - 1], next, next.len(), p, q);
        let before = occurrences(prev, p, k);
        assert((before + 1) * each == before * each + each) by (nonlinear_arith);
        assert(before * each >= 0) by (nonlinear_arith);
    }
}

/// What the predictor knows is what it was shown: the count from one expert to another is
/// the number of times that it was observed, up to the largest count there is.
pub proof fn counts_are_the_history(
    v: PredictorView,
    history: Seq<(Seq<ExpertId>, Seq<ExpertId>)>,
    p: ExpertId,
    q: ExpertId,
)
    requires
        v.wf(),
        forall|i: int| 0 <= i < v.counts.len() ==> #[trigger] v.counts[i] == 0,
        p < v.n,
        q < v.n,
    ensures
        v.learned(history).wf(),
        v.learned(history).n == v.n,
        v.learned(history).count(p as int, q as int) == capped(times(history, p, q)),
    decreases history.len(),
{
    if history.len() == 0 {
        cell_within(p as int, q as int, v.n as int);
    } else {
        let init = history.drop_last();
        let (prev, next) = history.last();
        counts_are_the_history(v, init, p, q);
        saw_step_counts(v.learned(init), prev, next, prev.len(), p, q);
        assert(occurrences(prev, p, prev.len()) * occurrences(next, q, next.len()) >= 0)
            by (nonlinear_arith);
    }
}

/// How often `q` was seen to follow the first `m` of `current`, each pair counted as far as
/// a count goes.
pub open spec fn score(
    history: Seq<(Seq<ExpertId>, Seq<ExpertId>)>,
    n: nat,
    current: Seq<ExpertId>,
    q: ExpertId,
    m: nat,
) -> nat
    decreases m,
{
    if m == 0 {
        0
    } else {
        score(history, n, current, q, (m - 1) as nat) + if current[m - 1] < n {
            capped(times(history, current[m - 1], q)) as nat
        } else {
            0
        }
    }
}

/// Experts are ranked by what was observed: what [`ExpertPredictor::predict`] orders them
/// by is how often each was seen to follow the experts that fired.
pub proof fn ranks_are_the_history(
    v: PredictorView,
    history: Seq<(Seq<ExpertId>, Seq<ExpertId>)>,
    current: Seq<ExpertId>,
    q: ExpertId,
    m: nat,
)
    requires
        v.wf(),
        forall|i: int| 0 <= i < v.counts.len() ==> #[trigger] v.counts[i] == 0,
        q < v.n,
        m <= current.len(),
    ensures
        v.learned(history).follows(current, q as int, m) == score(history, v.n, current, q, m),
    decreases m,
{
    counts_are_the_history(v, history, q, q);
    if m > 0 {
        ranks_are_the_history(v, history, current, q, (m - 1) as nat);
        if current[m - 1] < v.n {
            counts_are_the_history(v, history, current[m - 1], q);
        }
    }
}

/// The experts that were seen to follow any of `current`.
pub open spec fn relevant(
    history: Seq<(Seq<ExpertId>, Seq<ExpertId>)>,
    n: nat,
    current: Seq<ExpertId>,
) -> Set<int> {
    Set::new(|q: int| 0 <= q < n && score(history, n, current, q as ExpertId, current.len()) > 0)
}

/// Expert `a` was seen to follow `current` more often than `b`, or as often and has the
/// lower number.
pub open spec fn outranks(
    history: Seq<(Seq<ExpertId>, Seq<ExpertId>)>,
    n: nat,
    current: Seq<ExpertId>,
    a: ExpertId,
    b: ExpertId,
) -> bool {
    let x = score(history, n, current, a, current.len());
    let y = score(history, n, current, b, current.len());
    x > y || (x == y && a < b)
}

proof fn scores_are_bounded(
    history: Seq<(Seq<ExpertId>, Seq<ExpertId>)>,
    n: nat,
    current: Seq<ExpertId>,
    q: ExpertId,
    m: nat,
)
    ensures
        score(history, n, current, q, m) <= m * u32::MAX,
    decreases m,
{
    if m > 0 {
        scores_are_bounded(history, n, current, q, (m - 1) as nat);
    }
}

/// A prediction is what the history says: of the experts that were seen to follow
/// `current`, the `k` that were seen most often, or all of them where there are fewer. They
/// come most often first, the lower number first among equals, and none is left out that
/// goes before one that is not.
pub proof fn predictions_are_the_history(
    v: PredictorView,
    history: Seq<(Seq<ExpertId>, Seq<ExpertId>)>,
    current: Seq<ExpertId>,
    k: nat,
    out: Seq<ExpertId>,
)
    requires
        v.wf(),
        forall|i: int| 0 <= i < v.counts.len() ==> #[trigger] v.counts[i] == 0,
        v.n <= u32::MAX,
        current.len() <= usize::MAX,
        v.learned(history).predicts(current, k, out),
    ensures
        relevant(history, v.n, current).finite(),
        out.len() == if k <= relevant(history, v.n, current).len() {
            k
        } else {
            relevant(history, v.n, current).len()
        },
        forall|i: int|
            0 <= i < out.len() ==> relevant(history, v.n, current).contains(
                (#[trigger] out[i]) as int,
            ),
        forall|i: int, j: int|
            0 <= i < j < out.len() ==> outranks(
                history,
                v.n,
                current,
                #[trigger] out[i],
                #[trigger] out[j],
            ),
        forall|q: ExpertId, i: int|
            relevant(history, v.n, current).contains(q as int) && !out.contains(q) && 0 <= i
                < out.len() ==> #[trigger] outranks(history, v.n, current, out[i], q),
        k == 0 || current.len() == 0 ==> out.len() == 0,
{
    let n = v.n;
    let w = v.learned(history);
    let keys = w.likelihoods(current);
    let all = relevant(history, n, current);
    if n > 0 {
        counts_are_the_history(v, history, 0, 0);
    } else {
        nothing_is_learned_of_none(v, history);
    }
    assert forall|q: ExpertId| q < n implies #[trigger] keys[q as int] == score(
        history,
        n,
        current,
        q,
        current.len(),
    ) by {
        ranks_are_the_history(v, history, current, q, current.len());
        scores_are_bounded(history, n, current, q, current.len());
    }
    vstd::set_lib::lemma_int_range(0, n as int);
    vstd::set_lib::lemma_len_subset(all, vstd::set_lib::set_int_range(0, n as int));
    let ids = out.map_values(|e: ExpertId| e as int);
    assert(ids.no_duplicates());
    ids.unique_seq_to_set();
    assert(ids.to_set().subset_of(all)) by {
        assert forall|q: int| ids.to_set().contains(q) implies all.contains(q) by {
            let i = choose|i: int| 0 <= i < ids.len() && ids[i] == q;
            assert(keys[out[i] as int] > 0);
        }
    }
    vstd::set_lib::lemma_len_subset(ids.to_set(), all);
    assert forall|i: int| 0 <= i < out.len() implies all.contains((#[trigger] out[i]) as int) by {
        assert(keys[out[i] as int] > 0);
    }
    assert forall|q: ExpertId, i: int|
        all.contains(q as int) && !out.contains(q) && 0 <= i < out.len() implies #[trigger] outranks(
        history,
        n,
        current,
        out[i],
        q,
    ) by {
        assert(keys[q as int] > 0);
    }
    if out.len() < k {
        assert forall|q: int| all.contains(q) implies ids.to_set().contains(q) by {
            assert(keys[(q as ExpertId) as int] > 0);
            assert(out.contains(q as u32));
            let i = choose|i: int| 0 <= i < out.len() && out[i] == q as u32;
            assert(ids[i] == q);
        }
        assert(ids.to_set() =~= all);
    }
    if current.len() == 0 && out.len() > 0 {
        assert(keys[out[0] as int] > 0);
    }
}

proof fn nothing_is_learned_of_none(v: PredictorView, history: Seq<(Seq<ExpertId>, Seq<ExpertId>)>)
    requires
        v.n == 0,
    ensures
        v.learned(history).n == 0,
    decreases history.len(),
{
    if history.len() > 0 {
        let (prev, next) = history.last();
        nothing_is_learned_of_none(v, history.drop_last());
        steps_keep_the_number(v.learned(history.drop_last()), prev, next, prev.len());
    }
}

proof fn steps_keep_the_number(v: PredictorView, prev: Seq<ExpertId>, next: Seq<ExpertId>, m: nat)
    ensures
        v.saw_step(prev, next, m).n == v.n,
    decreases m,
{
    if m > 0 {
        steps_keep_the_number(v, prev, next, (m - 1) as nat);
        rows_keep_the_number(
            v.saw_step(prev, next, (m - 1) as nat),
            prev[m - 1],
            next,
            next.len(),
        );
    }
}

proof fn rows_keep_the_number(v: PredictorView, a: ExpertId, next: Seq<ExpertId>, m: nat)
    ensures
        v.saw_row(a, next, m).n == v.n,
    decreases m,
{
    if m > 0 {
        rows_keep_the_number(v, a, next, (m - 1) as nat);
    }
}

} // verus!
