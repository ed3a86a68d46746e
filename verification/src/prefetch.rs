//! Warming weights ahead of their use.
//!
//! After each decode step the engine asks the predictor which experts the *next* step
//! will probably need, and has them warmed while the current step is still finishing. A
//! wrong guess costs one wasted load; it can never change the answer, because the
//! forward pass loads what it actually needs regardless of what was prefetched.
//!
//! Prefetches are deduplicated: an expert that is already resident, or already in
//! flight, is not fetched again.

use crate::predictor;
use crate::predictor::{ExpertPredictor, PredictStats, PredictorView};
use crate::text;
use crate::text::push_number;
use crate::types::{ExpertId, GarudaError};
use vstd::prelude::*;
use vstd::string::*;

verus! {

#[derive(Debug)]
pub struct PrefetchEngine {
    predictor: ExpertPredictor,
    enabled: bool,
    depth: usize,
    /// Experts whose load has been started and has not finished.
    inflight: Vec<ExpertId>,
    launched: u64,
    skipped: u64,
}

#[verifier::ext_equal]
pub struct PrefetchView {
    pub predictor: PredictorView,
    pub enabled: bool,
    pub depth: nat,
    pub inflight: Seq<ExpertId>,
    pub launched: u64,
    pub skipped: u64,
}

impl View for PrefetchEngine {
    type V = PrefetchView;

    closed spec fn view(&self) -> PrefetchView {
        PrefetchView {
            predictor: self.predictor@,
            enabled: self.enabled,
            depth: self.depth as nat,
            inflight: self.inflight@,
            launched: self.launched,
            skipped: self.skipped,
        }
    }
}

impl PrefetchView {
    /// No load is in flight twice.
    pub open spec fn wf(self) -> bool {
        forall|i: int, j: int|
            0 <= i < j < self.inflight.len() ==> (#[trigger] self.inflight[i]) != (
            #[trigger] self.inflight[j])
    }

    /// Whether a load of `id` is to be started.
    pub open spec fn launches(self, id: ExpertId, resident: bool) -> bool {
        !resident && !self.inflight.contains(id)
    }

    /// After a load of `id` was asked for.
    pub open spec fn warmed(self, id: ExpertId, resident: bool) -> PrefetchView {
        if self.launches(id, resident) {
            PrefetchView {
                inflight: self.inflight.push(id),
                launched: self.launched.wrapping_add(1),
                ..self
            }
        } else {
            PrefetchView { skipped: self.skipped.wrapping_add(1), ..self }
        }
    }

    /// What the predictor has learned after a step.
    pub open spec fn learned(
        self,
        previous: Seq<ExpertId>,
        used: Seq<ExpertId>,
        guessed: Seq<ExpertId>,
        p: PredictorView,
    ) -> bool {
        let seen = self.predictor.saw_step(previous, used, previous.len());
        &&& p.n == self.predictor.n
        &&& p.counts == seen.counts
        &&& if guessed.len() == 0 {
            p.stats == self.predictor.stats
        } else {
            p.stats == (PredictStats {
                correct: predictor::wrapped(
                    self.predictor.stats.correct,
                    predictor::shared(guessed, used),
                ),
                wasted: predictor::wrapped(
                    self.predictor.stats.wasted,
                    (guessed.len() - predictor::shared(guessed, used)) as nat,
                ),
                missed: predictor::wrapped(
                    self.predictor.stats.missed,
                    (used.len() - predictor::shared(used, guessed)) as nat,
                ),
            })
        }
    }
}

impl PrefetchEngine {
    pub closed spec fn wf(&self) -> bool {
        self@.wf() && self.predictor.wf()
    }

    /// No load is in flight twice in an engine that keeps its invariant.
    pub proof fn view_is_wf(&self)
        requires
            self.wf(),
        ensures
            self@.wf(),
    {
    }

    /// `depth` is how many experts to warm per step, usually the model's `top_k`.
    pub fn new(predictor: ExpertPredictor, enabled: bool, depth: usize) -> (e: Self)
        requires
            predictor.wf(),
        ensures
            e.wf(),
            e@ == (PrefetchView {
                predictor: predictor@,
                enabled,
                depth: depth as nat,
                inflight: Seq::empty(),
                launched: 0,
                skipped: 0,
            }),
    {
        PrefetchEngine {
            predictor,
            enabled,
            depth,
            inflight: Vec::new(),
            launched: 0,
            skipped: 0,
        }
    }

    pub fn is_enabled(&self) -> (b: bool)
        ensures
            b == self@.enabled,
    {
        self.enabled
    }

    /// Experts whose background load has been started.
    pub fn launched(&self) -> (n: u64)
        ensures
            n == self@.launched,
    {
        self.launched
    }

    /// Predictions dropped because the expert was already resident or in flight.
    pub fn skipped(&self) -> (n: u64)
        ensures
            n == self@.skipped,
    {
        self.skipped
    }

    pub fn predictor_stats(&self) -> (s: PredictStats)
        ensures
            s == self@.predictor.stats,
    {
        self.predictor.stats()
    }

    /// True when no load is in flight.
    pub fn is_drained(&self) -> (b: bool)
        ensures
            b == (self@.inflight.len() == 0),
    {
        self.inflight.len() == 0
    }

    /// Records one decode step and says what is likely to come next.
    ///
    /// `previous` and `used` are the experts that fired on the last step and this one.
    /// `guessed` is what was predicted before seeing `used`; it is scored against
    /// reality. Each expert of the prediction is then put to [`PrefetchEngine::warm`].
    pub fn observe_step(&mut self, previous: &[ExpertId], used: &[ExpertId], guessed: &[ExpertId]) -> (
    predicted: Vec<ExpertId>)
        requires
            old(self).wf(),
        ensures
            final(self).wf(),
            final(self)@ == (PrefetchView { predictor: final(self)@.predictor, ..old(self)@ }),
            if old(self)@.enabled {
                &&& old(self)@.learned(previous@, used@, guessed@, final(self)@.predictor)
                &&& final(self)@.predictor.predicts(used@, old(self)@.depth, predicted@)
            } else {
                final(self)@ == old(self)@ && predicted@.len() == 0
            },
    {
        if !self.enabled {
            return Vec::new();
        }
        let ghost before = self@;
        if guessed.len() > 0 {
            self.predictor.score(guessed, used);
        }
        let ghost scored = self@.predictor;
        proof {
            counting_ignores_scores(before.predictor, scored, previous@, used@, previous@.len());
        }
        if previous.len() > 0 {
            self.predictor.observe(previous, used);
        }
        assert(self@.inflight == before.inflight);
        self.predictor.predict(used, self.depth)
    }

    /// Whether to start a background load for `id`: not if it is resident or already in
    /// flight. The slot is claimed here, so that two steps cannot both launch it.
    pub fn warm(&mut self, id: ExpertId, resident: bool) -> (launch: bool)
        requires
            old(self).wf(),
        ensures
            final(self).wf(),
            launch == old(self)@.launches(id, resident),
            final(self)@ == old(self)@.warmed(id, resident),
            launch <==> !resident && !old(self)@.inflight.contains(id),
            launch ==> final(self)@.inflight == old(self)@.inflight.push(id)
                && final(self)@.launched == old(self)@.launched.wrapping_add(1)
                && final(self)@.skipped == old(self)@.skipped,
            !launch ==> final(self)@.inflight == old(self)@.inflight && final(self)@.launched
                == old(self)@.launched && final(self)@.skipped
                == old(self)@.skipped.wrapping_add(1),
    {
        let ghost before = self@;
        if resident || predictor::holds(self.inflight.as_slice(), id) {
            self.skipped = self.skipped.wrapping_add(1);
            assert(self@ =~= before.warmed(id, resident));
            return false;
        }
        self.inflight.push(id);
        self.launched = self.launched.wrapping_add(1);
        assert(self@ =~= before.warmed(id, resident));
        true
    }

    /// A background load has ended, well or not: `id` may be fetched again.
    pub fn finished(&mut self, id: ExpertId)
        requires
            old(self).wf(),
        ensures
            final(self).wf(),
            !final(self)@.inflight.contains(id),
            forall|x: ExpertId|
                x != id ==> (#[trigger] final(self)@.inflight.contains(x) == old(
                    self,
                )@.inflight.contains(x)),
            final(self)@ == (PrefetchView { inflight: final(self)@.inflight, ..old(self)@ }),
    {
        let ghost before = self@;
        let mut i: usize = 0;
        while i < self.inflight.len()
            invariant
                *self == *old(self),
                self.wf(),
                before == self@,
                i <= self.inflight@.len(),
                forall|k: int| 0 <= k < i ==> #[trigger] self.inflight@[k] != id,
            decreases self.inflight@.len() - i,
        {
            if self.inflight[i] == id {
                let _ = self.inflight.remove(i);
                proof {
                    let now = self.inflight@;
                    assert(now == before.inflight.remove(i as int));
                    assert forall|x: ExpertId| x != id implies (#[trigger] now.contains(x)
                        == before.inflight.contains(x)) by {
                        if before.inflight.contains(x) {
                            let k = choose|k: int|
                                0 <= k < before.inflight.len() && before.inflight[k] == x;
                            assert(now[if k < i {
                                k
                            } else {
                                k - 1
                            }] == x);
                        }
                        if now.contains(x) {
                            let k = choose|k: int| 0 <= k < now.len() && now[k] == x;
                            assert(before.inflight[if k < i {
                                k
                            } else {
                                k + 1
                            }] == x);
                        }
                    }
                    if now.contains(id) {
                        let k = choose|k: int| 0 <= k < now.len() && now[k] == id;
                        let o = if k < i {
                            k
                        } else {
                            k + 1
                        };
                        assert(before.inflight[o] == id && before.inflight[i as int] == id);
                    }
                    assert forall|a: int, b: int| 0 <= a < b < now.len() implies (#[trigger] now[a])
                        != (#[trigger] now[b]) by {
                        let p = if a < i {
                            a
                        } else {
                            a + 1
                        };
                        let q = if b < i {
                            b
                        } else {
                            b + 1
                        };
                        assert(before.inflight[p] != before.inflight[q]);
                    }
                    assert(self@ =~= (PrefetchView { inflight: now, ..before }));
                }
                return;
            }
            i += 1;
        }
    }
}

/// Counting transitions does not look at the scores.
proof fn counting_ignores_scores(
    a: PredictorView,
    b: PredictorView,
    prev: Seq<ExpertId>,
    next: Seq<ExpertId>,
    m: nat,
)
    requires
        a.n == b.n,
        a.counts == b.counts,
    ensures
        a.saw_step(prev, next, m).counts == b.saw_step(prev, next, m).counts,
        a.saw_step(prev, next, m).n == a.n,
        b.saw_step(prev, next, m).n == a.n,
        b.saw_step(prev, next, m).stats == b.stats,
    decreases m,
{
    if m > 0 {
        counting_ignores_scores(a, b, prev, next, (m - 1) as nat);
        row_ignores_scores(
            a.saw_step(prev, next, (m - 1) as nat),
            b.saw_step(prev, next, (m - 1) as nat),
            prev[m - 1],
            next,
            next.len(),
        );
    }
}

proof fn row_ignores_scores(
    a: PredictorView,
    b: PredictorView,
    p: ExpertId,
    next: Seq<ExpertId>,
    m: nat,
)
    requires
        a.n == b.n,
        a.counts == b.counts,
    ensures
        a.saw_row(p, next, m).counts == b.saw_row(p, next, m).counts,
        a.saw_row(p, next, m).n == a.n,
        b.saw_row(p, next, m).n == a.n,
        b.saw_row(p, next, m).stats == b.stats,
    decreases m,
{
    if m > 0 {
        row_ignores_scores(a, b, p, next, (m - 1) as nat);
    }
}

/// A load that is in flight is not launched again before it ends.
pub proof fn no_load_is_launched_twice(v: PrefetchView, id: ExpertId, resident: bool)
    requires
        v.launches(id, resident),
    ensures
        !v.warmed(id, resident).launches(id, resident),
{
    let w = v.warmed(id, resident);
    assert(w.inflight.last() == id);
    assert(w.inflight[w.inflight.len() - 1] == id);
}

/// The part of a byte range that lies within a file of `len` bytes, if any does.
pub open spec fn clamped(range: (usize, usize), len: usize) -> Option<(usize, usize)> {
    let room = if range.0 < len {
        len - range.0
    } else {
        0
    };
    let n = if range.1 < room {
        range.1 as int
    } else {
        room
    };
    if n == 0 {
        None
    } else {
        Some((range.0, n as usize))
    }
}

/// The part of a byte range to have read ahead: what lies within the file.
pub fn clamp_range(range: (usize, usize), len: usize) -> (r: Option<(usize, usize)>)
    ensures
        r == clamped(range, len),
        r is None <==> range.1 == 0 || range.0 >= len,
        r matches Some((start, n)) ==> start == range.0 && 0 < n <= range.1 && start + n <= len && (
        n == range.1 || start + n == len),
{
    let room: usize = if range.0 < len {
        len - range.0
    } else {
        0
    };
    let n: usize = if range.1 < room {
        range.1
    } else {
        room
    };
    if n == 0 {
        None
    } else {
        Some((range.0, n))
    }
}

/// The parts of the first `m` ranges that lie within the file.
pub open spec fn clamped_all(ranges: Seq<(usize, usize)>, len: usize, m: nat) -> Seq<
    (usize, usize),
>
    decreases m,
{
    if m == 0 {
        Seq::empty()
    } else {
        let before = clamped_all(ranges, len, (m - 1) as nat);
        match clamped(ranges[m - 1], len) {
            Some(p) => before.push(p),
            None => before,
        }
    }
}

/// Warms the pages of a mapped checkpoint: an expert is "loaded" by having the pages
/// that its packed weights live on read ahead.
#[derive(Debug)]
pub struct GgufPagePrefetcher {
    map_len: usize,
    /// The byte ranges of each expert, at `layer * n_experts + expert`.
    ranges: Vec<Vec<(usize, usize)>>,
}

impl GgufPagePrefetcher {
    pub closed spec fn file_len(&self) -> usize {
        self.map_len
    }

    pub closed spec fn all_ranges(&self) -> Seq<Vec<(usize, usize)>> {
        self.ranges@
    }

    pub fn new(map_len: usize, ranges: Vec<Vec<(usize, usize)>>) -> (p: Self)
        ensures
            p.file_len() == map_len,
            p.all_ranges() == ranges@,
    {
        GgufPagePrefetcher { map_len, ranges }
    }

    /// It never materialises an expert, and nothing should call this.
    pub fn load(&self, id: ExpertId) -> (e: GarudaError)
        ensures
            e matches GarudaError::Model(m) && m@
                == "GgufPagePrefetcher only warms mmap pages for expert "@ + text::decimal(
                id as nat,
            ) + "; it never materialises an Expert, and nothing should call load() on it"@,
    {
        let mut m = "GgufPagePrefetcher only warms mmap pages for expert ".to_owned();
        push_number(&mut m, id as u64);
        m.append("; it never materialises an Expert, and nothing should call load() on it");
        GarudaError::Model(m)
    }

    /// The ranges to have read ahead for expert `id`; none for an unknown one.
    pub fn prefetch(&self, id: ExpertId) -> (out: Vec<(usize, usize)>)
        ensures
            out@ == if id < self.all_ranges().len() {
                let rs = self.all_ranges()[id as int]@;
                clamped_all(rs, self.file_len(), rs.len())
            } else {
                Seq::empty()
            },
    {
        let mut out: Vec<(usize, usize)> = Vec::new();
        if id as u64 >= self.ranges.len() as u64 {
            return out;
        }
        let rs = &self.ranges[id as usize];
        let mut i: usize = 0;
        while i < rs.len()
            invariant
                i <= rs@.len(),
                out@ == clamped_all(rs@, self.map_len, i as nat),
            decreases rs@.len() - i,
        {
            if let Some(p) = clamp_range(rs[i], self.map_len) {
                out.push(p);
            }
            i += 1;
        }
        out
    }

    /// Unknown from here, and a wrong "yes" would skip a genuinely cold expert.
    pub fn is_resident(&self, _id: ExpertId) -> (r: bool)
        ensures
            !r,
    {
        false
    }
}

/// Warms the *next* blocks' weights while the current one computes: a short queue of
/// hints between the pass and the workers that act on them.
///
/// The queue is bounded by the number of workers. A hint that cannot be picked up
/// promptly is a staler block by the time anyone gets to it, so it is dropped rather
/// than queued.
#[derive(Debug)]
pub struct LayerPrefetcher {
    queue: Vec<usize>,
    workers: usize,
    launched: u64,
    skipped: u64,
}

/// How many blocks may be read at once, unless told otherwise.
pub const WORKERS: usize = 3;

/// How much of a block to ask for per read, when warming by reading.
pub const CHUNK: usize = 33_554_432;

/// The smallest piece to read.
pub const SMALLEST_CHUNK: usize = 1_048_576;

#[verifier::ext_equal]
pub struct HintView {
    /// Hints waiting for a worker, oldest first.
    pub queue: Seq<usize>,
    pub workers: nat,
    pub launched: u64,
    pub skipped: u64,
}

impl View for LayerPrefetcher {
    type V = HintView;

    closed spec fn view(&self) -> HintView {
        HintView {
            queue: self.queue@,
            workers: self.workers as nat,
            launched: self.launched,
            skipped: self.skipped,
        }
    }
}

impl HintView {
    pub open spec fn wf(self) -> bool {
        self.workers >= 1 && self.queue.len() <= self.workers
    }

    /// After a hint at block `layer`.
    pub open spec fn hinted(self, layer: usize) -> HintView {
        if self.queue.len() < self.workers {
            HintView {
                queue: self.queue.push(layer),
                launched: self.launched.wrapping_add(1),
                ..self
            }
        } else {
            HintView { skipped: self.skipped.wrapping_add(1), ..self }
        }
    }

    /// After hints at the `m` blocks that follow `layer`.
    pub open spec fn hinted_ahead(self, layer: usize, m: nat) -> HintView
        decreases m,
    {
        if m == 0 {
            self
        } else {
            self.hinted_ahead(layer, (m - 1) as nat).hinted((layer + m) as usize)
        }
    }
}

impl LayerPrefetcher {
    pub open spec fn wf(&self) -> bool {
        self@.wf()
    }

    pub fn with_workers(workers: usize) -> (p: Self)
        ensures
            p.wf(),
            p@ == (HintView {
                queue: Seq::empty(),
                workers: if workers == 0 {
                    1
                } else {
                    workers as nat
                },
                launched: 0,
                skipped: 0,
            }),
    {
        LayerPrefetcher {
            queue: Vec::new(),
            workers: if workers == 0 {
                1
            } else {
                workers
            },
            launched: 0,
            skipped: 0,
        }
    }

    /// Asks for block `layer` to be warmed. If every worker still has a hint before it,
    /// it is dropped.
    pub fn hint(&mut self, layer: usize)
        requires
            old(self).wf(),
        ensures
            final(self).wf(),
            final(self)@ == old(self)@.hinted(layer),
            old(self)@.queue.len() < old(self)@.workers ==> final(self)@.queue
                == old(self)@.queue.push(layer) && final(self)@.launched
                == old(self)@.launched.wrapping_add(1) && final(self)@.skipped
                == old(self)@.skipped,
            old(self)@.queue.len() >= old(self)@.workers ==> final(self)@.queue
                == old(self)@.queue && final(self)@.skipped
                == old(self)@.skipped.wrapping_add(1),
    {
        let ghost before = self@;
        if self.queue.len() < self.workers {
            self.queue.push(layer);
            self.launched = self.launched.wrapping_add(1);
        } else {
            self.skipped = self.skipped.wrapping_add(1);
        }
        assert(self@ =~= before.hinted(layer));
    }

    /// Asks for every block that can be kept in flight after `layer`.
    pub fn hint_ahead(&mut self, layer: usize)
        requires
            old(self).wf(),
            layer + old(self)@.workers <= usize::MAX,
        ensures
            final(self).wf(),
            final(self)@ == old(self)@.hinted_ahead(layer, old(self)@.workers),
    {
        let ghost before = self@;
        let workers: usize = self.workers;
        let mut ahead: usize = 0;
        while ahead < workers
            invariant
                self.wf(),
                ahead <= workers,
                workers == before.workers,
                layer + workers <= usize::MAX,
                self@ == before.hinted_ahead(layer, ahead as nat),
            decreases workers - ahead,
        {
            self.hint(layer + (ahead + 1));
            ahead += 1;
        }
    }

    /// The oldest hint that no worker has taken.
    pub fn take(&mut self) -> (r: Option<usize>)
        requires
            old(self).wf(),
        ensures
            final(self).wf(),
            match r {
                Some(l) => old(self)@.queue.len() > 0 && l == old(self)@.queue[0] && final(self)@
                    == (HintView { queue: old(self)@.queue.skip(1), ..old(self)@ }),
                None => old(self)@.queue.len() == 0 && final(self)@ == old(self)@,
            },
    {
        let ghost before = self@;
        if self.queue.len() == 0 {
            return None;
        }
        let l: usize = self.queue.remove(0);
        assert(self@ =~= (HintView { queue: before.queue.skip(1), ..before }));
        Some(l)
    }

    /// Hints taken on, and hints dropped because the workers were busy.
    pub fn stats(&self) -> (r: (u64, u64))
        ensures
            r.0 == self@.launched,
            r.1 == self@.skipped,
    {
        (self.launched, self.skipped)
    }
}

/// What a worker reads for a hint: the span of the block, if it has one.
pub fn span_to_warm(spans: &[(usize, usize)], layer: usize) -> (r: Option<(usize, usize)>)
    ensures
        r == if layer < spans@.len() && spans@[layer as int].1 > 0 {
            Some(spans@[layer as int])
        } else {
            None
        },
{
    if layer < spans.len() && spans[layer].1 > 0 {
        Some(spans[layer])
    } else {
        None
    }
}

/// A range that lies within the file is warmed as it is, every one in its place, and none
/// reaches beyond the file.
pub proof fn ranges_within_the_file_are_all_warmed(
    ranges: Seq<(usize, usize)>,
    len: usize,
    m: nat,
    i: int,
)
    requires
        m <= ranges.len(),
    ensures
        (forall|k: int|
            0 <= k < m ==> (#[trigger] ranges[k]).1 > 0 && ranges[k].0 + ranges[k].1 <= len)
            ==> clamped_all(ranges, len, m) == ranges.take(m as int),
        0 <= i < clamped_all(ranges, len, m).len() ==> {
            let r = clamped_all(ranges, len, m)[i];
            0 < r.1 && r.0 + r.1 <= len
        },
    decreases m,
{
    if m > 0 {
        ranges_within_the_file_are_all_warmed(ranges, len, (m - 1) as nat, i);
        assert(ranges.take(m as int) =~= ranges.take(m - 1).push(ranges[m - 1]));
    } else {
        assert(ranges.take(0) =~= Seq::<(usize, usize)>::empty());
    }
}

/// Every hint is accounted for: it is taken on or it is counted as dropped.
pub proof fn every_hint_is_accounted_for(v: HintView, layer: usize)
    ensures
        v.hinted(layer).launched.wrapping_add(v.hinted(layer).skipped) == v.launched.wrapping_add(
            v.skipped,
        ).wrapping_add(1),
{
}

/// Hints ahead go to the blocks that follow, the nearest first, as long as there is a worker
/// for each.
pub proof fn hints_go_to_the_next_blocks(v: HintView, layer: usize, m: nat)
    requires
        v.wf(),
        layer + m <= usize::MAX,
    ensures
        ({
            let after = v.hinted_ahead(layer, m);
            let room = v.workers - v.queue.len();
            let taken = if m < room {
                m as int
            } else {
                room
            };
            &&& after.workers == v.workers
            &&& after.queue == v.queue + Seq::new(taken as nat, |i: int| (layer + 1 + i) as usize)
        }),
    decreases m,
{
    let none = Seq::new(0, |i: int| (layer + 1 + i) as usize);
    if m == 0 {
        assert(v.queue + none =~= v.queue);
    } else {
        hints_go_to_the_next_blocks(v, layer, (m - 1) as nat);
        let before = v.hinted_ahead(layer, (m - 1) as nat);
        let after = v.hinted_ahead(layer, m);
        let room = v.workers - v.queue.len();
        let taken = if m < room {
            m as int
        } else {
            room
        };
        assert(after.queue =~= v.queue + Seq::new(
            taken as nat,
            |i: int| (layer + 1 + i) as usize,
        ));
    }
}

} // verus!
