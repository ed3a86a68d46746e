//! Byte-budgeted LRU over loaded experts.

use crate::types::{Expert, ExpertId};
use std::sync::Arc;
use vstd::prelude::*;

verus! {

#[derive(Debug, Clone, Copy, PartialEq, Eq)]
pub struct CacheStats {
    pub hits: u64,
    pub misses: u64,
    pub evictions: u64,
    pub entries: usize,
    pub bytes: usize,
}

/// An expert in memory, under its id.
pub type Slot = (ExpertId, Arc<Expert>);

/// Bytes that the experts in `slots` occupy.
pub open spec fn total_bytes(slots: Seq<Slot>) -> nat
    decreases slots.len(),
{
    if slots.len() == 0 {
        0
    } else {
        slots[0].1.bytes() + total_bytes(slots.skip(1))
    }
}

pub open spec fn holds(slots: Seq<Slot>, id: ExpertId) -> bool {
    exists|i: int| 0 <= i < slots.len() && (#[trigger] slots[i]).0 == id
}

/// `slots` without the one of `id`.
pub open spec fn without(slots: Seq<Slot>, id: ExpertId) -> Seq<Slot> {
    slots.filter(other_than(id))
}

pub open spec fn other_than(id: ExpertId) -> spec_fn(Slot) -> bool {
    |s: Slot| s.0 != id
}

/// How many of the least recently used experts have to go before one of `size` bytes
/// fits into `budget`: as few as possible, and all of them where it never does.
pub open spec fn to_evict(slots: Seq<Slot>, size: nat, budget: nat) -> nat
    decreases slots.len(),
{
    if slots.len() == 0 || total_bytes(slots) + size <= budget {
        0
    } else {
        1 + to_evict(slots.skip(1), size, budget)
    }
}

/// The cache as contracts speak of it. The least recently used expert is first.
#[verifier::ext_equal]
pub struct ExpertCacheView {
    pub slots: Seq<Slot>,
    pub budget: nat,
    pub hits: u64,
    pub misses: u64,
    pub evictions: u64,
}

impl ExpertCacheView {
    pub open spec fn wf(self) -> bool {
        &&& self.budget >= 1
        &&& forall|i: int, j: int|
            0 <= i < j < self.slots.len() ==> (#[trigger] self.slots[i]).0
                != (#[trigger] self.slots[j]).0
        &&& forall|i: int|
            0 <= i < self.slots.len() ==> (#[trigger] self.slots[i]).1.bytes() <= usize::MAX
        &&& total_bytes(self.slots) <= self.budget || self.slots.len() <= 1
    }

    /// The expert of `id`.
    pub open spec fn expert(self, id: ExpertId) -> Arc<Expert>
        recommends
            holds(self.slots, id),
    {
        self.slots[choose|i: int| 0 <= i < self.slots.len() && (#[trigger] self.slots[i]).0 == id].1
    }

    /// The cache after a look at `id`, which it holds.
    pub open spec fn touched(self, id: ExpertId) -> ExpertCacheView {
        ExpertCacheView {
            slots: without(self.slots, id).push((id, self.expert(id))),
            hits: self.hits.wrapping_add(1),
            ..self
        }
    }

    /// The experts that make room for `expert` under `id`.
    pub open spec fn victims(self, id: ExpertId, expert: Arc<Expert>) -> Seq<ExpertId> {
        let rest = without(self.slots, id);
        rest.take(to_evict(rest, expert.bytes(), self.budget) as int).map_values(|s: Slot| s.0)
    }

    /// The cache with `expert` under `id`.
    pub open spec fn inserted(self, id: ExpertId, expert: Arc<Expert>) -> ExpertCacheView {
        let rest = without(self.slots, id);
        let n = to_evict(rest, expert.bytes(), self.budget);
        ExpertCacheView {
            slots: rest.skip(n as int).push((id, expert)),
            evictions: wrapped_sum(self.evictions, n),
            ..self
        }
    }

    pub open spec fn removed(self, id: ExpertId) -> ExpertCacheView {
        ExpertCacheView { slots: without(self.slots, id), ..self }
    }
}

/// A counter after `n` more events.
pub open spec fn wrapped_sum(counter: u64, n: nat) -> u64
    decreases n,
{
    if n == 0 {
        counter
    } else {
        wrapped_sum(counter.wrapping_add(1), (n - 1) as nat)
    }
}

proof fn filter_keeps_all(slots: Seq<Slot>, id: ExpertId)
    requires
        forall|i: int| 0 <= i < slots.len() ==> (#[trigger] slots[i]).0 != id,
    ensures
        without(slots, id) == slots,
    decreases slots.len(),
{
    reveal(Seq::filter);
    if slots.len() > 0 {
        let init = slots.drop_last();
        assert forall|i: int| 0 <= i < init.len() implies (#[trigger] init[i]).0 != id by {
            assert(init[i] == slots[i]);
        }
        filter_keeps_all(init, id);
        assert(slots.last().0 != id);
        assert(init.push(slots.last()) =~= slots);
    }
}

/// Leaving out an id that occurs once is removing it where it stands.
pub proof fn without_is_remove(slots: Seq<Slot>, id: ExpertId, at: int)
    requires
        0 <= at < slots.len(),
        slots[at].0 == id,
        forall|i: int| 0 <= i < slots.len() && i != at ==> (#[trigger] slots[i]).0 != id,
    ensures
        without(slots, id) == slots.remove(at),
    decreases slots.len(),
{
    reveal(Seq::filter);
    let init = slots.drop_last();
    if at == slots.len() - 1 {
        assert forall|i: int| 0 <= i < init.len() implies (#[trigger] init[i]).0 != id by {
            assert(init[i] == slots[i]);
        }
        filter_keeps_all(init, id);
        assert(slots.remove(at) =~= init);
    } else {
        assert forall|i: int| 0 <= i < init.len() && i != at implies (#[trigger] init[i]).0
            != id by {
            assert(init[i] == slots[i]);
        }
        without_is_remove(init, id, at);
        assert(slots.last().0 != id);
        assert(slots.remove(at) =~= init.remove(at).push(slots.last()));
    }
}

pub proof fn without_absent(slots: Seq<Slot>, id: ExpertId)
    requires
        !holds(slots, id),
    ensures
        without(slots, id) == slots,
{
    filter_keeps_all(slots, id);
}

proof fn total_push(slots: Seq<Slot>, s: Slot)
    ensures
        total_bytes(slots.push(s)) == total_bytes(slots) + s.1.bytes(),
    decreases slots.len(),
{
    if slots.len() > 0 {
        assert(slots.push(s).skip(1) =~= slots.skip(1).push(s));
        total_push(slots.skip(1), s);
    } else {
        assert(slots.push(s).skip(1) =~= slots);
    }
}

proof fn total_remove(slots: Seq<Slot>, at: int)
    requires
        0 <= at < slots.len(),
    ensures
        total_bytes(slots.remove(at)) + slots[at].1.bytes() == total_bytes(slots),
    decreases slots.len(),
{
    if at == 0 {
        assert(slots.remove(0) =~= slots.skip(1));
    } else {
        assert(slots.remove(at).skip(1) =~= slots.skip(1).remove(at - 1));
        total_remove(slots.skip(1), at - 1);
    }
}

/// Byte-budgeted LRU over loaded experts.
///
/// The budget is in bytes rather than entries because bytes are what the operator
/// has, and because experts stop being uniformly sized as soon as real per-layer
/// checkpoints are loaded.
pub struct ExpertCache {
    /// Least recently used first.
    slots: Vec<Slot>,
    bytes: usize,
    budget_bytes: usize,
    hits: u64,
    misses: u64,
    evictions: u64,
}

impl View for ExpertCache {
    type V = ExpertCacheView;

    closed spec fn view(&self) -> ExpertCacheView {
        ExpertCacheView {
            slots: self.slots@,
            budget: self.budget_bytes as nat,
            hits: self.hits,
            misses: self.misses,
            evictions: self.evictions,
        }
    }
}

impl ExpertCache {
    pub closed spec fn wf(&self) -> bool {
        self@.wf() && self.bytes == total_bytes(self.slots@)
    }

    /// A cache that keeps its invariant shows one that does.
    pub proof fn view_is_wf(&self)
        requires
            self.wf(),
        ensures
            self@.wf(),
    {
    }

    /// `budget_bytes` is clamped up so at least one byte is allowed; a cache that
    /// cannot hold anything would thrash forever.
    pub fn new(budget_bytes: usize) -> (c: Self)
        ensures
            c.wf(),
            c@ == (ExpertCacheView {
                slots: Seq::empty(),
                budget: if budget_bytes == 0 {
                    1
                } else {
                    budget_bytes as nat
                },
                hits: 0,
                misses: 0,
                evictions: 0,
            }),
    {
        ExpertCache {
            slots: Vec::new(),
            bytes: 0,
            budget_bytes: if budget_bytes == 0 {
                1
            } else {
                budget_bytes
            },
            hits: 0,
            misses: 0,
            evictions: 0,
        }
    }

    fn find(&self, id: ExpertId) -> (r: Option<usize>)
        ensures
            match r {
                Some(i) => i < self.slots@.len() && self.slots@[i as int].0 == id,
                None => !holds(self.slots@, id),
            },
    {
        let mut i: usize = 0;
        while i < self.slots.len()
            invariant
                i <= self.slots@.len(),
                forall|j: int| 0 <= j < i ==> (#[trigger] self.slots@[j]).0 != id,
            decreases self.slots@.len() - i,
        {
            if self.slots[i].0 == id {
                return Some(i);
            }
            i += 1;
        }
        None
    }

    /// The expert of `id`, which becomes the most recently used.
    pub fn get(&mut self, id: ExpertId) -> (r: Option<Arc<Expert>>)
        requires
            old(self).wf(),
        ensures
            final(self).wf(),
            match r {
                Some(e) => {
                    &&& holds(old(self)@.slots, id)
                    &&& e == old(self)@.expert(id)
                    &&& final(self)@ == old(self)@.touched(id)
                },
                None => {
                    &&& !holds(old(self)@.slots, id)
                    &&& final(self)@ == (ExpertCacheView {
                        misses: old(self)@.misses.wrapping_add(1),
                        ..old(self)@
                    })
                },
            },
    {
        match self.find(id) {
            Some(at) => {
                let ghost before = self@;
                proof {
                    let i = choose|i: int|
                        0 <= i < before.slots.len() && (#[trigger] before.slots[i]).0 == id;
                    assert(before.slots[at as int].0 == id);
                    assert(i == at);
                    without_is_remove(before.slots, id, at as int);
                    total_remove(before.slots, at as int);
                    total_push(before.slots.remove(at as int), before.slots[at as int]);
                }
                let slot = self.slots.remove(at);
                let expert = slot.1.clone();
                self.slots.push(slot);
                self.hits = self.hits.wrapping_add(1);
                Some(expert)
            },
            None => {
                self.misses = self.misses.wrapping_add(1);
                None
            },
        }
    }

    /// Inserts `expert`, evicting least recently used entries until the budget holds.
    /// Returns the evicted ids.
    pub fn insert(&mut self, id: ExpertId, expert: Arc<Expert>) -> (evicted: Vec<ExpertId>)
        requires
            old(self).wf(),
            expert.bytes() <= usize::MAX,
        ensures
            final(self).wf(),
            final(self)@ == old(self)@.inserted(id, expert),
            evicted@ == old(self)@.victims(id, expert),
    {
        let ghost before = self@;
        let size: usize = expert.size_bytes();
        self.remove(id);
        let ghost rest = self@.slots;
        proof {
            without_lacks(before.slots, id);
        }
        let mut evicted: Vec<ExpertId> = Vec::new();
        let ghost mut n: nat = 0;
        assert(rest.skip(0) =~= rest);
        assert(rest.take(0).map_values(|s: Slot| s.0) =~= Seq::<ExpertId>::empty());
        while self.slots.len() > 0 && (self.bytes > self.budget_bytes || size > self.budget_bytes
            - self.bytes)
            invariant
                n <= rest.len(),
                self.slots@ == rest.skip(n as int),
                self.bytes == total_bytes(self.slots@),
                self@.wf(),
                self@ == (ExpertCacheView {
                    slots: self.slots@,
                    evictions: self.evictions,
                    ..before
                }),
                wrapped_sum(before.evictions, n) == self.evictions,
                size == expert.bytes(),
                to_evict(rest, size as nat, before.budget) == n + to_evict(
                    self.slots@,
                    size as nat,
                    before.budget,
                ),
                evicted@ == rest.take(n as int).map_values(|s: Slot| s.0),
                forall|i: int| 0 <= i < rest.len() ==> (#[trigger] rest[i]).0 != id,
            decreases self.slots@.len(),
        {
            let ghost now = self.slots@;
            let victim = self.slots.remove(0);
            proof {
                assert(self.slots@ =~= now.skip(1));
                assert(now.skip(1) =~= rest.skip(n as int + 1));
                assert(victim == rest[n as int]);
                assert(rest.take(n as int + 1).map_values(|s: Slot| s.0) =~= rest.take(
                    n as int,
                ).map_values(|s: Slot| s.0).push(victim.0));
                wrapped_sum_step(before.evictions, n);
                n = n + 1;
            }
            self.bytes -= victim.1.size_bytes();
            self.evictions = self.evictions.wrapping_add(1);
            evicted.push(victim.0);
        }
        proof {
            total_push(self.slots@, (id, expert));
        }
        self.bytes += size;
        self.slots.push((id, expert));
        assert(self@ =~= before.inserted(id, expert));
        evicted
    }

    pub fn remove(&mut self, id: ExpertId)
        requires
            old(self).wf(),
        ensures
            final(self).wf(),
            final(self)@ == old(self)@.removed(id),
    {
        let ghost before = self@;
        match self.find(id) {
            Some(at) => {
                proof {
                    without_is_remove(before.slots, id, at as int);
                    total_remove(before.slots, at as int);
                }
                let slot = self.slots.remove(at);
                self.bytes -= slot.1.size_bytes();
            },
            None => {
                proof {
                    without_absent(before.slots, id);
                }
            },
        }
    }

    pub fn contains(&self, id: ExpertId) -> (b: bool)
        ensures
            b == holds(self@.slots, id),
    {
        match self.find(id) {
            Some(i) => {
                assert(self@.slots[i as int].0 == id);
                true
            },
            None => false,
        }
    }

    pub fn stats(&self) -> (s: CacheStats)
        requires
            self.wf(),
        ensures
            s.hits == self@.hits,
            s.misses == self@.misses,
            s.evictions == self@.evictions,
            s.entries == self@.slots.len(),
            s.bytes == total_bytes(self@.slots),
    {
        CacheStats {
            hits: self.hits,
            misses: self.misses,
            evictions: self.evictions,
            entries: self.slots.len(),
            bytes: self.bytes,
        }
    }
}

proof fn without_lacks(slots: Seq<Slot>, id: ExpertId)
    ensures
        forall|i: int| 0 <= i < without(slots, id).len() ==> (#[trigger] without(slots, id)[i]).0
            != id,
{
    assert forall|i: int| 0 <= i < without(slots, id).len() implies (#[trigger] without(
        slots,
        id,
    )[i]).0 != id by {
        slots.lemma_filter_pred(other_than(id), i);
    }
}

proof fn wrapped_sum_step(counter: u64, n: nat)
    ensures
        wrapped_sum(counter, n + 1) == wrapped_sum(counter, n).wrapping_add(1),
    decreases n,
{
    if n > 0 {
        wrapped_sum_step(counter.wrapping_add(1), (n - 1) as nat);
    } else {
        assert(wrapped_sum(counter.wrapping_add(1), 0) == counter.wrapping_add(1));
    }
}

/// Whatever is inserted, the cache stays within its budget unless the new expert
/// alone exceeds it, in which case it is the only one held.
pub proof fn budget_holds_after_insert(v: ExpertCacheView, id: ExpertId, expert: Arc<Expert>)
    requires
        v.wf(),
    ensures
        total_bytes(v.inserted(id, expert).slots) <= v.budget || v.inserted(
            id,
            expert,
        ).slots =~= seq![(id, expert)],
{
    let rest = without(v.slots, id);
    evict_count_fits(rest, expert.bytes(), v.budget);
    let n = to_evict(rest, expert.bytes(), v.budget);
    total_push(rest.skip(n as int), (id, expert));
}

proof fn evict_count_fits(slots: Seq<Slot>, size: nat, budget: nat)
    ensures
        to_evict(slots, size, budget) <= slots.len(),
        to_evict(slots, size, budget) == slots.len() || total_bytes(
            slots.skip(to_evict(slots, size, budget) as int),
        ) + size <= budget,
    decreases slots.len(),
{
    if slots.len() == 0 || total_bytes(slots) + size <= budget {
        assert(slots.skip(0) =~= slots);
    } else {
        evict_count_fits(slots.skip(1), size, budget);
        let n = to_evict(slots.skip(1), size, budget) as int;
        assert(slots.skip(1).skip(n) =~= slots.skip(n + 1));
    }
}

/// An expert just inserted or just looked at is the last one that eviction reaches.
pub proof fn recently_used_is_last(v: ExpertCacheView, id: ExpertId, expert: Arc<Expert>)
    requires
        v.wf(),
    ensures
        v.inserted(id, expert).slots.last() == (id, expert),
        holds(v.slots, id) ==> v.touched(id).slots.last() == (id, v.expert(id)),
{
}

} // verus!
