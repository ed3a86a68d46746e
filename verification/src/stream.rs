//! Streaming a model's blocks off disk through a small ring of buffers.
//!
//! A pass walks blocks in order, so the ring only needs to be a few deep. Block `l`
//! always lands in slot `l % SLOTS`. A reader fills a slot ahead of the pass, and the
//! pass borrows it for as long as it computes the block. Asking for a block nobody has
//! fetched is not an error: it is read inline, slower and always correct.

use vstd::prelude::*;

verus! {

/// Buffers in the ring, which is also how many blocks may be read at once.
pub const SLOTS: usize = 3;

/// Which block each buffer of the ring holds.
#[derive(Debug)]
pub struct BlockStreamer {
    /// Where each block lies in the file: its start and its length. An empty span means
    /// that the block is resident and never streamed.
    spans: Vec<(usize, usize)>,
    slots: Vec<Option<usize>>,
    hits: u64,
    inlined: u64,
}

#[verifier::ext_equal]
pub struct RingView {
    pub spans: Seq<(usize, usize)>,
    pub slots: Seq<Option<usize>>,
    pub hits: u64,
    pub inlined: u64,
}

impl View for BlockStreamer {
    type V = RingView;

    closed spec fn view(&self) -> RingView {
        RingView {
            spans: self.spans@,
            slots: self.slots@,
            hits: self.hits,
            inlined: self.inlined,
        }
    }
}

impl RingView {
    /// A block is only ever in its own slot.
    pub open spec fn wf(self) -> bool {
        &&& self.slots.len() == SLOTS
        &&& forall|i: int|
            0 <= i < SLOTS ==> (#[trigger] self.slots[i] matches Some(l) ==> l as int % SLOTS as int
                == i)
    }

    pub open spec fn streamed(self, l: int) -> bool {
        0 <= l < self.spans.len() && self.spans[l].1 > 0
    }

    /// The bytes of block `l` are in the ring.
    pub open spec fn ready(self, l: usize) -> bool {
        self.slots[l as int % SLOTS as int] == Some(l)
    }

    /// After a read of block `l` into its slot, which went through or did not. A block
    /// outside the file is not read, and leaves the slot as it was.
    pub open spec fn filled(self, l: usize, whole: bool) -> RingView {
        if l < self.spans.len() {
            RingView {
                slots: self.slots.update(
                    l as int % SLOTS as int,
                    if whole {
                        Some(l)
                    } else {
                        None
                    },
                ),
                ..self
            }
        } else {
            self
        }
    }

    /// After the pass asked for block `l`.
    pub open spec fn borrowed(self, l: usize) -> RingView {
        if self.ready(l) {
            RingView { hits: self.hits.wrapping_add(1), ..self }
        } else {
            RingView { inlined: self.inlined.wrapping_add(1), ..self }
        }
    }
}

impl BlockStreamer {
    pub open spec fn wf(&self) -> bool {
        self@.wf()
    }

    pub fn new(spans: Vec<(usize, usize)>) -> (s: Self)
        ensures
            s.wf(),
            s@ == (RingView {
                spans: spans@,
                slots: seq![None, None, None],
                hits: 0,
                inlined: 0,
            }),
    {
        let mut slots: Vec<Option<usize>> = Vec::new();
        slots.push(None);
        slots.push(None);
        slots.push(None);
        let s = BlockStreamer { spans, slots, hits: 0, inlined: 0 };
        assert(s@.slots =~= seq![None, None, None]);
        s
    }

    /// The longest span: a buffer of this size holds any block.
    pub fn widest(&self) -> (n: usize)
        ensures
            forall|l: int| 0 <= l < self@.spans.len() ==> (#[trigger] self@.spans[l]).1 <= n,
            n == 0 || exists|l: int|
                0 <= l < self@.spans.len() && (#[trigger] self@.spans[l]).1 == n,
    {
        let mut n: usize = 0;
        let mut l: usize = 0;
        while l < self.spans.len()
            invariant
                l <= self.spans@.len(),
                forall|k: int| 0 <= k < l ==> (#[trigger] self@.spans[k]).1 <= n,
                n == 0 || exists|k: int| 0 <= k < l && (#[trigger] self@.spans[k]).1 == n,
            decreases self.spans@.len() - l,
        {
            assert(self@.spans[l as int] == self.spans@[l as int]);
            if self.spans[l].1 > n {
                n = self.spans[l].1;
            }
            l += 1;
        }
        n
    }

    /// True when this block is streamed rather than held resident.
    pub fn streams(&self, block: usize) -> (r: bool)
        ensures
            r == self@.streamed(block as int),
            r <==> block < self@.spans.len() && self@.spans[block as int].1 > 0,
    {
        block < self.spans.len() && self.spans[block].1 > 0
    }

    /// Where a block starts in the file, which turns a weight's file offset into an
    /// offset within the borrowed buffer.
    pub fn base(&self, block: usize) -> (n: usize)
        ensures
            n == if block < self@.spans.len() {
                self@.spans[block as int].0
            } else {
                0
            },
    {
        if block < self.spans.len() {
            self.spans[block].0
        } else {
            0
        }
    }

    /// Which buffer block `l` goes to.
    pub fn slot_of(&self, l: usize) -> (i: usize)
        ensures
            i == l % SLOTS,
            i < SLOTS,
    {
        l % SLOTS
    }

    /// What to read to have block `l` in its slot ahead of the pass: nothing where it is
    /// there, or is not streamed.
    pub fn fetch(&self, l: usize) -> (r: Option<(usize, usize)>)
        requires
            self.wf(),
        ensures
            r == if self@.streamed(l as int) && !self@.ready(l) {
                Some(self@.spans[l as int])
            } else {
                None
            },
            r matches Some(span) ==> l < self@.spans.len() && span == self@.spans[l as int]
                && span.1 > 0 && self@.slots[l as int % 3] != Some(l),
            l < self@.spans.len() && self@.spans[l as int].1 > 0 && self@.slots[l as int % 3]
                != Some(l) ==> r is Some,
    {
        if !self.streams(l) || self.holds(l) {
            return None;
        }
        Some(self.spans[l])
    }

    fn holds(&self, l: usize) -> (r: bool)
        requires
            self.wf(),
        ensures
            r == self@.ready(l),
    {
        match self.slots[l % SLOTS] {
            Some(k) => k == l,
            None => false,
        }
    }

    /// The pass asks for block `l`: nothing to read where a reader had filled its slot,
    /// the span to read inline otherwise.
    pub fn borrow_block(&mut self, l: usize) -> (r: Option<(usize, usize)>)
        requires
            old(self).wf(),
        ensures
            final(self).wf(),
            final(self)@ == old(self)@.borrowed(l),
            final(self)@.slots == old(self)@.slots,
            old(self)@.slots[l as int % 3] == Some(l) ==> final(self)@.hits
                == old(self)@.hits.wrapping_add(1) && final(self)@.inlined == old(self)@.inlined,
            old(self)@.slots[l as int % 3] != Some(l) ==> final(self)@.inlined
                == old(self)@.inlined.wrapping_add(1) && final(self)@.hits == old(self)@.hits,
            r == if !old(self)@.ready(l) && l < old(self)@.spans.len() {
                Some(old(self)@.spans[l as int])
            } else {
                None
            },
    {
        let ghost before = self@;
        if self.holds(l) {
            self.hits = self.hits.wrapping_add(1);
            assert(self@ =~= before.borrowed(l));
            return None;
        }
        self.inlined = self.inlined.wrapping_add(1);
        assert(self@ =~= before.borrowed(l));
        if l < self.spans.len() {
            Some(self.spans[l])
        } else {
            None
        }
    }

    /// A read of block `l` into its slot has ended: all of it was there, or not.
    pub fn filled(&mut self, l: usize, whole: bool)
        requires
            old(self).wf(),
        ensures
            final(self).wf(),
            final(self)@ == old(self)@.filled(l, whole),
            l < old(self)@.spans.len() ==> final(self)@.slots == old(self)@.slots.update(
                l as int % 3,
                if whole {
                    Some(l)
                } else {
                    None
                },
            ),
            l >= old(self)@.spans.len() ==> final(self)@ == old(self)@,
    {
        let ghost before = self@;
        if l < self.spans.len() {
            let value = if whole {
                Some(l)
            } else {
                None
            };
            self.slots.set(l % SLOTS, value);
        }
        assert(self@ =~= before.filled(l, whole));
    }

    /// Blocks served from a slot a reader had already filled, and blocks the pass had to
    /// read itself.
    pub fn stats(&self) -> (r: (u64, u64))
        ensures
            r.0 == self@.hits,
            r.1 == self@.inlined,
    {
        (self.hits, self.inlined)
    }
}

/// A block that was read whole is served from the ring until another block of its slot
/// is read: the `SLOTS - 1` blocks that follow it do not disturb it.
pub proof fn readers_ahead_do_not_disturb(v: RingView, l: usize, m: usize, whole: bool)
    requires
        v.wf(),
        v.ready(l),
        l < m < l + SLOTS,
    ensures
        v.filled(m, whole).ready(l),
{
    assert(l as int % 3 != m as int % 3);
}

/// A block that was read whole is ready.
pub proof fn a_filled_block_is_ready(v: RingView, l: usize)
    requires
        v.wf(),
        l < v.spans.len(),
    ensures
        v.filled(l, true).ready(l),
{
}

/// Every time the pass asks is accounted for.
pub proof fn every_borrow_is_accounted_for(v: RingView, l: usize)
    ensures
        v.borrowed(l).hits.wrapping_add(v.borrowed(l).inlined) == v.hits.wrapping_add(
            v.inlined,
        ).wrapping_add(1),
{
}

/// Asks for blocks ahead of the pass.
#[derive(Debug)]
pub struct StreamPrefetcher {
    queue: Vec<usize>,
    capacity: usize,
    /// One less than the ring: the pass is holding one slot itself.
    depth: usize,
}

#[verifier::ext_equal]
pub struct AskView {
    pub queue: Seq<usize>,
    pub capacity: nat,
    pub depth: nat,
}

impl View for StreamPrefetcher {
    type V = AskView;

    closed spec fn view(&self) -> AskView {
        AskView { queue: self.queue@, capacity: self.capacity as nat, depth: self.depth as nat }
    }
}

impl AskView {
    /// The pass holds one slot of the ring, the others are asked for. No more requests wait
    /// than there are readers.
    pub open spec fn wf(self) -> bool {
        &&& self.depth == SLOTS - 1
        &&& self.capacity >= 1
        &&& self.queue.len() <= self.capacity
    }

    pub open spec fn asked(self, l: usize) -> AskView {
        if self.queue.len() < self.capacity {
            AskView { queue: self.queue.push(l), ..self }
        } else {
            self
        }
    }

    /// After asking for the `m` blocks after `l`.
    pub open spec fn asked_ahead(self, l: usize, m: nat) -> AskView
        decreases m,
    {
        if m == 0 {
            self
        } else {
            self.asked_ahead(l, (m - 1) as nat).asked((l + m) as usize)
        }
    }
}

impl StreamPrefetcher {
    pub open spec fn wf(&self) -> bool {
        self@.wf()
    }

    pub fn new(threads: usize) -> (p: Self)
        ensures
            p.wf(),
            p@ == (AskView {
                queue: Seq::empty(),
                capacity: if threads == 0 {
                    1
                } else {
                    threads as nat
                },
                depth: (SLOTS - 1) as nat,
            }),
    {
        StreamPrefetcher {
            queue: Vec::new(),
            capacity: if threads == 0 {
                1
            } else {
                threads
            },
            depth: SLOTS - 1,
        }
    }

    /// Asks for the blocks after `l`. A request that cannot be taken up now is for a
    /// block the pass is about to reach anyway, and is dropped.
    pub fn hint_ahead(&mut self, l: usize)
        requires
            old(self).wf(),
            l + SLOTS - 1 <= usize::MAX,
        ensures
            final(self).wf(),
            final(self)@ == old(self)@.asked_ahead(l, (SLOTS - 1) as nat),
            old(self)@.queue.len() + 2 <= old(self)@.capacity ==> final(self)@.queue
                == old(self)@.queue.push((l + 1) as usize).push((l + 2) as usize),
    {
        let ghost before = self@;
        let depth: usize = self.depth;
        let mut ahead: usize = 0;
        while ahead < depth
            invariant
                ahead <= depth,
                depth == before.depth == SLOTS - 1,
                self.wf(),
                l + depth <= usize::MAX,
                self@ == before.asked_ahead(l, ahead as nat),
            decreases depth - ahead,
        {
            let ghost now = self@;
            if self.queue.len() < self.capacity {
                self.queue.push(l + (ahead + 1));
            }
            assert(self@ =~= now.asked((l + (ahead + 1)) as usize));
            ahead += 1;
        }
        proof {
            reveal_with_fuel(AskView::asked_ahead, 3);
        }
    }

    /// The oldest request that no reader has taken.
    pub fn take(&mut self) -> (r: Option<usize>)
        requires
            old(self).wf(),
        ensures
            final(self).wf(),
            match r {
                Some(l) => old(self)@.queue.len() > 0 && l == old(self)@.queue[0] && final(self)@
                    == (AskView { queue: old(self)@.queue.skip(1), ..old(self)@ }),
                None => old(self)@.queue.len() == 0 && final(self)@ == old(self)@,
            },
    {
        let ghost before = self@;
        if self.queue.len() == 0 {
            return None;
        }
        let l: usize = self.queue.remove(0);
        assert(self@ =~= (AskView { queue: before.queue.skip(1), ..before }));
        Some(l)
    }
}

} // verus!
