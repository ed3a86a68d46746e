//! Prompt prefix cache: an exact prompt and the sequence state that prefilling it gave.

use crate::bytes;
use crate::bytes::push_words;
use crate::cache::expert::CacheStats;
use crate::cache::kv;
use crate::cache::sequence::{SeqState, SeqView};
use crate::types::Token;
use vstd::prelude::*;

verus! {

/// What the BLAKE3 hash function gives for `input`, in its default mode and with its
/// default output length.
pub uninterp spec fn blake3_of(input: Seq<u8>) -> Seq<u8>;

/// `blake3::hash`: the digest is a function of the input bytes alone, and is 32 bytes
/// long. Nothing is claimed of which digest belongs to which input, nor that two
/// inputs have different ones.
#[verifier::external_body]
fn blake3_digest(input: &[u8]) -> (digest: [u8; 32])
    ensures
        digest@ == blake3_of(input@),
{
    *blake3::hash(input).as_bytes()
}

/// What a prompt is cached under.
pub open spec fn key_of(tokens: Seq<Token>) -> Seq<u8> {
    blake3_of(bytes::words_le(tokens))
}

/// The key of a prompt: the digest of its tokens, four bytes each.
pub fn prompt_key(tokens: &[Token]) -> (key: [u8; 32])
    ensures
        key@ == key_of(tokens@),
        key@ == blake3_of(bytes::words_le(tokens@)),
{
    let mut input: Vec<u8> = Vec::new();
    push_words(&mut input, tokens);
    assert(input@ =~= bytes::words_le(tokens@));
    blake3_digest(input.as_slice())
}

fn same_key(a: &[u8; 32], b: &[u8; 32]) -> (r: bool)
    ensures
        r == (a@ == b@),
{
    let mut i: usize = 0;
    while i < 32
        invariant
            i <= 32,
            forall|j: int| 0 <= j < i ==> a@[j] == b@[j],
        decreases 32 - i,
    {
        if a[i] != b[i] {
            return false;
        }
        i += 1;
    }
    assert(a@ =~= b@);
    true
}

/// A cached prompt: its key and its state.
#[verifier::ext_equal]
pub struct PromptView {
    pub key: Seq<u8>,
    pub state: SeqView,
}

/// Bytes that a cached state is counted with.
pub open spec fn state_bytes(state: SeqView) -> nat {
    kv::counted(4 * state.words()) as nat
}

pub open spec fn total_bytes(entries: Seq<PromptView>) -> nat
    decreases entries.len(),
{
    if entries.len() == 0 {
        0
    } else {
        state_bytes(entries[0].state) + total_bytes(entries.skip(1))
    }
}

pub open spec fn holds(entries: Seq<PromptView>, key: Seq<u8>) -> bool {
    exists|i: int| 0 <= i < entries.len() && (#[trigger] entries[i]).key == key
}

pub open spec fn other_than(key: Seq<u8>) -> spec_fn(PromptView) -> bool {
    |e: PromptView| e.key != key
}

/// `entries` without the one under `key`.
pub open spec fn without(entries: Seq<PromptView>, key: Seq<u8>) -> Seq<PromptView> {
    entries.filter(other_than(key))
}

/// How many of the least recently used entries have to go before one of `size` bytes
/// may come in: as few as possible.
pub open spec fn to_evict(
    entries: Seq<PromptView>,
    size: nat,
    capacity: nat,
    budget: nat,
) -> nat
    decreases entries.len(),
{
    if entries.len() == 0 || (entries.len() + 1 <= capacity && total_bytes(entries) + size
        <= budget) {
        0
    } else {
        1 + to_evict(entries.skip(1), size, capacity, budget)
    }
}

/// The cache as contracts speak of it. The least recently used entry is first.
#[verifier::ext_equal]
pub struct PromptCacheView {
    pub entries: Seq<PromptView>,
    pub capacity: nat,
    pub budget: nat,
    pub hits: u64,
    pub misses: u64,
}

impl PromptCacheView {
    pub open spec fn wf(self) -> bool {
        &&& self.capacity >= 1
        &&& self.entries.len() <= self.capacity
        &&& total_bytes(self.entries) <= self.budget
        &&& forall|i: int, j: int|
            0 <= i < j < self.entries.len() ==> (#[trigger] self.entries[i]).key
                != (#[trigger] self.entries[j]).key
        &&& forall|i: int|
            0 <= i < self.entries.len() ==> (#[trigger] self.entries[i]).state.wf()
                && !self.entries[i].state.any_spilled()
    }

    /// The state cached under `key`.
    pub open spec fn state(self, key: Seq<u8>) -> SeqView
        recommends
            holds(self.entries, key),
    {
        self.entries[choose|i: int|
            0 <= i < self.entries.len() && (#[trigger] self.entries[i]).key == key].state
    }

    /// The cache after a look at `key`, which it holds.
    pub open spec fn touched(self, key: Seq<u8>) -> PromptCacheView {
        PromptCacheView {
            entries: without(self.entries, key).push(PromptView { key, state: self.state(key) }),
            hits: self.hits.wrapping_add(1),
            ..self
        }
    }

    /// A state that the cache does not take: one with blocks in storage, or one larger
    /// than the whole budget.
    pub open spec fn declines(self, state: SeqView) -> bool {
        state.any_spilled() || state_bytes(state) > self.budget
    }

    /// The cache after it was offered `state` under `key`.
    pub open spec fn inserted(self, key: Seq<u8>, state: SeqView) -> PromptCacheView {
        if self.declines(state) {
            self
        } else {
            let rest = without(self.entries, key);
            let n = to_evict(rest, state_bytes(state), self.capacity, self.budget);
            PromptCacheView {
                entries: rest.skip(n as int).push(PromptView { key, state }),
                ..self
            }
        }
    }
}

pub(crate) proof fn filter_keeps_all(entries: Seq<PromptView>, key: Seq<u8>)
    requires
        forall|i: int| 0 <= i < entries.len() ==> (#[trigger] entries[i]).key != key,
    ensures
        without(entries, key) == entries,
    decreases entries.len(),
{
    reveal(Seq::filter);
    if entries.len() > 0 {
        let init = entries.drop_last();
        assert forall|i: int| 0 <= i < init.len() implies (#[trigger] init[i]).key != key by {
            assert(init[i] == entries[i]);
        }
        filter_keeps_all(init, key);
        assert(entries.last().key != key);
        assert(init.push(entries.last()) =~= entries);
    }
}

pub(crate) proof fn without_is_remove(entries: Seq<PromptView>, key: Seq<u8>, at: int)
    requires
        0 <= at < entries.len(),
        entries[at].key == key,
        forall|i: int| 0 <= i < entries.len() && i != at ==> (#[trigger] entries[i]).key != key,
    ensures
        without(entries, key) == entries.remove(at),
    decreases entries.len(),
{
    reveal(Seq::filter);
    let init = entries.drop_last();
    if at == entries.len() - 1 {
        assert forall|i: int| 0 <= i < init.len() implies (#[trigger] init[i]).key != key by {
            assert(init[i] == entries[i]);
        }
        filter_keeps_all(init, key);
        assert(entries.remove(at) =~= init);
    } else {
        assert forall|i: int| 0 <= i < init.len() && i != at implies (#[trigger] init[i]).key
            != key by {
            assert(init[i] == entries[i]);
        }
        without_is_remove(init, key, at);
        assert(entries.last().key != key);
        assert(entries.remove(at) =~= init.remove(at).push(entries.last()));
    }
}

proof fn total_push(entries: Seq<PromptView>, e: PromptView)
    ensures
        total_bytes(entries.push(e)) == total_bytes(entries) + state_bytes(e.state),
    decreases entries.len(),
{
    if entries.len() > 0 {
        assert(entries.push(e).skip(1) =~= entries.skip(1).push(e));
        total_push(entries.skip(1), e);
    } else {
        assert(entries.push(e).skip(1) =~= entries);
    }
}

proof fn total_remove(entries: Seq<PromptView>, at: int)
    requires
        0 <= at < entries.len(),
    ensures
        total_bytes(entries.remove(at)) + state_bytes(entries[at].state) == total_bytes(entries),
    decreases entries.len(),
{
    if at == 0 {
        assert(entries.remove(0) =~= entries.skip(1));
    } else {
        assert(entries.remove(at).skip(1) =~= entries.skip(1).remove(at - 1));
        total_remove(entries.skip(1), at - 1);
    }
}

struct Entry {
    key: [u8; 32],
    state: SeqState,
}

impl Entry {
    spec fn view(&self) -> PromptView {
        PromptView { key: self.key@, state: self.state@ }
    }
}

/// Maps an exact prompt to the sequence state produced by prefilling it, so that
/// re-sending the same prompt skips prefill entirely.
///
/// Bounded by bytes as well as entries, least recently used first out. Only states
/// with nothing spilled are cached: an entry is handed out by clone, and a clone must
/// be able to spill under a fresh identity. So an entry that is evicted has no files to
/// take with it.
pub struct PromptCache {
    entries: Vec<Entry>,
    bytes: usize,
    capacity: usize,
    budget_bytes: usize,
    hits: u64,
    misses: u64,
}

impl View for PromptCache {
    type V = PromptCacheView;

    closed spec fn view(&self) -> PromptCacheView {
        PromptCacheView {
            entries: self.entries@.map_values(|e: Entry| e@),
            capacity: self.capacity as nat,
            budget: self.budget_bytes as nat,
            hits: self.hits,
            misses: self.misses,
        }
    }
}

impl PromptCache {
    pub closed spec fn wf(&self) -> bool {
        self@.wf() && self.bytes == total_bytes(self@.entries)
    }

    /// A cache that keeps its invariant shows one that does.
    pub proof fn view_is_wf(&self)
        requires
            self.wf(),
        ensures
            self@.wf(),
    {
    }

    /// `budget_bytes` caps the memory the cached states may hold; `capacity` caps how
    /// many there may be, and is at least one.
    pub fn new(capacity: usize, budget_bytes: usize) -> (c: Self)
        ensures
            c.wf(),
            c@ == (PromptCacheView {
                entries: Seq::empty(),
                capacity: kv::at_least_one(capacity as nat),
                budget: budget_bytes as nat,
                hits: 0,
                misses: 0,
            }),
            capacity > 0 ==> c@.capacity == capacity,
    {
        let c = PromptCache {
            entries: Vec::new(),
            bytes: 0,
            capacity: if capacity == 0 {
                1
            } else {
                capacity
            },
            budget_bytes,
            hits: 0,
            misses: 0,
        };
        assert(c@.entries =~= Seq::<PromptView>::empty());
        c
    }

    fn find(&self, key: &[u8; 32]) -> (r: Option<usize>)
        ensures
            match r {
                Some(i) => i < self.entries@.len() && self@.entries[i as int].key == key@,
                None => !holds(self@.entries, key@),
            },
    {
        let mut i: usize = 0;
        while i < self.entries.len()
            invariant
                i <= self.entries@.len(),
                self@.entries.len() == self.entries@.len(),
                forall|j: int| 0 <= j < i ==> (#[trigger] self@.entries[j]).key != key@,
            decreases self.entries@.len() - i,
        {
            assert(self@.entries[i as int] == self.entries@[i as int]@);
            if same_key(&self.entries[i].key, key) {
                return Some(i);
            }
            i += 1;
        }
        None
    }

    /// A ready-to-continue state for `tokens`, if this exact prefix has been seen.
    ///
    /// `fresh_seq_id` must be unique across live sequences: the returned state is a
    /// clone, and it needs its own identity before it can spill.
    pub fn get(&mut self, tokens: &[Token], fresh_seq_id: u64) -> (r: Option<SeqState>)
        requires
            old(self).wf(),
        ensures
            final(self).wf(),
            match r {
                Some(s) => {
                    &&& holds(old(self)@.entries, key_of(tokens@))
                    &&& s.wf()
                    &&& s@ == old(self)@.state(key_of(tokens@)).rekeyed(fresh_seq_id)
                    &&& final(self)@ == old(self)@.touched(key_of(tokens@))
                },
                None => {
                    &&& !holds(old(self)@.entries, key_of(tokens@))
                    &&& final(self)@ == (PromptCacheView {
                        misses: old(self)@.misses.wrapping_add(1),
                        ..old(self)@
                    })
                },
            },
    {
        let key = prompt_key(tokens);
        self.get_by_key(&key, fresh_seq_id)
    }

    /// A ready-to-continue state for the prompt whose key is `key`.
    pub fn get_by_key(&mut self, key: &[u8; 32], fresh_seq_id: u64) -> (r: Option<SeqState>)
        requires
            old(self).wf(),
        ensures
            final(self).wf(),
            match r {
                Some(s) => {
                    &&& holds(old(self)@.entries, key@)
                    &&& s.wf()
                    &&& s@ == old(self)@.state(key@).rekeyed(fresh_seq_id)
                    &&& final(self)@ == old(self)@.touched(key@)
                },
                None => {
                    &&& !holds(old(self)@.entries, key@)
                    &&& final(self)@ == (PromptCacheView {
                        misses: old(self)@.misses.wrapping_add(1),
                        ..old(self)@
                    })
                },
            },
    {
        match self.find(key) {
            None => {
                let ghost before = self@;
                self.misses = self.misses.wrapping_add(1);
                assert(self@.entries =~= before.entries);
                None
            },
            Some(at) => {
                let ghost before = self@;
                proof {
                    let i = choose|i: int|
                        0 <= i < before.entries.len() && (#[trigger] before.entries[i]).key
                            == key@;
                    assert(before.entries[at as int].key == key@);
                    assert(i == at);
                    without_is_remove(before.entries, key@, at as int);
                    total_remove(before.entries, at as int);
                    total_push(before.entries.remove(at as int), before.entries[at as int]);
                    assert(before.entries[at as int] == self.entries@[at as int]@);
                }
                let entry = self.entries.remove(at);
                assert(self@.entries =~= before.entries.remove(at as int));
                let mut state = entry.state.clone();
                let ghost entry_view = entry@;
                self.entries.push(entry);
                self.hits = self.hits.wrapping_add(1);
                proof {
                    assert(self@.entries =~= before.entries.remove(at as int).push(entry_view));
                    assert(self@ =~= before.touched(key@));
                    assert forall|i: int| 0 <= i < self@.entries.len() implies (
                    #[trigger] self@.entries[i]).state.wf()
                        && !self@.entries[i].state.any_spilled() by {
                        if i < at {
                            assert(self@.entries[i] == before.entries[i]);
                        } else if i < self@.entries.len() - 1 {
                            assert(self@.entries[i] == before.entries[i + 1]);
                        }
                    }
                }
                let _ = state.rekey(fresh_seq_id);
                Some(state)
            },
        }
    }

    /// Caches the state for `tokens`.
    ///
    /// States holding spilled blocks are refused: a clone that shared spill files with
    /// a live sequence would delete that sequence's attention state. So is a state
    /// larger than the whole budget: it would empty the cache for every other caller.
    pub fn insert(&mut self, tokens: &[Token], state: SeqState)
        requires
            old(self).wf(),
            state.wf(),
        ensures
            final(self).wf(),
            final(self)@ == old(self)@.inserted(key_of(tokens@), state@),
    {
        let key = prompt_key(tokens);
        self.insert_by_key(key, state)
    }

    /// Caches the state of the prompt whose key is `key`.
    pub fn insert_by_key(&mut self, key: [u8; 32], state: SeqState)
        requires
            old(self).wf(),
            state.wf(),
        ensures
            final(self).wf(),
            final(self)@ == old(self)@.inserted(key@, state@),
    {
        if state.has_spill() {
            return;
        }
        let size: usize = state.resident_bytes();
        if size > self.budget_bytes {
            return;
        }
        let ghost before = self@;
        self.remove(&key);
        let ghost rest = self@.entries;
        let ghost mut n: nat = 0;
        proof {
            without_lacks(before.entries, key@);
        }
        assert(rest.skip(0) =~= rest);
        while self.entries.len() > 0 && (self.entries.len() >= self.capacity || self.bytes
            > self.budget_bytes - size)
            invariant
                n <= rest.len(),
                size == state_bytes(state@),
                size <= self.budget_bytes,
                self@.entries == rest.skip(n as int),
                self.bytes == total_bytes(self@.entries),
                self@.wf(),
                self@ == (PromptCacheView { entries: self@.entries, ..before }),
                to_evict(rest, size as nat, before.capacity, before.budget) == n + to_evict(
                    self@.entries,
                    size as nat,
                    before.capacity,
                    before.budget,
                ),
                forall|i: int| 0 <= i < rest.len() ==> (#[trigger] rest[i]).key != key@,
            decreases self.entries@.len(),
        {
            let ghost now = self@.entries;
            assert(now[0] == self.entries@[0]@);
            let victim = self.entries.remove(0);
            proof {
                assert(self@.entries =~= now.skip(1));
                assert(now.skip(1) =~= rest.skip(n as int + 1));
                n = n + 1;
                assert forall|i: int| 0 <= i < self@.entries.len() implies (
                #[trigger] self@.entries[i]).state.wf() && !self@.entries[i].state.any_spilled() by {
                    assert(self@.entries[i] == now[i + 1]);
                }
            }
            self.bytes -= victim.state.resident_bytes();
        }
        let entry = Entry { key, state };
        let ghost e = entry@;
        let ghost kept = self@.entries;
        proof {
            total_push(kept, e);
        }
        self.bytes += size;
        self.entries.push(entry);
        proof {
            assert(self@.entries =~= kept.push(e));
            assert(self@ =~= before.inserted(key@, state@));
            assert forall|i: int| 0 <= i < self@.entries.len() implies (
            #[trigger] self@.entries[i]).state.wf() && !self@.entries[i].state.any_spilled() by {
                if i < kept.len() {
                    assert(self@.entries[i] == kept[i]);
                }
            }
        }
    }

    /// Drops the entry under `key`, if there is one.
    fn remove(&mut self, key: &[u8; 32])
        requires
            old(self).wf(),
        ensures
            final(self).wf(),
            final(self)@ == (PromptCacheView {
                entries: without(old(self)@.entries, key@),
                ..old(self)@
            }),
    {
        let ghost before = self@;
        match self.find(key) {
            None => {
                proof {
                    filter_keeps_all(before.entries, key@);
                }
            },
            Some(at) => {
                proof {
                    assert(before.entries[at as int].key == key@);
                    without_is_remove(before.entries, key@, at as int);
                    total_remove(before.entries, at as int);
                    assert(before.entries[at as int] == self.entries@[at as int]@);
                }
                let old_entry = self.entries.remove(at);
                self.bytes -= old_entry.state.resident_bytes();
                proof {
                    assert(self@.entries =~= before.entries.remove(at as int));
                    assert forall|i: int| 0 <= i < self@.entries.len() implies (
                    #[trigger] self@.entries[i]).state.wf()
                        && !self@.entries[i].state.any_spilled() by {
                        if i < at {
                            assert(self@.entries[i] == before.entries[i]);
                        } else {
                            assert(self@.entries[i] == before.entries[i + 1]);
                        }
                    }
                }
            },
        }
    }

    pub fn stats(&self) -> (s: CacheStats)
        requires
            self.wf(),
        ensures
            s.hits == self@.hits,
            s.misses == self@.misses,
            s.evictions == 0,
            s.entries == self@.entries.len(),
            s.bytes == total_bytes(self@.entries),
    {
        CacheStats {
            hits: self.hits,
            misses: self.misses,
            evictions: 0,
            entries: self.entries.len(),
            bytes: self.bytes,
        }
    }
}

proof fn without_lacks(entries: Seq<PromptView>, key: Seq<u8>)
    ensures
        forall|i: int|
            0 <= i < without(entries, key).len() ==> (#[trigger] without(entries, key)[i]).key
                != key,
{
    assert forall|i: int| 0 <= i < without(entries, key).len() implies (#[trigger] without(
        entries,
        key,
    )[i]).key != key by {
        entries.lemma_filter_pred(other_than(key), i);
    }
}

/// A state that was cached is what the next look at its prompt gives, under the
/// identity that the look asks for.
pub proof fn cached_prompt_hits(v: PromptCacheView, key: Seq<u8>, state: SeqView)
    requires
        v.wf(),
        !v.declines(state),
    ensures
        holds(v.inserted(key, state).entries, key),
        v.inserted(key, state).state(key) == state,
{
    let rest = without(v.entries, key);
    let n = to_evict(rest, state_bytes(state), v.capacity, v.budget);
    let w = v.inserted(key, state).entries;
    without_lacks(v.entries, key);
    evicts_at_most_all(rest, state_bytes(state), v.capacity, v.budget);
    assert(w[w.len() - 1].key == key);
    let i = choose|i: int| 0 <= i < w.len() && (#[trigger] w[i]).key == key;
    if i < w.len() - 1 {
        assert(w[i] == rest[n + i]);
    }
}

/// Letting an entry go leaves no file behind: storage has nothing of it.
pub proof fn an_entry_has_no_spill_files(v: PromptCacheView, i: int)
    requires
        v.wf(),
        0 <= i < v.entries.len(),
    ensures
        v.entries[i].state.is_let_go(),
{
    let s = v.entries[i].state;
    assert forall|l: int| 0 <= l < s.kvs.len() implies (#[trigger] s.kvs[l]).is_let_go(0) by {
        assert(!s.kvs[l].any_spilled());
    }
}

/// The cache never holds more entries than its capacity, nor more bytes than its
/// budget, and a state it declines changes nothing.
pub proof fn prompt_cache_is_bounded(v: PromptCacheView, key: Seq<u8>, state: SeqView)
    requires
        v.wf(),
    ensures
        v.inserted(key, state).entries.len() <= v.capacity,
        total_bytes(v.inserted(key, state).entries) <= v.budget,
        v.declines(state) ==> v.inserted(key, state) == v,
{
    if !v.declines(state) {
        let rest = without(v.entries, key);
        let size = state_bytes(state);
        let n = to_evict(rest, size, v.capacity, v.budget);
        evicts_at_most_all(rest, size, v.capacity, v.budget);
        total_push(rest.skip(n as int), PromptView { key, state });
        if n == rest.len() {
            assert(rest.skip(n as int) =~= Seq::<PromptView>::empty());
        }
    }
}

pub(crate) proof fn evicts_at_most_all(entries: Seq<PromptView>, size: nat, capacity: nat, budget: nat)
    ensures
        to_evict(entries, size, capacity, budget) <= entries.len(),
        to_evict(entries, size, capacity, budget) == entries.len() || {
            let left = entries.skip(to_evict(entries, size, capacity, budget) as int);
            left.len() + 1 <= capacity && total_bytes(left) + size <= budget
        },
    decreases entries.len(),
{
    if entries.len() == 0 || (entries.len() + 1 <= capacity && total_bytes(entries) + size
        <= budget) {
        assert(entries.skip(0) =~= entries);
    } else {
        evicts_at_most_all(entries.skip(1), size, capacity, budget);
        let n = to_evict(entries.skip(1), size, capacity, budget) as int;
        assert(entries.skip(1).skip(n) =~= entries.skip(n + 1));
    }
}

} // verus!
