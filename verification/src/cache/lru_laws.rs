//! What the two caches promise: what is used stays, what is oldest goes, and no more of it
//! than has to.

use crate::bytes;
use crate::cache::expert;
use crate::cache::expert::{ExpertCacheView, Slot};
use crate::cache::prompt;
use crate::cache::prompt::{PromptCacheView, PromptView};
use crate::cache::sequence::SeqView;
use crate::types::{Expert, ExpertId, Token};
use std::sync::Arc;
use vstd::prelude::*;

verus! {

/// Experts weigh what they weigh together.
pub proof fn expert_bytes_add_up(slots: Seq<Slot>, s: Slot)
    ensures
        expert::total_bytes(Seq::empty()) == 0,
        expert::total_bytes(slots.push(s)) == expert::total_bytes(slots) + s.1.bytes(),
    decreases slots.len(),
{
    if slots.len() > 0 {
        assert(slots.push(s).skip(1) =~= slots.skip(1).push(s));
        expert_bytes_add_up(slots.skip(1), s);
    } else {
        assert(slots.push(s).skip(1) =~= slots);
    }
}

/// No more experts go than have to: with one fewer gone, the new one would not fit.
pub proof fn evictions_are_as_few_as_possible(slots: Seq<Slot>, size: nat, budget: nat, m: nat)
    ensures
        ({
            let n = expert::to_evict(slots, size, budget);
            &&& n <= slots.len()
            &&& m < n ==> expert::total_bytes(slots.skip(m as int)) + size > budget
            &&& n < slots.len() ==> expert::total_bytes(slots.skip(n as int)) + size <= budget
        }),
    decreases slots.len(),
{
    assert(slots.skip(0) =~= slots);
    if !(slots.len() == 0 || expert::total_bytes(slots) + size <= budget) {
        let n = expert::to_evict(slots.skip(1), size, budget);
        if 0 < m <= slots.len() {
            evictions_are_as_few_as_possible(slots.skip(1), size, budget, (m - 1) as nat);
            assert(slots.skip(1).skip(m - 1) =~= slots.skip(m as int));
        } else {
            evictions_are_as_few_as_possible(slots.skip(1), size, budget, 0);
        }
        assert(slots.skip(1).skip(n as int) =~= slots.skip((n + 1) as int));
    }
}

/// A lookup gives the expert of that id, counts a hit, and makes it the most recently used;
/// the others keep their order.
pub proof fn a_lookup_moves_one_expert_last(v: ExpertCacheView, id: ExpertId, at: int)
    requires
        v.wf(),
        0 <= at < v.slots.len(),
        v.slots[at].0 == id,
    ensures
        v.expert(id) == v.slots[at].1,
        v.touched(id).slots == v.slots.remove(at).push(v.slots[at]),
        v.touched(id).hits == v.hits.wrapping_add(1),
        v.touched(id).misses == v.misses,
        v.touched(id).evictions == v.evictions,
        v.touched(id).budget == v.budget,
        v.removed(id).slots == v.slots.remove(at),
        v.removed(id).budget == v.budget,
        v.removed(id).hits == v.hits && v.removed(id).misses == v.misses,
{
    let i = choose|i: int| 0 <= i < v.slots.len() && (#[trigger] v.slots[i]).0 == id;
    assert(i == at) by {
        if i < at {
            assert(v.slots[i].0 != v.slots[at].0);
        } else if at < i {
            assert(v.slots[at].0 != v.slots[i].0);
        }
    }
    assert forall|j: int| 0 <= j < v.slots.len() && j != at implies (#[trigger] v.slots[j]).0
        != id by {
        if j < at {
            assert(v.slots[j].0 != v.slots[at].0);
        } else {
            assert(v.slots[at].0 != v.slots[j].0);
        }
    }
    expert::without_is_remove(v.slots, id, at);
}

proof fn counters_count(counter: u64, n: nat)
    requires
        counter + n <= u64::MAX,
    ensures
        expert::wrapped_sum(counter, n) == counter + n,
    decreases n,
{
    if n > 0 {
        counters_count((counter + 1) as u64, (n - 1) as nat);
    }
}

/// An expert that is new to the cache comes last; the oldest make room for it, and only they
/// leave, each counted.
pub proof fn the_oldest_make_room(v: ExpertCacheView, id: ExpertId, e: Arc<Expert>)
    requires
        v.wf(),
        !expert::holds(v.slots, id),
    ensures
        ({
            let n = expert::to_evict(v.slots, e.bytes(), v.budget);
            let w = v.inserted(id, e);
            &&& n <= v.slots.len()
            &&& w.slots == v.slots.skip(n as int).push((id, e))
            &&& v.victims(id, e).len() == n
            &&& forall|i: int| 0 <= i < n ==> #[trigger] v.victims(id, e)[i] == v.slots[i].0
            &&& v.evictions + n <= u64::MAX ==> w.evictions == v.evictions + n
            &&& w.hits == v.hits && w.misses == v.misses && w.budget == v.budget
        }),
{
    expert::without_absent(v.slots, id);
    let n = expert::to_evict(v.slots, e.bytes(), v.budget);
    evictions_are_as_few_as_possible(v.slots, e.bytes(), v.budget, 0);
    if v.evictions + n <= u64::MAX {
        counters_count(v.evictions, n);
    }
}

/// A prompt is known by the digest of its tokens, four bytes each and the lowest first, so
/// prompts of different tokens are told apart by what is digested.
pub proof fn prompts_are_digested_whole(a: Seq<Token>, b: Seq<Token>)
    ensures
        exists|input: Seq<u8>| #[trigger]
            prompt::blake3_of(input) == prompt::key_of(a) && input.len() == 4 * a.len() && input
                == bytes::words_le(a),
        a != b ==> bytes::words_le(a) != bytes::words_le(b),
{
    bytes::words_le_len(a);
    bytes::words_read_back(a);
    bytes::words_read_back(b);
    assert(prompt::blake3_of(bytes::words_le(a)) == prompt::key_of(a));
}

/// States weigh what they weigh together.
pub proof fn prompt_bytes_add_up(entries: Seq<PromptView>, e: PromptView)
    ensures
        prompt::total_bytes(Seq::empty()) == 0,
        prompt::total_bytes(entries.push(e)) == prompt::total_bytes(entries) + prompt::state_bytes(
            e.state,
        ),
        4 * e.state.words() <= usize::MAX ==> prompt::state_bytes(e.state) == 4 * e.state.words(),
    decreases entries.len(),
{
    if entries.len() > 0 {
        assert(entries.push(e).skip(1) =~= entries.skip(1).push(e));
        prompt_bytes_add_up(entries.skip(1), e);
    } else {
        assert(entries.push(e).skip(1) =~= entries);
    }
}

/// No more prompts go than have to: with one fewer gone there would be too many, or they would
/// weigh too much.
pub proof fn prompts_leave_only_for_room(
    entries: Seq<PromptView>,
    size: nat,
    capacity: nat,
    budget: nat,
    m: nat,
)
    ensures
        ({
            let n = prompt::to_evict(entries, size, capacity, budget);
            &&& n <= entries.len()
            &&& m < n ==> entries.len() - m + 1 > capacity || prompt::total_bytes(
                entries.skip(m as int),
            ) + size > budget
            &&& n < entries.len() ==> entries.len() - n + 1 <= capacity && prompt::total_bytes(
                entries.skip(n as int),
            ) + size <= budget
        }),
    decreases entries.len(),
{
    assert(entries.skip(0) =~= entries);
    if !(entries.len() == 0 || (entries.len() + 1 <= capacity && prompt::total_bytes(entries) + size
        <= budget)) {
        let n = prompt::to_evict(entries.skip(1), size, capacity, budget);
        if 0 < m <= entries.len() {
            prompts_leave_only_for_room(entries.skip(1), size, capacity, budget, (m - 1) as nat);
            assert(entries.skip(1).skip(m - 1) =~= entries.skip(m as int));
        } else {
            prompts_leave_only_for_room(entries.skip(1), size, capacity, budget, 0);
        }
        assert(entries.skip(1).skip(n as int) =~= entries.skip((n + 1) as int));
    }
}

/// A hit gives the state of that very prompt, and makes it the most recently used; the others
/// keep their order.
pub proof fn a_hit_moves_one_prompt_last(v: PromptCacheView, key: Seq<u8>, at: int)
    requires
        v.wf(),
        0 <= at < v.entries.len(),
        v.entries[at].key == key,
    ensures
        v.state(key) == v.entries[at].state,
        v.touched(key).entries == v.entries.remove(at).push(v.entries[at]),
        v.touched(key).hits == v.hits.wrapping_add(1),
        v.touched(key).misses == v.misses,
        v.touched(key).capacity == v.capacity,
        v.touched(key).budget == v.budget,
{
    let i = choose|i: int| 0 <= i < v.entries.len() && (#[trigger] v.entries[i]).key == key;
    assert(i == at) by {
        if i < at {
            assert(v.entries[i].key != v.entries[at].key);
        } else if at < i {
            assert(v.entries[at].key != v.entries[i].key);
        }
    }
    assert forall|j: int| 0 <= j < v.entries.len() && j != at implies (#[trigger] v.entries[j]).key
        != key by {
        if j < at {
            assert(v.entries[j].key != v.entries[at].key);
        } else {
            assert(v.entries[at].key != v.entries[j].key);
        }
    }
    prompt::without_is_remove(v.entries, key, at);
    assert(v.touched(key).entries =~= v.entries.remove(at).push(v.entries[at]));
}

/// A new prompt that fits comes last, and only the oldest leave for it. One that has blocks in
/// storage, or weighs more than the whole budget, is not taken.
pub proof fn a_new_prompt_comes_last(v: PromptCacheView, key: Seq<u8>, state: SeqView)
    requires
        v.wf(),
        !prompt::holds(v.entries, key),
    ensures
        state.any_spilled() || prompt::state_bytes(state) > v.budget ==> v.inserted(key, state)
            == v,
        !state.any_spilled() && prompt::state_bytes(state) <= v.budget ==> {
            let n = prompt::to_evict(v.entries, prompt::state_bytes(state), v.capacity, v.budget);
            &&& v.inserted(key, state).entries == v.entries.skip(n as int).push(
                PromptView { key, state },
            )
            &&& v.inserted(key, state).hits == v.hits
            &&& v.inserted(key, state).misses == v.misses
            &&& v.inserted(key, state).capacity == v.capacity
            &&& v.inserted(key, state).budget == v.budget
        },
{
    prompt::filter_keeps_all(v.entries, key);
}

/// A counter that counts past the largest number starts over.
pub proof fn counters_start_over(counter: u64, n: nat)
    ensures
        expert::wrapped_sum(counter, n) == (counter + n) % 0x1_0000_0000_0000_0000,
    decreases n,
{
    if n > 0 {
        let next = counter.wrapping_add(1);
        counters_start_over(next, (n - 1) as nat);
        if counter == u64::MAX {
            assert(next == 0);
        }
    }
}

} // verus!
