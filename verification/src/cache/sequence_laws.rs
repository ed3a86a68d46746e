//! What the operations on a sequence promise together.

use crate::cache::kv;
use crate::cache::kv::{KvConfig, KvView};
use crate::cache::kv_laws;
use crate::cache::sequence;
use crate::cache::sequence::{LinearView, SeqView, SnapshotView};
use vstd::prelude::*;

verus! {

/// What a recurrent layer is after some tokens, each folded in behind a copy of the
/// state before it. A step gives the convolution window and the matrix state that
/// the token leaves.
pub open spec fn recorded(s: LinearView, steps: Seq<(Seq<u32>, Seq<u32>)>) -> LinearView
    decreases steps.len(),
{
    if steps.len() == 0 {
        s
    } else {
        let copied = recorded(s, steps.drop_last()).snapshotted();
        LinearView { conv: steps.last().0, state: steps.last().1, ..copied }.advanced()
    }
}

/// A recurrent layer that recorded a round can be put back to any position of the
/// round, and is then what it was there.
pub proof fn recording_remembers_every_position(
    s: LinearView,
    steps: Seq<(Seq<u32>, Seq<u32>)>,
    n: int,
)
    requires
        s.history.len() == 0,
        0 <= n <= steps.len(),
    ensures
        recorded(s, steps).recoverable((s.folded + n) as nat),
        recorded(s, steps).rewound((s.folded + n) as nat) == recorded(
            s,
            steps.take(n),
        ).forgotten(),
{
    recorded_history(s, steps);
    let r = recorded(s, steps);
    let len = (s.folded + n) as nat;
    if n == steps.len() {
        assert(steps.take(n) =~= steps);
    } else {
        assert(r.history[n].folded == len);
        assert forall|j: int| 0 <= j < n implies (#[trigger] r.history[j]).folded != len by {}
        assert(r.is_copy_at(len, n));
        let c = r.copy_at(len);
        assert(r.is_copy_at(len, c));
        assert(r.history[c].folded == len);
        recorded_history(s, steps.take(n));
        assert(r.rewound(len) =~= recorded(s, steps.take(n)).forgotten());
    }
}

proof fn recorded_history(s: LinearView, steps: Seq<(Seq<u32>, Seq<u32>)>)
    requires
        s.history.len() == 0,
    ensures
        recorded(s, steps).folded == s.folded + steps.len(),
        recorded(s, steps).history.len() == steps.len(),
        forall|j: int|
            0 <= j < steps.len() ==> {
                let h = #[trigger] recorded(s, steps).history[j];
                let then = recorded(s, steps.take(j));
                h.folded == s.folded + j && h.conv == then.conv && h.state == then.state
            },
    decreases steps.len(),
{
    if steps.len() > 0 {
        let init = steps.drop_last();
        recorded_history(s, init);
        let r = recorded(s, steps);
        assert forall|j: int| 0 <= j < steps.len() implies {
            let h = #[trigger] r.history[j];
            let then = recorded(s, steps.take(j));
            h.folded == s.folded + j && h.conv == then.conv && h.state == then.state
        } by {
            if j < init.len() {
                assert(steps.take(j) =~= init.take(j));
                assert(r.history[j] == recorded(s, init).history[j]);
            } else {
                assert(steps.take(j) =~= init);
            }
        }
    }
}

/// A sequence after a round of tokens: every layer has one position more per token,
/// and every recurrent layer has recorded the round.
pub open spec fn after_round(
    v: SeqView,
    logs: Seq<Seq<(Seq<u32>, Seq<u32>)>>,
    folds: Seq<Seq<(Seq<u32>, Seq<u32>)>>,
) -> SeqView {
    SeqView {
        kvs: Seq::new(v.kvs.len(), |l: int| v.kvs[l].put_all(logs[l])),
        linear: Seq::new(
            v.linear.len(),
            |l: int|
                match v.linear[l] {
                    Some(s) => Some(recorded(s, folds[l])),
                    None => None,
                },
        ),
        ..v
    }
}

/// A round of guesses that is taken back leaves no trace, in attention layers and in
/// recurrent ones.
pub proof fn rejected_round_leaves_no_trace(
    v: SeqView,
    logs: Seq<Seq<(Seq<u32>, Seq<u32>)>>,
    folds: Seq<Seq<(Seq<u32>, Seq<u32>)>>,
    n: nat,
)
    requires
        v.wf(),
        n > 0,
        logs.len() == v.kvs.len(),
        folds.len() == v.linear.len(),
        forall|l: int|
            0 <= l < v.kvs.len() ==> {
                let k = #[trigger] v.kvs[l];
                &&& k.len == v.len()
                &&& k.open_page_whole()
                &&& k.len + n <= k.max_positions
                &&& logs[l].len() == n
                &&& forall|i: int|
                    0 <= i < n ==> (#[trigger] logs[l][i]).0.len() == k.kv_dim
                        && logs[l][i].1.len() == k.kv_dim
            },
        forall|l: int|
            0 <= l < v.linear.len() ==> (#[trigger] v.linear[l] matches Some(s) ==> {
                &&& s.folded == v.len()
                &&& s.history.len() == 0
                &&& folds[l].len() == n
            }),
    ensures
        !after_round(v, logs, folds).unrecoverable(v.len()),
        forall|l: int|
            0 <= l < v.kvs.len() ==> !(#[trigger] after_round(v, logs, folds).kvs[l]).cut_refused(
                v.len(),
            ),
        after_round(v, logs, folds).cut(v.len()) == v,
{
    let w = after_round(v, logs, folds);
    let len = v.len();
    assert forall|l: int| 0 <= l < v.linear.len() implies (#[trigger] w.linear[l] matches Some(s)
        ==> s.recoverable(len) && s.rewound(len) == v.linear[l]->Some_0) by {
        if let Some(s) = v.linear[l] {
            recording_remembers_every_position(s, folds[l], 0);
            assert(folds[l].take(0) =~= Seq::<(Seq<u32>, Seq<u32>)>::empty());
            assert(s.forgotten() =~= s);
        }
    }
    assert forall|l: int| 0 <= l < v.kvs.len() implies !(#[trigger] w.kvs[l]).cut_refused(len)
        && w.kvs[l].cut(len) == v.kvs[l] by {
        let k = v.kvs[l];
        kv_laws::truncate_undoes_appends(k, logs[l]);
        kv_laws::appends_spill_nothing(k, logs[l]);
    }
    let c = w.cut(len);
    assert(c.kvs =~= v.kvs);
    assert forall|l: int| 0 <= l < v.linear.len() implies #[trigger] c.linear[l] == v.linear[l] by {
        assert(w.linear[l] is Some <==> v.linear[l] is Some);
    }
    assert(c.linear =~= v.linear);
    assert(c =~= v);
}

/// Two sequences with different identities never name the same spill file.
pub proof fn identities_keep_spill_files_apart(
    v: SeqView,
    a: u64,
    b: u64,
    layer_a: int,
    layer_b: int,
    block_a: nat,
    block_b: nat,
)
    requires
        a != b,
        0 <= layer_a < v.kvs.len(),
        0 <= layer_b < v.kvs.len(),
    ensures
        ({
            let x = v.rekeyed(a).kvs[layer_a];
            let y = v.rekeyed(b).kvs[layer_b];
            kv::spill_path_text(x.seq_id, x.layer, block_a) != kv::spill_path_text(
                y.seq_id,
                y.layer,
                block_b,
            )
        }),
{
    let x = v.rekeyed(a).kvs[layer_a];
    let y = v.rekeyed(b).kvs[layer_b];
    if kv::spill_path_text(x.seq_id, x.layer, block_a) == kv::spill_path_text(
        y.seq_id,
        y.layer,
        block_b,
    ) {
        kv_laws::spill_paths_are_distinct(a, x.layer, block_a, b, y.layer, block_b);
    }
}

/// A fresh sequence holds nothing: no positions, no bytes, nothing in storage.
pub proof fn fresh_sequence_is_empty(cfg: KvConfig, seq_id: u64)
    ensures
        SeqView::fresh(cfg, seq_id).wf(),
        SeqView::fresh(cfg, seq_id).len() == 0,
        SeqView::fresh(cfg, seq_id).words() == 0,
        !SeqView::fresh(cfg, seq_id).any_spilled(),
        !SeqView::fresh(cfg, seq_id).has_linear(),
{
    let v = SeqView::fresh(cfg, seq_id);
    assert forall|l: int| 0 <= l < v.kvs.len() implies (#[trigger] v.kvs[l]).wf() by {
        let k = cfg.empty_layer(seq_id, l as nat);
        assert(v.kvs[l] == k);
        assert(0nat % k.block_size == 0 && 0nat / k.block_size == 0) by (nonlinear_arith)
            requires
                k.block_size >= 1,
        ;
    }
    no_words(v.kvs, v.linear);
}

proof fn no_words(kvs: Seq<KvView>, linear: Seq<Option<LinearView>>)
    requires
        forall|l: int| 0 <= l < kvs.len() ==> (#[trigger] kvs[l]).pages.len() == 0,
        forall|l: int| 0 <= l < linear.len() ==> #[trigger] linear[l] is None,
    ensures
        sequence::kv_words(kvs) == 0,
        sequence::linear_words(linear) == 0,
    decreases kvs.len() + linear.len(),
{
    if kvs.len() > 0 {
        no_words(kvs.drop_last(), linear);
    } else if linear.len() > 0 {
        no_words(kvs, linear.drop_last());
    }
}

/// A cut, a new identity and a purge reach every layer of a sequence, and each changes what it
/// is about and nothing else.
pub proof fn operations_reach_every_layer(v: SeqView, len: nat, seq_id: u64, l: int)
    requires
        v.wf(),
        0 <= l < v.kvs.len(),
    ensures
        v.cut(len).kvs.len() == v.kvs.len(),
        v.cut(len).kvs[l] == v.kvs[l].cut(len),
        v.linear[l] is None ==> v.cut(len).linear[l] is None,
        v.linear[l] matches Some(s) ==> v.cut(len).linear[l] == Some(s.rewound(len)),
        v.cut(len).recording == v.recording,
        v.rekeyed(seq_id).kvs.len() == v.kvs.len(),
        v.rekeyed(seq_id).kvs[l] == (KvView { seq_id, ..v.kvs[l] }),
        v.rekeyed(seq_id).linear == v.linear,
        v.purged().kvs[l] == v.kvs[l].purged(),
        v.purged().linear == v.linear,
{
}

/// A layer that is put back to where it was after `len` tokens is there, with the copy from
/// then, and remembers nothing else. One that cannot be put back is left alone.
pub proof fn a_rewind_gives_the_copy_back(s: LinearView, len: nat, i: int)
    requires
        s.folded != len,
        s.is_copy_at(len, i),
    ensures
        s.rewound(len).folded == len,
        s.rewound(len).conv == s.history[i].conv,
        s.rewound(len).state == s.history[i].state,
        s.rewound(len).history.len() == 0,
        s.snapshotted().history.last().conv == s.conv,
        s.snapshotted().history.last().state == s.state,
        s.snapshotted().history.last().folded == s.folded,
        s.snapshotted().conv == s.conv && s.snapshotted().folded == s.folded,
        s.advanced().folded == s.folded + 1 && s.advanced().conv == s.conv && s.advanced().state
            == s.state,
{
    let c = s.copy_at(len);
    assert(s.is_copy_at(len, c));
    if c < i {
        assert(s.history[c].folded != len);
    } else if i < c {
        assert(s.history[i].folded != len);
    }
    assert(s.remembers(len));
}

/// A layer stays as it is where it is there already, or where no copy from then is held.
pub proof fn a_rewind_makes_nothing_up(s: LinearView, len: nat)
    ensures
        s.folded == len ==> s.rewound(len).conv == s.conv && s.rewound(len).state == s.state
            && s.rewound(len).folded == len,
        s.folded != len && (forall|i: int|
            0 <= i < s.history.len() ==> (#[trigger] s.history[i]).folded != len) ==> s.rewound(len)
            == s && !s.recoverable(len),
{
}

/// A sequence weighs what its layers weigh: the blocks in RAM, and the recurrent states with
/// every copy of them.
pub proof fn layers_weigh_together(
    kvs: Seq<KvView>,
    k: KvView,
    linear: Seq<Option<LinearView>>,
    s: LinearView,
)
    ensures
        sequence::kv_words(Seq::empty()) == 0,
        sequence::kv_words(kvs.push(k)) == sequence::kv_words(kvs) + kv::resident_words(k.pages),
        sequence::linear_words(Seq::empty()) == 0,
        sequence::linear_words(linear.push(None)) == sequence::linear_words(linear),
        sequence::linear_words(linear.push(Some(s))) == sequence::linear_words(linear) + s.conv.len()
            + s.state.len() + sequence::history_words(s.history),
        sequence::history_words(s.snapshotted().history) == sequence::history_words(s.history)
            + s.conv.len() + s.state.len(),
{
    assert(kvs.push(k).drop_last() =~= kvs);
    assert(linear.push(None).drop_last() =~= linear);
    assert(linear.push(Some(s)).drop_last() =~= linear);
    assert(s.snapshotted().history.drop_last() =~= s.history);
}

/// A new sequence has as many layers as its configuration says, at least one, each its own and
/// all empty.
pub proof fn fresh_layers_are_their_own(cfg: KvConfig, seq_id: u64, l: int)
    requires
        0 <= l < SeqView::fresh(cfg, seq_id).kvs.len(),
    ensures
        cfg.n_layers > 0 ==> SeqView::fresh(cfg, seq_id).kvs.len() == cfg.n_layers,
        SeqView::fresh(cfg, seq_id).kvs[l].layer == l,
        SeqView::fresh(cfg, seq_id).kvs[l].seq_id == seq_id,
        SeqView::fresh(cfg, seq_id).kvs[l].len == 0,
        SeqView::fresh(cfg, seq_id).kvs[l].sliding_window == cfg.sliding_window,
        SeqView::fresh(cfg, seq_id).kvs[l].storage == cfg.storage,
        SeqView::fresh(cfg, seq_id).linear[l] is None,
        !SeqView::fresh(cfg, seq_id).recording,
{
}

} // verus!
