//! Everything one in-flight sequence carries between decode steps.

use crate::cache::kv;
use crate::cache::kv::{KVCacheState, KvConfig, KvView};
use crate::text;
use crate::text::push_size;
use crate::types::GarudaError;
use vstd::prelude::*;
use vstd::slice::slice_to_vec;
use vstd::string::*;

verus! {

/// A copy of a recurrent state, taken before a token was folded into it.
#[derive(Debug)]
struct Snapshot {
    folded: usize,
    conv: Vec<u32>,
    state: Vec<u32>,
}

#[verifier::ext_equal]
pub struct SnapshotView {
    pub folded: nat,
    pub conv: Seq<u32>,
    pub state: Seq<u32>,
}

impl Snapshot {
    spec fn view(&self) -> SnapshotView {
        SnapshotView { folded: self.folded as nat, conv: self.conv@, state: self.state@ }
    }
}

/// What a linear-attention layer carries between tokens, instead of a growing cache
/// of keys and values.
///
/// A gated delta net summarises everything it has read into two fixed-size buffers.
/// Such a layer cannot be rewound by arithmetic: the state is a summary, not a log.
/// The way back is a copy taken on the way in.
#[derive(Debug)]
pub struct LinearState {
    /// The most recent inputs to the depthwise causal convolution, oldest first.
    pub conv: Vec<u32>,
    /// The recurrent matrix state.
    pub state: Vec<u32>,
    /// Tokens folded into `state` so far.
    folded: usize,
    /// Copies taken before folding a token, oldest first. Only recorded while a
    /// sequence is verifying speculated tokens.
    history: Vec<Snapshot>,
}

#[verifier::ext_equal]
pub struct LinearView {
    pub conv: Seq<u32>,
    pub state: Seq<u32>,
    pub folded: nat,
    pub history: Seq<SnapshotView>,
}

pub open spec fn history_words(history: Seq<SnapshotView>) -> nat
    decreases history.len(),
{
    if history.len() == 0 {
        0
    } else {
        history_words(history.drop_last()) + history.last().conv.len() + history.last().state.len()
    }
}

impl LinearView {
    pub open spec fn zeros(conv_len: nat, state_len: nat) -> LinearView {
        LinearView {
            conv: Seq::new(conv_len, |i: int| 0u32),
            state: Seq::new(state_len, |i: int| 0u32),
            folded: 0,
            history: Seq::empty(),
        }
    }

    pub open spec fn words(self) -> nat {
        self.conv.len() + self.state.len() + history_words(self.history)
    }

    /// A copy from after `len` tokens is held.
    pub open spec fn remembers(self, len: nat) -> bool {
        exists|i: int| 0 <= i < self.history.len() && #[trigger] self.history[i].folded == len
    }

    pub open spec fn recoverable(self, len: nat) -> bool {
        self.folded == len || self.remembers(len)
    }

    /// The oldest copy from after `len` tokens.
    pub open spec fn is_copy_at(self, len: nat, i: int) -> bool {
        &&& 0 <= i < self.history.len()
        &&& self.history[i].folded == len
        &&& forall|j: int| 0 <= j < i ==> (#[trigger] self.history[j]).folded != len
    }

    pub open spec fn copy_at(self, len: nat) -> int {
        choose|i: int| self.is_copy_at(len, i)
    }

    pub open spec fn snapshotted(self) -> LinearView {
        LinearView {
            history: self.history.push(
                SnapshotView { folded: self.folded, conv: self.conv, state: self.state },
            ),
            ..self
        }
    }

    pub open spec fn advanced(self) -> LinearView {
        LinearView { folded: self.folded + 1, ..self }
    }

    pub open spec fn forgotten(self) -> LinearView {
        LinearView { history: Seq::empty(), ..self }
    }

    /// The state as it was after `len` tokens, where that can be had.
    pub open spec fn rewound(self, len: nat) -> LinearView {
        if self.folded == len {
            self.forgotten()
        } else if self.remembers(len) {
            let copy = self.history[self.copy_at(len)];
            LinearView { conv: copy.conv, state: copy.state, folded: len, history: Seq::empty() }
        } else {
            self
        }
    }
}

impl View for LinearState {
    type V = LinearView;

    closed spec fn view(&self) -> LinearView {
        LinearView {
            conv: self.conv@,
            state: self.state@,
            folded: self.folded as nat,
            history: self.history@.map_values(|s: Snapshot| s@),
        }
    }
}

impl Clone for LinearState {
    fn clone(&self) -> (c: Self)
        ensures
            c@ == self@,
    {
        let mut history: Vec<Snapshot> = Vec::new();
        let mut i: usize = 0;
        while i < self.history.len()
            invariant
                i <= self.history@.len(),
                history@.len() == i,
                forall|j: int| 0 <= j < i ==> (#[trigger] history@[j])@ == self.history@[j]@,
            decreases self.history@.len() - i,
        {
            let s = &self.history[i];
            let copy = Snapshot {
                folded: s.folded,
                conv: slice_to_vec(s.conv.as_slice()),
                state: slice_to_vec(s.state.as_slice()),
            };
            assert(copy@ =~= s@);
            history.push(copy);
            i += 1;
        }
        let c = LinearState {
            conv: slice_to_vec(self.conv.as_slice()),
            state: slice_to_vec(self.state.as_slice()),
            folded: self.folded,
            history,
        };
        assert(c@.history =~= self@.history);
        c
    }
}

impl LinearState {
    fn zeros(conv_len: usize, state_len: usize) -> (s: Self)
        ensures
            s@ == LinearView::zeros(conv_len as nat, state_len as nat),
    {
        let conv: Vec<u32> = vec![0; conv_len];
        let state: Vec<u32> = vec![0; state_len];
        let s = LinearState { conv, state, folded: 0, history: Vec::new() };
        assert(s@.conv =~= LinearView::zeros(conv_len as nat, state_len as nat).conv);
        assert(s@.state =~= LinearView::zeros(conv_len as nat, state_len as nat).state);
        assert(s@.history =~= Seq::<SnapshotView>::empty());
        s
    }

    /// The inputs that the convolution remembers.
    pub fn conv_history(&self) -> (c: &Vec<u32>)
        ensures
            c@ == self@.conv,
    {
        &self.conv
    }

    /// Replaces what the convolution remembers.
    pub fn replace_conv(&mut self, conv: Vec<u32>)
        ensures
            final(self)@ == (LinearView { conv: conv@, ..old(self)@ }),
    {
        let ghost before = self@;
        self.conv = conv;
        assert(self@ =~= (LinearView { conv: conv@, ..before }));
    }

    /// Tokens folded in so far.
    pub fn folded(&self) -> (n: usize)
        ensures
            n == self@.folded,
    {
        self.folded
    }

    /// Words held, copies included.
    fn words(&self) -> (n: usize)
        ensures
            n == kv::counted(self@.words()),
    {
        let mut n: usize = 0;
        let mut i: usize = 0;
        while i < self.history.len()
            invariant
                i <= self.history@.len(),
                self@.history.len() == self.history@.len(),
                n == kv::counted(history_words(self@.history.take(i as int))),
            decreases self.history@.len() - i,
        {
            proof {
                let next = self@.history.take(i + 1);
                assert(next.drop_last() =~= self@.history.take(i as int));
                assert(next.last() == self.history@[i as int]@);
            }
            n = n.saturating_add(self.history[i].conv.len()).saturating_add(
                self.history[i].state.len(),
            );
            i += 1;
        }
        assert(self@.history.take(self@.history.len() as int) =~= self@.history);
        n.saturating_add(self.conv.len()).saturating_add(self.state.len())
    }

    /// Copies the state as it stands, before the next token is folded into it.
    pub fn snapshot(&mut self)
        ensures
            final(self)@ == old(self)@.snapshotted(),
    {
        let ghost before = self@;
        let copy = Snapshot {
            folded: self.folded,
            conv: slice_to_vec(self.conv.as_slice()),
            state: slice_to_vec(self.state.as_slice()),
        };
        self.history.push(copy);
        assert(self@.history =~= before.snapshotted().history);
    }

    /// Accounts for a token having been folded in.
    pub fn advance(&mut self)
        requires
            old(self)@.folded < usize::MAX,
        ensures
            final(self)@ == old(self)@.advanced(),
    {
        self.folded += 1;
    }

    fn clear_history(&mut self)
        ensures
            final(self)@ == old(self)@.forgotten(),
    {
        let ghost before = self@;
        self.history.clear();
        assert(self@.history =~= before.forgotten().history);
    }

    /// The index of the oldest copy from after `len` tokens.
    fn find_copy(&self, len: usize) -> (r: Option<usize>)
        ensures
            match r {
                Some(i) => self@.is_copy_at(len as nat, i as int) && i == self@.copy_at(len as nat)
                    && i < self.history@.len(),
                None => !self@.remembers(len as nat),
            },
    {
        let mut i: usize = 0;
        while i < self.history.len()
            invariant
                i <= self.history@.len(),
                self@.history.len() == self.history@.len(),
                forall|j: int| 0 <= j < i ==> (#[trigger] self@.history[j]).folded != len,
            decreases self.history@.len() - i,
        {
            assert(self@.history[i as int] == self.history@[i as int]@);
            if self.history[i].folded == len {
                assert(self@.is_copy_at(len as nat, i as int));
                proof {
                    let c = self@.copy_at(len as nat);
                    assert(self@.is_copy_at(len as nat, c));
                    if c < i {
                        assert(self@.history[c].folded != len);
                    }
                }
                return Some(i);
            }
            i += 1;
        }
        None
    }

    fn can_recover(&self, len: usize) -> (b: bool)
        ensures
            b == self@.recoverable(len as nat),
    {
        if self.folded == len {
            return true;
        }
        match self.find_copy(len) {
            Some(i) => {
                assert(self@.history[i as int].folded == len);
                true
            },
            None => false,
        }
    }

    /// Puts the state back to what it was after `len` tokens, if a copy from then is
    /// still held.
    pub fn rewind_to(&mut self, len: usize) -> (b: bool)
        ensures
            b == old(self)@.recoverable(len as nat),
            final(self)@ == old(self)@.rewound(len as nat),
    {
        if len == self.folded {
            self.clear_history();
            return true;
        }
        match self.find_copy(len) {
            None => false,
            Some(at) => {
                let ghost before = self@;
                assert(self@.history[at as int] == self.history@[at as int]@);
                let copy = self.history.swap_remove(at);
                self.conv = copy.conv;
                self.state = copy.state;
                self.folded = copy.folded;
                self.history.clear();
                proof {
                    assert(before.remembers(len as nat));
                    assert(self@.history =~= Seq::<SnapshotView>::empty());
                    assert(self@ =~= before.rewound(len as nat));
                }
                true
            },
        }
    }
}

/// Everything one in-flight sequence carries between decode steps: one attention
/// cache per layer, and recurrent state for the layers that have it.
///
/// All layers advance together: each token appends exactly one position to every
/// layer, so `len()` reads the first layer and speaks for all of them.
pub struct SeqState {
    kvs: Vec<KVCacheState>,
    /// Recurrent state, indexed like `kvs`. `None` for an ordinary attention layer.
    linear: Vec<Option<LinearState>>,
    /// Set while a round of speculated tokens is being verified.
    recording: bool,
}

#[verifier::ext_equal]
pub struct SeqView {
    pub kvs: Seq<KvView>,
    pub linear: Seq<Option<LinearView>>,
    pub recording: bool,
}

pub open spec fn linear_view(s: Option<LinearState>) -> Option<LinearView> {
    match s {
        Some(l) => Some(l@),
        None => None,
    }
}

impl View for SeqState {
    type V = SeqView;

    closed spec fn view(&self) -> SeqView {
        SeqView {
            kvs: self.kvs@.map_values(|k: KVCacheState| k@),
            linear: self.linear@.map_values(|s: Option<LinearState>| linear_view(s)),
            recording: self.recording,
        }
    }
}

pub open spec fn kv_words(kvs: Seq<KvView>) -> nat
    decreases kvs.len(),
{
    if kvs.len() == 0 {
        0
    } else {
        kv_words(kvs.drop_last()) + kv::resident_words(kvs.last().pages)
    }
}

pub open spec fn linear_words(linear: Seq<Option<LinearView>>) -> nat
    decreases linear.len(),
{
    if linear.len() == 0 {
        0
    } else {
        linear_words(linear.drop_last()) + match linear.last() {
            Some(l) => l.words(),
            None => 0,
        }
    }
}

pub open spec fn on_linear(
    linear: Seq<Option<LinearView>>,
    f: spec_fn(LinearView) -> LinearView,
) -> Seq<Option<LinearView>> {
    linear.map_values(
        |s: Option<LinearView>|
            match s {
                Some(l) => Some(f(l)),
                None => None,
            },
    )
}

pub open spec fn layer_range_message(l: nat, n: nat) -> Seq<char> {
    "layer "@ + text::decimal(l) + " is out of range for a "@ + text::decimal(n)
        + "-layer sequence"@
}

pub open spec fn layer_shape_message(
    l: nat,
    conv: nat,
    state: nat,
    conv_len: nat,
    state_len: nat,
) -> Seq<char> {
    "layer "@ + text::decimal(l) + " holds a "@ + text::decimal(conv) + "/"@ + text::decimal(state)
        + " recurrent state but "@ + text::decimal(conv_len) + "/"@ + text::decimal(state_len)
        + " was asked for"@
}

pub open spec fn unrecoverable_message(len: nat) -> Seq<char> {
    "cannot truncate to "@ + text::decimal(len)
        + ": this sequence carries recurrent state, which summarises every token it has read, and no copy of it from that position is held"@
}

impl SeqView {
    pub open spec fn wf(self) -> bool {
        &&& self.kvs.len() >= 1
        &&& self.linear.len() == self.kvs.len()
        &&& forall|l: int| 0 <= l < self.kvs.len() ==> (#[trigger] self.kvs[l]).wf()
    }

    pub open spec fn len(self) -> nat {
        self.kvs[0].len
    }

    /// How many positions back attention reaches, if not to the start.
    pub open spec fn window(self) -> Option<usize> {
        self.kvs[0].sliding_window
    }

    /// A sequence of `cfg` that has read nothing.
    pub open spec fn fresh(cfg: KvConfig, seq_id: u64) -> SeqView {
        let n = kv::at_least_one(cfg.n_layers as nat);
        SeqView {
            kvs: Seq::new(n, |l: int| cfg.empty_layer(seq_id, l as nat)),
            linear: Seq::new(n, |l: int| None),
            recording: false,
        }
    }

    pub open spec fn any_spilled(self) -> bool {
        exists|l: int| 0 <= l < self.kvs.len() && (#[trigger] self.kvs[l]).any_spilled()
    }

    pub open spec fn has_linear(self) -> bool {
        exists|l: int| 0 <= l < self.linear.len() && #[trigger] self.linear[l] is Some
    }

    /// Words the sequence holds in memory, recurrent state included.
    pub open spec fn words(self) -> nat {
        kv_words(self.kvs) + linear_words(self.linear)
    }

    /// Every recurrent layer can be put back to where it was after `len` tokens.
    pub open spec fn recoverable(self, len: nat) -> bool {
        forall|l: int|
            0 <= l < self.linear.len() ==> (#[trigger] self.linear[l] matches Some(s)
                ==> s.recoverable(len))
    }

    /// A truncation to `len` is refused because a recurrent layer cannot follow.
    pub open spec fn unrecoverable(self, len: nat) -> bool {
        len < self.len() && !self.recoverable(len)
    }

    /// The first `n` layers cut to `len`, the recurrent layers rewound.
    pub open spec fn cut_layers(self, len: nat, n: nat) -> SeqView {
        SeqView {
            kvs: Seq::new(
                self.kvs.len(),
                |l: int|
                    if l < n {
                        self.kvs[l].cut(len)
                    } else {
                        self.kvs[l]
                    },
            ),
            linear: on_linear(self.linear, |s: LinearView| s.rewound(len)),
            ..self
        }
    }

    /// The sequence without the positions from `len` on.
    pub open spec fn cut(self, len: nat) -> SeqView {
        self.cut_layers(len, self.kvs.len())
    }

    /// Layer `l` is the first one that refuses to be cut to `len`.
    pub open spec fn first_refusal(self, len: nat, l: int) -> bool {
        &&& 0 <= l < self.kvs.len()
        &&& self.kvs[l].cut_refused(len)
        &&& forall|m: int| 0 <= m < l ==> !(#[trigger] self.kvs[m]).cut_refused(len)
    }

    /// The first `n` layers named `seq_id`.
    pub open spec fn rekeyed_layers(self, seq_id: u64, n: nat) -> SeqView {
        SeqView {
            kvs: Seq::new(
                self.kvs.len(),
                |l: int|
                    if l < n {
                        KvView { seq_id, ..self.kvs[l] }
                    } else {
                        self.kvs[l]
                    },
            ),
            ..self
        }
    }

    /// Storage was told to drop every block that it has of any layer.
    pub open spec fn is_let_go(self) -> bool {
        forall|l: int| 0 <= l < self.kvs.len() ==> (#[trigger] self.kvs[l]).is_let_go(0)
    }

    /// The sequence under a new identity.
    pub open spec fn rekeyed(self, seq_id: u64) -> SeqView {
        self.rekeyed_layers(seq_id, self.kvs.len())
    }

    pub open spec fn purged(self) -> SeqView {
        SeqView { kvs: self.kvs.map_values(|k: KvView| k.purged()), ..self }
    }
}

impl Clone for SeqState {
    fn clone(&self) -> (c: Self)
        ensures
            c@ == self@,
    {
        let mut kvs: Vec<KVCacheState> = Vec::new();
        let mut l: usize = 0;
        while l < self.kvs.len()
            invariant
                l <= self.kvs@.len(),
                kvs@.len() == l,
                forall|i: int| 0 <= i < l ==> (#[trigger] kvs@[i])@ == self.kvs@[i]@,
            decreases self.kvs@.len() - l,
        {
            kvs.push(self.kvs[l].clone());
            l += 1;
        }
        let mut linear: Vec<Option<LinearState>> = Vec::new();
        l = 0;
        while l < self.linear.len()
            invariant
                l <= self.linear@.len(),
                linear@.len() == l,
                forall|i: int|
                    0 <= i < l ==> linear_view(#[trigger] linear@[i]) == linear_view(
                        self.linear@[i],
                    ),
            decreases self.linear@.len() - l,
        {
            let copy = match &self.linear[l] {
                Some(s) => Some(s.clone()),
                None => None,
            };
            linear.push(copy);
            l += 1;
        }
        let c = SeqState { kvs, linear, recording: self.recording };
        assert(c@.kvs =~= self@.kvs);
        assert(c@.linear =~= self@.linear);
        c
    }
}

impl SeqState {
    pub open spec fn wf(&self) -> bool {
        self@.wf()
    }

    pub fn new(cfg: &KvConfig, seq_id: u64) -> (s: Self)
        ensures
            s.wf(),
            s@ == SeqView::fresh(*cfg, seq_id),
    {
        let n: usize = if cfg.n_layers == 0 {
            1
        } else {
            cfg.n_layers
        };
        let mut kvs: Vec<KVCacheState> = Vec::new();
        let mut linear: Vec<Option<LinearState>> = Vec::new();
        let mut l: usize = 0;
        while l < n
            invariant
                l <= n,
                kvs@.len() == l,
                linear@.len() == l,
                forall|i: int|
                    0 <= i < l ==> (#[trigger] kvs@[i])@ == cfg.empty_layer(seq_id, i as nat)
                        && kvs@[i].wf(),
                forall|i: int| 0 <= i < l ==> #[trigger] linear@[i] is None,
            decreases n - l,
        {
            kvs.push(KVCacheState::for_layer(cfg, seq_id, l));
            linear.push(None);
            l += 1;
        }
        let s = SeqState { kvs, linear, recording: false };
        proof {
            let want = SeqView::fresh(*cfg, seq_id);
            assert(s@.kvs =~= want.kvs);
            assert(s@.linear =~= want.linear);
            assert forall|i: int| 0 <= i < s@.kvs.len() implies (#[trigger] s@.kvs[i]).wf() by {
                assert(s@.kvs[i] == s.kvs@[i]@);
            }
        }
        s
    }

    /// Layer `l`'s recurrent state, allocated zeroed on first use.
    ///
    /// Asking for a different shape than the state already has is an error, not a
    /// silent reallocation that would throw away everything the sequence has read.
    pub fn linear(&mut self, l: usize, conv_len: usize, state_len: usize) -> (r: Result<
        &mut LinearState,
        GarudaError,
    >)
        requires
            old(self).wf(),
        ensures
            match r {
                Ok(s) => {
                    &&& l < old(self)@.linear.len()
                    &&& match old(self)@.linear[l as int] {
                        Some(held) => s@ == held && held.conv.len() == conv_len && held.state.len()
                            == state_len,
                        None => s@ == LinearView::zeros(conv_len as nat, state_len as nat),
                    }
                    &&& final(self)@ == (SeqView {
                        linear: old(self)@.linear.update(l as int, Some((*final(s))@)),
                        ..old(self)@
                    })
                },
                Err(e) => {
                    &&& final(self)@ == old(self)@
                    &&& if l >= old(self)@.linear.len() {
                        e matches GarudaError::Cache(m) && m@ == layer_range_message(
                            l as nat,
                            old(self)@.linear.len(),
                        )
                    } else {
                        old(self)@.linear[l as int] matches Some(held) && (held.conv.len()
                            != conv_len || held.state.len() != state_len) && (
                        e matches GarudaError::Cache(m) && m@ == layer_shape_message(
                            l as nat,
                            held.conv.len(),
                            held.state.len(),
                            conv_len as nat,
                            state_len as nat,
                        ))
                    }
                },
            },
    {
        let ghost before = self@;
        if l >= self.linear.len() {
            let mut m = "layer ".to_owned();
            push_size(&mut m, l);
            m.append(" is out of range for a ");
            push_size(&mut m, self.linear.len());
            m.append("-layer sequence");
            return Err(GarudaError::Cache(m));
        }
        assert(before.linear[l as int] == linear_view(self.linear@[l as int]));
        let fresh: bool = match &self.linear[l] {
            Some(s) => {
                if s.conv.len() != conv_len || s.state.len() != state_len {
                    let mut m = "layer ".to_owned();
                    push_size(&mut m, l);
                    m.append(" holds a ");
                    push_size(&mut m, s.conv.len());
                    m.append("/");
                    push_size(&mut m, s.state.len());
                    m.append(" recurrent state but ");
                    push_size(&mut m, conv_len);
                    m.append("/");
                    push_size(&mut m, state_len);
                    m.append(" was asked for");
                    return Err(GarudaError::Cache(m));
                }
                false
            },
            None => true,
        };
        if fresh {
            self.linear.set(l, Some(LinearState::zeros(conv_len, state_len)));
        }
        match &mut self.linear[l] {
            Some(s) => Ok(s),
            None => vstd::pervasive::unreached(),
        }
    }

    /// True when any layer of this sequence carries recurrent state.
    pub fn has_linear_state(&self) -> (b: bool)
        ensures
            b == self@.has_linear(),
    {
        let mut l: usize = 0;
        while l < self.linear.len()
            invariant
                l <= self.linear@.len(),
                self@.linear.len() == self.linear@.len(),
                forall|i: int| 0 <= i < l ==> !(#[trigger] self@.linear[i] is Some),
            decreases self.linear@.len() - l,
        {
            assert(self@.linear[l as int] == linear_view(self.linear@[l as int]));
            if self.linear[l].is_some() {
                return true;
            }
            l += 1;
        }
        false
    }

    /// Starts keeping a copy of each recurrent layer's state per token consumed, so
    /// that this sequence can be put back to any position in the round about to run.
    pub fn begin_recording(&mut self)
        requires
            old(self).wf(),
        ensures
            final(self).wf(),
            final(self)@ == (SeqView {
                linear: on_linear(old(self)@.linear, |s: LinearView| s.forgotten()),
                recording: true,
                ..old(self)@
            }),
    {
        let ghost before = self@;
        let ghost want = on_linear(before.linear, |s: LinearView| s.forgotten());
        let mut l: usize = 0;
        while l < self.linear.len()
            invariant
                l <= self.linear@.len(),
                self@.linear.len() == self.linear@.len(),
                want == on_linear(before.linear, |s: LinearView| s.forgotten()),
                self@ == (SeqView { linear: self@.linear, ..before }),
                self@.linear.len() == before.linear.len(),
                forall|i: int| 0 <= i < l ==> #[trigger] self@.linear[i] == want[i],
                forall|i: int|
                    l <= i < before.linear.len() ==> #[trigger] self@.linear[i]
                        == before.linear[i],
            decreases self.linear@.len() - l,
        {
            let ghost now = self@.linear;
            assert(now[l as int] == linear_view(self.linear@[l as int]));
            if let Some(s) = &mut self.linear[l] {
                s.clear_history();
            }
            assert(self@.linear =~= now.update(l as int, want[l as int]));
            assert(self@.kvs =~= before.kvs);
            l += 1;
        }
        self.recording = true;
        assert(self@.linear =~= want);
    }

    pub fn end_recording(&mut self)
        requires
            old(self).wf(),
        ensures
            final(self).wf(),
            final(self)@ == (SeqView { recording: false, ..old(self)@ }),
    {
        self.recording = false;
    }

    /// Whether the backend should snapshot each recurrent layer as it consumes tokens.
    pub fn recording(&self) -> (b: bool)
        ensures
            b == self@.recording,
    {
        self.recording
    }

    pub fn n_layers(&self) -> (n: usize)
        ensures
            n == self@.kvs.len(),
    {
        self.kvs.len()
    }

    /// The cache of layer `l`.
    pub fn layer(&mut self, l: usize) -> (k: &mut KVCacheState)
        requires
            old(self).wf(),
            l < old(self)@.kvs.len(),
        ensures
            k@ == old(self)@.kvs[l as int],
            final(self)@ == (SeqView {
                kvs: old(self)@.kvs.update(l as int, (*final(k))@),
                ..old(self)@
            }),
    {
        assert(self@.kvs[l as int] == self.kvs@[l as int]@);
        &mut self.kvs[l]
    }

    /// The cache of the first (and, for a single-block engine, only) layer.
    pub fn kv(&mut self) -> (k: &mut KVCacheState)
        requires
            old(self).wf(),
        ensures
            k@ == old(self)@.kvs[0],
            final(self)@ == (SeqView {
                kvs: old(self)@.kvs.update(0, (*final(k))@),
                ..old(self)@
            }),
    {
        self.layer(0)
    }

    pub fn len(&self) -> (n: usize)
        requires
            self.wf(),
        ensures
            n == self@.len(),
    {
        assert(self@.kvs[0] == self.kvs@[0]@);
        self.kvs[0].len()
    }

    /// Positions that layer `l` holds.
    pub fn layer_len(&self, l: usize) -> (n: usize)
        requires
            l < self@.kvs.len(),
        ensures
            n == self@.kvs[l as int].len,
    {
        assert(self@.kvs[l as int] == self.kvs@[l as int]@);
        self.kvs[l].len()
    }

    /// The context window every layer of this sequence is capped at.
    pub fn max_positions(&self) -> (n: usize)
        requires
            self.wf(),
        ensures
            n == self@.kvs[0].max_positions,
    {
        assert(self@.kvs[0] == self.kvs@[0]@);
        self.kvs[0].max_positions()
    }

    pub fn is_empty(&self) -> (b: bool)
        requires
            self.wf(),
        ensures
            b == (self@.len() == 0),
    {
        self.len() == 0
    }

    pub fn has_spill(&self) -> (b: bool)
        ensures
            b == self@.any_spilled(),
    {
        let mut l: usize = 0;
        while l < self.kvs.len()
            invariant
                l <= self.kvs@.len(),
                self@.kvs.len() == self.kvs@.len(),
                forall|i: int| 0 <= i < l ==> !(#[trigger] self@.kvs[i]).any_spilled(),
            decreases self.kvs@.len() - l,
        {
            assert(self@.kvs[l as int] == self.kvs@[l as int]@);
            if self.kvs[l].has_spill() {
                return true;
            }
            l += 1;
        }
        false
    }

    /// Bytes this sequence's state occupies in memory, across every layer, recurrent
    /// state included.
    pub fn resident_bytes(&self) -> (n: usize)
        ensures
            n == kv::counted(4 * self@.words()),
    {
        let mut bytes: usize = 0;
        let mut l: usize = 0;
        while l < self.kvs.len()
            invariant
                l <= self.kvs@.len(),
                self@.kvs.len() == self.kvs@.len(),
                bytes == kv::counted(4 * kv_words(self@.kvs.take(l as int))),
            decreases self.kvs@.len() - l,
        {
            proof {
                let next = self@.kvs.take(l + 1);
                assert(next.drop_last() =~= self@.kvs.take(l as int));
                assert(next.last() == self.kvs@[l as int]@);
            }
            bytes = bytes.saturating_add(self.kvs[l].resident_bytes());
            l += 1;
        }
        assert(self@.kvs.take(self@.kvs.len() as int) =~= self@.kvs);
        let ghost kv_total = kv_words(self@.kvs);
        l = 0;
        while l < self.linear.len()
            invariant
                l <= self.linear@.len(),
                self@.linear.len() == self.linear@.len(),
                bytes == kv::counted(4 * (kv_total + linear_words(self@.linear.take(l as int)))),
            decreases self.linear@.len() - l,
        {
            proof {
                let next = self@.linear.take(l + 1);
                assert(next.drop_last() =~= self@.linear.take(l as int));
                assert(next.last() == linear_view(self.linear@[l as int]));
            }
            if let Some(s) = &self.linear[l] {
                let words: usize = s.words();
                let held: usize = match words.checked_mul(4) {
                    Some(b) => b,
                    None => usize::MAX,
                };
                bytes = bytes.saturating_add(held);
            }
            l += 1;
        }
        assert(self@.linear.take(self@.linear.len() as int) =~= self@.linear);
        bytes
    }

    /// Gives every layer a fresh sequence identity. Fails at the first layer that has
    /// something spilled; the layers before it keep the new identity.
    pub fn rekey(&mut self, seq_id: u64) -> (r: Result<(), GarudaError>)
        requires
            old(self).wf(),
        ensures
            final(self).wf(),
            r is Ok <==> !old(self)@.any_spilled(),
            r is Ok ==> final(self)@ == old(self)@.rekeyed(seq_id),
            r matches Err(e) ==> {
                &&& e matches GarudaError::Cache(m) && m@
                    == "cannot rekey a sequence with spilled blocks"@
                &&& exists|l: int|
                    0 <= l < old(self)@.kvs.len() && (#[trigger] old(self)@.kvs[l]).any_spilled()
                        && (forall|m: int|
                        0 <= m < l ==> !(#[trigger] old(self)@.kvs[m]).any_spilled())
                        && final(self)@ == old(self)@.rekeyed_layers(seq_id, l as nat)
            },
    {
        let ghost before = self@;
        let mut l: usize = 0;
        assert(self@.kvs =~= before.rekeyed_layers(seq_id, 0).kvs);
        while l < self.kvs.len()
            invariant
                l <= self.kvs@.len(),
                before == old(self)@,
                before.wf(),
                self.wf(),
                self.kvs@.len() == before.kvs.len(),
                self@ == before.rekeyed_layers(seq_id, l as nat),
                forall|m: int| 0 <= m < l ==> !(#[trigger] before.kvs[m]).any_spilled(),
            decreases self.kvs@.len() - l,
        {
            let ghost now = self@.kvs;
            assert(now[l as int] == self.kvs@[l as int]@);
            assert(now[l as int] == before.kvs[l as int]);
            let r = self.kvs[l].rekey(seq_id);
            assert(self@.kvs =~= now.update(l as int, self.kvs@[l as int]@));
            assert(self@.linear =~= before.linear);
            match r {
                Err(e) => {
                    assert(self@.kvs =~= before.rekeyed_layers(seq_id, l as nat).kvs);
                    assert(before.kvs[l as int].any_spilled());
                    return Err(e);
                },
                Ok(()) => {},
            }
            assert(self@.kvs =~= before.rekeyed_layers(seq_id, l as nat + 1).kvs);
            l += 1;
        }
        Ok(())
    }

    /// Deletes the spill files of every layer. A sequence that ends takes its spill
    /// files with it, so its owner calls this before letting go of it.
    pub fn purge_spill_files(&mut self)
        requires
            old(self).wf(),
        ensures
            final(self).wf(),
            final(self)@ == old(self)@.purged(),
            old(self)@.is_let_go(),
    {
        let ghost before = self@;
        let mut l: usize = 0;
        while l < self.kvs.len()
            invariant
                l <= self.kvs@.len(),
                before.wf(),
                self.wf(),
                self.kvs@.len() == before.kvs.len(),
                self@ == (SeqView { kvs: self@.kvs, ..before }),
                forall|i: int| 0 <= i < l ==> (#[trigger] before.kvs[i]).is_let_go(0),
                forall|i: int| 0 <= i < l ==> #[trigger] self@.kvs[i] == before.kvs[i].purged(),
                forall|i: int|
                    l <= i < before.kvs.len() ==> #[trigger] self@.kvs[i] == before.kvs[i],
            decreases self.kvs@.len() - l,
        {
            let ghost now = self@.kvs;
            assert(now[l as int] == self.kvs@[l as int]@);
            self.kvs[l].purge_spill_files();
            assert(self@.kvs =~= now.update(l as int, self.kvs@[l as int]@));
            assert(self@.linear =~= before.linear);
            l += 1;
        }
        assert(self@.kvs =~= before.purged().kvs);
    }

    /// Every recurrent layer can be put back to where it was after `len` tokens.
    fn can_recover(&self, len: usize) -> (b: bool)
        ensures
            b == self@.recoverable(len as nat),
    {
        let mut l: usize = 0;
        while l < self.linear.len()
            invariant
                l <= self.linear@.len(),
                self@.linear.len() == self.linear@.len(),
                forall|i: int|
                    0 <= i < l ==> (#[trigger] self@.linear[i] matches Some(s) ==> s.recoverable(
                        len as nat,
                    )),
            decreases self.linear@.len() - l,
        {
            assert(self@.linear[l as int] == linear_view(self.linear@[l as int]));
            if let Some(s) = &self.linear[l] {
                if !s.can_recover(len) {
                    return false;
                }
            }
            l += 1;
        }
        true
    }

    /// Drops every position at or after `len`, across every layer.
    ///
    /// A recurrent layer is put back from a copy taken on the way in, or not at all.
    /// That is checked across every layer before anything is changed, so a refusal for
    /// want of a copy leaves the sequence exactly as it was. A layer that refuses
    /// because the cut falls into a block in storage ends the call with its error; the
    /// layers before it have been cut.
    pub fn truncate(&mut self, len: usize) -> (r: Result<(), GarudaError>)
        requires
            old(self).wf(),
        ensures
            final(self).wf(),
            if old(self)@.unrecoverable(len as nat) {
                &&& final(self)@ == old(self)@
                &&& r matches Err(GarudaError::Cache(m)) && m@ == unrecoverable_message(len as nat)
            } else {
                match r {
                    Ok(_) => final(self)@ == old(self)@.cut(len as nat) && forall|l: int|
                        0 <= l < old(self)@.kvs.len() ==> !(#[trigger] old(
                            self,
                        )@.kvs[l]).cut_refused(len as nat),
                    Err(e) => exists|l: int|
                        #![trigger old(self)@.kvs[l]]
                        {
                            &&& old(self)@.first_refusal(len as nat, l)
                            &&& final(self)@ == old(self)@.cut_layers(len as nat, l as nat)
                            &&& e matches GarudaError::Cache(m) && m@ == kv::cut_message(
                                len as nat,
                                len as nat / old(self)@.kvs[l].block_size,
                            )
                        },
                }
            },
    {
        let ghost before = self@;
        if len < self.len() && self.has_linear_state() {
            if !self.can_recover(len) {
                let mut m = "cannot truncate to ".to_owned();
                push_size(&mut m, len);
                m.append(
                    ": this sequence carries recurrent state, which summarises every token it has read, and no copy of it from that position is held",
                );
                return Err(GarudaError::Cache(m));
            }
        }
        assert(!before.unrecoverable(len as nat));
        self.rewind_linear(len);
        let mut l: usize = 0;
        assert(self@.kvs =~= before.cut_layers(len as nat, 0).kvs);
        while l < self.kvs.len()
            invariant
                l <= self.kvs@.len(),
                before == old(self)@,
                before.wf(),
                !before.unrecoverable(len as nat),
                self.wf(),
                self.kvs@.len() == before.kvs.len(),
                self@ == before.cut_layers(len as nat, l as nat),
                forall|m: int| 0 <= m < l ==> !(#[trigger] before.kvs[m]).cut_refused(len as nat),
            decreases self.kvs@.len() - l,
        {
            let ghost now = self@;
            assert(now.kvs[l as int] == self.kvs@[l as int]@);
            assert(now.kvs[l as int] == before.kvs[l as int]);
            let r = self.kvs[l].truncate(len);
            assert(self@.kvs =~= now.kvs.update(l as int, self.kvs@[l as int]@));
            assert(self@.linear =~= now.linear);
            match r {
                Err(e) => {
                    assert(self@.kvs =~= before.cut_layers(len as nat, l as nat).kvs);
                    assert(before.first_refusal(len as nat, l as int));
                    return Err(e);
                },
                Ok(()) => {},
            }
            assert(self@.kvs =~= before.cut_layers(len as nat, l as nat + 1).kvs);
            l += 1;
        }
        Ok(())
    }

    fn rewind_linear(&mut self, len: usize)
        requires
            old(self).wf(),
        ensures
            final(self).wf(),
            final(self)@ == (SeqView {
                linear: on_linear(old(self)@.linear, |s: LinearView| s.rewound(len as nat)),
                ..old(self)@
            }),
    {
        let ghost before = self@;
        let ghost want = on_linear(before.linear, |s: LinearView| s.rewound(len as nat));
        let mut l: usize = 0;
        while l < self.linear.len()
            invariant
                l <= self.linear@.len(),
                self@.linear.len() == self.linear@.len(),
                want == on_linear(before.linear, |s: LinearView| s.rewound(len as nat)),
                self@ == (SeqView { linear: self@.linear, ..before }),
                self@.linear.len() == before.linear.len(),
                forall|i: int| 0 <= i < l ==> #[trigger] self@.linear[i] == want[i],
                forall|i: int|
                    l <= i < before.linear.len() ==> #[trigger] self@.linear[i]
                        == before.linear[i],
            decreases self.linear@.len() - l,
        {
            let ghost now = self@.linear;
            assert(now[l as int] == linear_view(self.linear@[l as int]));
            if let Some(s) = &mut self.linear[l] {
                let _ = s.rewind_to(len);
            }
            assert(self@.linear =~= now.update(l as int, want[l as int]));
            assert(self@.kvs =~= before.kvs);
            l += 1;
        }
        assert(self@.linear =~= want);
    }
}

} // verus!
