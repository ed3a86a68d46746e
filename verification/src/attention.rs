//! Causal multi-head attention over the paged KV cache: which positions a token sees,
//! which heads share what, and what the cache goes through on the way.

use crate::cache::kv;
use crate::cache::kv::{KVCacheState, KvView};
use crate::text;
use crate::text::push_size;
use crate::types::{Fault, GarudaError, ModelDims};
use vstd::prelude::*;
use vstd::string::*;

verus! {

/// Attention of a model whose heads tile its width.
#[derive(Debug)]
pub struct Attention {
    dims: ModelDims,
}

impl Attention {
    pub closed spec fn shape(&self) -> ModelDims {
        self.dims
    }

    pub open spec fn wf(&self) -> bool {
        self.shape().valid() && self.shape().heads_tile_model()
    }

    pub fn new(dims: ModelDims) -> (r: Result<Self, GarudaError>)
        ensures
            r is Ok <==> dims.valid() && dims.heads_tile_model(),
            r matches Ok(a) ==> a.shape() == dims && a.wf(),
            r matches Err(e) ==> e matches GarudaError::Config(m) && m@ == if !dims.heads_tile_model() {
                dims.heads_message()
            } else if !dims.top_k_in_range() {
                dims.top_k_message()
            } else {
                "block_size must be non-zero"@
            },
    {
        let tiled = match dims.n_heads.checked_mul(dims.head_dim) {
            Some(product) => product == dims.d_model,
            None => false,
        };
        if !tiled {
            return Err(dims.heads_error());
        }
        match dims.validate() {
            Ok(_) => Ok(Attention { dims }),
            Err(e) => Err(e),
        }
    }

    pub fn dims(&self) -> (d: ModelDims)
        ensures
            d == self.shape(),
    {
        self.dims
    }

    pub open spec fn width_fault(&self, n: nat) -> Option<Fault> {
        if n != self.shape().d_model {
            Some(
                Fault::Inference(
                    "attention expects a "@ + text::decimal(self.shape().d_model as nat)
                        + "-dim input, got "@ + text::decimal(n),
                ),
            )
        } else {
            None
        }
    }

    /// Checks the width of a hidden state, before anything is touched.
    pub fn check_input(&self, n: usize) -> (r: Result<(), GarudaError>)
        ensures
            match r {
                Ok(_) => self.width_fault(n as nat) is None,
                Err(e) => self.width_fault(n as nat) matches Some(f) && f.is(e),
            },
            r is Ok <==> n == self.shape().d_model,
    {
        if n != self.dims.d_model {
            let mut m = "attention expects a ".to_owned();
            push_size(&mut m, self.dims.d_model);
            m.append("-dim input, got ");
            push_size(&mut m, n);
            return Err(GarudaError::Inference(m));
        }
        Ok(())
    }

    /// The dimensions of head `h`: from the first of the pair to before the second.
    pub fn head_range(&self, h: usize) -> (r: (usize, usize))
        requires
            self.wf(),
            h < self.shape().n_heads,
        ensures
            r.0 == h * self.shape().head_dim,
            r.1 == (h + 1) * self.shape().head_dim,
            r.1 <= self.shape().d_model,
    {
        let hd: usize = self.dims.head_dim;
        assert((h + 1) * hd <= self.dims.n_heads * hd && h * hd <= (h + 1) * hd && h * hd >= 0)
            by (nonlinear_arith)
            requires
                h < self.dims.n_heads,
                hd >= 0,
        ;
        (h * hd, (h + 1) * hd)
    }
}

/// The first position that a token at the end of `v` attends to.
pub open spec fn window_start(v: KvView) -> nat {
    match v.sliding_window {
        Some(w) => if v.len > w {
            (v.len - w) as nat
        } else {
            0
        },
        None => 0,
    }
}

/// `v` with one more position, and as much spilled as there is too much.
pub open spec fn with_position(v: KvView, key: Seq<u32>, value: Seq<u32>) -> KvView {
    let stored = v.put(key, value);
    stored.spill_oldest(stored.pages.len() - 1, stored.excess())
}

/// The blocks that attending from the end of `v` has to read back.
pub open spec fn wanted(v: KvView) -> Seq<nat> {
    if window_start(v) >= v.len {
        Seq::empty()
    } else {
        v.spilled_in(
            window_start(v) / v.block_size,
            ((v.len - 1) as nat / v.block_size + 1) as nat,
        )
    }
}

/// Appends a token's key and value and brings what it attends to into memory.
///
/// A token's keys and values must be in the cache before anything attends to them: the
/// range that is returned ends with the token itself.
pub fn attend(kv: &mut KVCacheState, key: &[u32], value: &[u32]) -> (r: Result<
    (usize, usize),
    GarudaError,
>)
    requires
        old(kv).wf(),
    ensures
        final(kv).wf(),
        if key@.len() != old(kv)@.kv_dim || value@.len() != old(kv)@.kv_dim {
            &&& final(kv)@ == old(kv)@
            &&& r matches Err(GarudaError::Cache(m)) && m@ == kv::width_message(
                old(kv)@.kv_dim,
                key@.len(),
                value@.len(),
            )
        } else if old(kv)@.len == old(kv)@.max_positions {
            &&& final(kv)@ == old(kv)@
            &&& r matches Err(GarudaError::Cache(m)) && m@ == kv::exhausted_message(
                old(kv)@.max_positions,
            )
        } else {
            let stored = old(kv)@.put(key@, value@);
            let current = stored.pages.len() - 1;
            let appended = with_position(old(kv)@, key@, value@);
            &&& final(kv)@.len == old(kv)@.len + 1
            &&& old(kv)@.storage is None ==> r is Ok
            &&& r matches Ok((start, end)) ==> start == match old(kv)@.sliding_window {
                Some(w) => if old(kv)@.len + 1 > w {
                    old(kv)@.len + 1 - w
                } else {
                    0
                },
                None => 0,
            }
            &&& match r {
                Ok((start, end)) => {
                    &&& end == old(kv)@.len + 1
                    &&& start == window_start(appended)
                    &&& stored.is_kept_to_budget(current, appended, Ok(()))
                    &&& appended.is_brought_back(wanted(appended), final(kv)@, Ok(()))
                },
                Err(e) => {
                    ||| stored.is_kept_to_budget(current, final(kv)@, Err(e))
                    ||| {
                        &&& stored.is_kept_to_budget(current, appended, Ok(()))
                        &&& appended.is_brought_back(wanted(appended), final(kv)@, Err(e))
                    }
                },
            }
        },
{
    let ghost stored = old(kv)@.put(key@, value@);
    let ghost current = (stored.pages.len() - 1) as int;
    match kv.append(key, value) {
        Ok(_) => {
            assert(kv@ == stored.spill_oldest(current, stored.excess()));
        },
        Err(e) => {
            proof {
                if key@.len() == old(kv)@.kv_dim && value@.len() == old(kv)@.kv_dim && old(
                    kv,
                )@.len != old(kv)@.max_positions {
                    budget_keeps_len(stored, current, kv@, Err(e));
                }
            }
            return Err(e);
        },
    }
    let ghost appended = kv@;
    proof {
        budget_keeps_len(stored, current, appended, Ok(()));
        assert(appended == with_position(old(kv)@, key@, value@));
    }
    let start: usize = kv.attention_start();
    let end: usize = kv.len();
    assert(start < end ==> wanted(appended) == appended.spilled_in(
        start as nat / appended.block_size,
        ((end - 1) as nat / appended.block_size + 1) as nat,
    ));
    let reached = kv.ensure_resident(start, end);
    proof {
        if start >= end {
            assert(appended.restored_all(wanted(appended), Seq::empty()) == appended);
            assert(appended.is_brought_back(wanted(appended), appended, Ok(())));
        } else if appended.storage is None {
            nothing_spilled(
                appended,
                start as nat / appended.block_size,
                ((end - 1) as nat / appended.block_size + 1) as nat,
            );
        }
        let files = choose|files: Seq<Seq<u8>>|
            #![trigger appended.restored_all(wanted(appended), files)]
            {
                &&& files.len() <= wanted(appended).len()
                &&& appended.all_given(wanted(appended), files)
                &&& kv@ == appended.restored_all(wanted(appended), files)
                &&& reached is Ok <==> files.len() == wanted(appended).len()
            };
        restoring_keeps_len(appended, wanted(appended), files);
    }
    match reached {
        Ok(_) => Ok((start, end)),
        Err(e) => Err(e),
    }
}

proof fn budget_keeps_len(v: KvView, except: int, after: KvView, r: Result<(), GarudaError>)
    requires
        v.is_kept_to_budget(except, after, r),
    ensures
        after.len == v.len,
        after.block_size == v.block_size,
        after.sliding_window == v.sliding_window,
        after.storage == v.storage,
        v.storage is None ==> r is Ok,
{
    let n = choose|n: nat|
        #![trigger v.spill_oldest(except, n)]
        n <= v.excess() && after == v.spill_oldest(except, n) && (r is Ok <==> n == v.excess());
    spilling_keeps_len(v, except, n);
}

/// A state without storage has nothing to read back.
proof fn nothing_spilled(v: KvView, lo: nat, hi: nat)
    requires
        v.wf(),
        v.storage is None,
    ensures
        v.spilled_in(lo, hi).len() == 0,
    decreases hi,
{
    if hi > lo {
        nothing_spilled(v, lo, (hi - 1) as nat);
        if hi <= v.pages.len() {
            assert(v.page_ok(v.pages[hi - 1]));
        }
    }
}

proof fn spilling_keeps_len(v: KvView, except: int, n: nat)
    ensures
        v.spill_oldest(except, n).len == v.len,
        v.spill_oldest(except, n).block_size == v.block_size,
        v.spill_oldest(except, n).storage == v.storage,
        v.spill_oldest(except, n).sliding_window == v.sliding_window,
    decreases n,
{
    if n > 0 {
        spilling_keeps_len(v, except, (n - 1) as nat);
    }
}

proof fn restoring_keeps_len(v: KvView, blocks: Seq<nat>, files: Seq<Seq<u8>>)
    ensures
        v.restored_all(blocks, files).len == v.len,
    decreases files.len(),
{
    if files.len() > 0 {
        restoring_keeps_len(v, blocks, files.drop_last());
    }
}

} // verus!
