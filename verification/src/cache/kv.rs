//! Attention state of one layer of one sequence, in pages that can spill to storage.

use crate::bytes;
use crate::bytes::{push_u64, push_words, read_u64, read_words};
use crate::text;
use crate::text::{push_number, push_size};
use crate::types;
use crate::types::{ExpertId, GarudaError, ModelDims, StorageBackend};
use std::sync::Arc;
use vstd::arithmetic::div_mod::*;
use vstd::prelude::*;
use vstd::slice::slice_subrange;
use vstd::string::*;

verus! {

/// How a sequence's KV state is sized and where it may spill.
pub struct KvConfig {
    pub dims: ModelDims,
    /// Width of one stored key or value vector: `d_model` for full multi-head
    /// attention, `n_kv_heads * head_dim` for grouped-query attention.
    pub kv_dim: usize,
    /// Attention layers, each of which gets its own cache.
    pub n_layers: usize,
    /// Per-layer width, for a model whose layers are not all the same. `None` gives
    /// every layer [`KvConfig::kv_dim`]. A width of zero is a layer that counts
    /// positions and stores nothing.
    pub kv_dims: Option<Vec<usize>>,
    /// Hard cap on sequence length (the context window).
    pub max_positions: usize,
    /// Blocks kept in memory before spilling begins.
    pub max_resident_blocks: usize,
    pub sliding_window: Option<usize>,
    pub storage: Option<Arc<dyn StorageBackend>>,
}

pub open spec fn at_least_one(n: nat) -> nat {
    if n == 0 {
        1
    } else {
        n
    }
}

impl KvConfig {
    /// The width that layer `layer` stores.
    pub open spec fn width(&self, layer: nat) -> nat {
        match self.kv_dims {
            Some(dims) => if layer < dims@.len() {
                dims@[layer as int] as nat
            } else {
                self.kv_dim as nat
            },
            None => at_least_one(self.kv_dim as nat),
        }
    }

    /// The empty state of layer `layer`.
    pub open spec fn empty_layer(&self, seq_id: u64, layer: nat) -> KvView {
        KvView {
            kv_dim: self.width(layer),
            block_size: at_least_one(self.dims.block_size as nat),
            pages: Seq::empty(),
            len: 0,
            max_positions: at_least_one(self.max_positions as nat),
            max_resident_blocks: at_least_one(self.max_resident_blocks as nat),
            sliding_window: self.sliding_window,
            storage: self.storage,
            seq_id,
            layer,
            spills: 0,
            reloads: 0,
            last_experts: Seq::empty(),
            last_predicted: Seq::empty(),
        }
    }

    /// Full multi-head attention: one layer, key and value width equal to `d_model`.
    pub fn mha(
        dims: ModelDims,
        max_positions: usize,
        max_resident_blocks: usize,
        sliding_window: Option<usize>,
        storage: Option<Arc<dyn StorageBackend>>,
    ) -> (cfg: Self)
        ensures
            cfg.dims == dims,
            cfg.kv_dim == dims.d_model,
            cfg.n_layers == 1,
            cfg.kv_dims is None,
            cfg.max_positions == max_positions,
            cfg.max_resident_blocks == max_resident_blocks,
            cfg.sliding_window == sliding_window,
            cfg.storage == storage,
    {
        KvConfig {
            dims,
            kv_dim: dims.d_model,
            n_layers: 1,
            kv_dims: None,
            max_positions,
            max_resident_blocks,
            sliding_window,
            storage,
        }
    }
}

/// One page of the cache: up to `block_size` contiguous positions.
#[derive(Debug)]
struct KvBlock {
    /// One vector per position, row-major.
    keys: Vec<u32>,
    values: Vec<u32>,
    filled: usize,
}

/// Where a block of positions currently is.
#[derive(Debug)]
enum Page {
    Resident(KvBlock),
    /// In storage, under the path that [`KVCacheState::spill_path`] names.
    Spilled,
    /// Its spill file was deleted; its positions cannot be read any more.
    Gone,
}

#[verifier::ext_equal]
pub struct BlockView {
    pub keys: Seq<u32>,
    pub values: Seq<u32>,
    pub filled: nat,
}

#[verifier::ext_equal]
pub enum PageView {
    Resident(BlockView),
    Spilled,
    Gone,
}

impl KvBlock {
    spec fn view(&self) -> BlockView {
        BlockView { keys: self.keys@, values: self.values@, filled: self.filled as nat }
    }
}

impl Page {
    spec fn view(&self) -> PageView {
        match self {
            Page::Resident(b) => PageView::Resident(b@),
            Page::Spilled => PageView::Spilled,
            Page::Gone => PageView::Gone,
        }
    }
}

/// The state of one layer, as contracts speak of it.
#[verifier::ext_equal]
pub struct KvView {
    pub kv_dim: nat,
    pub block_size: nat,
    /// Block `b` holds the positions from `b * block_size` on.
    pub pages: Seq<PageView>,
    pub len: nat,
    pub max_positions: nat,
    pub max_resident_blocks: nat,
    pub sliding_window: Option<usize>,
    /// Where blocks are spilled to, if anywhere.
    pub storage: Option<Arc<dyn StorageBackend>>,
    pub seq_id: u64,
    pub layer: nat,
    pub spills: u64,
    pub reloads: u64,
    pub last_experts: Seq<ExpertId>,
    pub last_predicted: Seq<ExpertId>,
}

/// Blocks that `len` positions take.
pub open spec fn blocks_for(len: nat, block_size: nat) -> nat
    recommends
        block_size > 0,
{
    if len % block_size == 0 {
        len / block_size
    } else {
        len / block_size + 1
    }
}

pub open spec fn resident_count(pages: Seq<PageView>) -> nat
    decreases pages.len(),
{
    if pages.len() == 0 {
        0
    } else {
        resident_count(pages.drop_last()) + if pages.last() is Resident {
            1nat
        } else {
            0
        }
    }
}

pub open spec fn page_words(p: PageView) -> nat {
    match p {
        PageView::Resident(b) => b.keys.len() + b.values.len(),
        _ => 0,
    }
}

/// Words that the resident pages hold.
pub open spec fn resident_words(pages: Seq<PageView>) -> nat
    decreases pages.len(),
{
    if pages.len() == 0 {
        0
    } else {
        resident_words(pages.drop_last()) + page_words(pages.last())
    }
}

/// What `n` is where a `usize` counts it: `n` itself, or the largest `usize`.
pub open spec fn counted(n: nat) -> usize {
    if n <= usize::MAX {
        n as usize
    } else {
        usize::MAX
    }
}

impl BlockView {
    /// The block holds `filled` whole keys and `filled` whole values.
    pub open spec fn whole(self, kv_dim: nat) -> bool {
        self.keys.len() == self.filled * kv_dim && self.values.len() == self.filled * kv_dim
    }

    /// The bytes that a spill file of this block holds: the number of positions, the
    /// keys, the values.
    pub open spec fn encoded(self) -> Seq<u8> {
        bytes::le(self.filled, 8) + bytes::words_le(self.keys) + bytes::words_le(self.values)
    }

    /// The block with its first `keep` positions only.
    pub open spec fn cut(self, keep: nat, kv_dim: nat) -> BlockView {
        BlockView {
            keys: if keep * kv_dim <= self.keys.len() {
                self.keys.take((keep * kv_dim) as int)
            } else {
                self.keys
            },
            values: if keep * kv_dim <= self.values.len() {
                self.values.take((keep * kv_dim) as int)
            } else {
                self.values
            },
            filled: keep,
        }
    }
}

/// The position count that a spill file starts with.
pub open spec fn spill_filled(bytes: Seq<u8>) -> nat {
    bytes::value(bytes.subrange(0, 8))
}

/// A spill file that a layer of this shape takes back.
pub open spec fn spill_readable(bytes: Seq<u8>, kv_dim: nat, block_size: nat) -> bool {
    &&& bytes.len() >= 8
    &&& spill_filled(bytes) <= block_size
    &&& bytes.len() == 8 + 8 * (spill_filled(bytes) * kv_dim)
}

/// The block that a spill file holds.
pub open spec fn spill_decoded(bytes: Seq<u8>, kv_dim: nat) -> BlockView {
    let n = 4 * (spill_filled(bytes) * kv_dim) as int;
    BlockView {
        keys: bytes::words_of(bytes.subrange(8, 8 + n)),
        values: bytes::words_of(bytes.subrange(8 + n, 8 + 2 * n)),
        filled: spill_filled(bytes),
    }
}

pub open spec fn spill_path_text(seq_id: u64, layer: nat, block: nat) -> Seq<char> {
    "kv/seq_"@ + text::decimal(seq_id as nat) + "/layer_"@ + text::decimal(layer) + "/block_"@ + text::decimal(block)
        + ".bin"@
}

pub open spec fn width_message(kv_dim: nat, keys: nat, values: nat) -> Seq<char> {
    "kv append expects a "@ + text::decimal(kv_dim) + "-dim key and value, got "@ + text::decimal(keys)
        + " and "@ + text::decimal(values)
}

pub open spec fn exhausted_message(max_positions: nat) -> Seq<char> {
    "context window of "@ + text::decimal(max_positions) + " positions is exhausted"@
}

pub open spec fn truncated_message(block: nat) -> Seq<char> {
    "spill file for block "@ + text::decimal(block) + " is truncated"@
}

pub open spec fn malformed_message(block: nat, bytes: Seq<u8>) -> Seq<char> {
    "spill file for block "@ + text::decimal(block) + " is malformed: "@ + text::decimal(bytes.len())
        + " bytes, filled="@ + text::decimal(spill_filled(bytes))
}

/// `e` is the error for a file that is no spill file of block `block`.
pub open spec fn is_refusal(block: nat, bytes: Seq<u8>, e: GarudaError) -> bool {
    e matches GarudaError::Cache(m) && m@ == if bytes.len() < 8 {
        truncated_message(block)
    } else {
        malformed_message(block, bytes)
    }
}

pub open spec fn cut_message(len: nat, block: nat) -> Seq<char> {
    "cannot truncate to "@ + text::decimal(len) + ": block "@ + text::decimal(block) + " is spilled to disk"@
}

impl KvView {
    /// What every operation keeps.
    pub open spec fn wf(self) -> bool {
        &&& self.block_size >= 1
        &&& self.max_resident_blocks >= 1
        &&& self.len <= self.max_positions
        &&& self.pages.len() == blocks_for(self.len, self.block_size)
        &&& forall|b: int| 0 <= b < self.pages.len() ==> self.page_ok(#[trigger] self.pages[b])
        &&& self.len % self.block_size != 0 ==> self.open_page_ok(self.pages.last())
    }

    pub open spec fn page_ok(self, p: PageView) -> bool {
        match p {
            PageView::Resident(b) => b.filled <= self.block_size && b.keys.len()
                == b.values.len(),
            PageView::Spilled => self.storage is Some,
            PageView::Gone => true,
        }
    }

    /// The page that the next position goes into, where it is partly filled, is
    /// never spilled.
    pub open spec fn open_page_ok(self, p: PageView) -> bool {
        match p {
            PageView::Resident(b) => b.filled <= self.len % self.block_size,
            PageView::Spilled => false,
            PageView::Gone => true,
        }
    }

    /// The partly filled page, if there is one, is in memory and complete.
    pub open spec fn open_page_whole(self) -> bool {
        self.len % self.block_size != 0 ==> (self.pages.last() matches PageView::Resident(b)
            && b.whole(self.kv_dim) && b.filled == self.len % self.block_size)
    }

    /// How many positions block `b` has.
    pub open spec fn positions_in(self, b: int) -> nat {
        if b == self.pages.len() - 1 && self.len % self.block_size != 0 {
            self.len % self.block_size
        } else {
            self.block_size
        }
    }

    /// No position was lost: every block is in storage, or in memory with all its
    /// positions. The partly filled one, if there is one, is in memory.
    ///
    /// A layer can be well formed without this. Once its spill files were deleted, or one
    /// came back shorter than it was written, it has positions that it cannot give.
    pub open spec fn is_intact(self) -> bool {
        &&& self.wf()
        &&& forall|b: int|
            0 <= b < self.pages.len() ==> match #[trigger] self.pages[b] {
                PageView::Resident(block) => block.whole(self.kv_dim) && block.filled
                    == self.positions_in(b),
                PageView::Spilled => true,
                PageView::Gone => false,
            }
    }

    /// The vector at `pos` out of the words that `pick` takes from a block.
    pub open spec fn vector(self, pos: nat, pick: spec_fn(BlockView) -> Seq<u32>) -> Option<
        Seq<u32>,
    > {
        if pos < self.len && self.pages[(pos / self.block_size) as int] is Resident {
            let words = pick(self.pages[(pos / self.block_size) as int]->Resident_0);
            let off = pos % self.block_size * self.kv_dim;
            if off + self.kv_dim <= words.len() {
                Some(words.subrange(off as int, (off + self.kv_dim) as int))
            } else {
                None
            }
        } else {
            None
        }
    }

    /// The key at `pos`, if it is in memory.
    pub open spec fn key(self, pos: nat) -> Option<Seq<u32>> {
        self.vector(pos, |b: BlockView| b.keys)
    }

    /// The value at `pos`, if it is in memory.
    pub open spec fn value(self, pos: nat) -> Option<Seq<u32>> {
        self.vector(pos, |b: BlockView| b.values)
    }

    /// The state with one more position, before anything is spilled.
    pub open spec fn put(self, key: Seq<u32>, value: Seq<u32>) -> KvView {
        let fresh = PageView::Resident(BlockView { keys: key, values: value, filled: 1 });
        let pages = if self.len % self.block_size == 0 {
            self.pages.push(fresh)
        } else {
            match self.pages.last() {
                PageView::Resident(b) => self.pages.drop_last().push(
                    PageView::Resident(
                        BlockView {
                            keys: b.keys + key,
                            values: b.values + value,
                            filled: b.filled + 1,
                        },
                    ),
                ),
                _ => self.pages.drop_last().push(fresh),
            }
        };
        KvView { pages, len: self.len + 1, ..self }
    }

    /// The state with every position of `log` put, in order.
    pub open spec fn put_all(self, log: Seq<(Seq<u32>, Seq<u32>)>) -> KvView
        decreases log.len(),
    {
        if log.len() == 0 {
            self
        } else {
            self.put_all(log.drop_last()).put(log.last().0, log.last().1)
        }
    }

    /// Block `b` is the oldest block in memory, `except` left out.
    pub open spec fn is_oldest(self, except: int, b: int) -> bool {
        &&& 0 <= b < self.pages.len()
        &&& b != except
        &&& self.pages[b] is Resident
        &&& forall|c: int| 0 <= c < b && c != except ==> !(#[trigger] self.pages[c] is Resident)
    }

    pub open spec fn oldest(self, except: int) -> int {
        choose|b: int| self.is_oldest(except, b)
    }

    /// The state with block `b` in storage.
    pub open spec fn spill(self, b: int) -> KvView {
        KvView {
            pages: self.pages.update(b, PageView::Spilled),
            spills: self.spills.wrapping_add(1),
            ..self
        }
    }

    /// The state after the `n` oldest blocks other than `except` went to storage.
    pub open spec fn spill_oldest(self, except: int, n: nat) -> KvView
        decreases n,
    {
        if n == 0 {
            self
        } else {
            let before = self.spill_oldest(except, (n - 1) as nat);
            before.spill(before.oldest(except))
        }
    }

    /// Blocks in memory beyond what may stay there.
    pub open spec fn excess(self) -> nat {
        if self.storage is Some && self.kv_dim > 0 && resident_count(self.pages)
            > self.max_resident_blocks {
            (resident_count(self.pages) - self.max_resident_blocks) as nat
        } else {
            0
        }
    }

    /// The state with block `b` read back from `bytes`.
    pub open spec fn restored(self, b: int, bytes: Seq<u8>) -> KvView {
        KvView {
            pages: self.pages.update(b, PageView::Resident(spill_decoded(bytes, self.kv_dim))),
            reloads: self.reloads.wrapping_add(1),
            ..self
        }
    }

    /// The blocks from `lo` on and before `hi` that are in storage, oldest first.
    pub open spec fn spilled_in(self, lo: nat, hi: nat) -> Seq<nat>
        decreases hi,
    {
        if hi <= lo {
            Seq::empty()
        } else {
            let before = self.spilled_in(lo, (hi - 1) as nat);
            if hi <= self.pages.len() && self.pages[hi - 1] is Spilled {
                before.push((hi - 1) as nat)
            } else {
                before
            }
        }
    }

    /// The state after `blocks` were read back from `files`, in order.
    pub open spec fn restored_all(self, blocks: Seq<nat>, files: Seq<Seq<u8>>) -> KvView
        decreases files.len(),
    {
        if files.len() == 0 {
            self
        } else {
            self.restored_all(blocks, files.drop_last()).restored(
                blocks[files.len() - 1] as int,
                files.last(),
            )
        }
    }

    /// Storage may answer a write of block `b`, which is in memory, so.
    pub open spec fn may_spill(self, b: int, failure: Option<GarudaError>) -> bool {
        self.storage matches Some(s) && s.may_write(
            spill_path_text(self.seq_id, self.layer, b as nat),
            self.pages[b]->Resident_0.encoded(),
            failure,
        )
    }

    /// Storage may answer a read of block `b` so.
    pub open spec fn may_give(self, b: nat, got: Result<Seq<u8>, GarudaError>) -> bool {
        self.storage matches Some(s) && s.may_read(
            spill_path_text(self.seq_id, self.layer, b),
            got,
        )
    }

    /// Block `b` may not come back, for the reason `e`: it cannot be read, or is no spill
    /// file of this layer.
    pub open spec fn may_be_lost(self, b: nat, e: GarudaError) -> bool {
        ||| self.may_give(b, Err(e))
        ||| exists|bytes: Seq<u8>| #[trigger]
            self.may_give(b, Ok(bytes)) && !spill_readable(bytes, self.kv_dim, self.block_size)
                && is_refusal(b, bytes, e)
    }

    /// Storage may have acknowledged the `n` oldest blocks other than `except`, each as
    /// it was in memory.
    pub open spec fn may_take_oldest(self, except: int, n: nat) -> bool
        decreases n,
    {
        n > 0 ==> {
            let before = self.spill_oldest(except, (n - 1) as nat);
            &&& self.may_take_oldest(except, (n - 1) as nat)
            &&& before.may_spill(before.oldest(except), None)
        }
    }

    /// `after` is this state once it was kept to its budget, `except` left alone. Either
    /// all that is too much went to storage, or a block that storage did not take
    /// stopped it.
    pub open spec fn is_kept_to_budget(
        self,
        except: int,
        after: KvView,
        r: Result<(), GarudaError>,
    ) -> bool {
        exists|n: nat|
            #![trigger self.spill_oldest(except, n)]
            {
                &&& n <= self.excess()
                &&& after == self.spill_oldest(except, n)
                &&& self.may_take_oldest(except, n)
                &&& r is Ok <==> n == self.excess()
                &&& r matches Err(e) ==> after.may_spill(after.oldest(except), Some(e))
            }
    }

    /// Every one of `files` is what storage may give for the block beside it, and a
    /// spill file that this layer takes back.
    pub open spec fn all_given(self, blocks: Seq<nat>, files: Seq<Seq<u8>>) -> bool {
        forall|i: int|
            0 <= i < files.len() ==> self.may_give(blocks[i], Ok(#[trigger] files[i]))
                && spill_readable(files[i], self.kv_dim, self.block_size)
    }

    /// `after` is this state once `blocks` were read back, in order, and `files` what
    /// storage gave for them. Either all of them are in memory, or one that did not come
    /// back stopped it.
    pub open spec fn is_brought_back_from(
        self,
        blocks: Seq<nat>,
        files: Seq<Seq<u8>>,
        after: KvView,
        r: Result<(), GarudaError>,
    ) -> bool {
        &&& files.len() <= blocks.len()
        &&& self.all_given(blocks, files)
        &&& after == self.restored_all(blocks, files)
        &&& r is Ok <==> files.len() == blocks.len()
        &&& r matches Err(e) ==> self.may_be_lost(blocks[files.len() as int], e)
    }

    /// `after` is this state once `blocks` were read back, from whatever storage gave.
    pub open spec fn is_brought_back(
        self,
        blocks: Seq<nat>,
        after: KvView,
        r: Result<(), GarudaError>,
    ) -> bool {
        exists|files: Seq<Seq<u8>>|
            #![trigger self.restored_all(blocks, files)]
            self.is_brought_back_from(blocks, files, after, r)
    }

    /// A cut to `len` positions falls into a block that is in storage.
    pub open spec fn cut_refused(self, len: nat) -> bool {
        len < self.len && len % self.block_size != 0
            && self.pages[(len / self.block_size) as int] is Spilled
    }

    /// The state without the positions from `len` on.
    pub open spec fn cut(self, len: nat) -> KvView {
        if len >= self.len {
            self
        } else {
            let whole = self.pages.take((len / self.block_size) as int);
            let keep = len % self.block_size;
            let pages = if keep == 0 {
                whole
            } else {
                whole.push(
                    match self.pages[(len / self.block_size) as int] {
                        PageView::Resident(b) => PageView::Resident(b.cut(keep, self.kv_dim)),
                        p => p,
                    },
                )
            };
            KvView { pages, len, ..self }
        }
    }

    /// True when a block is in storage.
    pub open spec fn any_spilled(self) -> bool {
        exists|b: int| 0 <= b < self.pages.len() && #[trigger] self.pages[b] is Spilled
    }

    /// Storage was told to drop block `b`, and did or not.
    pub open spec fn is_dropped(self, b: nat) -> bool {
        self.storage matches Some(s) && exists|failure: Option<GarudaError>| #[trigger]
            s.may_remove(spill_path_text(self.seq_id, self.layer, b), failure)
    }

    /// Storage was told to drop every block that it has of the blocks from `from` on.
    pub open spec fn is_let_go(self, from: nat) -> bool {
        forall|b: int|
            from <= b < self.pages.len() && #[trigger] self.pages[b] is Spilled ==> self.is_dropped(
                b as nat,
            )
    }

    /// The state with every spill file deleted.
    pub open spec fn purged(self) -> KvView {
        KvView {
            pages: self.pages.map_values(
                |p: PageView|
                    if p is Spilled {
                        PageView::Gone
                    } else {
                        p
                    },
            ),
            ..self
        }
    }
}

/// One position further: within the block, or at the start of the next one.
pub(crate) proof fn next_position(len: nat, bs: nat)
    requires
        bs > 0,
    ensures
        len % bs < bs,
        len % bs == bs - 1 ==> (len + 1) / bs == len / bs + 1 && (len + 1) % bs == 0,
        len % bs < bs - 1 ==> (len + 1) / bs == len / bs && (len + 1) % bs == len % bs + 1,
{
    let q = (len / bs) as int;
    let r = (len % bs) as int;
    lemma_fundamental_div_mod(len as int, bs as int);
    lemma_mod_bound(len as int, bs as int);
    assert(bs * (q + 1) == bs * q + bs) by (nonlinear_arith);
    if r == bs - 1 {
        lemma_fundamental_div_mod_converse((len + 1) as int, bs as int, q + 1, 0);
    } else {
        lemma_fundamental_div_mod_converse((len + 1) as int, bs as int, q, r + 1);
    }
}

/// A position before the end falls into one of the blocks.
pub(crate) proof fn position_has_block(pos: nat, len: nat, bs: nat)
    requires
        bs > 0,
        pos < len,
    ensures
        pos / bs < blocks_for(len, bs),
        pos / bs <= len / bs,
        pos % bs < bs,
{
    lemma_mod_bound(pos as int, bs as int);
    lemma_div_is_ordered(pos as int, len as int, bs as int);
    if len % bs == 0 && pos / bs == len / bs {
        lemma_fundamental_div_mod(pos as int, bs as int);
        lemma_fundamental_div_mod(len as int, bs as int);
        assert(false);
    }
}

/// Cutting to a shorter length leaves the blocks that the length takes.
pub(crate) proof fn shorter_has_blocks(len: nat, longer: nat, bs: nat)
    requires
        bs > 0,
        len < longer,
    ensures
        blocks_for(len, bs) <= blocks_for(longer, bs),
        len / bs <= blocks_for(longer, bs),
        len % bs != 0 ==> len / bs < blocks_for(longer, bs),
{
    position_has_block(len, longer, bs);
}

pub(crate) proof fn count_update(pages: Seq<PageView>, b: int, p: PageView)
    requires
        0 <= b < pages.len(),
        pages[b] is Resident,
        !(p is Resident),
    ensures
        resident_count(pages.update(b, p)) + 1 == resident_count(pages),
    decreases pages.len(),
{
    let next = pages.update(b, p);
    if b == pages.len() - 1 {
        assert(next.drop_last() =~= pages.drop_last());
    } else {
        assert(next.drop_last() =~= pages.drop_last().update(b, p));
        count_update(pages.drop_last(), b, p);
    }
}

/// Where a block beside `except` is in memory, there is an oldest one.
pub(crate) proof fn oldest_exists(v: KvView, except: int, b: int)
    requires
        0 <= b < v.pages.len(),
        b != except,
        v.pages[b] is Resident,
    ensures
        v.is_oldest(except, v.oldest(except)),
    decreases b,
{
    if forall|c: int| 0 <= c < b && c != except ==> !(#[trigger] v.pages[c] is Resident) {
        assert(v.is_oldest(except, b));
    } else {
        let c = choose|c: int| 0 <= c < b && c != except && #[trigger] v.pages[c] is Resident;
        oldest_exists(v, except, c);
    }
}

/// There is only one oldest block.
proof fn oldest_is_unique(v: KvView, except: int, b: int)
    requires
        v.is_oldest(except, b),
    ensures
        b == v.oldest(except),
{
    let c = v.oldest(except);
    if b < c {
        assert(!(v.pages[b] is Resident));
    }
    if c < b {
        assert(!(v.pages[c] is Resident));
    }
}

/// Two blocks in memory: one of them is not `except`.
pub(crate) proof fn two_residents(pages: Seq<PageView>, except: int) -> (b: int)
    requires
        resident_count(pages) >= 2,
    ensures
        0 <= b < pages.len(),
        b != except,
        pages[b] is Resident,
    decreases pages.len(),
{
    let last = pages.len() - 1;
    if pages.last() is Resident && last != except {
        last
    } else if pages.last() is Resident {
        one_resident(pages.drop_last())
    } else {
        two_residents(pages.drop_last(), except)
    }
}

proof fn one_resident(pages: Seq<PageView>) -> (b: int)
    requires
        resident_count(pages) >= 1,
    ensures
        0 <= b < pages.len(),
        pages[b] is Resident,
    decreases pages.len(),
{
    if pages.last() is Resident {
        pages.len() - 1
    } else {
        one_resident(pages.drop_last())
    }
}

/// Spilling a block other than the last keeps what a state keeps.
pub(crate) proof fn spill_keeps_wf(v: KvView, b: int)
    requires
        v.wf(),
        v.storage is Some,
        0 <= b < v.pages.len() - 1,
    ensures
        v.spill(b).wf(),
        v.spill(b).pages.last() == v.pages.last(),
{
}

pub(crate) proof fn put_keeps_wf(v: KvView, key: Seq<u32>, value: Seq<u32>)
    requires
        v.wf(),
        v.len < v.max_positions,
        key.len() == v.kv_dim,
        value.len() == v.kv_dim,
    ensures
        v.put(key, value).wf(),
        v.put(key, value).pages.len() == v.len / v.block_size + 1,
        v.put(key, value).pages.last() is Resident,
{
    next_position(v.len, v.block_size);
    let w = v.put(key, value);
    assert forall|b: int| 0 <= b < w.pages.len() implies w.page_ok(#[trigger] w.pages[b]) by {
        if b < v.pages.len() {
            assert(v.page_ok(v.pages[b]));
        }
    }
}

pub(crate) proof fn cut_keeps_wf(v: KvView, len: nat)
    requires
        v.wf(),
        !v.cut_refused(len),
    ensures
        v.cut(len).wf(),
{
    if len < v.len {
        shorter_has_blocks(len, v.len, v.block_size);
        lemma_mod_bound(len as int, v.block_size as int);
        let w = v.cut(len);
        assert forall|b: int| 0 <= b < w.pages.len() implies w.page_ok(#[trigger] w.pages[b]) by {
            assert(v.page_ok(v.pages[b]));
        }
    }
}

pub(crate) proof fn restored_keeps_wf(v: KvView, b: int, bytes: Seq<u8>)
    requires
        v.wf(),
        0 <= b < v.pages.len(),
        v.pages[b] is Spilled,
        spill_readable(bytes, v.kv_dim, v.block_size),
    ensures
        v.restored(b, bytes).wf(),
        spill_decoded(bytes, v.kv_dim).whole(v.kv_dim),
{
}

/// Attention state of one layer of one sequence.
///
/// Positions are grouped into fixed-size blocks. Once more than
/// `max_resident_blocks` are in memory and a storage backend is configured, the
/// oldest block is written to storage and dropped. Length is capped at
/// `max_positions`, so the cache cannot grow without bound whatever a client sends.
pub struct KVCacheState {
    kv_dim: usize,
    block_size: usize,
    pages: Vec<Page>,
    len: usize,
    max_positions: usize,
    max_resident_blocks: usize,
    sliding_window: Option<usize>,
    storage: Option<Arc<dyn StorageBackend>>,
    /// Namespaces spill files so two sequences (and two layers) cannot collide.
    seq_id: u64,
    layer: usize,
    spills: u64,
    reloads: u64,
    /// Experts that fired in this layer last step.
    pub last_experts: Vec<ExpertId>,
    /// Experts that the predictor guessed this step would need.
    pub last_predicted: Vec<ExpertId>,
}

impl View for KVCacheState {
    type V = KvView;

    closed spec fn view(&self) -> KvView {
        KvView {
            kv_dim: self.kv_dim as nat,
            block_size: self.block_size as nat,
            pages: self.pages@.map_values(|p: Page| p@),
            len: self.len as nat,
            max_positions: self.max_positions as nat,
            max_resident_blocks: self.max_resident_blocks as nat,
            sliding_window: self.sliding_window,
            storage: self.storage,
            seq_id: self.seq_id,
            layer: self.layer as nat,
            spills: self.spills,
            reloads: self.reloads,
            last_experts: self.last_experts@,
            last_predicted: self.last_predicted@,
        }
    }
}

impl KVCacheState {
    pub open spec fn wf(&self) -> bool {
        self@.wf()
    }

    /// The empty state of a single-layer sequence.
    pub fn new(cfg: &KvConfig, seq_id: u64) -> (s: Self)
        ensures
            s.wf(),
            s@ == cfg.empty_layer(seq_id, 0),
            s@.kv_dim == match cfg.kv_dims {
                Some(dims) => if 0 < dims@.len() {
                    dims@[0 as int] as nat
                } else {
                    cfg.kv_dim as nat
                },
                None => if cfg.kv_dim == 0 {
                    1
                } else {
                    cfg.kv_dim as nat
                },
            },
            cfg.dims.block_size > 0 ==> s@.block_size == cfg.dims.block_size,
            cfg.dims.block_size == 0 ==> s@.block_size == 1,
            cfg.max_positions > 0 ==> s@.max_positions == cfg.max_positions,
            cfg.max_resident_blocks > 0 ==> s@.max_resident_blocks == cfg.max_resident_blocks,
            s@.sliding_window == cfg.sliding_window,
            s@.storage == cfg.storage,
            s@.seq_id == seq_id,
            s@.layer == 0,
            s@.len == 0 && s@.pages.len() == 0,
    {
        Self::for_layer(cfg, seq_id, 0)
    }

    /// The empty state of layer `layer`.
    ///
    /// A per-layer width of zero is deliberate; the uniform width has a floor of one,
    /// so a caller that leaves `kv_dim` at zero by accident still gets a cache that
    /// holds something.
    pub fn for_layer(cfg: &KvConfig, seq_id: u64, layer: usize) -> (s: Self)
        ensures
            s.wf(),
            s@ == cfg.empty_layer(seq_id, layer as nat),
            s@.kv_dim == match cfg.kv_dims {
                Some(dims) => if layer < dims@.len() {
                    dims@[layer as int] as nat
                } else {
                    cfg.kv_dim as nat
                },
                None => if cfg.kv_dim == 0 {
                    1
                } else {
                    cfg.kv_dim as nat
                },
            },
            cfg.dims.block_size > 0 ==> s@.block_size == cfg.dims.block_size,
            cfg.dims.block_size == 0 ==> s@.block_size == 1,
            cfg.max_positions > 0 ==> s@.max_positions == cfg.max_positions,
            cfg.max_resident_blocks > 0 ==> s@.max_resident_blocks == cfg.max_resident_blocks,
            s@.sliding_window == cfg.sliding_window,
            s@.storage == cfg.storage,
            s@.seq_id == seq_id,
            s@.layer == layer,
            s@.len == 0 && s@.pages.len() == 0,
    {
        let kv_dim: usize = match &cfg.kv_dims {
            Some(dims) => if layer < dims.len() {
                dims[layer]
            } else {
                cfg.kv_dim
            },
            None => floor_one(cfg.kv_dim),
        };
        let storage = match &cfg.storage {
            Some(s) => Some(s.clone()),
            None => None,
        };
        let s = KVCacheState {
            kv_dim,
            block_size: floor_one(cfg.dims.block_size),
            pages: Vec::new(),
            len: 0,
            max_positions: floor_one(cfg.max_positions),
            max_resident_blocks: floor_one(cfg.max_resident_blocks),
            sliding_window: cfg.sliding_window,
            storage,
            seq_id,
            layer,
            spills: 0,
            reloads: 0,
            last_experts: Vec::new(),
            last_predicted: Vec::new(),
        };
        assert(s@ =~= cfg.empty_layer(seq_id, layer as nat));
        s
    }

    pub fn len(&self) -> (n: usize)
        ensures
            n == self@.len,
    {
        self.len
    }

    pub fn is_empty(&self) -> (b: bool)
        ensures
            b == (self@.len == 0),
    {
        self.len == 0
    }

    pub fn max_positions(&self) -> (n: usize)
        ensures
            n == self@.max_positions,
    {
        self.max_positions
    }

    /// Takes note of the experts that fired in this layer.
    pub fn note_experts(&mut self, used: Vec<ExpertId>)
        ensures
            final(self)@ == (KvView { last_experts: used@, ..old(self)@ }),
    {
        let ghost before = self@;
        self.last_experts = used;
        assert(self@ =~= (KvView { last_experts: used@, ..before }));
    }

    /// Takes note of the experts that the next step is guessed to need.
    pub fn note_predicted(&mut self, predicted: Vec<ExpertId>)
        ensures
            final(self)@ == (KvView { last_predicted: predicted@, ..old(self)@ }),
    {
        let ghost before = self@;
        self.last_predicted = predicted;
        assert(self@ =~= (KvView { last_predicted: predicted@, ..before }));
    }

    /// The experts that fired in this layer last, and those that were guessed then.
    pub fn noted(&self) -> (r: (&Vec<ExpertId>, &Vec<ExpertId>))
        ensures
            r.0@ == self@.last_experts,
            r.1@ == self@.last_predicted,
    {
        (&self.last_experts, &self.last_predicted)
    }

    pub fn spill_count(&self) -> (n: u64)
        ensures
            n == self@.spills,
    {
        self.spills
    }

    pub fn reload_count(&self) -> (n: u64)
        ensures
            n == self@.reloads,
    {
        self.reloads
    }

    /// The oldest position attention may attend to, given the sliding window.
    pub fn attention_start(&self) -> (n: usize)
        ensures
            n == match self@.sliding_window {
                Some(w) => if w <= self@.len {
                    self@.len - w
                } else {
                    0
                },
                None => 0int,
            },
    {
        match self.sliding_window {
            Some(w) => self.len.saturating_sub(w),
            None => 0,
        }
    }

    /// Where block `block` goes when it spills.
    pub fn spill_path(&self, block: usize) -> (s: String)
        ensures
            s@ == spill_path_text(self@.seq_id, self@.layer, block as nat),
            s@ == "kv/seq_"@ + text::decimal(self@.seq_id as nat) + "/layer_"@ + text::decimal(
                self@.layer,
            ) + "/block_"@ + text::decimal(block as nat) + ".bin"@,
    {
        let mut s = "kv/seq_".to_owned();
        push_number(&mut s, self.seq_id);
        s.append("/layer_");
        push_size(&mut s, self.layer);
        s.append("/block_");
        push_size(&mut s, block);
        s.append(".bin");
        s
    }

    /// What block `block`, which is in memory, is spilled as.
    pub fn spill_bytes(&self, block: usize) -> (bytes: Vec<u8>)
        requires
            block < self@.pages.len(),
            self@.pages[block as int] is Resident,
        ensures
            bytes@ == self@.pages[block as int]->Resident_0.encoded(),
            bytes@ == bytes::le(self@.pages[block as int]->Resident_0.filled, 8) + bytes::words_le(
                self@.pages[block as int]->Resident_0.keys,
            ) + bytes::words_le(self@.pages[block as int]->Resident_0.values),
    {
        let mut bytes: Vec<u8> = Vec::new();
        assert(self@.pages[block as int] == self.pages@[block as int]@);
        match &self.pages[block] {
            Page::Resident(b) => {
                push_u64(&mut bytes, b.filled as u64);
                push_words(&mut bytes, b.keys.as_slice());
                push_words(&mut bytes, b.values.as_slice());
                assert(bytes@ =~= b@.encoded());
            },
            _ => {},
        }
        bytes
    }

    /// Appends the key and value vectors of the next position, then spills the oldest
    /// blocks until no more than `max_resident_blocks` are in memory.
    ///
    /// A block whose write fails stays in memory, and the error of the write is
    /// returned: the position has been appended all the same.
    pub fn append(&mut self, key: &[u32], value: &[u32]) -> (r: Result<(), GarudaError>)
        requires
            old(self).wf(),
        ensures
            final(self).wf(),
            if key@.len() != old(self)@.kv_dim || value@.len() != old(self)@.kv_dim {
                &&& final(self)@ == old(self)@
                &&& r matches Err(GarudaError::Cache(m)) && m@ == width_message(
                    old(self)@.kv_dim,
                    key@.len(),
                    value@.len(),
                )
            } else if old(self)@.len == old(self)@.max_positions {
                &&& final(self)@ == old(self)@
                &&& r matches Err(GarudaError::Cache(m)) && m@ == exhausted_message(
                    old(self)@.max_positions,
                )
            } else {
                let stored = old(self)@.put(key@, value@);
                stored.is_kept_to_budget(stored.pages.len() - 1, final(self)@, r)
            },
    {
        let d: usize = self.kv_dim;
        if key.len() != d || value.len() != d {
            let mut m = "kv append expects a ".to_owned();
            push_size(&mut m, d);
            m.append("-dim key and value, got ");
            push_size(&mut m, key.len());
            m.append(" and ");
            push_size(&mut m, value.len());
            return Err(GarudaError::Cache(m));
        }
        if self.len >= self.max_positions {
            let mut m = "context window of ".to_owned();
            push_size(&mut m, self.max_positions);
            m.append(" positions is exhausted");
            return Err(GarudaError::Cache(m));
        }
        let ghost before = self@;
        self.store(key, value);
        let ghost stored = before.put(key@, value@);
        let current: usize = self.pages.len() - 1;
        self.enforce_residency(current)
    }

    /// Puts one position, spilling nothing.
    fn store(&mut self, key: &[u32], value: &[u32])
        requires
            old(self).wf(),
            key@.len() == old(self)@.kv_dim,
            value@.len() == old(self)@.kv_dim,
            old(self)@.len < old(self)@.max_positions,
        ensures
            final(self).wf(),
            final(self)@ == old(self)@.put(key@, value@),
            final(self)@.pages.len() > 0,
            final(self)@.pages.last() is Resident,
    {
        let ghost before = self@;
        proof {
            next_position(self@.len, self@.block_size);
            put_keeps_wf(before, key@, value@);
        }
        let fresh: bool = self.len % self.block_size == 0;
        let mut block = KvBlock { keys: Vec::new(), values: Vec::new(), filled: 0 };
        if !fresh {
            let ghost pages = self.pages@;
            assert(before.pages.last() == pages.last()@);
            match self.pages.pop() {
                Some(Page::Resident(b)) => {
                    block = b;
                },
                _ => {},
            }
            assert(self@.pages =~= before.pages.drop_last());
        }
        let ghost start = block@;
        block.keys.extend_from_slice(key);
        block.values.extend_from_slice(value);
        assert(block.keys@ =~= start.keys + key@);
        assert(block.values@ =~= start.values + value@);
        block.filled += 1;
        let ghost rest = self@.pages;
        self.pages.push(Page::Resident(block));
        self.len += 1;
        proof {
            let want = before.put(key@, value@);
            assert(self@.pages =~= rest.push(PageView::Resident(block@)));
            assert(self@.pages =~= want.pages);
            assert(self@ =~= want);
        }
    }

    /// The oldest block in memory other than `current`.
    fn oldest_resident(&self, current: usize) -> (r: Option<usize>)
        ensures
            match r {
                Some(b) => self@.is_oldest(current as int, b as int),
                None => forall|b: int|
                    0 <= b < self@.pages.len() && b != current ==> !(#[trigger] self@.pages[b]
                        is Resident),
            },
    {
        let mut b: usize = 0;
        while b < self.pages.len()
            invariant
                b <= self.pages@.len(),
                self@.pages.len() == self.pages@.len(),
                forall|c: int|
                    0 <= c < b && c != current ==> !(#[trigger] self@.pages[c] is Resident),
            decreases self.pages@.len() - b,
        {
            assert(self@.pages[b as int] == self.pages@[b as int]@);
            if b != current {
                if let Page::Resident(_) = &self.pages[b] {
                    return Some(b);
                }
            }
            b += 1;
        }
        None
    }

    fn resident_blocks(&self) -> (n: usize)
        ensures
            n == resident_count(self@.pages),
            n <= self.pages@.len(),
    {
        let mut n: usize = 0;
        let mut b: usize = 0;
        while b < self.pages.len()
            invariant
                n <= b <= self.pages@.len(),
                self@.pages.len() == self.pages@.len(),
                n == resident_count(self@.pages.take(b as int)),
            decreases self.pages@.len() - b,
        {
            proof {
                let next = self@.pages.take(b + 1);
                assert(next.drop_last() =~= self@.pages.take(b as int));
                assert(next.last() == self.pages@[b as int]@);
            }
            if let Page::Resident(_) = &self.pages[b] {
                n += 1;
            }
            b += 1;
        }
        assert(self@.pages.take(self@.pages.len() as int) =~= self@.pages);
        n
    }

    /// Spills the oldest blocks until the residency budget is met. `current` is never
    /// spilled: it is the block being written to. A layer of width zero holds no
    /// vectors, so spilling it would write empty files for nothing.
    fn enforce_residency(&mut self, current: usize) -> (r: Result<(), GarudaError>)
        requires
            old(self).wf(),
            current == old(self)@.pages.len() - 1,
        ensures
            final(self).wf(),
            old(self)@.is_kept_to_budget(current as int, final(self)@, r),
    {
        let ghost start = self@;
        proof {
            assert(start.spill_oldest(current as int, 0) == start);
        }
        if self.kv_dim == 0 {
            return Ok(());
        }
        let storage = match &self.storage {
            Some(s) => s.clone(),
            None => {
                return Ok(());
            },
        };
        let ghost mut n: nat = 0;
        while self.resident_blocks() > self.max_resident_blocks
            invariant
                self.wf(),
                start == old(self)@,
                start.wf(),
                start.storage is Some,
                start.kv_dim > 0,
                current == start.pages.len() - 1,
                self@.pages.len() == start.pages.len(),
                self@.storage is Some,
                self@.kv_dim == start.kv_dim,
                self@.max_resident_blocks == start.max_resident_blocks,
                self@ == start.spill_oldest(current as int, n),
                start.may_take_oldest(current as int, n),
                self@.storage == Some(storage),
                resident_count(self@.pages) + n == resident_count(start.pages),
                n <= start.excess(),
                start.max_resident_blocks >= 1,
            decreases resident_count(self@.pages),
        {
            let ghost now = self@;
            proof {
                let other = two_residents(now.pages, current as int);
            }
            match self.oldest_resident(current) {
                None => {
                    return Ok(());
                },
                Some(victim) => {
                    proof {
                        oldest_is_unique(now, current as int, victim as int);
                    }
                    let bytes = self.spill_bytes(victim);
                    let path = self.spill_path(victim);
                    match storage.write(path.as_str(), bytes.as_slice()) {
                        Err(e) => {
                            return Err(e);
                        },
                        Ok(()) => {},
                    }
                    self.mark_spilled(victim);
                    proof {
                        n = n + 1;
                        assert(self@ == start.spill_oldest(current as int, n));
                        count_update(now.pages, victim as int, PageView::Spilled);
                    }
                },
            }
        }
        Ok(())
    }

    /// Drops a block that is now in storage.
    fn mark_spilled(&mut self, block: usize)
        requires
            old(self).wf(),
            old(self)@.storage is Some,
            block < old(self)@.pages.len() - 1,
        ensures
            final(self).wf(),
            final(self)@ == old(self)@.spill(block as int),
    {
        let ghost before = self@;
        proof {
            spill_keeps_wf(before, block as int);
        }
        self.pages.set(block, Page::Spilled);
        self.spills = self.spills.wrapping_add(1);
        assert(self@.pages =~= before.pages.update(block as int, PageView::Spilled));
        assert(self@ =~= before.spill(block as int));
    }

    fn is_spilled(&self, block: usize) -> (b: bool)
        ensures
            b == (block < self@.pages.len() && self@.pages[block as int] is Spilled),
    {
        if block < self.pages.len() {
            assert(self@.pages[block as int] == self.pages@[block as int]@);
            match &self.pages[block] {
                Page::Spilled => true,
                _ => false,
            }
        } else {
            false
        }
    }

    /// Takes block `block`, which is in storage, back into memory out of the bytes of
    /// its spill file.
    pub fn restore(&mut self, block: usize, bytes: &[u8]) -> (r: Result<(), GarudaError>)
        requires
            old(self).wf(),
            block < old(self)@.pages.len(),
            old(self)@.pages[block as int] is Spilled,
        ensures
            final(self).wf(),
            r is Ok <==> spill_readable(bytes@, old(self)@.kv_dim, old(self)@.block_size),
            final(self)@ == if r is Ok {
                old(self)@.restored(block as int, bytes@)
            } else {
                old(self)@
            },
            r matches Err(e) ==> is_refusal(block as nat, bytes@, e),
    {
        if bytes.len() < 8 {
            let mut m = "spill file for block ".to_owned();
            push_size(&mut m, block);
            m.append(" is truncated");
            return Err(GarudaError::Cache(m));
        }
        let filled: u64 = read_u64(bytes, 0);
        let d: usize = self.kv_dim;
        let body: usize = bytes.len() - 8;
        let words: Option<usize> = if filled <= self.block_size as u64 {
            (filled as usize).checked_mul(d)
        } else {
            None
        };
        let readable: bool = match words {
            Some(n) => body % 8 == 0 && body / 8 == n,
            None => false,
        };
        if !readable {
            let mut m = "spill file for block ".to_owned();
            push_size(&mut m, block);
            m.append(" is malformed: ");
            push_size(&mut m, bytes.len());
            m.append(" bytes, filled=");
            push_number(&mut m, filled);
            return Err(GarudaError::Cache(m));
        }
        let n: usize = body / 8;
        let ghost before = self@;
        let keys = read_words(bytes, 8, n);
        let values = read_words(bytes, 8 + 4 * n, n);
        let back = KvBlock { keys, values, filled: filled as usize };
        proof {
            restored_keeps_wf(before, block as int, bytes@);
            assert(back@ =~= spill_decoded(bytes@, before.kv_dim));
        }
        self.pages.set(block, Page::Resident(back));
        self.reloads = self.reloads.wrapping_add(1);
        assert(self@ =~= before.restored(block as int, bytes@));
        Ok(())
    }

    /// Reads `block` back from storage.
    pub fn reload(&mut self, block: usize) -> (r: Result<(), GarudaError>)
        requires
            old(self).wf(),
        ensures
            final(self).wf(),
            r is Err ==> final(self)@ == old(self)@,
            if block < old(self)@.pages.len() && old(self)@.pages[block as int] is Spilled {
                match r {
                    Ok(_) => exists|bytes: Seq<u8>|
                        {
                            &&& old(self)@.may_give(block as nat, Ok(bytes))
                            &&& spill_readable(bytes, old(self)@.kv_dim, old(self)@.block_size)
                            &&& final(self)@ == #[trigger] old(self)@.restored(block as int, bytes)
                        },
                    Err(e) => old(self)@.may_be_lost(block as nat, e),
                }
            } else {
                r matches Err(GarudaError::Cache(m)) && m@ == "block "@ + text::decimal(block as nat)
                    + " was never spilled"@
            },
    {
        if !self.is_spilled(block) {
            let mut m = "block ".to_owned();
            push_size(&mut m, block);
            m.append(" was never spilled");
            return Err(GarudaError::Cache(m));
        }
        let storage = match &self.storage {
            Some(s) => s.clone(),
            None => {
                assert(self@.page_ok(self@.pages[block as int]));
                return Err(GarudaError::Cache("no storage backend to reload from".to_owned()));
            },
        };
        let path = self.spill_path(block);
        let ghost before = self@;
        match storage.read(path.as_str()) {
            Err(e) => Err(e),
            Ok(bytes) => {
                assert(before.may_give(block as nat, Ok(bytes@)));
                let r = self.restore(block, bytes.as_slice());
                assert(r is Ok ==> self@ == before.restored(block as int, bytes@));
                r
            },
        }
    }

    /// Makes every block covering `start..end` resident. Call before reading.
    ///
    /// The blocks that are in storage are read back oldest first. The first one that
    /// cannot be read ends the call with its error; those before it stay in memory.
    pub fn ensure_resident(&mut self, start: usize, end: usize) -> (r: Result<(), GarudaError>)
        requires
            old(self).wf(),
        ensures
            final(self).wf(),
            start >= end ==> r is Ok && final(self)@ == old(self)@,
            start < end ==> {
                let bs = old(self)@.block_size;
                let needed = old(self)@.spilled_in(
                    start as nat / bs,
                    ((end - 1) as nat / bs + 1) as nat,
                );
                old(self)@.is_brought_back(needed, final(self)@, r)
            },
    {
        if start >= end {
            return Ok(());
        }
        let ghost begin = self@;
        let lo: usize = start / self.block_size;
        let past: usize = (end - 1) / self.block_size;
        let ghost bs = begin.block_size;
        let ghost needed = begin.spilled_in(lo as nat, past as nat + 1);
        let ghost mut files: Seq<Seq<u8>> = Seq::empty();
        let mut b: usize = lo;
        proof {
            assert(begin.restored_all(needed, files) == begin);
            assert(begin.spilled_in(lo as nat, lo as nat) =~= Seq::<nat>::empty());
            lemma_div_is_ordered(start as int, end - 1, bs as int);
        }
        while b <= past && b < self.pages.len()
            invariant
                self.wf(),
                begin == old(self)@,
                begin.wf(),
                bs == begin.block_size,
                start < end,
                lo == start as nat / bs,
                past == (end - 1) as nat / bs,
                needed == begin.spilled_in(lo as nat, past as nat + 1),
                lo <= b <= past + 1,
                self@.pages.len() == begin.pages.len(),
                self@.kv_dim == begin.kv_dim,
                self@.block_size == begin.block_size,
                files.len() == begin.spilled_in(lo as nat, b as nat).len(),
                begin.all_given(needed, files),
                self@.storage == begin.storage,
                self@.seq_id == begin.seq_id,
                self@.layer == begin.layer,
                self@ == begin.restored_all(needed, files),
                forall|c: int| b <= c < begin.pages.len() ==> self@.pages[c] == begin.pages[c],
            decreases past + 1 - b,
        {
            proof {
                spilled_in_grows(begin, lo as nat, b as nat + 1, past as nat + 1);
            }
            if self.is_spilled(b) {
                let ghost now = self@;
                match self.reload(b) {
                    Err(e) => {
                        proof {
                            assert(needed[files.len() as int] == b as nat);
                            assert(begin.may_be_lost(b as nat, e)) by {
                                if !now.may_give(b as nat, Err(e)) {
                                    let bytes = choose|bytes: Seq<u8>| #[trigger]
                                        now.may_give(b as nat, Ok(bytes)) && !spill_readable(
                                            bytes,
                                            now.kv_dim,
                                            now.block_size,
                                        ) && is_refusal(b as nat, bytes, e);
                                    assert(begin.may_give(b as nat, Ok(bytes)));
                                }
                            }
                        }
                        return Err(e);
                    },
                    Ok(()) => {
                        proof {
                            let bytes = choose|bytes: Seq<u8>|
                                {
                                    &&& now.may_give(b as nat, Ok(bytes))
                                    &&& spill_readable(bytes, now.kv_dim, now.block_size)
                                    &&& self@ == #[trigger] now.restored(b as int, bytes)
                                };
                            let more = files.push(bytes);
                            assert(more.drop_last() =~= files);
                            assert(more.last() == bytes);
                            assert(needed[files.len() as int] == b as nat);
                            assert(self@ == begin.restored_all(needed, more));
                            files = more;
                        }
                    },
                }
            }
            b += 1;
        }
        proof {
            spilled_beyond(begin, lo as nat, b as nat, past as nat + 1);
        }
        Ok(())
    }

    /// The key at `pos`, if resident. `None` means spilled or out of range: call
    /// [`KVCacheState::ensure_resident`] first.
    pub fn key_at(&self, pos: usize) -> (r: Option<&[u32]>)
        requires
            self.wf(),
        ensures
            match r {
                Some(k) => self@.key(pos as nat) == Some(k@),
                None => self@.key(pos as nat) is None,
            },
    {
        if pos >= self.len {
            return None;
        }
        proof {
            position_has_block(pos as nat, self@.len, self@.block_size);
        }
        let b: usize = pos / self.block_size;
        assert(self@.pages[b as int] == self.pages@[b as int]@);
        match &self.pages[b] {
            Page::Resident(block) => vector_in(
                block.keys.as_slice(),
                pos % self.block_size,
                self.kv_dim,
            ),
            _ => None,
        }
    }

    /// The value at `pos`, if resident.
    pub fn value_at(&self, pos: usize) -> (r: Option<&[u32]>)
        requires
            self.wf(),
        ensures
            match r {
                Some(k) => self@.value(pos as nat) == Some(k@),
                None => self@.value(pos as nat) is None,
            },
    {
        if pos >= self.len {
            return None;
        }
        proof {
            position_has_block(pos as nat, self@.len, self@.block_size);
        }
        let b: usize = pos / self.block_size;
        assert(self@.pages[b as int] == self.pages@[b as int]@);
        match &self.pages[b] {
            Page::Resident(block) => vector_in(
                block.values.as_slice(),
                pos % self.block_size,
                self.kv_dim,
            ),
            _ => None,
        }
    }

    /// Drops every position at or after `len`.
    ///
    /// Refuses to cut into a spilled block rather than reload one: a truncation lands
    /// on the newest positions, which are resident, so needing to is a sign that the
    /// caller is doing something else. Spill files of dropped blocks are removed;
    /// whether their removal succeeds is of no consequence here.
    pub fn truncate(&mut self, len: usize) -> (r: Result<(), GarudaError>)
        requires
            old(self).wf(),
        ensures
            final(self).wf(),
            r is Err <==> old(self)@.cut_refused(len as nat),
            r is Ok ==> final(self)@.len == if len < old(self)@.len {
                len as nat
            } else {
                old(self)@.len
            },
            r is Err <==> len < old(self)@.len && len as nat % old(self)@.block_size != 0 && old(
                self,
            )@.pages[(len as nat / old(self)@.block_size) as int] is Spilled,
            r is Ok ==> final(self)@ == old(self)@.cut(len as nat) && old(self)@.is_let_go(
                blocks_for(len as nat, old(self)@.block_size),
            ),
            r matches Err(e) ==> final(self)@ == old(self)@ && (e matches GarudaError::Cache(m)
                && m@ == cut_message(len as nat, len as nat / old(self)@.block_size)),
    {
        let ghost before = self@;
        let ghost bs = before.block_size;
        if len >= self.len {
            proof {
                if len > self.len {
                    shorter_has_blocks(before.len, len as nat, bs);
                }
            }
            return Ok(());
        }
        proof {
            shorter_has_blocks(len as nat, before.len, bs);
            lemma_mod_bound(len as int, bs as int);
        }
        let cut_block: usize = len / self.block_size;
        let keep: usize = len % self.block_size;
        if keep > 0 && self.is_spilled(cut_block) {
            let mut m = "cannot truncate to ".to_owned();
            push_size(&mut m, len);
            m.append(": block ");
            push_size(&mut m, cut_block);
            m.append(" is spilled to disk");
            return Err(GarudaError::Cache(m));
        }
        proof {
            cut_keeps_wf(before, len as nat);
        }
        let stay: usize = if keep > 0 {
            cut_block + 1
        } else {
            cut_block
        };
        while self.pages.len() > stay
            invariant
                before.wf(),
                stay <= self.pages@.len() <= before.pages.len(),
                self@ == (KvView { pages: before.pages.take(self.pages@.len() as int), ..before }),
                before.is_let_go(self.pages@.len()),
            decreases self.pages@.len(),
        {
            let ghost held = self.pages@.len();
            let last: usize = self.pages.len() - 1;
            let gone = self.is_spilled(last);
            let ghost was = self.pages@;
            let _ = self.pages.pop();
            proof {
                assert(self@.pages =~= before.pages.take(held - 1));
                assert(before.pages.take(held as int)[last as int] == before.pages[last as int]);
                assert(before.page_ok(before.pages[last as int]));
            }
            if gone {
                self.forget_file(last);
                assert(before.is_dropped(last as nat));
            }
        }
        if keep > 0 {
            let ghost was = self.pages@;
            assert(self@.pages[cut_block as int] == was[cut_block as int]@);
            assert(was.last()@ == before.pages[cut_block as int]);
            if let Some(page) = self.pages.pop() {
                let page = match page {
                    Page::Resident(mut block) => {
                        let ghost whole = block@;
                        assert(block.keys.len() == whole.keys.len());
                        assert(block.values.len() == whole.values.len());
                        if let Some(n) = keep.checked_mul(self.kv_dim) {
                            block.keys.truncate(n);
                            block.values.truncate(n);
                        }
                        block.filled = keep;
                        assert(block.keys@ =~= whole.cut(keep as nat, before.kv_dim).keys);
                        assert(block.values@ =~= whole.cut(keep as nat, before.kv_dim).values);
                        assert(block@ =~= whole.cut(keep as nat, before.kv_dim));
                        Page::Resident(block)
                    },
                    other => other,
                };
                self.pages.push(page);
                assert(self@.pages =~= before.cut(len as nat).pages);
            }
        }
        self.len = len;
        assert(self@.pages =~= before.cut(len as nat).pages);
        assert(self@ =~= before.cut(len as nat));
        Ok(())
    }

    /// Removes the spill file of `block`; a failure to do so is ignored.
    fn forget_file(&self, block: usize)
        ensures
            self@.storage is Some ==> self@.is_dropped(block as nat),
    {
        if let Some(storage) = &self.storage {
            let path = self.spill_path(block);
            let removed = storage.remove(path.as_str());
            proof {
                let told = self@.storage->Some_0;
                assert(told.may_remove(
                    spill_path_text(self@.seq_id, self@.layer, block as nat),
                    types::failure_of(removed),
                ));
            }
        }
    }

    /// Bytes this layer's attention state occupies in memory. Spilled blocks cost
    /// nothing here.
    pub fn resident_bytes(&self) -> (n: usize)
        ensures
            n == counted(4 * resident_words(self@.pages)),
    {
        let mut words: usize = 0;
        let mut b: usize = 0;
        while b < self.pages.len()
            invariant
                b <= self.pages@.len(),
                self@.pages.len() == self.pages@.len(),
                words == counted(resident_words(self@.pages.take(b as int))),
            decreases self.pages@.len() - b,
        {
            proof {
                let next = self@.pages.take(b + 1);
                assert(next.drop_last() =~= self@.pages.take(b as int));
                assert(next.last() == self.pages@[b as int]@);
            }
            if let Page::Resident(block) = &self.pages[b] {
                words = words.saturating_add(block.keys.len()).saturating_add(block.values.len());
            }
            b += 1;
        }
        assert(self@.pages.take(self@.pages.len() as int) =~= self@.pages);
        match words.checked_mul(4) {
            Some(n) => n,
            None => usize::MAX,
        }
    }

    /// True when some of this sequence's attention state currently lives in storage.
    pub fn has_spill(&self) -> (b: bool)
        ensures
            b == self@.any_spilled(),
    {
        let mut b: usize = 0;
        while b < self.pages.len()
            invariant
                b <= self.pages@.len(),
                self@.pages.len() == self.pages@.len(),
                forall|c: int| 0 <= c < b ==> !(#[trigger] self@.pages[c] is Spilled),
            decreases self.pages@.len() - b,
        {
            if self.is_spilled(b) {
                return true;
            }
            b += 1;
        }
        false
    }

    /// Gives this state a new sequence identity, so that its future spill files cannot
    /// collide with those of the state it was cloned from.
    ///
    /// Rejected if anything is already spilled: those files are named for the old id.
    pub fn rekey(&mut self, seq_id: u64) -> (r: Result<(), GarudaError>)
        requires
            old(self).wf(),
        ensures
            final(self).wf(),
            r is Err <==> old(self)@.any_spilled(),
            r is Ok ==> final(self)@ == (KvView { seq_id, ..old(self)@ }),
            r matches Err(e) ==> final(self)@ == old(self)@ && (e matches GarudaError::Cache(m)
                && m@ == "cannot rekey a sequence with spilled blocks"@),
    {
        if self.has_spill() {
            return Err(
                GarudaError::Cache("cannot rekey a sequence with spilled blocks".to_owned()),
            );
        }
        let ghost before = self@;
        self.seq_id = seq_id;
        assert(self@ =~= (KvView { seq_id, ..before }));
        Ok(())
    }

    /// Deletes this sequence's spill files. The positions in them are gone.
    pub fn purge_spill_files(&mut self)
        requires
            old(self).wf(),
        ensures
            final(self).wf(),
            final(self)@ == old(self)@.purged(),
            old(self)@.is_let_go(0),
    {
        let ghost before = self@;
        let mut b: usize = 0;
        while b < self.pages.len()
            invariant
                before.wf(),
                forall|c: int|
                    0 <= c < b && #[trigger] before.pages[c] is Spilled ==> before.is_dropped(
                        c as nat,
                    ),
                b <= self.pages@.len(),
                self.pages@.len() == before.pages.len(),
                self@ == (KvView { pages: self@.pages, ..before }),
                forall|c: int|
                    0 <= c < b ==> #[trigger] self@.pages[c] == before.purged().pages[c],
                forall|c: int|
                    b <= c < before.pages.len() ==> #[trigger] self@.pages[c] == before.pages[c],
            decreases self.pages@.len() - b,
        {
            if self.is_spilled(b) {
                let ghost now = self@.pages;
                assert(before.page_ok(before.pages[b as int]));
                self.forget_file(b);
                self.pages.set(b, Page::Gone);
                assert(self@.pages =~= now.update(b as int, PageView::Gone));
            }
            b += 1;
        }
        proof {
            assert(self@.pages =~= before.purged().pages);
            assert forall|c: int| 0 <= c < self@.pages.len() implies self@.page_ok(
                #[trigger] self@.pages[c],
            ) by {
                assert(before.page_ok(before.pages[c]));
            }
            assert(self@ =~= before.purged());
        }
    }
}

impl Clone for KVCacheState {
    /// Duplicates resident state; spilled blocks are shared by path, which is safe
    /// because a spill file is written once and never changed afterwards.
    fn clone(&self) -> (c: Self)
        ensures
            c@ == self@,
    {
        let mut pages: Vec<Page> = Vec::new();
        let mut b: usize = 0;
        while b < self.pages.len()
            invariant
                b <= self.pages@.len(),
                pages@.len() == b,
                forall|i: int| 0 <= i < b ==> (#[trigger] pages@[i])@ == self.pages@[i]@,
            decreases self.pages@.len() - b,
        {
            let page = match &self.pages[b] {
                Page::Resident(block) => {
                    let copy = KvBlock {
                        keys: vstd::slice::slice_to_vec(block.keys.as_slice()),
                        values: vstd::slice::slice_to_vec(block.values.as_slice()),
                        filled: block.filled,
                    };
                    assert(copy@ =~= block@);
                    Page::Resident(copy)
                },
                Page::Spilled => Page::Spilled,
                Page::Gone => Page::Gone,
            };
            pages.push(page);
            b += 1;
        }
        let storage = match &self.storage {
            Some(s) => Some(s.clone()),
            None => None,
        };
        let c = KVCacheState {
            kv_dim: self.kv_dim,
            block_size: self.block_size,
            pages,
            len: self.len,
            max_positions: self.max_positions,
            max_resident_blocks: self.max_resident_blocks,
            sliding_window: self.sliding_window,
            storage,
            seq_id: self.seq_id,
            layer: self.layer,
            spills: self.spills,
            reloads: self.reloads,
            last_experts: vstd::slice::slice_to_vec(self.last_experts.as_slice()),
            last_predicted: vstd::slice::slice_to_vec(self.last_predicted.as_slice()),
        };
        assert(c@.pages =~= self@.pages);
        assert(c@ =~= self@);
        c
    }
}

/// A longer stretch of blocks starts with the spilled blocks of a shorter one.
proof fn spilled_in_grows(v: KvView, lo: nat, mid: nat, hi: nat)
    requires
        mid <= hi,
    ensures
        v.spilled_in(lo, mid).len() <= v.spilled_in(lo, hi).len(),
        forall|i: int|
            0 <= i < v.spilled_in(lo, mid).len() ==> #[trigger] v.spilled_in(lo, hi)[i]
                == v.spilled_in(lo, mid)[i],
    decreases hi - mid,
{
    if mid < hi {
        spilled_in_grows(v, lo, mid, (hi - 1) as nat);
    }
}

/// Beyond the last block nothing is spilled.
proof fn spilled_beyond(v: KvView, lo: nat, mid: nat, hi: nat)
    requires
        mid <= hi,
        mid >= v.pages.len() || mid == hi,
    ensures
        v.spilled_in(lo, hi) == v.spilled_in(lo, mid) || lo > mid && v.spilled_in(lo, hi).len()
            == 0,
    decreases hi - mid,
{
    if mid < hi {
        spilled_beyond(v, lo, mid, (hi - 1) as nat);
    }
}

fn vector_in(words: &[u32], row: usize, width: usize) -> (r: Option<&[u32]>)
    ensures
        match r {
            Some(k) => row * width + width <= words@.len() && k@ == words@.subrange(
                row * width,
                row * width + width,
            ),
            None => row * width + width > words@.len(),
        },
{
    match row.checked_mul(width) {
        None => {
            assert(words@.len() == words.len());
            None
        },
        Some(off) => if off <= words.len() && width <= words.len() - off {
            Some(slice_subrange(words, off, off + width))
        } else {
            None
        },
    }
}

fn floor_one(n: usize) -> (m: usize)
    ensures
        m == at_least_one(n as nat),
{
    if n == 0 {
        1
    } else {
        n
    }
}

} // verus!
