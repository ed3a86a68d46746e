//! Tiered expert storage: RAM, then a fast disk, then an archive.
//!
//! A miss in RAM falls through to the disk, and then to the archive. Anything found
//! deeper is promoted on the way back up: what the archive holds is copied to the disk,
//! and everything lands in RAM. An expert that no tier has is made by the caller and
//! written to the disk, so that the second request for it takes the real path.

use crate::bytes;
use crate::cache::expert;
use crate::cache::expert::{CacheStats, ExpertCache, ExpertCacheView};
use crate::text;
use crate::text::{push_number, push_size};
use crate::types;
use crate::types::{Expert, ExpertId, Fault, GarudaError, ModelDims, StorageBackend};
use std::sync::Arc;
use vstd::prelude::*;
use vstd::string::*;

verus! {

#[derive(Debug, Clone, Copy, PartialEq, Eq, Structural)]
pub enum MemoryTier {
    L1Ram,
    L2Ssd,
    L3Archive,
    /// Not present anywhere; weights were synthesised.
    Synthesised,
}

/// How often each tier answered.
#[derive(Debug, Clone, Copy, PartialEq, Eq)]
pub struct TierStats {
    pub l1: u64,
    pub l2: u64,
    pub l3: u64,
    pub synthesised: u64,
    pub prefetched: u64,
}

#[derive(Debug, Clone, Copy, PartialEq, Eq)]
pub struct TierCounts {
    pub l1: u64,
    pub l2: u64,
    pub l3: u64,
    pub synthesised: u64,
    pub prefetched: u64,
}

impl TierStats {
    pub open spec fn none() -> TierStats {
        TierStats { l1: 0, l2: 0, l3: 0, synthesised: 0, prefetched: 0 }
    }

    /// After an answer from `tier`.
    pub open spec fn counted(self, tier: MemoryTier) -> TierStats {
        match tier {
            MemoryTier::L1Ram => TierStats { l1: self.l1.wrapping_add(1), ..self },
            MemoryTier::L2Ssd => TierStats { l2: self.l2.wrapping_add(1), ..self },
            MemoryTier::L3Archive => TierStats { l3: self.l3.wrapping_add(1), ..self },
            MemoryTier::Synthesised => TierStats {
                synthesised: self.synthesised.wrapping_add(1),
                ..self
            },
        }
    }
}

impl Default for TierStats {
    fn default() -> (s: Self)
        ensures
            s == TierStats::none(),
    {
        TierStats { l1: 0, l2: 0, l3: 0, synthesised: 0, prefetched: 0 }
    }
}

/// The words of an expert's three matrices: gate, up and down.
pub open spec fn expert_words(e: Expert) -> Seq<u32> {
    e.gate@ + e.up@ + e.down@
}

/// An expert's weights as a file holds them: the three matrices one after the other,
/// each word little-endian.
pub fn expert_to_bytes(e: &Expert) -> (out: Vec<u8>)
    ensures
        out@ == bytes::words_le(expert_words(*e)),
        out@ == bytes::words_le(e.gate@) + bytes::words_le(e.up@) + bytes::words_le(e.down@),
{
    let mut out: Vec<u8> = Vec::new();
    bytes::push_words(&mut out, e.gate.as_slice());
    bytes::push_words(&mut out, e.up.as_slice());
    bytes::push_words(&mut out, e.down.as_slice());
    proof {
        bytes::words_le_concat(e.gate@, e.up@);
        bytes::words_le_concat(e.gate@ + e.up@, e.down@);
        assert(Seq::<u8>::empty() + bytes::words_le(e.gate@) =~= bytes::words_le(e.gate@));
    }
    out
}

/// Words of one of an expert's matrices.
pub open spec fn plane(dims: ModelDims) -> int {
    dims.d_ff * dims.d_model
}

pub open spec fn size_message(id: ExpertId, got: nat, want: nat) -> Seq<char> {
    "expert "@ + text::decimal(id as nat) + " file has "@ + text::decimal(got)
        + " bytes, expected "@ + text::decimal(want)
}

/// `e` is what a file of `data` holds.
pub open spec fn is_decoded(e: Expert, id: ExpertId, dims: ModelDims, data: Seq<u8>) -> bool {
    &&& e.id == id
    &&& e.dims == dims
    &&& e.gate@.len() == plane(dims)
    &&& e.up@.len() == plane(dims)
    &&& e.down@.len() == plane(dims)
    &&& expert_words(e) == bytes::words_of(data)
}

/// Reads an expert's weights out of a file, which must be of the right size.
pub fn expert_from_bytes(id: ExpertId, dims: &ModelDims, data: &[u8]) -> (r: Result<
    Expert,
    GarudaError,
>)
    requires
        12 * plane(*dims) <= usize::MAX,
    ensures
        match r {
            Ok(e) => data@.len() == 12 * plane(*dims) && is_decoded(e, id, *dims, data@),
            Err(e) => data@.len() != 12 * plane(*dims) && Fault::Model(
                size_message(id, data@.len(), (12 * plane(*dims)) as nat),
            ).is(e),
        },
        r is Ok <==> data@.len() == 12 * (dims.d_ff * dims.d_model),
        r matches Ok(e) ==> {
            let n = dims.d_ff * dims.d_model;
            &&& e.id == id && e.dims == *dims
            &&& e.gate@ == bytes::words_of(data@.subrange(0, 4 * n))
            &&& e.up@ == bytes::words_of(data@.subrange(4 * n, 8 * n))
            &&& e.down@ == bytes::words_of(data@.subrange(8 * n, 12 * n))
        },
{
    assert(plane(*dims) >= 0) by (nonlinear_arith)
        requires
            plane(*dims) == dims.d_ff * dims.d_model,
    ;
    let n: usize = dims.d_ff * dims.d_model;
    if data.len() != 12 * n {
        let mut m = "expert ".to_owned();
        push_number(&mut m, id as u64);
        m.append(" file has ");
        push_size(&mut m, data.len());
        m.append(" bytes, expected ");
        push_size(&mut m, 12 * n);
        return Err(GarudaError::Model(m));
    }
    let gate = bytes::read_words(data, 0, n);
    let up = bytes::read_words(data, 4 * n, n);
    let down = bytes::read_words(data, 8 * n, n);
    let e = Expert { id, gate, up, down, dims: *dims };
    proof {
        let whole = bytes::words_of(data@);
        let words = expert_words(e);
        assert(whole.len() == 3 * n);
        assert forall|i: int| 0 <= i < 3 * n implies words[i] == whole[i] by {
            let part = if i < n {
                data@.subrange(0, 4 * n)
            } else if i < 2 * n {
                data@.subrange(4 * n, 8 * n)
            } else {
                data@.subrange(8 * n, 12 * n)
            };
            let k = if i < n {
                i
            } else if i < 2 * n {
                i - n
            } else {
                i - 2 * n
            };
            assert(part.subrange(4 * k, 4 * k + 4) =~= data@.subrange(4 * i, 4 * i + 4));
        }
        assert(words =~= whole);
    }
    Ok(e)
}

/// A written expert reads back as it was.
pub proof fn expert_file_reads_back(e: Expert, back: Expert)
    requires
        e.gate@.len() == plane(e.dims),
        e.up@.len() == plane(e.dims),
        e.down@.len() == plane(e.dims),
        is_decoded(back, e.id, e.dims, bytes::words_le(expert_words(e))),
    ensures
        back.gate@ == e.gate@,
        back.up@ == e.up@,
        back.down@ == e.down@,
        bytes::words_le(expert_words(e)).len() == 12 * plane(e.dims),
{
    let w = expert_words(e);
    bytes::words_read_back(w);
    bytes::words_le_len(w);
    let v = expert_words(back);
    assert(v == w);
    let n = plane(e.dims);
    assert(back.gate@ =~= v.subrange(0, n) && e.gate@ =~= w.subrange(0, n));
    assert(back.up@ =~= v.subrange(n, 2 * n) && e.up@ =~= w.subrange(n, 2 * n));
    assert(back.down@ =~= v.subrange(2 * n, 3 * n) && e.down@ =~= w.subrange(2 * n, 3 * n));
}

/// `expert_{id}.bin`.
pub open spec fn path_text(id: ExpertId) -> Seq<char> {
    "expert_"@ + text::decimal(id as nat) + ".bin"@
}

/// Where an expert is kept in a tier.
pub fn expert_path(id: ExpertId) -> (s: String)
    ensures
        s@ == path_text(id),
        s@ == "expert_"@ + text::decimal(id as nat) + ".bin"@,
{
    let mut s = "expert_".to_owned();
    push_number(&mut s, id as u64);
    s.append(".bin");
    s
}

/// Different experts are kept apart.
pub proof fn expert_paths_are_distinct(a: ExpertId, b: ExpertId)
    requires
        path_text(a) == path_text(b),
    ensures
        a == b,
{
    let (x, y) = (text::decimal(a as nat) + ".bin"@, text::decimal(b as nat) + ".bin"@);
    assert(path_text(a) =~= "expert_"@ + x);
    assert(path_text(b) =~= "expert_"@ + y);
    text::same_head_same_tail("expert_"@, x, y);
    reveal_strlit(".bin");
    text::number_then_text_is_injective(a as nat, b as nat, ".bin"@, ".bin"@);
}

/// The tiers as contracts speak of them. What the disks hold is their own affair.
#[verifier::ext_equal]
pub struct MemoryView {
    pub dims: ModelDims,
    pub l1: ExpertCacheView,
    pub l2: Tier,
    pub l3: Option<Tier>,
    pub stats: TierStats,
}

/// `r` is what a tier's reply comes to: nothing where no tier holds the expert, the
/// tier's error where it could not be read, and else the expert that the bytes encode,
/// unless they are too few or too many.
pub open spec fn is_resolved(
    id: ExpertId,
    dims: ModelDims,
    found: Option<(Result<Vec<u8>, GarudaError>, MemoryTier)>,
    r: Result<Option<(Expert, MemoryTier)>, GarudaError>,
) -> bool {
    match found {
        None => r matches Ok(None),
        Some((Err(e), _)) => r matches Err(f) && f == e,
        Some((Ok(data), tier)) => if data@.len() == 12 * plane(dims) {
            r matches Ok(Some((e, t))) && t == tier && is_decoded(e, id, dims, data@)
        } else {
            r matches Err(e) && Fault::Model(
                size_message(id, data@.len(), (12 * plane(dims)) as nat),
            ).is(e)
        },
    }
}

/// An answer is counted for the tier that gave it, and for no other.
pub proof fn answers_are_counted_by_tier(s: TierStats, tier: MemoryTier)
    ensures
        ({
            let t = s.counted(tier);
            &&& t.l1 == if tier is L1Ram {
                s.l1.wrapping_add(1)
            } else {
                s.l1
            }
            &&& t.l2 == if tier is L2Ssd {
                s.l2.wrapping_add(1)
            } else {
                s.l2
            }
            &&& t.l3 == if tier is L3Archive {
                s.l3.wrapping_add(1)
            } else {
                s.l3
            }
            &&& t.synthesised == if tier is Synthesised {
                s.synthesised.wrapping_add(1)
            } else {
                s.synthesised
            }
            &&& t.prefetched == s.prefetched
        }),
{
}

/// A hit changes the order of use and one counter; a miss is counted in RAM, once before and
/// once after waiting; a load puts the expert in RAM and is counted for its tier; and a load
/// ahead of its use is counted as that too.
pub proof fn loads_are_counted(v: MemoryView, id: ExpertId, e: Arc<Expert>, tier: MemoryTier)
    ensures
        v.hit(id).l1 == v.l1.touched(id),
        v.hit(id).stats.l1 == v.stats.l1.wrapping_add(1),
        v.hit(id).stats.l2 == v.stats.l2 && v.hit(id).stats.l3 == v.stats.l3,
        v.missed().l1.misses == v.l1.misses.wrapping_add(2),
        v.missed().l1.slots == v.l1.slots && v.missed().stats == v.stats,
        v.taken(id, e, tier).l1 == v.l1.inserted(id, e),
        v.taken(id, e, tier).stats == v.stats.counted(tier),
        v.ahead().stats.prefetched == v.stats.prefetched.wrapping_add(1),
        v.ahead().l1 == v.l1 && v.ahead().stats.l2 == v.stats.l2,
{
}

/// The disk is asked before the archive, and what neither has is made.
pub proof fn tiers_are_asked_in_order(v: MemoryView, id: ExpertId)
    ensures
        !v.may_place(id, MemoryTier::L1Ram),
        v.may_place(id, MemoryTier::L2Ssd) <==> v.l2.backend.may_hold(path_text(id), true),
        v.may_place(id, MemoryTier::L3Archive) <==> v.l2.backend.may_hold(path_text(id), false)
            && v.l3 is Some && v.l3->Some_0.backend.may_hold(path_text(id), true),
        v.may_place(id, MemoryTier::Synthesised) <==> v.l2.backend.may_hold(path_text(id), false)
            && (v.l3 is None || v.l3->Some_0.backend.may_hold(path_text(id), false)),
{
}

/// The tier that an expert which RAM does not hold comes from: the disk before the
/// archive, and one that neither has is made.
pub fn shallowest(on_disk: bool, archived: bool) -> (tier: MemoryTier)
    ensures
        tier == if on_disk {
            MemoryTier::L2Ssd
        } else if archived {
            MemoryTier::L3Archive
        } else {
            MemoryTier::Synthesised
        },
{
    if on_disk {
        MemoryTier::L2Ssd
    } else if archived {
        MemoryTier::L3Archive
    } else {
        MemoryTier::Synthesised
    }
}

/// What a tier's reply for `id` comes to. `found` is what the first tier that holds the
/// expert said when it was read, and which tier that was.
pub fn resolve(
    id: ExpertId,
    dims: &ModelDims,
    found: &Option<(Result<Vec<u8>, GarudaError>, MemoryTier)>,
) -> (r: Result<Option<(Expert, MemoryTier)>, GarudaError>)
    requires
        12 * plane(*dims) <= usize::MAX,
    ensures
        is_resolved(id, *dims, *found, r),
{
    match found {
        None => Ok(None),
        Some((Err(e), _)) => Err(e.clone()),
        Some((Ok(data), tier)) => match expert_from_bytes(id, dims, data.as_slice()) {
            Ok(e) => Ok(Some((e, *tier))),
            Err(e) => Err(e),
        },
    }
}

/// A tier on disk.
pub struct Tier {
    pub backend: Arc<dyn StorageBackend>,
}

impl Tier {
    /// The tier may say that it holds `id`, or that it does not.
    pub open spec fn may_hold(self, id: ExpertId, there: bool) -> bool {
        self.backend.may_hold(path_text(id), there)
    }

    /// The tier may answer a read of `id` so.
    pub open spec fn may_read(self, id: ExpertId, got: Result<Seq<u8>, GarudaError>) -> bool {
        self.backend.may_read(path_text(id), got)
    }

    /// The tier was handed `data` to keep for `id`, and took it or not.
    pub open spec fn was_offered(self, id: ExpertId, data: Seq<u8>) -> bool {
        exists|failure: Option<GarudaError>| #[trigger]
            self.backend.may_write(path_text(id), data, failure)
    }
}

/// The tiers that experts are loaded through.
pub struct MemoryManager {
    dims: ModelDims,
    l1: ExpertCache,
    l2: Tier,
    l3: Option<Tier>,
    stats: TierStats,
}

impl View for MemoryManager {
    type V = MemoryView;

    closed spec fn view(&self) -> MemoryView {
        MemoryView {
            dims: self.dims,
            l1: self.l1@,
            l2: self.l2,
            l3: self.l3,
            stats: self.stats,
        }
    }
}

/// What became of a load ahead of its use.
#[derive(Debug)]
pub enum Prefetched {
    /// The expert was in RAM.
    Resident,
    /// It was read from a tier and is in RAM now.
    Warmed(Arc<Expert>),
    /// No tier has it. It can be made, and counted then.
    Absent,
}

/// What a load came to.
#[derive(Debug)]
pub enum Loaded {
    Ready(Arc<Expert>),
    /// No tier has it: the caller makes it, and hands it to
    /// [`MemoryManager::materialise`].
    Absent,
}

impl MemoryView {
    pub open spec fn wf(self) -> bool {
        self.dims.valid() && 12 * plane(self.dims) <= usize::MAX
    }

    /// Below RAM, the tiers may say that `tier` is the first that has `id`.
    pub open spec fn may_place(self, id: ExpertId, tier: MemoryTier) -> bool {
        match tier {
            MemoryTier::L1Ram => false,
            MemoryTier::L2Ssd => self.l2.may_hold(id, true),
            MemoryTier::L3Archive => self.l2.may_hold(id, false) && (self.l3 matches Some(l3)
                && l3.may_hold(id, true)),
            MemoryTier::Synthesised => self.l2.may_hold(id, false) && (self.l3 matches Some(l3)
                ==> l3.may_hold(id, false)),
        }
    }

    /// `tier` may be the first below RAM that has `id`, and answer a read of it so.
    pub open spec fn may_find(
        self,
        id: ExpertId,
        tier: MemoryTier,
        got: Result<Seq<u8>, GarudaError>,
    ) -> bool {
        &&& self.may_place(id, tier)
        &&& match tier {
            MemoryTier::L2Ssd => self.l2.may_read(id, got),
            MemoryTier::L3Archive => self.l3 matches Some(l3) && l3.may_read(id, got),
            _ => false,
        }
    }

    /// `e` is what `tier` gave for `id` when it answered with `data`. What came from the
    /// archive was handed to the disk.
    pub open spec fn is_read_as(
        self,
        id: ExpertId,
        tier: MemoryTier,
        data: Seq<u8>,
        e: Expert,
    ) -> bool {
        &&& self.may_find(id, tier, Ok(data))
        &&& data.len() == 12 * plane(self.dims)
        &&& is_decoded(e, id, self.dims, data)
        &&& tier == MemoryTier::L3Archive ==> self.l2.was_offered(id, data)
    }

    /// `e` is what `tier` gave for `id`.
    pub open spec fn is_read_from(self, id: ExpertId, tier: MemoryTier, e: Expert) -> bool {
        exists|data: Seq<u8>|
            #![trigger self.may_find(id, tier, Ok(data))]
            self.is_read_as(id, tier, data, e)
    }

    /// `after` is what became of the tiers when `e` was read for `id` from one below RAM.
    pub open spec fn is_loaded_as(self, id: ExpertId, e: Arc<Expert>, after: MemoryView) -> bool {
        exists|tier: MemoryTier|
            {
                &&& #[trigger] self.is_read_from(id, tier, *e)
                &&& after == self.missed().taken(id, e, tier)
            }
    }

    /// The same for a load that was made ahead of its use.
    pub open spec fn is_warmed_as(self, id: ExpertId, e: Arc<Expert>, after: MemoryView) -> bool {
        exists|tier: MemoryTier|
            {
                &&& #[trigger] self.is_read_from(id, tier, *e)
                &&& after == self.missed().taken(id, e, tier).ahead()
            }
    }

    /// `e` is the error for `id` where the first tier that has it could not be read, or
    /// gave a file of the wrong size.
    pub open spec fn is_unreadable(self, id: ExpertId, e: GarudaError) -> bool {
        exists|tier: MemoryTier, got: Result<Seq<u8>, GarudaError>|
            {
                &&& #[trigger] self.may_find(id, tier, got)
                &&& match got {
                    Err(f) => f == e,
                    Ok(data) => data.len() != 12 * plane(self.dims) && Fault::Model(
                        size_message(id, data.len(), (12 * plane(self.dims)) as nat),
                    ).is(e),
                }
            }
    }

    /// RAM was asked for an expert it does not have, before and after waiting for the
    /// right to load it.
    pub open spec fn missed(self) -> MemoryView {
        MemoryView {
            l1: ExpertCacheView {
                misses: self.l1.misses.wrapping_add(1).wrapping_add(1),
                ..self.l1
            },
            ..self
        }
    }

    /// RAM had it.
    pub open spec fn hit(self, id: ExpertId) -> MemoryView {
        MemoryView {
            l1: self.l1.touched(id),
            stats: self.stats.counted(MemoryTier::L1Ram),
            ..self
        }
    }

    /// `e` came from `tier`, and is in RAM now.
    pub open spec fn taken(self, id: ExpertId, e: Arc<Expert>, tier: MemoryTier) -> MemoryView {
        MemoryView { l1: self.l1.inserted(id, e), stats: self.stats.counted(tier), ..self }
    }

    /// One more load was made ahead of its use.
    pub open spec fn ahead(self) -> MemoryView {
        MemoryView {
            stats: TierStats { prefetched: self.stats.prefetched.wrapping_add(1), ..self.stats },
            ..self
        }
    }

    pub open spec fn unknown_message(self, id: ExpertId) -> Seq<char> {
        "expert "@ + text::decimal(id as nat) + " does not exist (model has "@ + text::decimal(
            self.dims.n_experts as nat,
        ) + ")"@
    }

    /// The expert has the shape that the model wants.
    pub open spec fn fits(self, id: ExpertId, e: Expert) -> bool {
        &&& e.id == id
        &&& e.dims == self.dims
        &&& e.gate@.len() == plane(self.dims)
        &&& e.up@.len() == plane(self.dims)
        &&& e.down@.len() == plane(self.dims)
    }
}

impl MemoryManager {
    pub closed spec fn wf(&self) -> bool {
        self@.wf() && self.l1.wf()
    }

    /// The model that the tiers serve is a valid one, and RAM keeps to its budget.
    pub proof fn view_is_wf(&self)
        requires
            self.wf(),
        ensures
            self@.wf(),
            self@.l1.wf(),
    {
        self.l1.view_is_wf();
    }

    pub fn new(
        dims: ModelDims,
        l1_budget_bytes: usize,
        l2: Tier,
        l3: Option<Tier>,
    ) -> (r: Result<Self, GarudaError>)
        requires
            12 * plane(dims) <= usize::MAX,
        ensures
            r is Ok <==> dims.valid(),
            r matches Ok(m) ==> {
                &&& m.wf()
                &&& m@.dims == dims
                &&& m@.l2 == l2
                &&& m@.l3 == l3
                &&& m@.stats == TierStats::none()
                &&& m@.l1.slots.len() == 0
                &&& m@.l1.budget == if l1_budget_bytes == 0 {
                    1
                } else {
                    l1_budget_bytes as nat
                }
            },
            r matches Err(e) ==> e matches GarudaError::Config(m) && m@ == if !dims.heads_cover_model() {
                dims.heads_message()
            } else if !dims.top_k_in_range() {
                dims.top_k_message()
            } else {
                "block_size must be non-zero"@
            },
    {
        match dims.validate() {
            Ok(_) => {},
            Err(e) => {
                return Err(e);
            },
        }
        Ok(
            MemoryManager {
                dims,
                l1: ExpertCache::new(l1_budget_bytes),
                l2,
                l3,
                stats: TierStats::default(),
            },
        )
    }

    pub fn dims(&self) -> (d: ModelDims)
        ensures
            d == self@.dims,
    {
        self.dims
    }

    pub fn l1_stats(&self) -> (s: CacheStats)
        requires
            self.wf(),
        ensures
            s.hits == self@.l1.hits,
            s.misses == self@.l1.misses,
            s.evictions == self@.l1.evictions,
            s.entries == self@.l1.slots.len(),
            s.bytes == expert::total_bytes(self@.l1.slots),
    {
        self.l1.stats()
    }

    pub fn tier_counts(&self) -> (c: TierCounts)
        ensures
            c.l1 == self@.stats.l1,
            c.l2 == self@.stats.l2,
            c.l3 == self@.stats.l3,
            c.synthesised == self@.stats.synthesised,
            c.prefetched == self@.stats.prefetched,
    {
        TierCounts {
            l1: self.stats.l1,
            l2: self.stats.l2,
            l3: self.stats.l3,
            synthesised: self.stats.synthesised,
            prefetched: self.stats.prefetched,
        }
    }

    pub fn is_resident(&self, id: ExpertId) -> (b: bool)
        ensures
            b == expert::holds(self@.l1.slots, id),
    {
        self.l1.contains(id)
    }

    /// Where `id` lives, without loading it.
    pub fn locate(&self, id: ExpertId) -> (tier: MemoryTier)
        ensures
            if expert::holds(self@.l1.slots, id) {
                tier == MemoryTier::L1Ram
            } else {
                self@.may_place(id, tier)
            },
    {
        if self.l1.contains(id) {
            return MemoryTier::L1Ram;
        }
        let path = expert_path(id);
        let on_disk: bool = self.l2.backend.holds(path.as_str());
        let archived: bool = match &self.l3 {
            Some(l3) => !on_disk && l3.backend.holds(path.as_str()),
            None => false,
        };
        shallowest(on_disk, archived)
    }

    /// Reads `id` from the shallowest tier below RAM that has it. What the archive holds
    /// is copied to the disk; a copy that fails is not fatal.
    fn load_uncached(&self, id: ExpertId) -> (r: Result<Option<(Expert, MemoryTier)>, GarudaError>)
        requires
            self.wf(),
        ensures
            match r {
                Ok(Some((e, tier))) => self@.is_read_from(id, tier, e),
                Ok(None) => self@.may_place(id, MemoryTier::Synthesised),
                Err(e) => self@.is_unreadable(id, e),
            },
    {
        let path = expert_path(id);
        let on_disk: bool = self.l2.backend.holds(path.as_str());
        let archived: bool = match &self.l3 {
            Some(l3) => !on_disk && l3.backend.holds(path.as_str()),
            None => false,
        };
        let found: Option<(Result<Vec<u8>, GarudaError>, MemoryTier)> = match (
            shallowest(on_disk, archived),
            &self.l3,
        ) {
            (MemoryTier::L2Ssd, _) => Some(
                (self.l2.backend.read(path.as_str()), MemoryTier::L2Ssd),
            ),
            (MemoryTier::L3Archive, Some(l3)) => Some(
                (l3.backend.read(path.as_str()), MemoryTier::L3Archive),
            ),
            _ => None,
        };
        let r = resolve(id, &self.dims, &found);
        if let (Ok(Some((_, MemoryTier::L3Archive))), Some((Ok(data), _))) = (&r, &found) {
            let copied = self.l2.backend.write(path.as_str(), data.as_slice());
            assert(self@.l2.backend.may_write(path_text(id), data@, types::failure_of(copied)));
        }
        proof {
            if let Some((answer, tier)) = &found {
                assert(self@.may_find(id, *tier, types::read_answer(*answer)));
            }
        }
        r
    }

    /// Loads an expert through the tiers.
    ///
    /// What RAM holds is answered from RAM, whatever the disks say. A disk that fails,
    /// or a file of the wrong size, is an error and leaves RAM as it was.
    pub fn load(&mut self, id: ExpertId) -> (r: Result<Loaded, GarudaError>)
        requires
            old(self).wf(),
        ensures
            final(self).wf(),
            if id >= old(self)@.dims.n_experts {
                &&& final(self)@ == old(self)@
                &&& r matches Err(e) && Fault::Model(old(self)@.unknown_message(id)).is(e)
            } else if expert::holds(old(self)@.l1.slots, id) {
                &&& final(self)@ == old(self)@.hit(id)
                &&& r matches Ok(Loaded::Ready(e)) && e == old(self)@.l1.expert(id)
            } else {
                match r {
                    Ok(Loaded::Ready(e)) => old(self)@.is_loaded_as(id, e, final(self)@),
                    Ok(Loaded::Absent) => {
                        &&& old(self)@.may_place(id, MemoryTier::Synthesised)
                        &&& final(self)@ == old(self)@.missed()
                    },
                    Err(e) => {
                        &&& old(self)@.is_unreadable(id, e)
                        &&& final(self)@ == old(self)@.missed()
                    },
                }
            },
    {
        let ghost before = self@;
        if id as u64 >= self.dims.n_experts as u64 {
            let mut m = "expert ".to_owned();
            push_number(&mut m, id as u64);
            m.append(" does not exist (model has ");
            push_size(&mut m, self.dims.n_experts);
            m.append(")");
            return Err(GarudaError::Model(m));
        }
        if let Some(e) = self.l1.get(id) {
            self.stats.l1 = self.stats.l1.wrapping_add(1);
            assert(self@ =~= before.hit(id));
            return Ok(Loaded::Ready(e));
        }
        // Another load may have put it there in between.
        if let Some(e) = self.l1.get(id) {
            self.stats.l1 = self.stats.l1.wrapping_add(1);
            return Ok(Loaded::Ready(e));
        }
        assert(self@ =~= before.missed());
        proof {
            tiers_answer_alike(self@, before, id);
        }
        match self.load_uncached(id) {
            Ok(Some((e, tier))) => {
                let e = Arc::new(e);
                assert(before.is_read_from(id, tier, *e));
                self.keep(id, e.clone(), tier);
                assert(before.is_loaded_as(id, e, self@));
                Ok(Loaded::Ready(e))
            },
            Ok(None) => Ok(Loaded::Absent),
            Err(e) => Err(e),
        }
    }

    fn keep(&mut self, id: ExpertId, e: Arc<Expert>, tier: MemoryTier)
        requires
            old(self).wf(),
            old(self)@.fits(id, *e),
        ensures
            final(self).wf(),
            final(self)@ == old(self)@.taken(id, e, tier),
    {
        let ghost before = self@;
        let _ = self.l1.insert(id, e);
        match tier {
            MemoryTier::L1Ram => {
                self.stats.l1 = self.stats.l1.wrapping_add(1);
            },
            MemoryTier::L2Ssd => {
                self.stats.l2 = self.stats.l2.wrapping_add(1);
            },
            MemoryTier::L3Archive => {
                self.stats.l3 = self.stats.l3.wrapping_add(1);
            },
            MemoryTier::Synthesised => {
                self.stats.synthesised = self.stats.synthesised.wrapping_add(1);
            },
        }
        assert(self@ =~= before.taken(id, e, tier));
    }

    /// Takes an expert that was made because no tier had it: it is written to the disk,
    /// as far as that goes, and kept in RAM.
    pub fn materialise(&mut self, id: ExpertId, e: Arc<Expert>)
        requires
            old(self).wf(),
            old(self)@.fits(id, *e),
        ensures
            final(self).wf(),
            final(self)@ == old(self)@.taken(id, e, MemoryTier::Synthesised),
            final(self)@.l2.was_offered(id, bytes::words_le(expert_words(*e))),
    {
        let path = expert_path(id);
        let data = expert_to_bytes(&e);
        let kept = self.l2.backend.write(path.as_str(), data.as_slice());
        assert(self@.l2.backend.may_write(path_text(id), data@, types::failure_of(kept)));
        self.keep(id, e, MemoryTier::Synthesised);
    }

    pub fn unload(&mut self, id: ExpertId)
        requires
            old(self).wf(),
        ensures
            final(self).wf(),
            final(self)@ == (MemoryView { l1: old(self)@.l1.removed(id), ..old(self)@ }),
    {
        let ghost before = self@;
        self.l1.remove(id);
        assert(self@ =~= (MemoryView { l1: before.l1.removed(id), ..before }));
    }

    /// Brings an expert into RAM ahead of its use, and counts it. Nothing is done for one
    /// that is there.
    pub fn prefetch(&mut self, id: ExpertId) -> (r: Result<Prefetched, GarudaError>)
        requires
            old(self).wf(),
        ensures
            final(self).wf(),
            if expert::holds(old(self)@.l1.slots, id) {
                r matches Ok(Prefetched::Resident) && final(self)@ == old(self)@
            } else if id >= old(self)@.dims.n_experts {
                &&& final(self)@ == old(self)@
                &&& r matches Err(e) && Fault::Model(old(self)@.unknown_message(id)).is(e)
            } else {
                match r {
                    Ok(Prefetched::Resident) => false,
                    Ok(Prefetched::Warmed(e)) => old(self)@.is_warmed_as(id, e, final(self)@),
                    Ok(Prefetched::Absent) => {
                        &&& old(self)@.may_place(id, MemoryTier::Synthesised)
                        &&& final(self)@ == old(self)@.missed()
                    },
                    Err(e) => {
                        &&& old(self)@.is_unreadable(id, e)
                        &&& final(self)@ == old(self)@.missed()
                    },
                }
            },
    {
        if self.l1.contains(id) {
            return Ok(Prefetched::Resident);
        }
        let ghost before = self@;
        match self.load(id) {
            Ok(Loaded::Ready(e)) => {
                self.count_prefetched();
                assert(before.is_warmed_as(id, e, self@));
                Ok(Prefetched::Warmed(e))
            },
            Ok(Loaded::Absent) => Ok(Prefetched::Absent),
            Err(e) => Err(e),
        }
    }

    /// A load that was made ahead of its use has succeeded.
    pub fn count_prefetched(&mut self)
        requires
            old(self).wf(),
        ensures
            final(self).wf(),
            final(self)@ == old(self)@.ahead(),
    {
        let ghost before = self@;
        self.stats.prefetched = self.stats.prefetched.wrapping_add(1);
        assert(self@.stats =~= (TierStats {
            prefetched: before.stats.prefetched.wrapping_add(1),
            ..before.stats
        }));
    }
}

/// What RAM holds has no part in what the tiers below it answer.
proof fn tiers_answer_alike(v: MemoryView, w: MemoryView, id: ExpertId)
    requires
        v.dims == w.dims,
        v.l2 == w.l2,
        v.l3 == w.l3,
    ensures
        forall|tier: MemoryTier, e: Expert| #[trigger]
            v.is_read_from(id, tier, e) ==> w.is_read_from(id, tier, e),
        forall|e: GarudaError| #[trigger] v.is_unreadable(id, e) ==> w.is_unreadable(id, e),
{
    assert forall|tier: MemoryTier, got: Result<Seq<u8>, GarudaError>| #[trigger]
        v.may_find(id, tier, got) implies w.may_find(id, tier, got) by {}
}

/// A made expert comes back as it was made, once RAM has let go of it: a load that a tier
/// answers with the file that was written for it reads the same weights.
pub proof fn a_made_expert_comes_back(
    v: MemoryView,
    made: Expert,
    tier: MemoryTier,
    data: Seq<u8>,
    back: Expert,
)
    requires
        v.fits(made.id, made),
        v.is_read_as(made.id, tier, data, back),
        data == bytes::words_le(expert_words(made)),
    ensures
        back.gate@ == made.gate@,
        back.up@ == made.up@,
        back.down@ == made.down@,
{
    expert_file_reads_back(made, back);
}

/// Whatever tier an expert came from, it is in RAM afterwards and the next load of it is
/// answered from there.
pub proof fn a_loaded_expert_is_resident(v: MemoryView, id: ExpertId, e: Arc<Expert>, tier: MemoryTier)
    requires
        v.wf(),
        v.fits(id, *e),
    ensures
        expert::holds(v.taken(id, e, tier).l1.slots, id),
{
    let slots = v.taken(id, e, tier).l1.slots;
    assert(slots[slots.len() - 1].0 == id);
}

/// A file holds three matrices: first that of `gate`, behind it that of `up`, and last that of
/// `down`.
pub proof fn matrices_lie_in_order(e: Expert, id: ExpertId, dims: ModelDims, data: Seq<u8>)
    requires
        is_decoded(e, id, dims, data),
    ensures
        ({
            let (n, w) = (plane(dims), bytes::words_of(data));
            &&& e.id == id && e.dims == dims
            &&& w.len() == 3 * n
            &&& e.gate@ == w.take(n)
            &&& e.up@ == w.subrange(n, 2 * n)
            &&& e.down@ == w.skip(2 * n)
            &&& n == dims.d_ff * dims.d_model
        }),
{
    let (n, w) = (plane(dims), bytes::words_of(data));
    assert(w == e.gate@ + e.up@ + e.down@);
    assert(e.gate@ =~= w.take(n));
    assert(e.up@ =~= w.subrange(n, 2 * n));
    assert(e.down@ =~= w.skip(2 * n));
}

} // verus!
