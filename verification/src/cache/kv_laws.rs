//! What the operations on a layer's attention state promise together.

use crate::bytes;
use crate::cache::kv;
use crate::cache::kv::{BlockView, KvConfig, KvView, PageView};
use crate::text;
use crate::types::GarudaError;
use vstd::arithmetic::div_mod::*;
use vstd::prelude::*;
use vstd::string::*;

verus! {

/// A position that was appended can be read back, and it leaves the state ready for
/// the next one.
pub proof fn append_reads_back(v: KvView, key: Seq<u32>, value: Seq<u32>)
    requires
        v.wf(),
        v.open_page_whole(),
        v.len < v.max_positions,
        key.len() == v.kv_dim,
        value.len() == v.kv_dim,
    ensures
        v.put(key, value).key(v.len) == Some(key),
        v.put(key, value).value(v.len) == Some(value),
        v.put(key, value).wf(),
        v.put(key, value).open_page_whole(),
{
    kv::put_keeps_wf(v, key, value);
    kv::next_position(v.len, v.block_size);
    let w = v.put(key, value);
    let d = v.kv_dim;
    let r = v.len % v.block_size;
    assert((r + 1) * d == r * d + d) by (nonlinear_arith);
    assert(1 * d == d && 0 * d == 0) by (nonlinear_arith);
    let b = w.pages.last()->Resident_0;
    assert(w.pages[(v.len / v.block_size) as int] == w.pages.last());
    if r != 0 {
        let before = v.pages.last()->Resident_0;
        assert(b.keys == before.keys + key);
        assert(b.values == before.values + value);
    }
    assert(b.keys.subrange((r * d) as int, (r * d + d) as int) =~= key);
    assert(b.values.subrange((r * d) as int, (r * d + d) as int) =~= value);
}

/// Appending a position changes no earlier one.
pub proof fn append_keeps_earlier(v: KvView, key: Seq<u32>, value: Seq<u32>, pos: nat)
    requires
        v.wf(),
        v.open_page_whole(),
        v.len < v.max_positions,
        key.len() == v.kv_dim,
        value.len() == v.kv_dim,
        pos < v.len,
    ensures
        v.put(key, value).key(pos) == v.key(pos),
        v.put(key, value).value(pos) == v.value(pos),
{
    kv::position_has_block(pos, v.len, v.block_size);
    kv::next_position(v.len, v.block_size);
    let w = v.put(key, value);
    let d = v.kv_dim;
    let i = (pos / v.block_size) as int;
    if v.len % v.block_size != 0 && i == v.len / v.block_size {
        lemma_fundamental_div_mod(pos as int, v.block_size as int);
        lemma_fundamental_div_mod(v.len as int, v.block_size as int);
        let p = pos % v.block_size;
        let r = v.len % v.block_size;
        assert(p < r);
        assert(p * d + d <= r * d) by (nonlinear_arith)
            requires
                p < r,
        ;
        let before = v.pages.last()->Resident_0;
        let after = w.pages.last()->Resident_0;
        let off = (p * d) as int;
        assert(after.keys.subrange(off, off + d) =~= before.keys.subrange(off, off + d));
        assert(after.values.subrange(off, off + d) =~= before.values.subrange(off, off + d));
    }
}

/// Cutting a state back to the length it had before some appends gives the state
/// before them, whatever was appended.
pub proof fn truncate_undoes_appends(v: KvView, log: Seq<(Seq<u32>, Seq<u32>)>)
    requires
        v.wf(),
        v.open_page_whole(),
        v.len + log.len() <= v.max_positions,
        forall|i: int|
            0 <= i < log.len() ==> (#[trigger] log[i]).0.len() == v.kv_dim && log[i].1.len()
                == v.kv_dim,
    ensures
        v.put_all(log).cut(v.len) == v,
{
    put_all_keeps_front(v, log);
    let w = v.put_all(log);
    let c = w.cut(v.len);
    if log.len() > 0 {
        kv::shorter_has_blocks(v.len, w.len, v.block_size);
        let i = (v.len / v.block_size) as int;
        let r = v.len % v.block_size;
        if r == 0 {
            assert(c.pages =~= v.pages);
        } else {
            let b = v.pages[i]->Resident_0;
            let grown = w.pages[i]->Resident_0;
            assert(grown.cut(r, v.kv_dim) =~= b);
            assert(c.pages =~= v.pages);
        }
        assert(c =~= v);
    }
}

/// Appends alone leave the block that the sequence ended in where it is: in memory,
/// so that they can be taken back.
pub proof fn appends_spill_nothing(v: KvView, log: Seq<(Seq<u32>, Seq<u32>)>)
    requires
        v.wf(),
        v.open_page_whole(),
        v.len + log.len() <= v.max_positions,
        forall|i: int|
            0 <= i < log.len() ==> (#[trigger] log[i]).0.len() == v.kv_dim && log[i].1.len()
                == v.kv_dim,
    ensures
        !v.put_all(log).cut_refused(v.len),
{
    put_all_keeps_front(v, log);
}

/// What appends leave as it was: whole pages, and the front of the page they go on in.
proof fn put_all_keeps_front(v: KvView, log: Seq<(Seq<u32>, Seq<u32>)>)
    requires
        v.wf(),
        v.open_page_whole(),
        v.len + log.len() <= v.max_positions,
        forall|i: int|
            0 <= i < log.len() ==> (#[trigger] log[i]).0.len() == v.kv_dim && log[i].1.len()
                == v.kv_dim,
    ensures
        v.put_all(log).wf(),
        v.put_all(log).open_page_whole(),
        v.put_all(log) == (KvView {
            pages: v.put_all(log).pages,
            len: v.len + log.len(),
            ..v
        }),
        v.put_all(log).pages.len() >= v.pages.len(),
        forall|b: int|
            0 <= b < v.len / v.block_size ==> #[trigger] v.put_all(log).pages[b] == v.pages[b],
        v.len % v.block_size != 0 ==> ({
            let i = (v.len / v.block_size) as int;
            &&& v.put_all(log).pages[i] is Resident
            &&& v.pages[i]->Resident_0.keys.is_prefix_of(
                v.put_all(log).pages[i]->Resident_0.keys,
            )
            &&& v.pages[i]->Resident_0.values.is_prefix_of(
                v.put_all(log).pages[i]->Resident_0.values,
            )
        }),
    decreases log.len(),
{
    if log.len() > 0 {
        let init = log.drop_last();
        assert forall|i: int| 0 <= i < init.len() implies (#[trigger] init[i]).0.len() == v.kv_dim
            && init[i].1.len() == v.kv_dim by {
            assert(init[i] == log[i]);
        }
        put_all_keeps_front(v, init);
        let u = v.put_all(init);
        let last = log[log.len() - 1];
        append_reads_back(u, last.0, last.1);
        kv::next_position(u.len, v.block_size);
        if init.len() > 0 {
            kv::shorter_has_blocks(v.len, u.len, v.block_size);
        }
        let w = u.put(last.0, last.1);
        assert(v.put_all(log) == w);
        let i = (v.len / v.block_size) as int;
        assert forall|b: int| 0 <= b < i implies #[trigger] w.pages[b] == v.pages[b] by {
            assert(u.pages[b] == v.pages[b]);
            if init.len() > 0 {
                kv::position_has_block(v.len, u.len, v.block_size);
            }
        }
        if v.len % v.block_size != 0 {
            let start = v.pages[i]->Resident_0;
            let mid = u.pages[i]->Resident_0;
            let end = w.pages[i]->Resident_0;
            assert(mid.keys.is_prefix_of(end.keys));
            assert(start.keys =~= end.keys.subrange(0, start.keys.len() as int)) by {
                assert(start.keys =~= mid.keys.subrange(0, start.keys.len() as int));
                assert(mid.keys =~= end.keys.subrange(0, mid.keys.len() as int));
            }
            assert(start.values =~= end.values.subrange(0, start.values.len() as int)) by {
                assert(start.values =~= mid.values.subrange(0, start.values.len() as int));
                assert(mid.values =~= end.values.subrange(0, mid.values.len() as int));
            }
        }
    }
}

/// A cut keeps every position before it and leaves none behind it.
pub proof fn truncate_keeps_earlier(v: KvView, len: nat, pos: nat)
    requires
        v.wf(),
        !v.cut_refused(len),
        len <= v.len,
    ensures
        pos < len ==> v.cut(len).key(pos) == v.key(pos) && v.cut(len).value(pos) == v.value(pos),
        pos >= len ==> v.cut(len).key(pos) is None && v.cut(len).value(pos) is None,
{
    if pos < len && len < v.len {
        kv::position_has_block(pos, len, v.block_size);
        kv::shorter_has_blocks(len, v.len, v.block_size);
        let i = (pos / v.block_size) as int;
        let d = v.kv_dim;
        let keep = len % v.block_size;
        if i == len / v.block_size && v.pages[i] is Resident {
            lemma_fundamental_div_mod(pos as int, v.block_size as int);
            lemma_fundamental_div_mod(len as int, v.block_size as int);
            let p = pos % v.block_size;
            assert(p * d + d <= keep * d) by (nonlinear_arith)
                requires
                    p < keep,
            ;
            let b = v.pages[i]->Resident_0;
            let c = b.cut(keep, d);
            let off = (p * d) as int;
            if off + d <= b.keys.len() {
                assert(c.keys.subrange(off, off + d) =~= b.keys.subrange(off, off + d));
            }
            if off + d <= b.values.len() {
                assert(c.values.subrange(off, off + d) =~= b.values.subrange(off, off + d));
            }
        }
    }
}

/// Reading a spill file back gives the block that was spilled.
pub proof fn spill_file_reads_back(b: BlockView, kv_dim: nat, block_size: nat)
    requires
        b.whole(kv_dim),
        b.filled <= block_size,
        block_size <= u64::MAX,
    ensures
        kv::spill_readable(b.encoded(), kv_dim, block_size),
        kv::spill_decoded(b.encoded(), kv_dim) == b,
{
    let bytes = b.encoded();
    let n = (b.filled * kv_dim) as int;
    bytes::le8_reads_back(b.filled as u64);
    bytes::le_len(b.filled, 8);
    bytes::words_le_len(b.keys);
    bytes::words_le_len(b.values);
    bytes::words_read_back(b.keys);
    bytes::words_read_back(b.values);
    assert(bytes.subrange(0, 8) =~= bytes::le(b.filled, 8));
    assert(kv::spill_filled(bytes) == b.filled);
    assert(bytes.subrange(8, 8 + 4 * n) =~= bytes::words_le(b.keys));
    assert(bytes.subrange(8 + 4 * n, 8 + 8 * n) =~= bytes::words_le(b.values));
    assert(kv::spill_decoded(bytes, kv_dim) =~= b);
}

/// A block that was spilled and read back is as if it had never left: only the two
/// counters tell.
pub proof fn spill_then_restore(v: KvView, b: int)
    requires
        v.wf(),
        v.block_size <= u64::MAX,
        0 <= b < v.pages.len(),
        v.pages[b] matches PageView::Resident(block) && block.whole(v.kv_dim),
    ensures
        kv::spill_readable(v.pages[b]->Resident_0.encoded(), v.kv_dim, v.block_size),
        v.spill(b).restored(b, v.pages[b]->Resident_0.encoded()) == (KvView {
            spills: v.spills.wrapping_add(1),
            reloads: v.reloads.wrapping_add(1),
            ..v
        }),
{
    let block = v.pages[b]->Resident_0;
    assert(v.page_ok(v.pages[b]));
    spill_file_reads_back(block, v.kv_dim, v.block_size);
    assert(v.spill(b).restored(b, block.encoded()).pages =~= v.pages);
}

/// Spilling never changes what is read at a position: it can only put it out of
/// reach until it is reloaded.
pub proof fn spilling_alters_nothing(v: KvView, except: int, n: nat, pos: nat)
    requires
        v.wf(),
        0 <= except < v.pages.len(),
        n < kv::resident_count(v.pages),
    ensures
        v.spill_oldest(except, n).key(pos) is None || v.spill_oldest(except, n).key(pos) == v.key(
            pos,
        ),
        v.spill_oldest(except, n).value(pos) is None || v.spill_oldest(except, n).value(pos)
            == v.value(pos),
{
    spilled_pages(v, except, n);
    if pos < v.len {
        kv::position_has_block(pos, v.len, v.block_size);
    }
}

/// After enough of the oldest blocks went to storage, no more blocks than allowed
/// are in memory, and the block being written to still is.
pub proof fn residency_budget_holds(v: KvView, except: int)
    requires
        v.wf(),
        0 <= except < v.pages.len(),
        v.pages[except] is Resident,
        v.storage is Some,
        v.kv_dim > 0,
    ensures
        kv::resident_count(v.spill_oldest(except, v.excess()).pages) <= v.max_resident_blocks,
        v.spill_oldest(except, v.excess()).pages[except] is Resident,
{
    spilled_pages(v, except, v.excess());
}

proof fn spilled_pages(v: KvView, except: int, n: nat)
    requires
        0 <= except < v.pages.len(),
        n < kv::resident_count(v.pages) || n == 0,
    ensures
        ({
            let w = v.spill_oldest(except, n);
            &&& w == (KvView { pages: w.pages, spills: w.spills, ..v })
            &&& w.pages.len() == v.pages.len()
            &&& kv::resident_count(w.pages) + n == kv::resident_count(v.pages)
            &&& w.pages[except] == v.pages[except]
            &&& forall|b: int|
                0 <= b < v.pages.len() ==> (#[trigger] w.pages[b] == v.pages[b] || w.pages[b]
                    is Spilled)
        }),
    decreases n,
{
    if n > 0 {
        let m = (n - 1) as nat;
        spilled_pages(v, except, m);
        let u = v.spill_oldest(except, m);
        let other = kv::two_residents(u.pages, except);
        kv::oldest_exists(u, except, other);
        kv::count_update(u.pages, u.oldest(except), PageView::Spilled);
    }
}

/// `w` is `v` with some of its blocks in storage.
pub open spec fn is_partly_spilled(w: KvView, v: KvView) -> bool {
    &&& w == (KvView { pages: w.pages, spills: w.spills, reloads: w.reloads, ..v })
    &&& w.pages.len() == v.pages.len()
    &&& forall|b: int|
        0 <= b < v.pages.len() ==> (#[trigger] w.pages[b] == v.pages[b] || w.pages[b] is Spilled)
}

/// Every one of `files` is the spill file of the block of `v` beside it, as it was written.
pub open spec fn are_files_of(v: KvView, blocks: Seq<nat>, files: Seq<Seq<u8>>) -> bool {
    forall|i: int|
        0 <= i < files.len() ==> #[trigger] files[i]
            == v.pages[blocks[i] as int]->Resident_0.encoded()
}

/// Every block of `v` is in memory, and complete.
pub open spec fn is_whole(v: KvView) -> bool {
    forall|b: int|
        0 <= b < v.pages.len() ==> (#[trigger] v.pages[b] matches PageView::Resident(block)
            && block.whole(v.kv_dim))
}

/// The rows of `log` fit a layer of `v`'s shape.
pub open spec fn is_log_for(v: KvView, log: Seq<(Seq<u32>, Seq<u32>)>) -> bool {
    &&& v.len + log.len() <= v.max_positions
    &&& forall|i: int|
        0 <= i < log.len() ==> (#[trigger] log[i]).0.len() == v.kv_dim && log[i].1.len()
            == v.kv_dim
}

/// What was appended to an empty layer is all in memory as long as nothing is spilled,
/// and every row reads as it was appended.
pub proof fn appended_rows_read_back(v: KvView, log: Seq<(Seq<u32>, Seq<u32>)>, pos: nat)
    requires
        v.wf(),
        v.len == 0,
        is_log_for(v, log),
        pos < log.len(),
    ensures
        v.put_all(log).key(pos) == Some(log[pos as int].0),
        v.put_all(log).value(pos) == Some(log[pos as int].1),
    decreases log.len(),
{
    lemma_small_mod(0, v.block_size);
    let init = log.drop_last();
    assert(is_log_for(v, init)) by {
        assert forall|i: int| 0 <= i < init.len() implies (#[trigger] init[i]).0.len() == v.kv_dim
            && init[i].1.len() == v.kv_dim by {
            assert(init[i] == log[i]);
        }
    }
    put_all_keeps_front(v, init);
    let u = v.put_all(init);
    let last = log[log.len() - 1];
    if pos == init.len() {
        append_reads_back(u, last.0, last.1);
    } else {
        appended_rows_read_back(v, init, pos);
        append_keeps_earlier(u, last.0, last.1, pos);
        assert(init[pos as int] == log[pos as int]);
    }
}

proof fn appended_blocks_are_whole(v: KvView, log: Seq<(Seq<u32>, Seq<u32>)>)
    requires
        v.wf(),
        v.len == 0,
        is_log_for(v, log),
    ensures
        v.put_all(log).wf(),
        v.put_all(log).open_page_whole(),
        is_whole(v.put_all(log)),
    decreases log.len(),
{
    lemma_small_mod(0, v.block_size);
    lemma_basic_div(0, v.block_size as int);
    put_all_keeps_front(v, log);
    if log.len() > 0 {
        let init = log.drop_last();
        assert(is_log_for(v, init)) by {
            assert forall|i: int| 0 <= i < init.len() implies (#[trigger] init[i]).0.len()
                == v.kv_dim && init[i].1.len() == v.kv_dim by {
                assert(init[i] == log[i]);
            }
        }
        appended_blocks_are_whole(v, init);
        put_all_keeps_front(v, init);
        let u = v.put_all(init);
        let last = log[log.len() - 1];
        let w = u.put(last.0, last.1);
        let d = v.kv_dim;
        let r = u.len % u.block_size;
        assert((r + 1) * d == r * d + d) by (nonlinear_arith);
        assert(1 * d == d) by (nonlinear_arith);
        assert forall|b: int| 0 <= b < w.pages.len() implies (#[trigger] w.pages[b] matches
            PageView::Resident(block) && block.whole(w.kv_dim)) by {
            if b < u.pages.len() {
                assert(u.pages[b] is Resident);
            }
        }
    }
}

/// An append keeps the rest of the promise: whatever of the layer is in storage, with
/// the new row in it the layer is still the appended rows with some blocks in storage.
pub proof fn append_stays_partly_spilled(
    w: KvView,
    v: KvView,
    key: Seq<u32>,
    value: Seq<u32>,
    after: KvView,
    r: Result<(), GarudaError>,
)
    requires
        w.wf(),
        v.wf(),
        v.len < v.max_positions,
        key.len() == v.kv_dim,
        value.len() == v.kv_dim,
        is_partly_spilled(w, v),
        w.put(key, value).is_kept_to_budget(w.put(key, value).pages.len() - 1, after, r),
    ensures
        is_partly_spilled(after, v.put(key, value)),
{
    let stored = w.put(key, value);
    let except = stored.pages.len() - 1;
    kv::put_keeps_wf(w, key, value);
    kv::put_keeps_wf(v, key, value);
    kv::next_position(v.len, v.block_size);
    let n = choose|n: nat|
        #![trigger stored.spill_oldest(except, n)]
        n <= stored.excess() && after == stored.spill_oldest(except, n);
    spilled_pages(stored, except, n);
    let full = v.put(key, value);
    assert forall|b: int| 0 <= b < full.pages.len() implies (#[trigger] after.pages[b]
        == full.pages[b] || after.pages[b] is Spilled) by {
        assert(after.pages[b] == stored.pages[b] || after.pages[b] is Spilled);
        if b < v.pages.len() {
            assert(w.pages[b] == v.pages[b] || w.pages[b] is Spilled);
        }
    }
}

/// A block between `lo` and `hi` that is in storage is among those that are read back.
proof fn spilled_is_listed(w: KvView, lo: nat, hi: nat, b: nat) -> (i: int)
    requires
        lo <= b < hi,
        b < w.pages.len(),
        w.pages[b as int] is Spilled,
    ensures
        0 <= i < w.spilled_in(lo, hi).len(),
        w.spilled_in(lo, hi)[i] == b,
    decreases hi,
{
    if b == hi - 1 {
        w.spilled_in(lo, hi).len() - 1
    } else {
        spilled_is_listed(w, lo, (hi - 1) as nat, b)
    }
}

/// Only blocks that are in storage are read back, and each of them once.
proof fn listed_is_spilled(w: KvView, lo: nat, hi: nat)
    ensures
        forall|i: int|
            0 <= i < w.spilled_in(lo, hi).len() ==> {
                let b = #[trigger] w.spilled_in(lo, hi)[i];
                lo <= b < hi && b < w.pages.len() && w.pages[b as int] is Spilled
            },
        forall|i: int, j: int|
            0 <= i < j < w.spilled_in(lo, hi).len() ==> w.spilled_in(lo, hi)[i]
                != w.spilled_in(lo, hi)[j],
    decreases hi,
{
    if hi > lo {
        listed_is_spilled(w, lo, (hi - 1) as nat);
    }
}

/// Reading blocks back puts each of them where it was, and touches no other.
proof fn restored_blocks(w: KvView, v: KvView, blocks: Seq<nat>, files: Seq<Seq<u8>>)
    requires
        v.wf(),
        v.block_size <= u64::MAX,
        is_whole(v),
        is_partly_spilled(w, v),
        are_files_of(v, blocks, files),
        forall|i: int|
            0 <= i < blocks.len() ==> (#[trigger] blocks[i]) < w.pages.len()
                && w.pages[blocks[i] as int] is Spilled,
        forall|i: int, j: int| 0 <= i < j < blocks.len() ==> blocks[i] != blocks[j],
        files.len() <= blocks.len(),
        w.all_given(blocks, files),
    ensures
        is_partly_spilled(w.restored_all(blocks, files), v),
        forall|b: int|
            0 <= b < w.pages.len() && !(w.pages[b] is Spilled) ==> !(#[trigger] w.restored_all(
                blocks,
                files,
            ).pages[b] is Spilled),
        forall|i: int|
            0 <= i < files.len() ==> !(w.restored_all(blocks, files).pages[(
            #[trigger] blocks[i]) as int] is Spilled),
    decreases files.len(),
{
    if files.len() > 0 {
        let init = files.drop_last();
        let k = files.len() - 1;
        assert(w.all_given(blocks, init)) by {
            assert forall|i: int| 0 <= i < init.len() implies w.may_give(
                blocks[i],
                Ok(#[trigger] init[i]),
            ) && kv::spill_readable(init[i], w.kv_dim, w.block_size) by {
                assert(init[i] == files[i]);
            }
        }
        assert(are_files_of(v, blocks, init)) by {
            assert forall|i: int| 0 <= i < init.len() implies #[trigger] init[i]
                == v.pages[blocks[i] as int]->Resident_0.encoded() by {
                assert(init[i] == files[i]);
            }
        }
        restored_blocks(w, v, blocks, init);
        let b = blocks[k] as int;
        let block = v.pages[b]->Resident_0;
        assert(v.page_ok(v.pages[b]));
        assert(w.may_give(blocks[k], Ok(files[k])));
        assert(files[k] == block.encoded());
        spill_file_reads_back(block, v.kv_dim, v.block_size);
    }
}

/// The blocks with a position from `start` to before `end` that are in storage.
pub open spec fn blocks_between(w: KvView, start: nat, end: nat) -> Seq<nat> {
    w.spilled_in(start / w.block_size, ((end - 1) as nat / w.block_size + 1) as nat)
}

/// A layer gives back what was appended to it, bit for bit, however much of it went to
/// storage meanwhile.
///
/// `w` is the layer after the rows of `log` were appended to the empty layer `v`, and
/// `files` is what storage gave for the blocks from `start` to before `end`. Where those are
/// the files that were written, every row reads as it was appended once all of them are
/// back. Only a block for which storage gives something else can keep the others away.
pub proof fn what_was_appended_comes_back(
    v: KvView,
    log: Seq<(Seq<u32>, Seq<u32>)>,
    w: KvView,
    start: nat,
    end: nat,
    files: Seq<Seq<u8>>,
    after: KvView,
    r: Result<(), GarudaError>,
)
    requires
        v.wf(),
        v.len == 0,
        v.block_size <= u64::MAX,
        is_log_for(v, log),
        is_partly_spilled(w, v.put_all(log)),
        start < end <= w.len,
        are_files_of(v.put_all(log), blocks_between(w, start, end), files),
        w.is_brought_back_from(blocks_between(w, start, end), files, after, r),
    ensures
        after.len == log.len(),
        is_partly_spilled(after, v.put_all(log)),
        r is Ok ==> forall|pos: nat|
            #![trigger after.key(pos)]
            #![trigger after.value(pos)]
            start <= pos < end ==> after.key(pos) == Some(log[pos as int].0) && after.value(pos)
                == Some(log[pos as int].1),
        r is Err ==> {
            let b = blocks_between(w, start, end)[files.len() as int];
            exists|got: Result<Seq<u8>, GarudaError>| #[trigger]
                w.may_give(b, got) && got != Ok::<Seq<u8>, GarudaError>(
                    v.put_all(log).pages[b as int]->Resident_0.encoded(),
                )
        },
{
    let full = v.put_all(log);
    let lo = start / w.block_size;
    let hi = ((end - 1) as nat / w.block_size + 1) as nat;
    let needed = w.spilled_in(lo, hi);
    lemma_small_mod(0, v.block_size);
    put_all_keeps_front(v, log);
    appended_blocks_are_whole(v, log);
    listed_is_spilled(w, lo, hi);
    assert(needed == blocks_between(w, start, end));
    if r is Err {
        let e = r->Err_0;
        let b = needed[files.len() as int];
        let block = full.pages[b as int]->Resident_0;
        assert(full.page_ok(full.pages[b as int]));
        spill_file_reads_back(block, full.kv_dim, full.block_size);
        if !w.may_give(b, Err(e)) {
            let bytes = choose|bytes: Seq<u8>| #[trigger]
                w.may_give(b, Ok(bytes)) && !kv::spill_readable(bytes, w.kv_dim, w.block_size)
                    && kv::is_refusal(b, bytes, e);
            let got = Ok::<Seq<u8>, GarudaError>(bytes);
            assert(w.may_give(b, got) && bytes != block.encoded());
        }
    }
    restored_blocks(w, full, needed, files);
    assert forall|pos: nat|
        #![trigger after.key(pos)]
        #![trigger after.value(pos)]
        r is Ok && start <= pos < end implies after.key(pos) == Some(log[pos as int].0) && after.value(pos)
        == Some(log[pos as int].1) by {
        let b = pos / w.block_size;
        kv::position_has_block(pos, w.len, w.block_size);
        lemma_div_is_ordered(start as int, pos as int, w.block_size as int);
        lemma_div_is_ordered(pos as int, end - 1, w.block_size as int);
        if w.pages[b as int] is Spilled {
            let i = spilled_is_listed(w, lo, hi, b);
            assert(needed[i] == b);
        }
        assert(after.pages[b as int] == full.pages[b as int]);
        appended_rows_read_back(v, log, pos);
    }
}

proof fn separators_are_no_digits()
    ensures
        "/layer_"@.len() > 0 && !text::is_digit("/layer_"@[0]),
        "/block_"@.len() > 0 && !text::is_digit("/block_"@[0]),
        ".bin"@.len() > 0 && !text::is_digit(".bin"@[0]),
{
    reveal_strlit("/layer_");
    reveal_strlit("/block_");
    reveal_strlit(".bin");
}

/// A layer that is intact is ready for the next position.
pub proof fn an_intact_layer_is_ready(v: KvView)
    requires
        v.is_intact(),
    ensures
        v.open_page_whole(),
{
    if v.len % v.block_size != 0 {
        assert(v.pages[v.pages.len() - 1] == v.pages.last());
    }
}

/// An empty layer is intact.
pub proof fn empty_layers_are_intact(cfg: KvConfig, seq_id: u64, layer: nat)
    ensures
        cfg.empty_layer(seq_id, layer).is_intact(),
{
    let n = kv::at_least_one(cfg.dims.block_size as nat);
    lemma_small_mod(0, n);
    lemma_basic_div(0, n as int);
}

/// A layer that is intact stays so under a new name.
pub proof fn a_name_keeps_a_layer_intact(v: KvView, seq_id: u64)
    requires
        v.is_intact(),
    ensures
        (KvView { seq_id, ..v }).is_intact(),
{
    let w = KvView { seq_id, ..v };
    assert forall|b: int| 0 <= b < w.pages.len() implies match #[trigger] w.pages[b] {
        PageView::Resident(block) => block.whole(w.kv_dim) && block.filled == w.positions_in(b),
        PageView::Spilled => true,
        PageView::Gone => false,
    } by {
        assert(v.pages[b] == w.pages[b]);
        assert(w.positions_in(b) == v.positions_in(b));
    }
    assert forall|b: int| 0 <= b < w.pages.len() implies w.page_ok(#[trigger] w.pages[b]) by {
        assert(v.page_ok(v.pages[b]));
    }
}

/// Appending keeps a layer intact, whatever goes to storage meanwhile.
pub proof fn appending_keeps_a_layer_intact(
    v: KvView,
    key: Seq<u32>,
    value: Seq<u32>,
    after: KvView,
    r: Result<(), GarudaError>,
)
    requires
        v.is_intact(),
        v.len < v.max_positions,
        key.len() == v.kv_dim,
        value.len() == v.kv_dim,
        v.put(key, value).is_kept_to_budget(
            v.put(key, value).pages.len() - 1,
            after,
            r,
        ),
    ensures
        after.is_intact(),
{
    an_intact_layer_is_ready(v);
    append_reads_back(v, key, value);
    kv::put_keeps_wf(v, key, value);
    kv::next_position(v.len, v.block_size);
    let w = v.put(key, value);
    let d = v.kv_dim;
    assert(1 * d == d) by (nonlinear_arith);
    lemma_fundamental_div_mod(v.len as int, v.block_size as int);
    assert forall|b: int| 0 <= b < w.pages.len() implies match #[trigger] w.pages[b] {
        PageView::Resident(block) => block.whole(w.kv_dim) && block.filled == w.positions_in(b),
        PageView::Spilled => true,
        PageView::Gone => false,
    } by {
        if b < w.pages.len() - 1 {
            assert(w.pages[b] == v.pages[b]);
        } else {
            let r0 = v.len % v.block_size;
            assert((r0 + 1) * d == r0 * d + d) by (nonlinear_arith);
            if r0 != 0 {
                assert(v.pages[v.pages.len() - 1] == v.pages.last());
            }
        }
    }
    let except = w.pages.len() - 1;
    let n = choose|n: nat|
        #![trigger w.spill_oldest(except, n)]
        {
            &&& n <= w.excess()
            &&& after == w.spill_oldest(except, n)
            &&& w.may_take_oldest(except, n)
            &&& r is Ok <==> n == w.excess()
            &&& r matches Err(e) ==> after.may_spill(after.oldest(except), Some(e))
        };
    spilled_pages(w, except, n);
    assert(n == 0 ==> after == w);
    assert forall|b: int| 0 <= b < after.pages.len() implies after.page_ok(
        #[trigger] after.pages[b],
    ) && match after.pages[b] {
        PageView::Resident(block) => block.whole(after.kv_dim) && block.filled
            == after.positions_in(b),
        PageView::Spilled => true,
        PageView::Gone => false,
    } by {
        assert(after.positions_in(b) == w.positions_in(b));
        assert(w.page_ok(w.pages[b]));
    }
}

/// A cut keeps a layer intact.
pub proof fn a_cut_keeps_a_layer_intact(v: KvView, len: nat)
    requires
        v.is_intact(),
        !v.cut_refused(len),
    ensures
        v.cut(len).is_intact(),
{
    kv::cut_keeps_wf(v, len);
    if len < v.len {
        kv::shorter_has_blocks(len, v.len, v.block_size);
        lemma_mod_bound(len as int, v.block_size as int);
        lemma_div_is_ordered(len as int, v.len as int, v.block_size as int);
        let w = v.cut(len);
        let i = (len / v.block_size) as int;
        let keep = len % v.block_size;
        assert forall|b: int| 0 <= b < w.pages.len() implies match #[trigger] w.pages[b] {
            PageView::Resident(block) => block.whole(w.kv_dim) && block.filled == w.positions_in(b),
            PageView::Spilled => true,
            PageView::Gone => false,
        } by {
            if b < i {
                assert(w.pages[b] == v.pages[b]);
                assert(v.positions_in(b) == v.block_size);
            } else {
                let whole = v.pages[i]->Resident_0;
                lemma_fundamental_div_mod(len as int, v.block_size as int);
                lemma_fundamental_div_mod(v.len as int, v.block_size as int);
                assert(keep <= v.positions_in(i));
                let d = v.kv_dim;
                assert(keep * d <= v.positions_in(i) * d) by (nonlinear_arith)
                    requires
                        keep <= v.positions_in(i),
                ;
            }
        }
    }
}

/// Reading blocks back keeps a layer intact, as long as every file that storage gives has
/// all positions of its block.
pub proof fn reading_back_keeps_a_layer_intact(
    v: KvView,
    lo: nat,
    hi: nat,
    files: Seq<Seq<u8>>,
    after: KvView,
    r: Result<(), GarudaError>,
)
    requires
        v.is_intact(),
        v.is_brought_back_from(v.spilled_in(lo, hi), files, after, r),
        forall|i: int|
            0 <= i < files.len() ==> kv::spill_filled(#[trigger] files[i]) == v.block_size,
    ensures
        after.is_intact(),
{
    listed_is_spilled(v, lo, hi);
    files_keep_a_layer_intact(v, v.spilled_in(lo, hi), files);
}

proof fn files_keep_a_layer_intact(v: KvView, blocks: Seq<nat>, files: Seq<Seq<u8>>)
    requires
        v.is_intact(),
        files.len() <= blocks.len(),
        v.all_given(blocks, files),
        forall|i: int|
            0 <= i < blocks.len() ==> (#[trigger] blocks[i]) < v.pages.len()
                && v.pages[blocks[i] as int] is Spilled,
        forall|i: int, j: int| 0 <= i < j < blocks.len() ==> blocks[i] != blocks[j],
        forall|i: int|
            0 <= i < files.len() ==> kv::spill_filled(#[trigger] files[i]) == v.block_size,
    ensures
        ({
            let w = v.restored_all(blocks, files);
            &&& w.is_intact()
            &&& w == (KvView { pages: w.pages, reloads: w.reloads, ..v })
            &&& w.pages.len() == v.pages.len()
            &&& forall|i: int|
                files.len() <= i < blocks.len() ==> w.pages[(#[trigger] blocks[i]) as int] is Spilled
        }),
    decreases files.len(),
{
    if files.len() > 0 {
        let init = files.drop_last();
        let k = files.len() - 1;
        assert(v.all_given(blocks, init)) by {
            assert forall|i: int| 0 <= i < init.len() implies v.may_give(
                blocks[i],
                Ok(#[trigger] init[i]),
            ) && kv::spill_readable(init[i], v.kv_dim, v.block_size) by {
                assert(init[i] == files[i]);
            }
        }
        assert forall|i: int| 0 <= i < init.len() implies kv::spill_filled(#[trigger] init[i])
            == v.block_size by {
            assert(init[i] == files[i]);
        }
        files_keep_a_layer_intact(v, blocks, init);
        let u = v.restored_all(blocks, init);
        let at = blocks[k] as int;
        assert(v.may_give(blocks[k], Ok(files[k])));
        kv::restored_keeps_wf(u, at, files[k]);
        let w = u.restored(at, files[k]);
        assert(w == v.restored_all(blocks, files));
        assert(at == u.pages.len() - 1 ==> u.len % u.block_size == 0);
        assert forall|b: int| 0 <= b < w.pages.len() implies match #[trigger] w.pages[b] {
            PageView::Resident(block) => block.whole(w.kv_dim) && block.filled == w.positions_in(b),
            PageView::Spilled => true,
            PageView::Gone => false,
        } by {
            assert(w.positions_in(b) == u.positions_in(b));
            if b != at {
                assert(w.pages[b] == u.pages[b]);
            }
        }
    }
}

/// A path read from the left.
proof fn spill_path_parts(seq_id: u64, layer: nat, block: nat)
    ensures
        kv::spill_path_text(seq_id, layer, block) == "kv/seq_"@ + (text::decimal(seq_id as nat) + (
        "/layer_"@ + (text::decimal(layer) + ("/block_"@ + (text::decimal(block) + ".bin"@))))),
{
    assert(kv::spill_path_text(seq_id, layer, block) =~= "kv/seq_"@ + (text::decimal(seq_id as nat)
        + ("/layer_"@ + (text::decimal(layer) + ("/block_"@ + (text::decimal(block) + ".bin"@))))));
}

/// Two spill files with the same path belong to the same sequence, layer and block.
pub proof fn spill_paths_are_distinct(
    seq_a: u64,
    layer_a: nat,
    block_a: nat,
    seq_b: u64,
    layer_b: nat,
    block_b: nat,
)
    requires
        kv::spill_path_text(seq_a, layer_a, block_a) == kv::spill_path_text(seq_b, layer_b, block_b),
    ensures
        seq_a == seq_b,
        layer_a == layer_b,
        block_a == block_b,
{
    let end_a = text::decimal(block_a) + ".bin"@;
    let end_b = text::decimal(block_b) + ".bin"@;
    let mid_a = text::decimal(layer_a) + ("/block_"@ + end_a);
    let mid_b = text::decimal(layer_b) + ("/block_"@ + end_b);
    let all_a = text::decimal(seq_a as nat) + ("/layer_"@ + mid_a);
    let all_b = text::decimal(seq_b as nat) + ("/layer_"@ + mid_b);
    spill_path_parts(seq_a, layer_a, block_a);
    spill_path_parts(seq_b, layer_b, block_b);
    separators_are_no_digits();
    text::same_head_same_tail("kv/seq_"@, all_a, all_b);
    text::number_then_text_is_injective(
        seq_a as nat,
        seq_b as nat,
        "/layer_"@ + mid_a,
        "/layer_"@ + mid_b,
    );
    text::same_head_same_tail("/layer_"@, mid_a, mid_b);
    text::number_then_text_is_injective(layer_a, layer_b, "/block_"@ + end_a, "/block_"@ + end_b);
    text::same_head_same_tail("/block_"@, end_a, end_b);
    text::number_then_text_is_injective(block_a, block_b, ".bin"@, ".bin"@);
}

/// As many blocks leave RAM as there are too many, and none where storage is missing, where the
/// layer stores nothing, or where there are not too many.
pub proof fn no_more_blocks_leave_than_have_to(v: KvView)
    ensures
        v.storage is None || v.kv_dim == 0 ==> v.excess() == 0,
        kv::resident_count(v.pages) <= v.max_resident_blocks ==> v.excess() == 0,
        v.storage is Some && v.kv_dim > 0 && kv::resident_count(v.pages) > v.max_resident_blocks
            ==> v.excess() + v.max_resident_blocks == kv::resident_count(v.pages),
{
}

/// The block that leaves first is the oldest in RAM, but for the one in use.
pub proof fn the_oldest_block_leaves_first(v: KvView, except: int, b: int, c: int)
    requires
        v.is_oldest(except, b),
        0 <= c < v.pages.len(),
        c != except,
        v.pages[c] is Resident,
    ensures
        b <= c,
        b != except,
        v.pages[b] is Resident,
        v.spill(b).pages[b] is Spilled,
        c != b ==> v.spill(b).pages[c] == v.pages[c],
        v.spill(b).spills == v.spills.wrapping_add(1),
        v.spill(b).len == v.len,
{
}

/// Blocks in RAM are counted, and so are the words that they hold.
pub proof fn blocks_in_ram_are_counted(pages: Seq<PageView>, p: PageView)
    ensures
        kv::resident_count(Seq::empty()) == 0,
        kv::resident_words(Seq::empty()) == 0,
        p matches PageView::Resident(b) ==> {
            &&& kv::resident_count(pages.push(p)) == kv::resident_count(pages) + 1
            &&& kv::resident_words(pages.push(p)) == kv::resident_words(pages) + b.keys.len()
                + b.values.len()
        },
        !(p is Resident) ==> kv::resident_count(pages.push(p)) == kv::resident_count(pages)
            && kv::resident_words(pages.push(p)) == kv::resident_words(pages),
{
    assert(pages.push(p).drop_last() =~= pages);
}

/// A position lies in the block that its number says, and the last block is only as full as the
/// positions reach.
pub proof fn blocks_cover_the_positions(len: nat, block_size: nat, pos: nat)
    requires
        block_size > 0,
        pos < len,
    ensures
        pos / block_size < kv::blocks_for(len, block_size),
        (kv::blocks_for(len, block_size) - 1) * block_size < len <= kv::blocks_for(len, block_size)
            * block_size,
{
    let (l, b, p) = (len as int, block_size as int, pos as int);
    vstd::arithmetic::div_mod::lemma_fundamental_div_mod(l, b);
    vstd::arithmetic::div_mod::lemma_fundamental_div_mod(p, b);
    let (q, r) = (l / b, l % b);
    let (x, y) = (p / b, p % b);
    let n = kv::blocks_for(len, block_size) as int;
    assert(x < n && (n - 1) * b < l && l <= n * b) by (nonlinear_arith)
        requires
            b > 0,
            l == b * q + r,
            p == b * x + y,
            0 <= r < b,
            0 <= y < b,
            0 <= p < l,
            n == if r == 0 {
                q
            } else {
                q + 1
            },
    ;
}

/// A spill file is the number of positions in eight bytes, then the keys, then the values.
pub proof fn spill_files_lie_in_order(b: BlockView)
    ensures
        ({
            let n = bytes::words_le(b.keys).len() as int;
            &&& b.encoded().take(8) == bytes::le(b.filled, 8)
            &&& b.encoded().subrange(8, 8 + n) == bytes::words_le(b.keys)
            &&& b.encoded().skip(8 + n) == bytes::words_le(b.values)
        }),
{
    bytes::le_len(b.filled, 8);
    let n = bytes::words_le(b.keys).len() as int;
    assert(b.encoded().take(8) =~= bytes::le(b.filled, 8));
    assert(b.encoded().subrange(8, 8 + n) =~= bytes::words_le(b.keys));
    assert(b.encoded().skip(8 + n) =~= bytes::words_le(b.values));
}

} // verus!
