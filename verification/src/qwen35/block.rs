//! How a block lays out its projections in heads, and what a token does to the state it
//! reads.

use crate::cache::sequence;
use crate::cache::sequence::{LinearView, SeqState, SeqView};
use crate::qwen35::config::Qwen35Config;
use crate::types::GarudaError;
use vstd::prelude::*;
use vstd::slice::slice_to_vec;

verus! {

/// Which key head a delta net's value head reads, when the value heads outnumber them:
/// the key heads as a block repeat, so value head `hv` reads key head `hv % n_k_heads`.
///
/// This is a **file** convention, not a mathematical one: another weight layout repeats
/// each key head for a run of value heads. Getting it backwards is no crash: every head
/// still reads a real memory, just one that another head wrote.
pub fn key_head_of(hv: usize, n_k_heads: usize) -> (hk: usize)
    requires
        n_k_heads > 0,
    ensures
        hk == hv % n_k_heads,
        hk < n_k_heads,
{
    hv % n_k_heads
}

/// Which key/value head a query head reads: several neighbours share one.
pub open spec fn kv_head(h: int, n_heads: int, n_kv_heads: int) -> int {
    h / (n_heads / n_kv_heads)
}

/// Which key/value head query head `h` reads.
pub fn kv_head_of(h: usize, n_heads: usize, n_kv_heads: usize) -> (k: usize)
    requires
        n_kv_heads > 0,
        n_heads % n_kv_heads == 0,
        h < n_heads,
    ensures
        k == kv_head(h as int, n_heads as int, n_kv_heads as int),
        k < n_kv_heads,
        k == h as int / (n_heads as int / n_kv_heads as int),
{
    let group: usize = n_heads / n_kv_heads;
    proof {
        vstd::arithmetic::div_mod::lemma_fundamental_div_mod(n_heads as int, n_kv_heads as int);
        assert(group > 0) by (nonlinear_arith)
            requires
                n_heads == n_kv_heads * group,
                n_heads > 0,
                group >= 0,
        ;
        let k = h as int / group as int;
        vstd::arithmetic::div_mod::lemma_fundamental_div_mod(h as int, group as int);
        assert(k < n_kv_heads) by (nonlinear_arith)
            requires
                h == group * k + h as int % group as int,
                h as int % group as int >= 0,
                h < n_kv_heads * group,
                group > 0,
        ;
    }
    h / group
}

/// Every key/value head serves the same number of query heads.
pub proof fn query_heads_share_evenly(n_kv_heads: int, group: int, k: int, i: int)
    requires
        n_kv_heads > 0,
        group > 0,
        0 <= k < n_kv_heads,
        0 <= i < group,
    ensures
        kv_head(k * group + i, n_kv_heads * group, n_kv_heads) == k,
{
    assert(n_kv_heads * group == group * n_kv_heads) by (nonlinear_arith);
    vstd::arithmetic::div_mod::lemma_div_multiples_vanish(group, n_kv_heads);
    vstd::arithmetic::div_mod::lemma_fundamental_div_mod_converse(k * group + i, group, k, i);
}

/// Takes a projection apart that emits a query and a gate for each head in turn.
pub fn split_query_gate(row: &[u32], n_heads: usize, head_dim: usize) -> (r: (Vec<u32>, Vec<u32>))
    requires
        row@.len() == n_heads * (2 * head_dim),
    ensures
        r.0@.len() == n_heads * head_dim,
        r.1@.len() == n_heads * head_dim,
        forall|h: int, i: int|
            #![trigger r.0@[h * head_dim + i]]
            0 <= h < n_heads && 0 <= i < head_dim ==> r.0@[h * head_dim + i] == row@[h * (2
                * head_dim) + i],
        forall|h: int, i: int|
            #![trigger r.1@[h * head_dim + i]]
            0 <= h < n_heads && 0 <= i < head_dim ==> r.1@[h * head_dim + i] == row@[h * (2
                * head_dim) + head_dim + i],
{
    let mut q: Vec<u32> = Vec::new();
    let mut gate: Vec<u32> = Vec::new();
    let mut h: usize = 0;
    assert(row@.len() == row.len());
    while h < n_heads
        invariant
            h <= n_heads,
            row@.len() == n_heads * (2 * head_dim),
            row@.len() <= usize::MAX,
            q@.len() == h * head_dim,
            gate@.len() == h * head_dim,
            forall|x: int|
                0 <= x < q@.len() ==> #[trigger] q@[x] == row@[query_place(x, head_dim as int)],
            forall|x: int|
                0 <= x < gate@.len() ==> #[trigger] gate@[x] == row@[query_place(
                    x,
                    head_dim as int,
                ) + head_dim],
        decreases n_heads - h,
    {
        let mut i: usize = 0;
        assert((h + 1) * head_dim == h * head_dim + head_dim) by (nonlinear_arith);
        assert(0 <= h * (2 * head_dim) && h * (2 * head_dim) + 2 * head_dim <= n_heads * (2
            * head_dim)) by (nonlinear_arith)
            requires
                h < n_heads,
        ;
        while i < head_dim
            invariant
                h < n_heads,
                i <= head_dim,
                row@.len() == n_heads * (2 * head_dim),
                row@.len() <= usize::MAX,
                0 <= h * (2 * head_dim),
                h * (2 * head_dim) + 2 * head_dim <= row@.len(),
                q@.len() == h * head_dim + i,
                gate@.len() == h * head_dim + i,
                forall|x: int|
                    0 <= x < q@.len() ==> #[trigger] q@[x] == row@[query_place(
                        x,
                        head_dim as int,
                    )],
                forall|x: int|
                    0 <= x < gate@.len() ==> #[trigger] gate@[x] == row@[query_place(
                        x,
                        head_dim as int,
                    ) + head_dim],
            decreases head_dim - i,
        {
            proof {
                query_place_of(h as int, i as int, head_dim as int);
            }
            let at: usize = h * (2 * head_dim) + i;
            q.push(row[at]);
            gate.push(row[at + head_dim]);
            i += 1;
        }
        h += 1;
    }
    proof {
        assert forall|h: int, i: int|
            #![trigger q@[h * head_dim + i]]
            0 <= h < n_heads && 0 <= i < head_dim implies q@[h * head_dim + i] == row@[h * (2
            * head_dim) + i] by {
            query_place_of(h, i, head_dim as int);
            in_heads(h, i, n_heads as int, head_dim as int);
        }
        assert forall|h: int, i: int|
            #![trigger gate@[h * head_dim + i]]
            0 <= h < n_heads && 0 <= i < head_dim implies gate@[h * head_dim + i] == row@[h * (2
            * head_dim) + head_dim + i] by {
            query_place_of(h, i, head_dim as int);
            in_heads(h, i, n_heads as int, head_dim as int);
        }
    }
    (q, gate)
}

/// Where component `x` of all queries stands in a row of queries and gates.
spec fn query_place(x: int, head_dim: int) -> int {
    x / head_dim * (2 * head_dim) + x % head_dim
}

proof fn query_place_of(h: int, i: int, head_dim: int)
    requires
        0 <= h,
        0 <= i < head_dim,
    ensures
        query_place(h * head_dim + i, head_dim) == h * (2 * head_dim) + i,
{
    vstd::arithmetic::div_mod::lemma_fundamental_div_mod_converse(
        h * head_dim + i,
        head_dim,
        h,
        i,
    );
}

proof fn in_heads(h: int, i: int, n: int, head_dim: int)
    requires
        0 <= h < n,
        0 <= i < head_dim,
    ensures
        0 <= h * head_dim + i < n * head_dim,
{
    assert(0 <= h * head_dim + i < n * head_dim) by (nonlinear_arith)
        requires
            0 <= h < n,
            0 <= i < head_dim,
    ;
}

/// What channel `c` remembers: the inputs before this one, oldest first.
pub open spec fn remembered(conv: Seq<u32>, c: int, kernel: int) -> Seq<u32> {
    conv.subrange(c * (kernel - 1), (c + 1) * (kernel - 1))
}

/// The places that channel `c` has in a history of `n` channels.
pub(crate) proof fn channel_within(c: int, n: int, kernel: int)
    requires
        0 <= c < n,
        kernel >= 2,
    ensures
        0 <= c * (kernel - 1),
        c * (kernel - 1) + (kernel - 1) == (c + 1) * (kernel - 1),
        (c + 1) * (kernel - 1) <= n * (kernel - 1),
{
    assert(0 <= c * (kernel - 1) && c * (kernel - 1) + (kernel - 1) == (c + 1) * (kernel - 1) && (c
        + 1) * (kernel - 1) <= n * (kernel - 1)) by (nonlinear_arith)
        requires
            0 <= c < n,
            kernel >= 2,
    ;
}

/// The inputs that the convolution of channel `c` runs over: those it remembers, then
/// this one.
pub fn conv_window(conv: &[u32], raw: &[u32], c: usize, kernel: usize) -> (w: Vec<u32>)
    requires
        kernel >= 2,
        c < raw@.len(),
        conv@.len() == raw@.len() * (kernel - 1),
    ensures
        w@ == remembered(conv@, c as int, kernel as int).push(raw@[c as int]),
        w@.len() == kernel,
        w@[kernel - 1] == raw@[c as int],
        forall|j: int|
            0 <= j < kernel - 1 ==> #[trigger] w@[j] == conv@[c * (kernel - 1) + j],
{
    proof {
        channel_within(c as int, raw@.len() as int, kernel as int);
    }
    assert(conv@.len() == conv.len());
    let start: usize = c * (kernel - 1);
    let mut w: Vec<u32> = Vec::new();
    let mut j: usize = 0;
    while j < kernel - 1
        invariant
            kernel >= 2,
            j <= kernel - 1,
            start == c * (kernel - 1),
            start + (kernel - 1) <= conv@.len() <= usize::MAX,
            w@ == conv@.subrange(start as int, start + j),
        decreases kernel - 1 - j,
    {
        assert(conv@.subrange(start as int, start + j + 1) =~= conv@.subrange(
            start as int,
            start + j,
        ).push(conv@[start + j]));
        w.push(conv[start + j]);
        j += 1;
    }
    w.push(raw[c]);
    w
}

/// The history after one more input to every channel.
pub open spec fn shifted(conv: Seq<u32>, raw: Seq<u32>, kernel: int) -> Seq<u32> {
    Seq::new(
        conv.len(),
        |x: int|
            if x % (kernel - 1) == kernel - 2 {
                raw[x / (kernel - 1)]
            } else {
                conv[x + 1]
            },
    )
}

/// Makes every channel forget its oldest input and remember this one.
pub fn shift_history(conv: &mut Vec<u32>, raw: &[u32], kernel: usize)
    requires
        kernel >= 2,
        old(conv)@.len() == raw@.len() * (kernel - 1),
    ensures
        final(conv)@ == shifted(old(conv)@, raw@, kernel as int),
{
    let ghost before = conv@;
    let mut x: usize = 0;
    while x < conv.len()
        invariant
            kernel >= 2,
            before == old(conv)@,
            conv@.len() == before.len(),
            before.len() == raw@.len() * (kernel - 1),
            x <= conv@.len(),
            forall|k: int|
                0 <= k < x ==> #[trigger] conv@[k] == shifted(before, raw@, kernel as int)[k],
            forall|k: int| x <= k < conv@.len() ==> #[trigger] conv@[k] == before[k],
        decreases conv@.len() - x,
    {
        proof {
            let (m, n) = (kernel - 1, raw@.len() as int);
            let c = x as int / m;
            vstd::arithmetic::div_mod::lemma_fundamental_div_mod(x as int, m);
            assert(c < n) by (nonlinear_arith)
                requires
                    x == m * c + x as int % m,
                    x as int % m >= 0,
                    x < n * m,
                    m > 0,
            ;
            if x as int % m != m - 1 {
                assert(x + 1 < n * m) by (nonlinear_arith)
                    requires
                        x == m * c + x as int % m,
                        x as int % m < m - 1,
                        c < n,
                        m > 0,
                ;
            }
        }
        let v: u32 = if x % (kernel - 1) == kernel - 2 {
            raw[x / (kernel - 1)]
        } else {
            conv[x + 1]
        };
        conv.set(x, v);
        x += 1;
    }
    assert(conv@ =~= shifted(before, raw@, kernel as int));
}

/// What a channel remembers after one more input: it forgets the oldest and appends the
/// new one.
pub proof fn shifting_slides_the_window(conv: Seq<u32>, raw: Seq<u32>, c: int, kernel: int)
    requires
        kernel >= 2,
        0 <= c < raw.len(),
        conv.len() == raw.len() * (kernel - 1),
    ensures
        remembered(shifted(conv, raw, kernel), c, kernel) == remembered(conv, c, kernel).push(
            raw[c],
        ).skip(1),
{
    let m = kernel - 1;
    channel_within(c, raw.len() as int, kernel);
    let a = remembered(shifted(conv, raw, kernel), c, kernel);
    let b = remembered(conv, c, kernel).push(raw[c]).skip(1);
    assert forall|j: int| 0 <= j < m implies a[j] == b[j] by {
        vstd::arithmetic::div_mod::lemma_fundamental_div_mod_converse(c * m + j, m, c, j);
    }
    assert(a =~= b);
}

/// The history after `inputs`, from `conv`.
pub open spec fn after_inputs(conv: Seq<u32>, inputs: Seq<Seq<u32>>, kernel: int) -> Seq<u32>
    decreases inputs.len(),
{
    if inputs.len() == 0 {
        conv
    } else {
        shifted(after_inputs(conv, inputs.drop_last(), kernel), inputs.last(), kernel)
    }
}

/// Channel `c` of a series of inputs.
pub open spec fn channel(inputs: Seq<Seq<u32>>, c: int) -> Seq<u32> {
    Seq::new(inputs.len(), |t: int| inputs[t][c])
}

/// What a channel remembers is its most recent inputs, oldest first, whatever came
/// before them.
pub proof fn history_is_the_recent_inputs(
    conv: Seq<u32>,
    inputs: Seq<Seq<u32>>,
    n: nat,
    c: int,
    kernel: int,
)
    requires
        kernel >= 2,
        0 <= c < n,
        conv.len() == n * (kernel - 1),
        forall|t: int| 0 <= t < inputs.len() ==> (#[trigger] inputs[t]).len() == n,
    ensures
        after_inputs(conv, inputs, kernel).len() == conv.len(),
        remembered(after_inputs(conv, inputs, kernel), c, kernel) == (remembered(conv, c, kernel)
            + channel(inputs, c)).skip(inputs.len() as int),
    decreases inputs.len(),
{
    channel_within(c, n as int, kernel);
    let old_part = remembered(conv, c, kernel);
    if inputs.len() == 0 {
        assert((old_part + channel(inputs, c)).skip(0) =~= old_part);
    } else {
        let init = inputs.drop_last();
        history_is_the_recent_inputs(conv, init, n, c, kernel);
        let mid = after_inputs(conv, init, kernel);
        let last = inputs.last();
        assert(last == inputs[inputs.len() - 1]);
        shifting_slides_the_window(mid, last, c, kernel);
        let all = old_part + channel(inputs, c);
        let part = old_part + channel(init, c);
        assert(all =~= part.push(last[c]));
        assert(part.skip(init.len() as int).push(last[c]).skip(1) =~= all.skip(
            inputs.len() as int,
        ));
    }
}

/// The recurrent state that layer `l` has, or gets on first use.
pub open spec fn state_before(v: SeqView, l: int, c: Qwen35Config) -> LinearView {
    match v.linear[l] {
        Some(held) => held,
        None => LinearView::zeros(c.conv_len() as nat, c.state_len() as nat),
    }
}

/// Feeds one token's joint projection to the convolution of a delta net block: gives
/// the inputs that each channel runs over, and lets each remember the new one. Only the
/// history of this layer changes.
pub fn delta_token(seq: &mut SeqState, c: &Qwen35Config, l: usize, raw: &[u32]) -> (r: Result<
    Vec<Vec<u32>>,
    GarudaError,
>)
    requires
        old(seq).wf(),
        c.wf(),
        c.fits(),
        raw@.len() == c.conv_width(),
    ensures
        match r {
            Ok(ws) => {
                let held = state_before(old(seq)@, l as int, *c);
                &&& l < old(seq)@.linear.len()
                &&& held.conv.len() == c.conv_len()
                &&& held.state.len() == c.state_len()
                &&& ws@.len() == raw@.len()
                &&& forall|k: int|
                    0 <= k < raw@.len() ==> (#[trigger] ws@[k])@ == remembered(
                        held.conv,
                        k,
                        c.conv_kernel as int,
                    ).push(raw@[k])
                &&& final(seq)@ == (SeqView {
                    linear: old(seq)@.linear.update(
                        l as int,
                        Some(
                            LinearView {
                                conv: shifted(held.conv, raw@, c.conv_kernel as int),
                                ..held
                            },
                        ),
                    ),
                    ..old(seq)@
                })
            },
            Err(e) => {
                &&& final(seq)@ == old(seq)@
                &&& if l >= old(seq)@.linear.len() {
                    e matches GarudaError::Cache(m) && m@ == sequence::layer_range_message(
                        l as nat,
                        old(seq)@.linear.len(),
                    )
                } else {
                    old(seq)@.linear[l as int] matches Some(held) && (held.conv.len()
                        != c.conv_len() || held.state.len() != c.state_len()) && (
                    e matches GarudaError::Cache(m) && m@ == sequence::layer_shape_message(
                        l as nat,
                        held.conv.len(),
                        held.state.len(),
                        c.conv_len() as nat,
                        c.state_len() as nat,
                    ))
                }
            },
        },
{
    let (conv_len, state_len) = c.linear_state_shape();
    let ls = match seq.linear(l, conv_len, state_len) {
        Ok(ls) => ls,
        Err(e) => {
            return Err(e);
        },
    };
    let mut ws: Vec<Vec<u32>> = Vec::new();
    let mut k: usize = 0;
    let ghost held = ls@;
    while k < raw.len()
        invariant
            c.wf(),
            raw@.len() == c.conv_width(),
            ls@ == held,
            held.conv.len() == c.conv_len(),
            k <= raw@.len(),
            ws@.len() == k,
            forall|i: int|
                0 <= i < k ==> (#[trigger] ws@[i])@ == remembered(
                    held.conv,
                    i,
                    c.conv_kernel as int,
                ).push(raw@[i]),
        decreases raw@.len() - k,
    {
        let w = conv_window(ls.conv_history().as_slice(), raw, k, c.conv_kernel);
        ws.push(w);
        k += 1;
    }
    let mut conv = slice_to_vec(ls.conv_history().as_slice());
    shift_history(&mut conv, raw, c.conv_kernel);
    ls.replace_conv(conv);
    Ok(ws)
}

} // verus!
