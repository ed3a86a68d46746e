//! Which experts a token runs, and which tokens an expert owes an answer to.

use crate::number_laws;
use crate::sampling;
use crate::types::ExpertId;
use vstd::prelude::*;

verus! {

/// The place of a score in the total order of numbers, given its bit pattern: negative
/// numbers below positive ones, and a larger magnitude further out.
pub open spec fn total_key(bits: u32) -> u128 {
    if bits < 0x8000_0000 {
        (0x8000_0000 + bits) as u128
    } else {
        (0xFFFF_FFFF - bits) as u128
    }
}

pub open spec fn total_keys(scores: Seq<u32>) -> Seq<u128> {
    scores.map_values(|b: u32| total_key(b))
}

/// Expert `a` is ranked before expert `b`: a higher key, or the same key and a lower
/// number.
pub open spec fn ranked_before(keys: Seq<u128>, a: int, b: int) -> bool {
    ||| keys[a] > keys[b]
    ||| keys[a] == keys[b] && a < b
}

pub open spec fn least(a: nat, b: nat) -> nat {
    if a < b {
        a
    } else {
        b
    }
}

/// `out` are the `k` highest ranked experts, highest first.
pub open spec fn is_top(out: Seq<usize>, scores: Seq<u128>, k: nat) -> bool {
    &&& out.len() == least(k, scores.len())
    &&& forall|i: int| 0 <= i < out.len() ==> (#[trigger] out[i]) < scores.len()
    &&& forall|i: int, j: int|
        0 <= i < j < out.len() ==> ranked_before(
            scores,
            (#[trigger] out[i]) as int,
            (#[trigger] out[j]) as int,
        )
    &&& forall|i: int, e: int|
        #![trigger out[i], scores[e]]
        0 <= i < out.len() && 0 <= e < scores.len() && !out.contains(e as usize) ==> ranked_before(
            scores,
            out[i] as int,
            e,
        )
}

fn precedes(keys: &[u128], a: usize, b: usize) -> (r: bool)
    requires
        a < keys@.len(),
        b < keys@.len(),
    ensures
        r == ranked_before(keys@, a as int, b as int),
{
    keys[a] > keys[b] || (keys[a] == keys[b] && a < b)
}

/// The experts among the first `n` that are ranked highest.
spec fn is_top_of(out: Seq<usize>, scores: Seq<u128>, k: nat, n: int) -> bool {
    &&& out.len() == least(k, n as nat)
    &&& forall|i: int| 0 <= i < out.len() ==> (#[trigger] out[i]) < n
    &&& forall|i: int, j: int|
        0 <= i < j < out.len() ==> ranked_before(
            scores,
            (#[trigger] out[i]) as int,
            (#[trigger] out[j]) as int,
        )
    &&& forall|i: int, e: int|
        #![trigger out[i], scores[e]]
        0 <= i < out.len() && 0 <= e < n && !out.contains(e as usize) ==> ranked_before(
            scores,
            out[i] as int,
            e,
        )
}

/// The `k` experts with the highest scores, highest first; among equal scores the
/// lower number comes first. A score is the bit pattern of a number.
pub fn top_experts(scores: &[u32], k: usize) -> (out: Vec<usize>)
    ensures
        is_top(out@, total_keys(scores@), k as nat),
        out@.len() == if k <= scores@.len() {
            k as nat
        } else {
            scores@.len()
        },
        forall|i: int| 0 <= i < out@.len() ==> (#[trigger] out@[i]) < scores@.len(),
        // Highest first, and among equals the lower number.
        forall|i: int, j: int|
            0 <= i < j < out@.len() ==> {
                let (a, b) = (#[trigger] out@[i], #[trigger] out@[j]);
                &&& a != b
                &&& !sampling::greater(scores@[b as int], scores@[a as int])
                &&& scores@[a as int] == scores@[b as int] ==> a < b
            },
        // No score that was left out exceeds one that was taken.
        forall|i: int, e: int|
            #![trigger out@[i], scores@[e]]
            0 <= i < out@.len() && 0 <= e < scores@.len() && !out@.contains(e as usize) ==> {
                &&& !sampling::greater(scores@[e], scores@[out@[i] as int])
                &&& scores@[e] == scores@[out@[i] as int] ==> out@[i] < e
            },
{
    let mut keys: Vec<u128> = Vec::new();
    let mut i: usize = 0;
    while i < scores.len()
        invariant
            i <= scores@.len(),
            keys@ == total_keys(scores@.take(i as int)),
        decreases scores@.len() - i,
    {
        let b: u32 = scores[i];
        let key: u128 = if b < 0x8000_0000 {
            0x8000_0000 + b as u128
        } else {
            0xFFFF_FFFF - b as u128
        };
        assert(total_keys(scores@.take(i + 1)) =~= total_keys(scores@.take(i as int)).push(key));
        keys.push(key);
        i += 1;
    }
    assert(scores@.take(scores@.len() as int) =~= scores@);
    let out = top_by_key(keys.as_slice(), k);
    proof {
        assert forall|i: int, j: int| 0 <= i < j < out@.len() implies {
            let (a, b) = (#[trigger] out@[i], #[trigger] out@[j]);
            &&& a != b
            &&& !sampling::greater(scores@[b as int], scores@[a as int])
            &&& scores@[a as int] == scores@[b as int] ==> a < b
        } by {
            let (a, b) = (out@[i] as int, out@[j] as int);
            assert(ranked_before(keys@, a, b));
            number_laws::keys_follow_the_numbers(scores@[b], scores@[a]);
        }
        assert forall|i: int, e: int|
            #![trigger out@[i], scores@[e]]
            0 <= i < out@.len() && 0 <= e < scores@.len() && !out@.contains(e as usize) implies {
            &&& !sampling::greater(scores@[e], scores@[out@[i] as int])
            &&& scores@[e] == scores@[out@[i] as int] ==> out@[i] < e
        } by {
            assert(keys@[e] == total_key(scores@[e]));
            assert(ranked_before(keys@, out@[i] as int, e));
            number_laws::keys_follow_the_numbers(scores@[e], scores@[out@[i] as int]);
        }
    }
    out
}

/// The `k` places with the highest keys, highest first; among equal keys the lower
/// place comes first.
pub fn top_by_key(scores: &[u128], k: usize) -> (out: Vec<usize>)
    ensures
        is_top(out@, scores@, k as nat),
        out@.len() == if k <= scores@.len() {
            k as nat
        } else {
            scores@.len()
        },
        forall|i: int, j: int|
            0 <= i < j < out@.len() ==> {
                let (a, b) = (#[trigger] out@[i], #[trigger] out@[j]);
                &&& a != b
                &&& scores@[a as int] >= scores@[b as int]
                &&& scores@[a as int] == scores@[b as int] ==> a < b
            },
        forall|i: int, e: int|
            #![trigger out@[i], scores@[e]]
            0 <= i < out@.len() && 0 <= e < scores@.len() && !out@.contains(e as usize) ==> {
                &&& scores@[e] <= scores@[out@[i] as int]
                &&& scores@[e] == scores@[out@[i] as int] ==> out@[i] < e
            },
{
    let mut out: Vec<usize> = Vec::new();
    let mut e: usize = 0;
    while e < scores.len()
        invariant
            e <= scores@.len(),
            is_top_of(out@, scores@, k as nat, e as int),
        decreases scores@.len() - e,
    {
        let mut at: usize = out.len();
        while at > 0 && precedes(scores, e, out[at - 1])
            invariant
                at <= out@.len(),
                e < scores@.len(),
                is_top_of(out@, scores@, k as nat, e as int),
                forall|j: int|
                    at <= j < out@.len() ==> ranked_before(
                        scores@,
                        e as int,
                        (#[trigger] out@[j]) as int,
                    ),
            decreases at,
        {
            at -= 1;
        }
        let ghost before = out@;
        proof {
            assert forall|j: int| 0 <= j < at implies ranked_before(
                scores@,
                (#[trigger] before[j]) as int,
                e as int,
            ) by {
                if j < at - 1 {
                    assert(ranked_before(scores@, before[j] as int, before[at - 1] as int));
                }
            }
        }
        if at < k {
            if out.len() == k {
                let _ = out.pop();
            }
            let ghost kept = out@;
            out.insert(at, e);
            proof {
                inserted_is_top(before, kept, out@, scores@, k as nat, e as int, at as int);
            }
        } else {
            proof {
                skipped_is_top(before, scores@, k as nat, e as int);
            }
        }
        e += 1;
    }
    out
}

/// An expert ranked below all of a full list changes nothing.
proof fn skipped_is_top(out: Seq<usize>, scores: Seq<u128>, k: nat, e: int)
    requires
        is_top_of(out, scores, k, e),
        0 <= e < scores.len(),
        out.len() >= k,
        forall|j: int| 0 <= j < out.len() ==> ranked_before(scores, (#[trigger] out[j]) as int, e),
    ensures
        is_top_of(out, scores, k, e + 1),
{
}

/// An expert put where it belongs, with the last one dropped from a full list.
proof fn inserted_is_top(
    before: Seq<usize>,
    kept: Seq<usize>,
    out: Seq<usize>,
    scores: Seq<u128>,
    k: nat,
    e: int,
    at: int,
)
    requires
        is_top_of(before, scores, k, e),
        0 <= e < scores.len(),
        scores.len() <= usize::MAX,
        0 <= at <= before.len(),
        at < k,
        kept == if before.len() == k {
            before.drop_last()
        } else {
            before
        },
        out == kept.insert(at, e as usize),
        forall|j: int| 0 <= j < at ==> ranked_before(scores, (#[trigger] before[j]) as int, e),
        forall|j: int|
            at <= j < before.len() ==> ranked_before(scores, e, (#[trigger] before[j]) as int),
    ensures
        is_top_of(out, scores, k, e + 1),
{
    assert(out[at] == e);
    assert forall|i: int| 0 <= i < out.len() && i != at implies (#[trigger] out[i]) == before[if i
        < at {
        i
    } else {
        i - 1
    }] by {}
    assert forall|i: int, x: int|
        #![trigger out[i], scores[x]]
        0 <= i < out.len() && 0 <= x < e + 1 && !out.contains(x as usize) implies ranked_before(
        scores,
        out[i] as int,
        x,
    ) by {
        assert(out.contains(e as usize)) by {
            assert(out[at] == e as usize);
        }
        assert(x != e);
        if before.contains(x as usize) {
            let j = choose|j: int| 0 <= j < before.len() && before[j] == x as usize;
            if j < kept.len() {
                let moved = if j < at {
                    j
                } else {
                    j + 1
                };
                assert(out[moved] == x as usize);
                assert(false);
            }
            assert(j == before.len() - 1);
            if i == at {
                assert(ranked_before(scores, e, before[j] as int));
            } else {
                let o = if i < at {
                    i
                } else {
                    i - 1
                };
                assert(out[i] == before[o]);
                assert(ranked_before(scores, before[o] as int, before[j] as int));
            }
        } else if i == at {
            if at < before.len() {
                assert(ranked_before(scores, e, before[at] as int));
                assert(ranked_before(scores, before[at] as int, x));
            } else {
                assert(before.len() < k);
                assert(before.len() == e);
                all_of_a_short_list(before, scores, k, e, x);
            }
        } else {
            let o = if i < at {
                i
            } else {
                i - 1
            };
            assert(out[i] == before[o]);
            assert(ranked_before(scores, before[o] as int, x));
        }
    }
    assert forall|i: int, j: int| 0 <= i < j < out.len() implies ranked_before(
        scores,
        (#[trigger] out[i]) as int,
        (#[trigger] out[j]) as int,
    ) by {
        let p = if i < at {
            i
        } else {
            i - 1
        };
        let q = if j < at {
            j
        } else {
            j - 1
        };
        if i != at && j != at {
            assert(ranked_before(scores, before[p] as int, before[q] as int));
        }
    }
}

/// A list that is not full holds every expert so far.
proof fn all_of_a_short_list(out: Seq<usize>, scores: Seq<u128>, k: nat, n: int, x: int)
    requires
        is_top_of(out, scores, k, n),
        out.len() < k,
        0 <= x < n,
        n <= usize::MAX,
    ensures
        out.contains(x as usize),
{
    if !out.contains(x as usize) {
        let s = out.to_set();
        let all = vstd::set_lib::set_int_range(0, n);
        out.unique_seq_to_set();
        vstd::set_lib::lemma_int_range(0, n);
        let mapped = s.map(|u: usize| u as int);
        vstd::set_lib::lemma_map_size(s, mapped, |u: usize| u as int);
        assert(mapped.subset_of(all.remove(x)));
        vstd::set_lib::lemma_len_subset(mapped, all.remove(x));
    }
}

/// Where more are asked for than there are, every place is among them.
pub(crate) proof fn few_are_all(out: Seq<usize>, keys: Seq<u128>, k: nat, x: int)
    requires
        is_top(out, keys, k),
        out.len() < k,
        0 <= x < keys.len() <= usize::MAX,
    ensures
        out.contains(x as usize),
{
    all_of_a_short_list(out, keys, k, keys.len() as int, x);
}

/// A pick as an expert sees it: which token, and which of its choices.
#[derive(Debug, Clone, Copy, PartialEq, Eq, Structural)]
pub struct Member {
    pub token: usize,
    pub choice: usize,
}

/// The tokens among the first `n` choices of token `t` that picked `e`.
pub open spec fn picks_of_token(picks: Seq<usize>, t: nat, e: nat, n: nat) -> Seq<(nat, nat)>
    decreases n,
{
    if n == 0 {
        Seq::empty()
    } else if picks[n - 1] == e {
        picks_of_token(picks, t, e, (n - 1) as nat).push((t, (n - 1) as nat))
    } else {
        picks_of_token(picks, t, e, (n - 1) as nat)
    }
}

/// What expert `e` owes the first `n` tokens: in order of the tokens, and of their
/// choices.
pub open spec fn owed(picks: Seq<Seq<usize>>, e: nat, n: nat) -> Seq<(nat, nat)>
    decreases n,
{
    if n == 0 {
        Seq::empty()
    } else {
        owed(picks, e, (n - 1) as nat) + picks_of_token(
            picks[n - 1],
            (n - 1) as nat,
            e,
            picks[n - 1].len(),
        )
    }
}

pub open spec fn member_views(ms: Seq<Member>) -> Seq<(nat, nat)> {
    ms.map_values(|m: Member| (m.token as nat, m.choice as nat))
}

pub open spec fn pick_views(picks: Seq<Vec<usize>>) -> Seq<Seq<usize>> {
    picks.map_values(|p: Vec<usize>| p@)
}

/// Inverts a routing: which tokens each of `n` experts owes an answer to.
///
/// An expert's weights are then read once for every token that chose it, rather than
/// once per token.
pub fn members(picks: &[Vec<usize>], n: usize) -> (out: Vec<Vec<Member>>)
    requires
        forall|t: int, c: int|
            #![trigger picks@[t]@[c]]
            0 <= t < picks@.len() && 0 <= c < picks@[t]@.len() ==> picks@[t]@[c] < n,
    ensures
        out@.len() == n,
        forall|e: int|
            0 <= e < n ==> member_views((#[trigger] out@[e])@) == owed(
                pick_views(picks@),
                e as nat,
                picks@.len(),
            ),
{
    let ghost pv = pick_views(picks@);
    let mut out: Vec<Vec<Member>> = Vec::new();
    while out.len() < n
        invariant
            out@.len() <= n,
            forall|e: int| 0 <= e < out@.len() ==> (#[trigger] out@[e])@.len() == 0,
        decreases n - out@.len(),
    {
        out.push(Vec::new());
    }
    let mut t: usize = 0;
    assert forall|e: int| 0 <= e < n implies member_views((#[trigger] out@[e])@) == owed(
        pv,
        e as nat,
        0,
    ) by {
        assert(member_views(out@[e]@) =~= Seq::<(nat, nat)>::empty());
    }
    while t < picks.len()
        invariant
            t <= picks@.len(),
            pv == pick_views(picks@),
            out@.len() == n,
            forall|t: int, c: int|
                #![trigger picks@[t]@[c]]
                0 <= t < picks@.len() && 0 <= c < picks@[t]@.len() ==> picks@[t]@[c] < n,
            forall|e: int|
                0 <= e < n ==> member_views((#[trigger] out@[e])@) == owed(
                    pv,
                    e as nat,
                    t as nat,
                ),
        decreases picks@.len() - t,
    {
        let mut c: usize = 0;
        assert(pv[t as int] == picks@[t as int]@);
        assert forall|e: int| 0 <= e < n implies member_views((#[trigger] out@[e])@) == owed(
            pv,
            e as nat,
            t as nat,
        ) + picks_of_token(pv[t as int], t as nat, e as nat, 0) by {
            assert(owed(pv, e as nat, t as nat) + Seq::<(nat, nat)>::empty() =~= owed(
                pv,
                e as nat,
                t as nat,
            ));
        }
        while c < picks[t].len()
            invariant
                t < picks@.len(),
                pv == pick_views(picks@),
                pv[t as int] == picks@[t as int]@,
                c <= picks@[t as int]@.len(),
                out@.len() == n,
                forall|t: int, c: int|
                    #![trigger picks@[t]@[c]]
                    0 <= t < picks@.len() && 0 <= c < picks@[t]@.len() ==> picks@[t]@[c] < n,
                forall|e: int|
                    0 <= e < n ==> member_views((#[trigger] out@[e])@) == owed(
                        pv,
                        e as nat,
                        t as nat,
                    ) + picks_of_token(pv[t as int], t as nat, e as nat, c as nat),
            decreases picks@[t as int]@.len() - c,
        {
            let x: usize = picks[t][c];
            assert(picks@[t as int]@[c as int] < n);
            let ghost before = out@;
            let m = Member { token: t, choice: c };
            out[x].push(m);
            proof {
                assert forall|e: int| 0 <= e < n implies member_views((#[trigger] out@[e])@)
                    == owed(pv, e as nat, t as nat) + picks_of_token(
                    pv[t as int],
                    t as nat,
                    e as nat,
                    (c + 1) as nat,
                ) by {
                    let base = owed(pv, e as nat, t as nat);
                    let run = picks_of_token(pv[t as int], t as nat, e as nat, c as nat);
                    assert(member_views(before[e]@) == base + run);
                    if e == x {
                        assert(out@[e]@ == before[e]@.push(m));
                        assert(member_views(out@[e]@) =~= member_views(before[e]@).push(
                            (t as nat, c as nat),
                        ));
                        assert((base + run).push((t as nat, c as nat)) =~= base + run.push(
                            (t as nat, c as nat),
                        ));
                    } else {
                        assert(out@[e] == before[e]);
                    }
                }
            }
            c += 1;
        }
        t += 1;
    }
    out
}

/// A pick is owed exactly where it was made: expert `e` owes token `t` for choice `c` if
/// and only if that choice was `e`.
pub proof fn routing_is_inverted(picks: Seq<Seq<usize>>, e: nat, n: nat, t: nat, c: nat)
    requires
        n <= picks.len(),
    ensures
        owed(picks, e, n).contains((t, c)) <==> t < n && c < picks[t as int].len()
            && picks[t as int][c as int] == e,
    decreases n,
{
    if n > 0 {
        routing_is_inverted(picks, e, (n - 1) as nat, t, c);
        let a = owed(picks, e, (n - 1) as nat);
        let row = picks[n - 1];
        let b = picks_of_token(row, (n - 1) as nat, e, row.len());
        token_picks(row, (n - 1) as nat, e, row.len(), t, c);
        if a.contains((t, c)) {
            let i = choose|i: int| 0 <= i < a.len() && a[i] == (t, c);
            assert((a + b)[i] == (t, c));
        }
        if b.contains((t, c)) {
            let i = choose|i: int| 0 <= i < b.len() && b[i] == (t, c);
            assert((a + b)[a.len() + i] == (t, c));
        }
        if (a + b).contains((t, c)) {
            let i = choose|i: int| 0 <= i < (a + b).len() && (a + b)[i] == (t, c);
            if i < a.len() {
                assert(a[i] == (t, c));
            } else {
                assert(b[i - a.len()] == (t, c));
            }
        }
    }
}

/// An expert owes its answers in the order of the tokens, and for one token in the order of
/// its choices, none twice.
pub proof fn answers_are_owed_in_order(picks: Seq<Seq<usize>>, e: nat, n: nat, i: int, j: int)
    requires
        n <= picks.len(),
        0 <= i < j < owed(picks, e, n).len(),
    ensures
        ({
            let (a, b) = (owed(picks, e, n)[i], owed(picks, e, n)[j]);
            a.0 < b.0 || (a.0 == b.0 && a.1 < b.1)
        }),
    decreases n,
{
    let a = owed(picks, e, (n - 1) as nat);
    let row = picks[n - 1];
    let b = picks_of_token(row, (n - 1) as nat, e, row.len());
    if j < a.len() {
        answers_are_owed_in_order(picks, e, (n - 1) as nat, i, j);
    } else if i < a.len() {
        assert(a.contains(a[i]));
        routing_is_inverted(picks, e, (n - 1) as nat, a[i].0, a[i].1);
        assert(b.contains(b[j - a.len()]));
        token_picks(row, (n - 1) as nat, e, row.len(), b[j - a.len()].0, b[j - a.len()].1);
    } else {
        picks_in_order(row, (n - 1) as nat, e, row.len(), i - a.len(), j - a.len());
    }
}

proof fn picks_in_order(picks: Seq<usize>, t: nat, e: nat, n: nat, i: int, j: int)
    requires
        n <= picks.len(),
        0 <= i < j < picks_of_token(picks, t, e, n).len(),
    ensures
        ({
            let (a, b) = (picks_of_token(picks, t, e, n)[i], picks_of_token(picks, t, e, n)[j]);
            a.0 == b.0 && a.1 < b.1
        }),
    decreases n,
{
    let a = picks_of_token(picks, t, e, (n - 1) as nat);
    if j < a.len() {
        picks_in_order(picks, t, e, (n - 1) as nat, i, j);
    } else {
        assert(a.contains(a[i]));
        token_picks(picks, t, e, (n - 1) as nat, a[i].0, a[i].1);
    }
}

proof fn token_picks(picks: Seq<usize>, t: nat, e: nat, n: nat, u: nat, c: nat)
    requires
        n <= picks.len(),
    ensures
        picks_of_token(picks, t, e, n).contains((u, c)) <==> u == t && c < n && picks[c as int]
            == e,
    decreases n,
{
    if n > 0 {
        token_picks(picks, t, e, (n - 1) as nat, u, c);
        let a = picks_of_token(picks, t, e, (n - 1) as nat);
        if picks[n - 1] == e {
            let b = a.push((t, (n - 1) as nat));
            assert(b[a.len() as int] == (t, (n - 1) as nat));
            if a.contains((u, c)) {
                let i = choose|i: int| 0 <= i < a.len() && a[i] == (u, c);
                assert(b[i] == (u, c));
            }
            if b.contains((u, c)) {
                let i = choose|i: int| 0 <= i < b.len() && b[i] == (u, c);
                if i < a.len() {
                    assert(a[i] == (u, c));
                }
            }
        }
    }
}

/// The experts of block `l` as the whole model numbers them.
pub fn global_ids(l: usize, n_experts: usize, picks: &[usize]) -> (out: Vec<ExpertId>)
    requires
        l * n_experts + n_experts <= u32::MAX,
        forall|i: int| 0 <= i < picks@.len() ==> (#[trigger] picks@[i]) < n_experts,
    ensures
        out@.len() == picks@.len(),
        forall|i: int| 0 <= i < out@.len() ==> #[trigger] out@[i] == l * n_experts + picks@[i],
{
    assert(l * n_experts >= 0) by (nonlinear_arith);
    let base: usize = l * n_experts;
    let mut out: Vec<ExpertId> = Vec::new();
    let mut i: usize = 0;
    while i < picks.len()
        invariant
            base == l * n_experts,
            base + n_experts <= u32::MAX,
            i <= picks@.len(),
            forall|i: int| 0 <= i < picks@.len() ==> (#[trigger] picks@[i]) < n_experts,
            out@.len() == i,
            forall|k: int| 0 <= k < i ==> #[trigger] out@[k] == l * n_experts + picks@[k],
        decreases picks@.len() - i,
    {
        out.push((base + picks[i]) as u32);
        i += 1;
    }
    out
}

} // verus!
