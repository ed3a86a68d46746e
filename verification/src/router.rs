//! Which experts a token goes to, and with what share.

use crate::routing;
use crate::routing::top_by_key;
use crate::text::same_text;
use crate::types::{ExpertId, GarudaError, Token};
use vstd::prelude::*;
use vstd::string::*;

verus! {

#[derive(Debug, Clone, Copy, PartialEq, Eq, Structural)]
pub enum RouterType {
    Mixtral,
    DeepSeek,
    QwenMoe,
}

impl RouterType {
    /// The router that a name stands for.
    pub open spec fn named(name: Seq<char>) -> Option<RouterType> {
        if name == "mixtral"@ {
            Some(RouterType::Mixtral)
        } else if name == "deepseek"@ {
            Some(RouterType::DeepSeek)
        } else if name == "qwen"@ {
            Some(RouterType::QwenMoe)
        } else {
            None
        }
    }

    pub open spec fn unknown_message(name: Seq<char>) -> Seq<char> {
        "unknown router '"@ + name + "' (expected mixtral, deepseek or qwen)"@
    }

    /// Reads a router by its name.
    pub fn parse(name: &str) -> (r: Result<RouterType, GarudaError>)
        ensures
            match r {
                Ok(t) => RouterType::named(name@) == Some(t),
                Err(e) => RouterType::named(name@) is None && (e matches GarudaError::Config(m)
                    && m@ == RouterType::unknown_message(name@)),
            },
            r matches Ok(t) ==> {
                &&& t is Mixtral <==> name@ == "mixtral"@
                &&& t is DeepSeek <==> name@ == "deepseek"@
                &&& t is QwenMoe <==> name@ == "qwen"@
            },
            r is Err <==> name@ != "mixtral"@ && name@ != "deepseek"@ && name@ != "qwen"@,
    {
        proof {
            reveal_strlit("mixtral");
            reveal_strlit("deepseek");
            reveal_strlit("qwen");
            assert("mixtral"@.len() == 7 && "deepseek"@.len() == 8 && "qwen"@.len() == 4);
        }
        if same_text(name, "mixtral") {
            return Ok(RouterType::Mixtral);
        }
        if same_text(name, "deepseek") {
            return Ok(RouterType::DeepSeek);
        }
        if same_text(name, "qwen") {
            return Ok(RouterType::QwenMoe);
        }
        let mut m = "unknown router '".to_owned();
        m.append(name);
        m.append("' (expected mixtral, deepseek or qwen)");
        Err(GarudaError::Config(m))
    }
}

impl std::str::FromStr for RouterType {
    type Err = GarudaError;

    fn from_str(s: &str) -> Result<Self, GarudaError> {
        RouterType::parse(s)
    }
}

#[derive(Debug, Clone, Copy, PartialEq, Eq)]
pub struct Router {
    pub router_type: RouterType,
    pub num_experts: usize,
    pub top_k: usize,
}

/// An expert that a token goes to. Its share is `part` of `whole`.
#[derive(Debug, Clone, Copy, PartialEq, Eq)]
pub struct Routed {
    pub id: ExpertId,
    pub part: u64,
    pub whole: u64,
}

/// The score of expert `i` for a token, in hundredths.
pub open spec fn score(token: Token, i: int) -> int {
    (token * (i + 1)) % 100
}

pub open spec fn scores(token: Token, n: nat) -> Seq<u128> {
    Seq::new(n, |i: int| score(token, i) as u128)
}

/// The scores of the chosen experts, summed up.
pub open spec fn chosen_total(keys: Seq<u128>, chosen: Seq<usize>) -> int
    decreases chosen.len(),
{
    if chosen.len() == 0 {
        0
    } else {
        chosen_total(keys, chosen.drop_last()) + keys[chosen.last() as int]
    }
}

impl Router {
    pub fn new(router_type: RouterType, num_experts: usize, top_k: usize) -> (r: Self)
        ensures
            r.router_type == router_type,
            r.num_experts == num_experts,
            r.top_k == top_k,
    {
        Router { router_type, num_experts, top_k }
    }

    /// `out` is a routing of `token`: the experts with the highest scores, highest
    /// first, and each with its part of the scores of all; where no score is above
    /// zero, each has the same share.
    pub open spec fn routes(&self, token: Token, out: Seq<Routed>) -> bool {
        let keys = scores(token, self.num_experts as nat);
        exists|chosen: Seq<usize>|
            {
                let total = chosen_total(keys, chosen);
                &&& #[trigger] routing::is_top(chosen, keys, self.top_k as nat)
                &&& out.len() == chosen.len()
                &&& forall|i: int|
                    0 <= i < out.len() ==> {
                        &&& (#[trigger] out[i]).id == chosen[i]
                        &&& out[i].part == if total > 0 {
                            keys[chosen[i] as int] as int
                        } else {
                            1
                        }
                        &&& out[i].whole == if total > 0 {
                            total
                        } else {
                            self.top_k as int
                        }
                    }
            }
    }

    /// Routes a token.
    pub fn route(&self, token: Token) -> (out: Vec<Routed>)
        requires
            self.num_experts <= u32::MAX,
            token * self.num_experts <= u32::MAX,
        ensures
            self.routes(token, out@),
    {
        let mut keys: Vec<u128> = Vec::new();
        while keys.len() < self.num_experts
            invariant
                self.num_experts <= u32::MAX,
                token * self.num_experts <= u32::MAX,
                keys@.len() <= self.num_experts,
                forall|i: int| 0 <= i < keys@.len() ==> #[trigger] keys@[i] == score(token, i),
            decreases self.num_experts - keys@.len(),
        {
            let i: u32 = keys.len() as u32;
            assert(token * (i + 1) <= token * self.num_experts) by (nonlinear_arith)
                requires
                    i + 1 <= self.num_experts,
            ;
            keys.push(((token * (i + 1)) % 100) as u128);
        }
        assert(keys@ =~= scores(token, self.num_experts as nat));
        let chosen = top_by_key(keys.as_slice(), self.top_k);
        let mut total: u64 = 0;
        let mut i: usize = 0;
        assert(chosen@.take(0) =~= Seq::<usize>::empty());
        while i < chosen.len()
            invariant
                keys@ == scores(token, self.num_experts as nat),
                routing::is_top(chosen@, keys@, self.top_k as nat),
                i <= chosen@.len() <= u32::MAX,
                self.num_experts <= u32::MAX,
                total == chosen_total(keys@, chosen@.take(i as int)),
                total <= 100 * i,
            decreases chosen@.len() - i,
        {
            assert(chosen@.take(i + 1).drop_last() =~= chosen@.take(i as int));
            assert(chosen@[i as int] < keys@.len());
            assert(keys@[chosen@[i as int] as int] == score(token, chosen@[i as int] as int));
            total += keys[chosen[i]] as u64;
            i += 1;
        }
        assert(chosen@.take(chosen@.len() as int) =~= chosen@);
        let mut out: Vec<Routed> = Vec::new();
        while out.len() < chosen.len()
            invariant
                keys@ == scores(token, self.num_experts as nat),
                routing::is_top(chosen@, keys@, self.top_k as nat),
                self.num_experts <= u32::MAX,
                total == chosen_total(keys@, chosen@),
                out@.len() <= chosen@.len(),
                forall|i: int|
                    0 <= i < out@.len() ==> {
                        &&& (#[trigger] out@[i]).id == chosen@[i]
                        &&& out@[i].part == if total > 0 {
                            keys@[chosen@[i] as int] as int
                        } else {
                            1
                        }
                        &&& out@[i].whole == if total > 0 {
                            total as int
                        } else {
                            self.top_k as int
                        }
                    },
            decreases chosen@.len() - out@.len(),
        {
            let e: usize = chosen[out.len()];
            assert(e < keys@.len());
            let routed = if total > 0 {
                Routed { id: e as u32, part: keys[e] as u64, whole: total }
            } else {
                Routed { id: e as u32, part: 1, whole: self.top_k as u64 }
            };
            out.push(routed);
        }
        out
    }
}

/// The parts of a routing add up to the whole.
pub open spec fn parts(out: Seq<Routed>) -> int
    decreases out.len(),
{
    if out.len() == 0 {
        0
    } else {
        parts(out.drop_last()) + out.last().part
    }
}

/// A token goes to as many experts as are asked for, or to all, no expert twice: those with
/// the highest scores, where expert `e` scores what is left of the token times `e + 1` by a
/// hundred, the lower number first among equals.
pub proof fn experts_are_chosen_by_score(r: Router, token: Token, out: Seq<Routed>)
    requires
        r.routes(token, out),
        r.num_experts <= u32::MAX,
    ensures
        out.len() == if r.top_k <= r.num_experts {
            r.top_k
        } else {
            r.num_experts
        },
        forall|i: int| 0 <= i < out.len() ==> (#[trigger] out[i]).id < r.num_experts,
        forall|i: int, j: int|
            0 <= i < j < out.len() ==> {
                let (a, b) = ((#[trigger] out[i]).id as int, (#[trigger] out[j]).id as int);
                let (x, y) = ((token * (a + 1)) % 100, (token * (b + 1)) % 100);
                x > y || (x == y && a < b)
            },
{
    let keys = scores(token, r.num_experts as nat);
    let chosen = chosen_in(r, token, out);
    assert(chosen.len() == out.len());
    assert forall|i: int| 0 <= i < out.len() implies (#[trigger] out[i]).id < r.num_experts
        && out[i].id == chosen[i] by {
        assert(chosen[i] < keys.len());
    }
    assert forall|i: int, j: int| 0 <= i < j < out.len() implies ({
        let (a, b) = ((#[trigger] out[i]).id as int, (#[trigger] out[j]).id as int);
        let (x, y) = ((token * (a + 1)) % 100, (token * (b + 1)) % 100);
        x > y || (x == y && a < b)
    }) by {
        assert(routing::ranked_before(keys, chosen[i] as int, chosen[j] as int));
        assert(keys[chosen[i] as int] == score(token, chosen[i] as int));
        assert(keys[chosen[j] as int] == score(token, chosen[j] as int));
    }
}

/// An expert that is left out scores no more than any that is chosen.
pub proof fn none_left_out_scores_more(r: Router, token: Token, out: Seq<Routed>, i: int, e: int)
    requires
        r.routes(token, out),
        r.num_experts <= u32::MAX,
        0 <= i < out.len(),
        0 <= e < r.num_experts,
        forall|k: int| 0 <= k < out.len() ==> (#[trigger] out[k]).id != e,
    ensures
        (token * (out[i].id + 1)) % 100 >= (token * (e + 1)) % 100,
{
    let keys = scores(token, r.num_experts as nat);
    let chosen = chosen_in(r, token, out);
    if chosen.contains(e as usize) {
        let k = choose|k: int| 0 <= k < chosen.len() && chosen[k] == e as usize;
        assert(out[k].id == e);
    }
    assert(out[i].id == chosen[i]);
    assert(keys[e] == score(token, e));
    assert(routing::ranked_before(keys, chosen[i] as int, e));
    assert(keys[chosen[i] as int] == score(token, chosen[i] as int));
}

/// A share is the score of its expert, or one where nobody scores.
pub proof fn shares_are_scores(r: Router, token: Token, out: Seq<Routed>, i: int)
    requires
        r.routes(token, out),
        r.num_experts <= u32::MAX,
        0 <= i < out.len(),
    ensures
        out[i].part == (token * (out[i].id + 1)) % 100 || (out[i].part == 1 && out[i].whole
            == r.top_k && (token * (out[i].id + 1)) % 100 == 0),
        (token * (out[i].id + 1)) % 100 > 0 ==> out[i].part == (token * (out[i].id + 1)) % 100,
{
    let keys = scores(token, r.num_experts as nat);
    let chosen = chosen_in(r, token, out);
    assert(chosen[i] < keys.len());
    assert(keys[chosen[i] as int] == score(token, chosen[i] as int));
    scores_are_within_the_total(keys, chosen, i);
}

spec fn chosen_in(r: Router, token: Token, out: Seq<Routed>) -> Seq<usize> {
    let keys = scores(token, r.num_experts as nat);
    choose|chosen: Seq<usize>|
        {
            let total = chosen_total(keys, chosen);
            &&& #[trigger] routing::is_top(chosen, keys, r.top_k as nat)
            &&& out.len() == chosen.len()
            &&& forall|i: int|
                0 <= i < out.len() ==> {
                    &&& (#[trigger] out[i]).id == chosen[i]
                    &&& out[i].part == if total > 0 {
                        keys[chosen[i] as int] as int
                    } else {
                        1
                    }
                    &&& out[i].whole == if total > 0 {
                        total
                    } else {
                        r.top_k as int
                    }
                }
        }
}

proof fn scores_are_within_the_total(keys: Seq<u128>, chosen: Seq<usize>, i: int)
    requires
        0 <= i < chosen.len(),
    ensures
        0 <= keys[chosen[i] as int] <= chosen_total(keys, chosen),
    decreases chosen.len(),
{
    reveal_with_fuel(chosen_total, 2);
    if i < chosen.len() - 1 {
        scores_are_within_the_total(keys, chosen.drop_last(), i);
        assert(chosen.drop_last()[i] == chosen[i]);
    } else if chosen.len() > 1 {
        scores_are_within_the_total(keys, chosen.drop_last(), 0);
    }
}

/// The shares of the chosen experts sum to one, whether the scores say so or all are
/// zero, as long as there are at least as many experts as are chosen.
pub proof fn shares_sum_to_one(r: Router, token: Token, out: Seq<Routed>, i: int)
    requires
        r.routes(token, out),
        r.top_k <= r.num_experts,
        0 <= i < out.len(),
    ensures
        parts(out) == out[i].whole,
{
    let keys = scores(token, r.num_experts as nat);
    let chosen = choose|chosen: Seq<usize>|
        {
            let total = chosen_total(keys, chosen);
            &&& #[trigger] routing::is_top(chosen, keys, r.top_k as nat)
            &&& out.len() == chosen.len()
            &&& forall|i: int|
                0 <= i < out.len() ==> {
                    &&& (#[trigger] out[i]).id == chosen[i]
                    &&& out[i].part == if total > 0 {
                        keys[chosen[i] as int] as int
                    } else {
                        1
                    }
                    &&& out[i].whole == if total > 0 {
                        total
                    } else {
                        r.top_k as int
                    }
                }
        };
    let total = chosen_total(keys, chosen);
    parts_of(keys, chosen, out, total > 0);
}

proof fn parts_of(keys: Seq<u128>, chosen: Seq<usize>, out: Seq<Routed>, scored: bool)
    requires
        out.len() == chosen.len(),
        forall|i: int|
            0 <= i < out.len() ==> (#[trigger] out[i]).part == if scored {
                keys[chosen[i] as int] as int
            } else {
                1
            },
    ensures
        parts(out) == if scored {
            chosen_total(keys, chosen)
        } else {
            chosen.len() as int
        },
    decreases out.len(),
{
    if out.len() > 0 {
        assert forall|i: int| 0 <= i < out.drop_last().len() implies (
        #[trigger] out.drop_last()[i]).part == if scored {
            keys[chosen.drop_last()[i] as int] as int
        } else {
            1
        } by {
            assert(out[i].part == out.drop_last()[i].part);
        }
        parts_of(keys, chosen.drop_last(), out.drop_last(), scored);
        assert(out[out.len() - 1].part == out.last().part);
    }
}

} // verus!
