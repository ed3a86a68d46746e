//! Configuration.
//!
//! Every field here reaches something. Anything that cannot be honoured is a startup
//! error rather than a silent no-op.

use crate::double;
use crate::double::Double;
use crate::router::RouterType;
use crate::sampling;
use crate::sampling::{SamplingFault, SamplingParams};
use crate::scheduler::SchedulerConfig;
use crate::text;
use crate::text::{ascii_uppercase, chars_of, push_size, same_text, text_of, trim};
use crate::types;
use crate::types::{Fault, GarudaError, ModelDims};
use vstd::arithmetic::div_mod::*;
use vstd::arithmetic::power2::*;
use vstd::prelude::*;
use vstd::slice::slice_subrange;
use vstd::string::*;

verus! {

/// Ten to the `k`-th.
pub open spec fn pow10(k: nat) -> nat
    decreases k,
{
    if k == 0 {
        1
    } else {
        10 * pow10((k - 1) as nat)
    }
}

/// A character of a decimal number.
pub open spec fn numeric(c: char) -> bool {
    text::is_digit(c) || c == '.'
}

/// How much of `t` the number takes: up to the first character that is no part of one.
pub open spec fn number_len(t: Seq<char>, from: int) -> int
    decreases t.len() - from,
{
    if from < 0 || from >= t.len() || !numeric(t[from]) {
        from
    } else {
        number_len(t, from + 1)
    }
}

/// The place of the point in a number, or its end.
pub open spec fn point(d: Seq<char>, from: int) -> int
    decreases d.len() - from,
{
    if from < 0 || from >= d.len() || d[from] == '.' {
        from
    } else {
        point(d, from + 1)
    }
}

/// The digits before the point.
pub open spec fn whole_part(d: Seq<char>) -> Seq<char> {
    d.take(point(d, 0))
}

/// The digits after the point.
pub open spec fn fraction(d: Seq<char>) -> Seq<char> {
    if point(d, 0) < d.len() {
        d.skip(point(d, 0) + 1)
    } else {
        Seq::empty()
    }
}

/// A decimal number: digits with at most one point, and at least one digit.
pub open spec fn is_number(d: Seq<char>) -> bool {
    &&& text::all_digits(whole_part(d))
    &&& text::all_digits(fraction(d))
    &&& whole_part(d).len() + fraction(d).len() > 0
}

/// How many bytes a unit stands for: powers of 1024, as operators mean them when sizing
/// a cache.
pub open spec fn unit_bytes(u: Seq<char>) -> Option<nat> {
    if u == ""@ || u == "B"@ {
        Some(1)
    } else if u == "K"@ || u == "KB"@ || u == "KIB"@ {
        Some(1024)
    } else if u == "M"@ || u == "MB"@ || u == "MIB"@ {
        Some(0x10_0000)
    } else if u == "G"@ || u == "GB"@ || u == "GIB"@ {
        Some(0x4000_0000)
    } else if u == "T"@ || u == "TB"@ || u == "TIB"@ {
        Some(0x100_0000_0000)
    } else {
        None
    }
}

pub open spec fn no_space() -> spec_fn(char) -> bool {
    |c: char| c != ' '
}

/// A size without surrounding white space, in capitals, without spaces.
pub open spec fn normalised(s: Seq<char>) -> Seq<char> {
    text::trimmed(s).map_values(|c: char| text::upper_char(c)).filter(no_space())
}

/// The number of a normalised size, and its unit.
pub open spec fn number_text(t: Seq<char>) -> Seq<char> {
    t.take(number_len(t, 0))
}

pub open spec fn unit_text(t: Seq<char>) -> Seq<char> {
    t.skip(number_len(t, 0))
}

/// The parts that a byte is divided into to count fractions of it: two to the 54th.
pub const PARTS: u128 = 0x40_0000_0000_0000;

/// The bytes that `d` units of `mult` bytes come to, in parts of two to the 55th: carried
/// to 54 binary places, and one more that tells whether anything is left.
pub open spec fn parts_of(d: Seq<char>, mult: nat) -> nat {
    let unit = mult * PARTS as nat;
    let f = fraction(d);
    let carried = text::digits_value(whole_part(d)) * unit + text::digits_value(f) * unit / pow10(
        f.len(),
    );
    2 * carried + if text::digits_value(f) * unit % pow10(f.len()) == 0 {
        0nat
    } else {
        1
    }
}

/// The bytes that `d` units of `mult` bytes come to, as a double has them.
pub open spec fn bytes_of(d: Seq<char>, mult: nat) -> (nat, int) {
    double::rounded(parts_of(d, mult), -55)
}

/// What [`parse_size`] makes of a normalised size that was written `s`. The bytes are
/// rounded to a double first, and to whole bytes then.
pub open spec fn size_of(s: Seq<char>, t: Seq<char>) -> Result<nat, Seq<char>> {
    if t.len() == 0 {
        Err("size is empty"@)
    } else if !is_number(number_text(t)) || text::digits_value(whole_part(number_text(t)))
        >= double::endless() {
        Err("'"@ + s + "' is not a valid size"@)
    } else {
        match unit_bytes(unit_text(t)) {
            None => Err("unknown size unit '"@ + unit_text(t) + "' in '"@ + s + "'"@),
            Some(mult) => {
                let bytes = bytes_of(number_text(t), mult);
                if double::below(double::rounded(usize::MAX as nat, 0), bytes) {
                    Err("size '"@ + s + "' does not fit in memory"@)
                } else if double::whole(bytes) > usize::MAX {
                    Ok(usize::MAX as nat)
                } else {
                    Ok(double::whole(bytes))
                }
            },
        }
    }
}

/// A count of bytes that no size has, nor rounds to: two to the 66th.
const TOO_MUCH: u128 = 0x4_0000_0000_0000_0000;

/// The value of digits that stand before the point, unless it is beyond any size.
fn whole_value(d: &[char], n: usize) -> (r: Option<u128>)
    requires
        n <= d@.len(),
        text::all_digits(d@.take(n as int)),
    ensures
        match r {
            Some(v) => v == text::digits_value(d@.take(n as int)) && v < TOO_MUCH,
            None => text::digits_value(d@.take(n as int)) >= TOO_MUCH,
        },
{
    let mut v: u128 = 0;
    let mut i: usize = 0;
    assert(d@.take(0) =~= Seq::<char>::empty());
    while i < n
        invariant
            i <= n <= d@.len(),
            text::all_digits(d@.take(n as int)),
            v == text::digits_value(d@.take(i as int)),
            v < TOO_MUCH,
        decreases n - i,
    {
        assert(d@.take(i + 1).drop_last() =~= d@.take(i as int));
        assert(d@.take(n as int)[i as int] == d@[i as int]);
        let c: char = d[i];
        v = v * 10 + (c as u32 - 48) as u128;
        if v >= TOO_MUCH {
            proof {
                let whole = d@.take(n as int);
                assert(whole.take(i + 1) =~= d@.take(i + 1));
                text::digits_value_grows(whole, i + 1);
            }
            return None;
        }
        i += 1;
    }
    Some(v)
}

/// A fraction taken from its first digit: the digit, then the rest a tenth as much.
proof fn fraction_step(f: Seq<char>, mult: nat)
    requires
        f.len() > 0,
        text::all_digits(f),
    ensures
        text::digits_value(f) * mult / pow10(f.len()) == (((f[0] as nat - 48) as nat) * mult
            + text::digits_value(f.skip(1)) * mult / pow10((f.len() - 1) as nat)) / 10,
        text::digits_value(f) * mult % pow10(f.len()) == 0 <==> {
            &&& text::digits_value(f.skip(1)) * mult % pow10((f.len() - 1) as nat) == 0
            &&& (((f[0] as nat - 48) as nat) * mult + text::digits_value(f.skip(1)) * mult / pow10(
                (f.len() - 1) as nat,
            )) % 10 == 0
        },
{
    let k = (f.len() - 1) as nat;
    let p = pow10(k);
    let d0 = (f[0] as nat - 48) as nat;
    let rest = text::digits_value(f.skip(1));
    pow10_positive(k);
    value_from_front(f);
    assert(is_digit_at(f, 0));
    let x = text::digits_value(f) * mult;
    assert(x == rest * mult + (d0 * mult) * p) by (nonlinear_arith)
        requires
            x == (d0 * p + rest) * mult,
    ;
    assert(x >= 0) by (nonlinear_arith)
        requires
            x == text::digits_value(f) * mult,
    ;
    lemma_hoist_over_denominator((rest * mult) as int, (d0 * mult) as int, p);
    lemma_div_denominator(x as int, p as int, 10);
    assert(pow10(f.len()) == 10 * p);
    assert(p * 10 == 10 * p) by (nonlinear_arith);
    lemma_mod_breakdown(x as int, p as int, 10);
    lemma_mod_multiples_vanish((d0 * mult) as int, (rest * mult) as int, p as int);
    assert(p * (d0 * mult) == (d0 * mult) * p) by (nonlinear_arith);
    let (a, b) = (x as int / p as int % 10, x as int % p as int);
    lemma_mod_bound(x as int, p as int);
    assert(p * a + b == 0 <==> a == 0 && b == 0) by (nonlinear_arith)
        requires
            p > 0,
            a >= 0,
            b >= 0,
    ;
}

spec fn is_digit_at(f: Seq<char>, i: int) -> bool {
    text::is_digit(f[i])
}

proof fn pow10_positive(k: nat)
    ensures
        pow10(k) > 0,
    decreases k,
{
    if k > 0 {
        pow10_positive((k - 1) as nat);
    }
}

/// The value of digits, taken from the front.
proof fn value_from_front(f: Seq<char>)
    requires
        f.len() > 0,
    ensures
        text::digits_value(f) == ((f[0] as nat - 48) as nat) * pow10((f.len() - 1) as nat)
            + text::digits_value(f.skip(1)),
    decreases f.len(),
{
    let a = ((f[0] as nat - 48) as nat) as int;
    if f.len() == 1 {
        assert(f.drop_last() =~= Seq::<char>::empty());
        assert(f.skip(1) =~= Seq::<char>::empty());
        assert(pow10(0) == 1);
        assert(text::digits_value(Seq::<char>::empty()) == 0);
        assert(f.last() == f[0]);
        assert(text::digits_value(f) == a);
        assert(a * 1 == a);
    } else {
        let init = f.drop_last();
        value_from_front(init);
        assert(init.skip(1) =~= f.skip(1).drop_last());
        assert(f.skip(1).last() == f.last());
        let p = pow10((init.len() - 1) as nat) as int;
        let b = text::digits_value(init.skip(1)) as int;
        let c = ((f.last() as nat - 48) as nat) as int;
        assert(init[0] == f[0]);
        assert(text::digits_value(init) == a * p + b);
        assert(text::digits_value(f) == text::digits_value(init) * 10 + c);
        assert(text::digits_value(f.skip(1)) == b * 10 + c);
        assert(pow10((f.len() - 1) as nat) == 10 * p);
        assert((a * p + b) * 10 + c == a * (10 * p) + (b * 10 + c)) by (nonlinear_arith);
    }
}

/// The parts that the digits after the point come to, rounded down, and whether nothing is
/// left.
fn fraction_parts(f: &[char], unit: u128) -> (r: (u128, bool))
    requires
        text::all_digits(f@),
        1 <= unit <= 0x40_0000_0000_0000_0000_0000_0000,
    ensures
        r.0 == text::digits_value(f@) * unit as nat / pow10(f@.len()),
        r.1 == (text::digits_value(f@) * unit as nat % pow10(f@.len()) == 0),
        r.0 < unit,
{
    let mut v: u128 = 0;
    let mut exact: bool = true;
    let mut i: usize = f.len();
    let ghost u = unit as nat;
    proof {
        assert(f@.skip(f@.len() as int) =~= Seq::<char>::empty());
        assert(text::digits_value(Seq::<char>::empty()) == 0);
        assert(pow10(0) == 1);
        assert(0 * u == 0) by (nonlinear_arith);
    }
    while i > 0
        invariant
            text::all_digits(f@),
            1 <= unit <= 0x40_0000_0000_0000_0000_0000_0000,
            u == unit,
            i <= f@.len(),
            v == text::digits_value(f@.skip(i as int)) * u / pow10(f@.skip(i as int).len()),
            exact == (text::digits_value(f@.skip(i as int)) * u % pow10(f@.skip(i as int).len())
                == 0),
            v < unit,
        decreases i,
    {
        i -= 1;
        let c: char = f[i];
        proof {
            let t = f@.skip(i as int);
            assert(text::is_digit(f@[i as int]));
            assert(text::all_digits(t)) by {
                assert forall|k: int| 0 <= k < t.len() implies text::is_digit(#[trigger] t[k]) by {
                    assert(text::is_digit(f@[i + k]));
                }
            }
            fraction_step(t, u);
            assert(t.skip(1) =~= f@.skip(i + 1));
            assert(t[0] == c);
            assert(((c as nat - 48) as nat) * u <= 9 * u) by (nonlinear_arith)
                requires
                    c as nat - 48 <= 9,
                    c as nat >= 48,
            ;
        }
        let d: u128 = (c as u32 - 48) as u128;
        assert(d * unit <= 9 * unit);
        let sum: u128 = d * unit + v;
        exact = exact && sum % 10 == 0;
        v = sum / 10;
    }
    assert(f@.skip(0) =~= f@);
    (v, exact)
}

/// So many parts are more bytes than there can be.
proof fn too_much_is_too_much(parts: nat)
    requires
        parts >= 2 * (TOO_MUCH * PARTS),
    ensures
        double::below(double::rounded(usize::MAX as nat, 0), double::rounded(parts, -55)),
{
    lemma2_to64();
    lemma2_to64_rest();
    lemma_pow2_adds(64, 4);
    assert(parts as int / 1 == parts);
    double::halving_bounds(parts, -55, 67);
    lemma_pow2_adds(64, 3);
    let k = double::halvings(parts, -55);
    let (m, e) = double::rounded(parts, -55);
    assert(1 * pow2(k) == pow2(k));
    double::size_is_bounded(usize::MAX as nat);
    let a = double::rounded(usize::MAX as nat, 0);
    let d = (e - a.1) as nat;
    lemma_pow2_unfold(d);
    lemma_pow2_pos((d - 1) as nat);
    let p = pow2(d);
    assert(m * p >= 2 * m) by (nonlinear_arith)
        requires
            p >= 2,
            m >= 0,
    ;
}

fn unit_size(u: &str) -> (r: Option<u64>)
    ensures
        match r {
            Some(n) => unit_bytes(u@) == Some(n as nat) && 1 <= n <= 0x100_0000_0000,
            None => unit_bytes(u@) is None,
        },
{
    if same_text(u, "") || same_text(u, "B") {
        Some(1)
    } else if same_text(u, "K") || same_text(u, "KB") || same_text(u, "KIB") {
        Some(1024)
    } else if same_text(u, "M") || same_text(u, "MB") || same_text(u, "MIB") {
        Some(0x10_0000)
    } else if same_text(u, "G") || same_text(u, "GB") || same_text(u, "GIB") {
        Some(0x4000_0000)
    } else if same_text(u, "T") || same_text(u, "TB") || same_text(u, "TIB") {
        Some(0x100_0000_0000)
    } else {
        None
    }
}

fn is_digit(c: char) -> (r: bool)
    ensures
        r == text::is_digit(c),
{
    '0' <= c && c <= '9'
}

fn quoted(head: &str, s: &str, tail: &str) -> (e: GarudaError)
    ensures
        Fault::Config(head@ + s@ + tail@).is(e),
{
    let mut m = head.to_owned();
    m.append(s);
    m.append(tail);
    GarudaError::Config(m)
}

/// Where the point of a number is, or its end, if it is a number at all.
fn check_number(d: &[char]) -> (r: Option<usize>)
    ensures
        match r {
            Some(p) => is_number(d@) && p == point(d@, 0) && p <= d@.len(),
            None => !is_number(d@),
        },
{
    let mut p: usize = 0;
    while p < d.len() && d[p] != '.'
        invariant
            p <= d@.len(),
            point(d@, 0) == point(d@, p as int),
            forall|k: int| 0 <= k < p ==> #[trigger] d@[k] != '.' && text::is_digit(d@[k]),
        decreases d@.len() - p,
    {
        if !is_digit(d[p]) {
            proof {
                point_is_past(d@, p as int);
                assert(whole_part(d@)[p as int] == d@[p as int]);
                assert(!text::all_digits(whole_part(d@)));
            }
            return None;
        }
        p += 1;
    }
    assert(p == point(d@, 0));
    assert(text::all_digits(whole_part(d@)));
    let mut i: usize = p;
    if p < d.len() {
        i = p + 1;
        while i < d.len()
            invariant
                p < i <= d@.len(),
                p == point(d@, 0),
                forall|k: int| p < k < i ==> text::is_digit(#[trigger] d@[k]),
            decreases d@.len() - i,
        {
            if !is_digit(d[i]) {
                assert(fraction(d@)[i - p - 1] == d@[i as int]);
                assert(!text::all_digits(fraction(d@)));
                return None;
            }
            i += 1;
        }
        assert(text::all_digits(fraction(d@))) by {
            assert forall|k: int| 0 <= k < fraction(d@).len() implies text::is_digit(
                #[trigger] fraction(d@)[k],
            ) by {
                assert(fraction(d@)[k] == d@[p + 1 + k]);
            }
        }
        if d.len() == 1 {
            return None;
        }
    } else if p == 0 {
        return None;
    }
    Some(p)
}

proof fn point_is_past(d: Seq<char>, p: int)
    requires
        0 <= p < d.len(),
        d[p] != '.',
        point(d, 0) == point(d, p),
    ensures
        point(d, 0) > p,
        point(d, 0) <= d.len(),
{
    point_bounds(d, p + 1);
}

proof fn point_bounds(d: Seq<char>, p: int)
    requires
        0 <= p <= d.len(),
    ensures
        p <= point(d, p) <= d.len(),
    decreases d.len() - p,
{
    if p < d.len() && d[p] != '.' {
        point_bounds(d, p + 1);
    }
}

/// Reads a size that has been brought to its normal form `t`; `s` is how it was written.
pub fn parse_normalised(s: &str, t: &[char]) -> (r: Result<usize, GarudaError>)
    ensures
        match r {
            Ok(n) => size_of(s@, t@) == Ok::<nat, Seq<char>>(n as nat),
            Err(e) => size_of(s@, t@) matches Err(m) && Fault::Config(m).is(e),
        },
{
    if t.len() == 0 {
        return Err(GarudaError::Config("size is empty".to_owned()));
    }
    let mut n: usize = 0;
    while n < t.len() && (is_digit(t[n]) || t[n] == '.')
        invariant
            n <= t@.len(),
            number_len(t@, 0) == number_len(t@, n as int),
        decreases t@.len() - n,
    {
        n += 1;
    }
    let d = slice_subrange(t, 0, n);
    assert(d@ =~= number_text(t@));
    let unit = text_of(slice_subrange(t, n, t.len()));
    assert(unit@ =~= unit_text(t@));
    let Some(p) = check_number(d) else {
        return Err(quoted("'", s, "' is not a valid size"));
    };
    if double::is_endless(slice_subrange(d, 0, p)) {
        return Err(quoted("'", s, "' is not a valid size"));
    }
    let Some(mult) = unit_size(unit.as_str()) else {
        let mut m = "unknown size unit '".to_owned();
        m.append(unit.as_str());
        m.append("' in '");
        m.append(s);
        m.append("'");
        return Err(GarudaError::Config(m));
    };
    let f = if p < d.len() {
        slice_subrange(d, p + 1, d.len())
    } else {
        slice_subrange(d, p, p)
    };
    assert(f@ =~= fraction(d@));
    let unit: u128 = mult as u128 * PARTS;
    let ghost (w, fr) = (text::digits_value(whole_part(d@)), text::digits_value(fraction(d@)));
    let ghost u = mult as nat * PARTS as nat;
    proof {
        pow10_positive(fraction(d@).len());
        assert(fr * u >= 0) by (nonlinear_arith);
        lemma_div_pos_is_pos((fr * u) as int, pow10(fraction(d@).len()) as int);
        assert(w * u == (w * mult) * PARTS) by (nonlinear_arith)
            requires
                u == mult * PARTS,
        ;
        if w * mult >= TOO_MUCH {
            too_much_is_too_much(parts_of(d@, mult as nat));
        }
        assert(w <= w * mult) by (nonlinear_arith)
            requires
                mult >= 1,
                w >= 0,
        ;
    }
    let Some(count) = whole_value(d, p) else {
        return Err(quoted("size '", s, "' does not fit in memory"));
    };
    assert(count * mult <= 0x4_0000_0000_0000_0000 * 0x100_0000_0000) by (nonlinear_arith)
        requires
            0 <= count <= 0x4_0000_0000_0000_0000,
            0 <= mult <= 0x100_0000_0000,
    ;
    let bytes: u128 = count * mult as u128;
    if bytes >= TOO_MUCH {
        return Err(quoted("size '", s, "' does not fit in memory"));
    }
    let (part, exact) = fraction_parts(f, unit);
    let left: u128 = if exact {
        0
    } else {
        1
    };
    let all: u128 = 2 * (bytes * PARTS + part) + left;
    assert(all == parts_of(d@, mult as nat));
    let size = Double::round(all, -55);
    if Double::of(usize::MAX as u64).is_below(size) {
        return Err(quoted("size '", s, "' does not fit in memory"));
    }
    Ok(size.whole_at_most(usize::MAX))
}

/// Parses `"512MB"`, `"8 GiB"`, `"1024"` into bytes.
pub fn parse_size(s: &str) -> (r: Result<usize, GarudaError>)
    ensures
        match r {
            Ok(n) => size_of(s@, normalised(s@)) == Ok::<nat, Seq<char>>(n as nat),
            Err(e) => size_of(s@, normalised(s@)) matches Err(m) && Fault::Config(m).is(e),
        },
{
    let upper = chars_of(ascii_uppercase(trim(s).as_str()).as_str());
    let mut t: Vec<char> = Vec::new();
    let mut i: usize = 0;
    proof {
        reveal(Seq::filter);
        assert(upper@.take(0).filter(no_space()) =~= Seq::<char>::empty());
    }
    while i < upper.len()
        invariant
            i <= upper@.len(),
            t@ == upper@.take(i as int).filter(no_space()),
        decreases upper@.len() - i,
    {
        proof {
            reveal(Seq::filter);
            let next = upper@.take(i + 1);
            assert(next.drop_last() =~= upper@.take(i as int));
        }
        if upper[i] != ' ' {
            t.push(upper[i]);
        }
        i += 1;
    }
    assert(upper@.take(upper@.len() as int) =~= upper@);
    assert(t@ =~= normalised(s@));
    parse_normalised(s, t.as_slice())
}

#[derive(Debug, Clone, PartialEq)]
pub struct ModelConfig {
    /// Root for the L2 expert cache and for spilled KV blocks.
    pub path: String,
    /// Path to a GGUF checkpoint. When set, that model is loaded instead of the
    /// synthetic one, and `router`, `experts` and `top_k` are ignored.
    pub gguf: String,
    /// Keep the checkpoint's weights packed in a memory-mapped file.
    pub mmap: bool,
    /// Path to a checkpoint that guesses ahead for the main one. Empty disables it.
    pub draft_gguf: String,
    pub draft_mmap: bool,
    /// Leave the reasoning block of a template that has one open.
    pub thinking: bool,
    /// Prompt tokens that share one pass over a layer's weights. Zero uses the default.
    pub prefill_batch: usize,
    /// `mixtral`, `deepseek` or `qwen`.
    pub router: String,
    /// Context window, in tokens. A loaded model caps this at its own trained length.
    pub context: usize,
    pub experts: usize,
    pub top_k: usize,
    /// Attention window; zero attends to the whole context.
    pub sliding_window: usize,
    /// There is no GPU backend: `true` is refused.
    pub gpu: bool,
}

impl ModelConfig {
    pub open spec fn is_default(self) -> bool {
        &&& self.path@ == "./models"@
        &&& self.gguf@ == ""@
        &&& !self.mmap
        &&& self.draft_gguf@ == ""@
        &&& !self.draft_mmap
        &&& !self.thinking
        &&& self.prefill_batch == 0
        &&& self.router@ == "mixtral"@
        &&& self.context == 4096
        &&& self.experts == 8
        &&& self.top_k == 2
        &&& self.sliding_window == 0
        &&& !self.gpu
    }
}

impl Default for ModelConfig {
    fn default() -> (c: Self)
        ensures
            c.is_default(),
            c.path@ == "./models"@,
            c.gguf@ == ""@,
            !c.mmap,
            c.draft_gguf@ == ""@,
            !c.draft_mmap,
            !c.thinking,
            c.prefill_batch == 0,
            c.router@ == "mixtral"@,
            c.context == 4096,
            c.experts == 8,
            c.top_k == 2,
            c.sliding_window == 0,
            !c.gpu,
    {
        ModelConfig {
            path: "./models".to_owned(),
            gguf: "".to_owned(),
            mmap: false,
            draft_gguf: "".to_owned(),
            draft_mmap: false,
            thinking: false,
            prefill_batch: 0,
            router: "mixtral".to_owned(),
            context: 4096,
            experts: 8,
            top_k: 2,
            sliding_window: 0,
            gpu: false,
        }
    }
}

#[derive(Debug, Clone, PartialEq)]
pub struct MemoryConfig {
    /// L1 budget for expert weights, such as `512MB` or `8GB`.
    pub expert_cache: String,
    /// KV blocks held in RAM per sequence before spilling to disk.
    pub kv_resident_blocks: usize,
    /// Prompt prefixes to remember.
    pub prompt_cache_entries: usize,
    /// Budget for remembered prompts, such as `512MB`.
    pub prompt_cache: String,
    /// Cold archive tier. Empty disables it.
    pub archive_path: String,
    /// Spill KV blocks to disk when a sequence exceeds `kv_resident_blocks`.
    pub kv_spill: bool,
}

impl MemoryConfig {
    pub open spec fn is_default(self) -> bool {
        &&& self.expert_cache@ == "512MB"@
        &&& self.kv_resident_blocks == 512
        &&& self.prompt_cache_entries == 64
        &&& self.prompt_cache@ == "512MB"@
        &&& self.archive_path@ == ""@
        &&& self.kv_spill
    }
}

impl Default for MemoryConfig {
    fn default() -> (c: Self)
        ensures
            c.is_default(),
            c.expert_cache@ == "512MB"@,
            c.kv_resident_blocks == 512,
            c.prompt_cache_entries == 64,
            c.prompt_cache@ == "512MB"@,
            c.archive_path@ == ""@,
            c.kv_spill,
    {
        MemoryConfig {
            expert_cache: "512MB".to_owned(),
            kv_resident_blocks: 512,
            prompt_cache_entries: 64,
            prompt_cache: "512MB".to_owned(),
            archive_path: "".to_owned(),
            kv_spill: true,
        }
    }
}

#[derive(Debug, Clone, PartialEq)]
pub struct RuntimeConfig {
    /// Compute threads. Zero uses every core.
    pub threads: usize,
    pub prefetch: bool,
    pub predictor: bool,
}

impl RuntimeConfig {
    pub open spec fn is_default(self) -> bool {
        self.threads == 0 && self.prefetch && self.predictor
    }
}

impl Default for RuntimeConfig {
    fn default() -> (c: Self)
        ensures
            c.is_default(),
            c.threads == 0,
            c.prefetch,
            c.predictor,
    {
        RuntimeConfig { threads: 0, prefetch: true, predictor: true }
    }
}

#[derive(Debug, Clone, PartialEq)]
pub struct ServerConfig {
    pub host: String,
    pub port: u16,
    /// Sequences decoding at once.
    pub max_concurrent: usize,
    /// Requests allowed to wait for a slot before submissions are refused.
    pub queue_capacity: usize,
    /// Concurrent requests one user may have in flight.
    pub max_concurrent_per_user: usize,
    pub request_timeout_secs: u64,
    /// Permissive cross-origin rules. Off by default: letting any origin call the server
    /// is a decision the operator has to make.
    pub cors: bool,
    /// Shared secrets that open the API. Empty asks for none.
    pub api_keys: Vec<String>,
}

impl ServerConfig {
    pub open spec fn is_default(self) -> bool {
        &&& self.host@ == "127.0.0.1"@
        &&& self.port == 8080
        &&& self.max_concurrent == 4
        &&& self.queue_capacity == 256
        &&& self.max_concurrent_per_user == 8
        &&& self.request_timeout_secs == 120
        &&& !self.cors
        &&& self.api_keys@.len() == 0
    }
}

impl Default for ServerConfig {
    fn default() -> (c: Self)
        ensures
            c.is_default(),
            c.host@ == "127.0.0.1"@,
            c.port == 8080,
            c.max_concurrent == 4,
            c.queue_capacity == 256,
            c.max_concurrent_per_user == 8,
            c.request_timeout_secs == 120,
            !c.cors,
            c.api_keys@.len() == 0,
    {
        ServerConfig {
            host: "127.0.0.1".to_owned(),
            port: 8080,
            max_concurrent: 4,
            queue_capacity: 256,
            max_concurrent_per_user: 8,
            request_timeout_secs: 120,
            cors: false,
            api_keys: Vec::new(),
        }
    }
}

#[derive(Debug, Clone, Copy, PartialEq, Eq)]
pub struct SamplingConfig {
    /// An `f32` bit pattern.
    pub temperature_bits: u32,
    /// An `f32` bit pattern.
    pub top_p_bits: u32,
    pub top_k: usize,
    pub max_tokens: usize,
}

impl SamplingConfig {
    pub open spec fn is_default(self) -> bool {
        &&& self.temperature_bits == sampling::DEFAULT_TEMPERATURE_BITS
        &&& self.top_p_bits == sampling::DEFAULT_TOP_P_BITS
        &&& self.top_k == 40
        &&& self.max_tokens == 256
    }
}

impl Default for SamplingConfig {
    fn default() -> (c: Self)
        ensures
            c.is_default(),
            c.temperature_bits == 0x3F4C_CCCD,
            c.top_p_bits == 0x3F73_3333,
            c.top_k == 40,
            c.max_tokens == 256,
    {
        SamplingConfig {
            temperature_bits: sampling::DEFAULT_TEMPERATURE_BITS,
            top_p_bits: sampling::DEFAULT_TOP_P_BITS,
            top_k: 40,
            max_tokens: 256,
        }
    }
}

#[derive(Debug, Clone, PartialEq)]
pub struct AppConfig {
    pub model: ModelConfig,
    pub memory: MemoryConfig,
    pub runtime: RuntimeConfig,
    pub server: ServerConfig,
    pub sampling: SamplingConfig,
}

impl Default for AppConfig {
    fn default() -> (c: Self)
        ensures
            c.model.is_default(),
            c.memory.is_default(),
            c.runtime.is_default(),
            c.server.is_default(),
            c.sampling.is_default(),
    {
        AppConfig {
            model: ModelConfig::default(),
            memory: MemoryConfig::default(),
            runtime: RuntimeConfig::default(),
            server: ServerConfig::default(),
            sampling: SamplingConfig::default(),
        }
    }
}

/// Why a configuration is refused.
#[derive(Debug, PartialEq)]
pub enum ConfigFault {
    Refused(GarudaError),
    /// The sampling defaults are out of range.
    Sampling(SamplingFault),
}

/// A refusal as contracts speak of it.
#[verifier::ext_equal]
pub enum Refusal {
    Config(Seq<char>),
    Sampling(SamplingFault),
}

impl Refusal {
    pub open spec fn is(self, e: ConfigFault) -> bool {
        match self {
            Refusal::Config(m) => e matches ConfigFault::Refused(g) && Fault::Config(m).is(g),
            Refusal::Sampling(f) => e == ConfigFault::Sampling(f),
        }
    }
}

/// A path that is set: not blank.
pub open spec fn path_in(s: Seq<char>) -> Option<Seq<char>> {
    if text::trimmed(s).len() == 0 {
        None
    } else {
        Some(text::trimmed(s))
    }
}

/// `s` without surrounding white space, unless nothing is left of it.
fn path_of(s: &str) -> (r: Option<String>)
    ensures
        match r {
            Some(p) => path_in(s@) == Some(p@),
            None => path_in(s@) is None,
        },
        r matches Some(p) ==> p@ == text::trimmed(s@) && p@.len() > 0,
        r is None ==> text::trimmed(s@).len() == 0,
{
    let p = trim(s);
    let cs = chars_of(p.as_str());
    if cs.len() == 0 {
        None
    } else {
        Some(p)
    }
}

impl AppConfig {
    /// The dimensions of the synthetic model that this configuration asks for.
    pub open spec fn wanted_dims(self) -> ModelDims {
        ModelDims {
            d_model: 128,
            n_heads: 4,
            head_dim: 32,
            d_ff: 256,
            n_experts: self.model.experts,
            top_k: self.model.top_k,
            vocab_size: types::VOCAB_SIZE,
            block_size: 16,
            rope_theta_bits: types::DEFAULT_ROPE_THETA_BITS,
        }
    }

    pub open spec fn wanted_sampling(self) -> SamplingParams {
        SamplingParams {
            temperature_bits: self.sampling.temperature_bits,
            top_p_bits: self.sampling.top_p_bits,
            top_k: self.sampling.top_k,
            max_tokens: self.sampling.max_tokens,
            seed: None,
        }
    }

    /// What is wrong with the router and the expert counts. They only matter where no
    /// checkpoint brings its own architecture.
    pub open spec fn synthetic_refusal(self) -> Option<Seq<char>> {
        if path_in(self.model.gguf@) is Some {
            None
        } else if RouterType::named(self.model.router@) is None {
            Some(RouterType::unknown_message(self.model.router@))
        } else if !self.wanted_dims().top_k_in_range() {
            Some(self.wanted_dims().top_k_message())
        } else {
            None
        }
    }

    /// What is wrong with the windows and the server's limits.
    pub open spec fn limit_refusal(self) -> Option<Seq<char>> {
        if self.model.context == 0 {
            Some("model.context must be at least 1"@)
        } else if self.model.sliding_window > self.model.context {
            Some(
                "model.sliding_window ("@ + text::decimal(self.model.sliding_window as nat)
                    + ") exceeds model.context ("@ + text::decimal(self.model.context as nat)
                    + ")"@,
            )
        } else if self.server.max_concurrent == 0 {
            Some("server.max_concurrent must be at least 1"@)
        } else if self.server.queue_capacity == 0 {
            Some("server.queue_capacity must be at least 1"@)
        } else if self.server.max_concurrent_per_user == 0 {
            Some("server.max_concurrent_per_user must be at least 1"@)
        } else if self.server.request_timeout_secs == 0 {
            Some("server.request_timeout_secs must be at least 1"@)
        } else {
            None
        }
    }

    /// The first thing in this configuration that the runtime cannot honour.
    pub open spec fn refusal(self) -> Option<Refusal> {
        if self.model.gpu {
            Some(Refusal::Config(gpu_message()))
        } else if let Some(m) = self.synthetic_refusal() {
            Some(Refusal::Config(m))
        } else if let Some(f) = self.wanted_sampling().fault() {
            Some(Refusal::Sampling(f))
        } else if let Err(m) = size_of(
            self.memory.expert_cache@,
            normalised(self.memory.expert_cache@),
        ) {
            Some(Refusal::Config(m))
        } else if let Some(m) = self.limit_refusal() {
            Some(Refusal::Config(m))
        } else {
            None
        }
    }

    fn check_synthetic(&self) -> (r: Result<(), GarudaError>)
        ensures
            match r {
                Ok(_) => self.synthetic_refusal() is None,
                Err(e) => self.synthetic_refusal() matches Some(m) && Fault::Config(m).is(e),
            },
    {
        if self.gguf_path().is_some() {
            return Ok(());
        }
        match self.router() {
            Ok(_) => {},
            Err(e) => {
                return Err(e);
            },
        }
        match self.dims() {
            Ok(_) => Ok(()),
            Err(e) => Err(e),
        }
    }

    fn check_limits(&self) -> (r: Result<(), GarudaError>)
        ensures
            match r {
                Ok(_) => self.limit_refusal() is None,
                Err(e) => self.limit_refusal() matches Some(m) && Fault::Config(m).is(e),
            },
    {
        let m = if self.model.context == 0 {
            "model.context must be at least 1".to_owned()
        } else if self.model.sliding_window > self.model.context {
            let mut m = "model.sliding_window (".to_owned();
            push_size(&mut m, self.model.sliding_window);
            m.append(") exceeds model.context (");
            push_size(&mut m, self.model.context);
            m.append(")");
            m
        } else if self.server.max_concurrent == 0 {
            "server.max_concurrent must be at least 1".to_owned()
        } else if self.server.queue_capacity == 0 {
            "server.queue_capacity must be at least 1".to_owned()
        } else if self.server.max_concurrent_per_user == 0 {
            "server.max_concurrent_per_user must be at least 1".to_owned()
        } else if self.server.request_timeout_secs == 0 {
            "server.request_timeout_secs must be at least 1".to_owned()
        } else {
            return Ok(());
        };
        Err(GarudaError::Config(m))
    }

    /// Refuses anything the runtime cannot honour.
    pub fn validate(&self) -> (r: Result<(), ConfigFault>)
        ensures
            match r {
                Ok(_) => self.refusal() is None,
                Err(e) => self.refusal() matches Some(f) && f.is(e),
            },
            r is Ok <==> {
                &&& !self.model.gpu
                &&& path_in(self.model.gguf@) is Some || (RouterType::named(
                    self.model.router@,
                ) is Some && 1 <= self.model.top_k <= self.model.experts)
                &&& self.wanted_sampling().fault() is None
                &&& size_of(
                    self.memory.expert_cache@,
                    normalised(self.memory.expert_cache@),
                ) is Ok
                &&& self.model.sliding_window <= self.model.context
                &&& self.model.context > 0
                &&& self.server.max_concurrent > 0
                &&& self.server.queue_capacity > 0
                &&& self.server.max_concurrent_per_user > 0
                &&& self.server.request_timeout_secs > 0
            },
    {
        if self.model.gpu {
            let mut m = "gpu = true, but Garuda has no GPU backend. ".to_owned();
            m.append("Implement core::InferenceBackend and wire it up, or set gpu = false.");
            return Err(ConfigFault::Refused(GarudaError::Config(m)));
        }
        match self.check_synthetic() {
            Ok(_) => {},
            Err(e) => {
                return Err(ConfigFault::Refused(e));
            },
        }
        match self.sampling() {
            Ok(_) => {},
            Err(f) => {
                return Err(ConfigFault::Sampling(f));
            },
        }
        match self.expert_cache_bytes() {
            Ok(_) => {},
            Err(e) => {
                return Err(ConfigFault::Refused(e));
            },
        }
        match self.check_limits() {
            Ok(_) => Ok(()),
            Err(e) => Err(ConfigFault::Refused(e)),
        }
    }

    /// The checkpoint to load, if one is configured.
    pub fn gguf_path(&self) -> (r: Option<String>)
        ensures
            match r {
                Some(p) => path_in(self.model.gguf@) == Some(p@),
                None => path_in(self.model.gguf@) is None,
            },
    {
        path_of(self.model.gguf.as_str())
    }

    /// The checkpoint that guesses ahead, if one is configured.
    pub fn draft_path(&self) -> (r: Option<String>)
        ensures
            match r {
                Some(p) => path_in(self.model.draft_gguf@) == Some(p@),
                None => path_in(self.model.draft_gguf@) is None,
            },
    {
        path_of(self.model.draft_gguf.as_str())
    }

    pub fn router(&self) -> (r: Result<RouterType, GarudaError>)
        ensures
            match r {
                Ok(t) => RouterType::named(self.model.router@) == Some(t),
                Err(e) => RouterType::named(self.model.router@) is None && Fault::Config(
                    RouterType::unknown_message(self.model.router@),
                ).is(e),
            },
    {
        RouterType::parse(self.model.router.as_str())
    }

    pub fn dims(&self) -> (r: Result<ModelDims, GarudaError>)
        ensures
            match r {
                Ok(d) => d == self.wanted_dims() && d.valid() && d.n_experts == self.model.experts
                    && d.top_k == self.model.top_k && d.d_model == 128 && d.n_heads == 4
                    && d.head_dim == 32 && d.d_ff == 256 && d.vocab_size == 260 && d.block_size
                    == 16 && d.rope_theta_bits == 0x461C_4000,
                Err(e) => !self.wanted_dims().top_k_in_range() && Fault::Config(
                    self.wanted_dims().top_k_message(),
                ).is(e),
            },
    {
        let mut d = ModelDims::default();
        d.n_experts = self.model.experts;
        d.top_k = self.model.top_k;
        match d.validate() {
            Ok(_) => Ok(d),
            Err(e) => Err(e),
        }
    }

    pub fn expert_cache_bytes(&self) -> (r: Result<usize, GarudaError>)
        ensures
            match r {
                Ok(n) => size_of(
                    self.memory.expert_cache@,
                    normalised(self.memory.expert_cache@),
                ) == Ok::<nat, Seq<char>>(n as nat),
                Err(e) => size_of(
                    self.memory.expert_cache@,
                    normalised(self.memory.expert_cache@),
                ) matches Err(m) && Fault::Config(m).is(e),
            },
    {
        parse_size(self.memory.expert_cache.as_str())
    }

    pub fn prompt_cache_bytes(&self) -> (r: Result<usize, GarudaError>)
        ensures
            match r {
                Ok(n) => size_of(
                    self.memory.prompt_cache@,
                    normalised(self.memory.prompt_cache@),
                ) == Ok::<nat, Seq<char>>(n as nat),
                Err(e) => size_of(
                    self.memory.prompt_cache@,
                    normalised(self.memory.prompt_cache@),
                ) matches Err(m) && Fault::Config(m).is(e),
            },
    {
        parse_size(self.memory.prompt_cache.as_str())
    }

    pub open spec fn window(self) -> Option<usize> {
        if self.model.sliding_window > 0 {
            Some(self.model.sliding_window)
        } else {
            None
        }
    }

    pub fn sliding_window(&self) -> (r: Option<usize>)
        ensures
            r == self.window(),
            self.model.sliding_window > 0 ==> r == Some(self.model.sliding_window),
            self.model.sliding_window == 0 ==> r is None,
    {
        if self.model.sliding_window > 0 {
            Some(self.model.sliding_window)
        } else {
            None
        }
    }

    pub fn archive_path(&self) -> (r: Option<String>)
        ensures
            match r {
                Some(p) => path_in(self.memory.archive_path@) == Some(p@),
                None => path_in(self.memory.archive_path@) is None,
            },
    {
        path_of(self.memory.archive_path.as_str())
    }

    pub fn sampling(&self) -> (r: Result<SamplingParams, SamplingFault>)
        ensures
            match r {
                Ok(p) => p == self.wanted_sampling() && p.fault() is None && p.temperature_bits
                    == self.sampling.temperature_bits && p.top_p_bits == self.sampling.top_p_bits
                    && p.top_k == self.sampling.top_k && p.max_tokens == self.sampling.max_tokens
                    && p.seed is None,
                Err(f) => self.wanted_sampling().fault() == Some(f),
            },
    {
        let p = SamplingParams {
            temperature_bits: self.sampling.temperature_bits,
            top_p_bits: self.sampling.top_p_bits,
            top_k: self.sampling.top_k,
            max_tokens: self.sampling.max_tokens,
            seed: None,
        };
        match p.validate() {
            Ok(_) => Ok(p),
            Err(f) => Err(f),
        }
    }

    pub fn scheduler(&self) -> (c: SchedulerConfig)
        ensures
            c.max_concurrent == self.server.max_concurrent,
            c.speculative_lookahead == 4,
            c.queue_capacity == self.server.queue_capacity,
            c.max_concurrent_per_user == self.server.max_concurrent_per_user,
    {
        let mut c = SchedulerConfig::default();
        c.max_concurrent = self.server.max_concurrent;
        c.queue_capacity = self.server.queue_capacity;
        c.max_concurrent_per_user = self.server.max_concurrent_per_user;
        c
    }

    /// How long a request may take, in seconds.
    pub fn request_timeout(&self) -> (secs: u64)
        ensures
            secs == self.server.request_timeout_secs,
    {
        self.server.request_timeout_secs
    }
}

pub open spec fn gpu_message() -> Seq<char> {
    "gpu = true, but Garuda has no GPU backend. "@
        + "Implement core::InferenceBackend and wire it up, or set gpu = false."@
}

/// A configuration that is accepted can be acted on: the router, the dimensions, the
/// sampling defaults and the cache size all resolve, and the scheduler has room to work.
pub proof fn accepted_configurations_resolve(c: AppConfig)
    requires
        c.refusal() is None,
    ensures
        !c.model.gpu,
        path_in(c.model.gguf@) is None ==> RouterType::named(c.model.router@) is Some
            && c.wanted_dims().valid(),
        c.wanted_sampling().fault() is None,
        size_of(c.memory.expert_cache@, normalised(c.memory.expert_cache@)) is Ok,
        c.model.context >= 1,
        c.window() matches Some(w) ==> 1 <= w <= c.model.context,
        c.server.max_concurrent >= 1,
        c.server.queue_capacity >= 1,
        c.server.max_concurrent_per_user >= 1,
        c.server.request_timeout_secs >= 1,
{
}

} // verus!
