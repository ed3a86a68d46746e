//! What a size means however it is written.

use crate::config;
use crate::double;
use crate::text;
use vstd::arithmetic::div_mod::*;
use vstd::arithmetic::power::*;
use vstd::arithmetic::power2::*;
use vstd::prelude::*;
use vstd::string::*;

verus! {

/// The two texts differ in the case of ASCII letters at most.
pub open spec fn same_but_for_case(a: Seq<char>, b: Seq<char>) -> bool {
    &&& a.len() == b.len()
    &&& forall|i: int|
        0 <= i < a.len() ==> text::upper_char(#[trigger] a[i]) == text::upper_char(b[i])
}

/// Where the text starts is the first place without white space.
proof fn start_found(s: Seq<char>, from: int)
    requires
        0 <= from <= s.len(),
    ensures
        from <= text::start_of_text(s, from) <= s.len(),
        forall|k: int|
            from <= k < text::start_of_text(s, from) ==> text::white_space(#[trigger] s[k]),
        text::start_of_text(s, from) < s.len() ==> !text::white_space(
            s[text::start_of_text(s, from)],
        ),
    decreases s.len() - from,
{
    if from < s.len() && text::white_space(s[from]) {
        start_found(s, from + 1);
    }
}

proof fn start_is(s: Seq<char>, from: int, a: int)
    requires
        0 <= from <= a <= s.len(),
        forall|k: int| from <= k < a ==> text::white_space(#[trigger] s[k]),
        a < s.len() ==> !text::white_space(s[a]),
    ensures
        text::start_of_text(s, from) == a,
    decreases a - from,
{
    if from < a {
        assert(text::white_space(s[from]));
        start_is(s, from + 1, a);
    }
}

/// Where the text ends is past the last place without white space.
proof fn end_found(s: Seq<char>, to: int)
    requires
        0 <= to <= s.len(),
    ensures
        0 <= text::end_of_text(s, to) <= to,
        forall|k: int| text::end_of_text(s, to) <= k < to ==> text::white_space(#[trigger] s[k]),
        text::end_of_text(s, to) > 0 ==> !text::white_space(s[text::end_of_text(s, to) - 1]),
    decreases to,
{
    if to > 0 && text::white_space(s[to - 1]) {
        end_found(s, to - 1);
    }
}

proof fn end_is(s: Seq<char>, to: int, b: int)
    requires
        0 <= b <= to <= s.len(),
        forall|k: int| b <= k < to ==> text::white_space(#[trigger] s[k]),
        b > 0 ==> !text::white_space(s[b - 1]),
    ensures
        text::end_of_text(s, to) == b,
    decreases to,
{
    if b < to {
        assert(text::white_space(s[to - 1]));
        end_is(s, to - 1, b);
    }
}

/// Whether a size is written in capitals or small letters makes no difference to it.
pub proof fn case_never_changes_a_size(a: Seq<char>, b: Seq<char>)
    requires
        same_but_for_case(a, b),
    ensures
        config::normalised(a) == config::normalised(b),
{
    assert forall|i: int| 0 <= i < a.len() implies text::white_space(#[trigger] a[i])
        == text::white_space(b[i]) by {
        assert(text::upper_char(a[i]) == text::upper_char(b[i]));
    }
    let n = a.len() as int;
    start_found(a, 0);
    end_found(a, n);
    let (from, to) = (text::start_of_text(a, 0), text::end_of_text(a, n));
    assert forall|k: int| 0 <= k < from implies text::white_space(#[trigger] b[k]) by {
        assert(text::white_space(a[k]));
    }
    assert forall|k: int| to <= k < n implies text::white_space(#[trigger] b[k]) by {
        assert(text::white_space(a[k]));
    }
    start_is(b, 0, from);
    end_is(b, n, to);
    let upper = |c: char| text::upper_char(c);
    assert(text::trimmed(a).map_values(upper) =~= text::trimmed(b).map_values(upper)) by {
        assert forall|k: int| 0 <= k < text::trimmed(a).len() implies text::trimmed(
            a,
        ).map_values(upper)[k] == text::trimmed(b).map_values(upper)[k] by {
            assert(text::upper_char(a[from + k]) == text::upper_char(b[from + k]));
        }
    }
}

/// A space more, before the size, behind it or anywhere within, makes no difference to it.
pub proof fn a_space_never_changes_a_size(s: Seq<char>, i: int)
    requires
        0 <= i <= s.len(),
    ensures
        config::normalised(s.insert(i, ' ')) == config::normalised(s),
{
    let t = s.insert(i, ' ');
    let n = s.len() as int;
    start_found(s, 0);
    end_found(s, n);
    let (a, b) = (text::start_of_text(s, 0), text::end_of_text(s, n));
    if a == n {
        if b > 0 {
            assert(text::white_space(s[b - 1]));
        }
        assert forall|k: int| 0 <= k < t.len() implies text::white_space(#[trigger] t[k]) by {
            if k < i {
                assert(t[k] == s[k]);
            } else if k > i {
                assert(t[k] == s[k - 1]);
            }
        }
        start_is(t, 0, n + 1);
        end_is(t, n + 1, 0);
    } else {
        if b <= a {
            assert(text::white_space(s[a]));
        }
        assert forall|k: int| 0 <= k < t.len() implies #[trigger] t[k] == if k < i {
            s[k]
        } else if k == i {
            ' '
        } else {
            s[k - 1]
        } by {}
        let (c, d) = if i <= a {
            (a + 1, b + 1)
        } else if i >= b {
            (a, b)
        } else {
            (a, b + 1)
        };
        start_is(t, 0, c);
        end_is(t, n + 1, d);
        if i <= a || i >= b {
            assert(text::trimmed(t) =~= text::trimmed(s));
        } else {
            let upper = |c: char| text::upper_char(c);
            let x = text::trimmed(s).map_values(upper);
            let y = text::trimmed(t).map_values(upper);
            let (head, tail) = (x.take(i - a), x.skip(i - a));
            let gap = seq![' '];
            assert(x =~= head + tail);
            assert(y =~= head + (gap + tail));
            Seq::filter_distributes_over_add(head, tail, config::no_space());
            Seq::filter_distributes_over_add(head, gap + tail, config::no_space());
            Seq::filter_distributes_over_add(gap, tail, config::no_space());
            only_a_space(gap);
            assert(Seq::<char>::empty() + tail.filter(config::no_space()) =~= tail.filter(
                config::no_space(),
            ));
        }
    }
}

/// The numeral of a number has its value.
proof fn numeral_has_value(x: nat)
    ensures
        text::digits_value(text::decimal(x)) == x,
    decreases x,
{
    if x < 10 {
        let d = text::decimal(x);
        assert(d.drop_last() =~= Seq::<char>::empty());
        assert(d.last() as int == 48 + x);
        assert(text::digits_value(Seq::<char>::empty()) == 0);
    } else {
        numeral_has_value(x / 10);
        let d = text::decimal(x);
        assert(d.drop_last() =~= text::decimal(x / 10));
        assert(d.last() as int == 48 + x % 10);
    }
}

proof fn number_ends(t: Seq<char>, from: int, n: int)
    requires
        0 <= from <= n <= t.len(),
        forall|k: int| from <= k < n ==> config::numeric(#[trigger] t[k]),
        n < t.len() ==> !config::numeric(t[n]),
    ensures
        config::number_len(t, from) == n,
    decreases n - from,
{
    if from < n {
        assert(config::numeric(t[from]));
        number_ends(t, from + 1, n);
    }
}

proof fn no_point(d: Seq<char>, from: int)
    requires
        0 <= from <= d.len(),
        text::all_digits(d),
    ensures
        config::point(d, from) == d.len(),
    decreases d.len() - from,
{
    if from < d.len() {
        assert(text::is_digit(d[from]));
        no_point(d, from + 1);
    }
}

/// A unit is written in capitals.
proof fn units_are_capitals(u: Seq<char>)
    requires
        config::unit_bytes(u) is Some,
    ensures
        forall|i: int| 0 <= i < u.len() ==> 'A' <= #[trigger] u[i] <= 'Z',
{
    reveal_strlit("");
    reveal_strlit("B");
    reveal_strlit("K");
    reveal_strlit("KB");
    reveal_strlit("KIB");
    reveal_strlit("M");
    reveal_strlit("MB");
    reveal_strlit("MIB");
    reveal_strlit("G");
    reveal_strlit("GB");
    reveal_strlit("GIB");
    reveal_strlit("T");
    reveal_strlit("TB");
    reveal_strlit("TIB");
}

/// A whole number of a unit is that number times the unit's bytes, however the size is
/// written. Every spelling of a unit stands for the same power of 1024. The number is one
/// that a double holds.
pub proof fn a_size_is_its_number_times_its_unit(s: Seq<char>, x: nat, unit: Seq<char>)
    requires
        config::normalised(s) == text::decimal(x) + unit,
        config::unit_bytes(unit) matches Some(mult) && x * mult <= usize::MAX,
        x < double::TOP,
    ensures
        config::size_of(s, config::normalised(s)) == Ok::<nat, Seq<char>>(
            x * config::unit_bytes(unit)->Some_0,
        ),
{
    let t = config::normalised(s);
    let d = text::decimal(x);
    let mult = config::unit_bytes(unit)->Some_0;
    text::decimal_is_digits(x);
    units_are_capitals(unit);
    assert forall|k: int| 0 <= k < d.len() implies config::numeric(#[trigger] t[k]) by {
        assert(t[k] == d[k]);
    }
    number_ends(t, 0, d.len() as int);
    assert(config::number_text(t) =~= d);
    assert(config::unit_text(t) =~= unit);
    no_point(d, 0);
    assert(config::whole_part(d) =~= d);
    numeral_has_value(x);
    assert(config::pow10(0) == 1);
    assert(text::digits_value(Seq::<char>::empty()) == 0);
    let unit_parts = mult * config::PARTS as nat;
    assert(0 * unit_parts == 0) by (nonlinear_arith);
    let places = unit_places(unit);
    lemma2_to64_rest();
    lemma_pow2_adds(places, 55);
    assert(config::parts_of(d, mult) == x * pow2(places + 55)) by {
        let parts = config::parts_of(d, mult);
        assert(parts == 2 * (x * unit_parts));
        assert(2 * (x * unit_parts) == x * (mult * pow2(55))) by (nonlinear_arith)
            requires
                unit_parts == mult * 0x40_0000_0000_0000,
                pow2(55) == 0x80_0000_0000_0000,
        ;
    }
    double::a_whole_number_stays(x, places);
    double::doubles_end_later();
}

/// The power of two that a unit stands for.
proof fn unit_places(unit: Seq<char>) -> (s: nat)
    requires
        config::unit_bytes(unit) is Some,
    ensures
        s <= 40,
        config::unit_bytes(unit) == Some(pow2(s)),
{
    lemma2_to64();
    lemma2_to64_rest();
    let mult = config::unit_bytes(unit)->Some_0;
    if mult == 1 {
        0
    } else if mult == 1024 {
        10
    } else if mult == 0x10_0000 {
        20
    } else if mult == 0x4000_0000 {
        30
    } else {
        40
    }
}

/// A text without spaces is left as it is when spaces are taken out.
proof fn nothing_to_filter(t: Seq<char>)
    requires
        forall|i: int| 0 <= i < t.len() ==> #[trigger] t[i] != ' ',
    ensures
        t.filter(config::no_space()) == t,
    decreases t.len(),
{
    reveal(Seq::filter);
    if t.len() > 0 {
        let init = t.drop_last();
        nothing_to_filter(init);
        assert(config::no_space()(t.last()));
        assert(init.push(t.last()) =~= t);
    } else {
        assert(t.filter(config::no_space()) =~= t);
    }
}

/// A number and a unit, written one behind the other, are the size they say: the number
/// times the unit's bytes.
pub proof fn a_plain_size_is_what_it_says(x: nat, unit: Seq<char>)
    requires
        config::unit_bytes(unit) matches Some(mult) && x * mult <= usize::MAX,
        x < double::TOP,
    ensures
        config::normalised(text::decimal(x) + unit) == text::decimal(x) + unit,
        config::size_of(text::decimal(x) + unit, text::decimal(x) + unit) == Ok::<nat, Seq<char>>(
            x * config::unit_bytes(unit)->Some_0,
        ),
{
    let t = text::decimal(x) + unit;
    let n = t.len() as int;
    text::decimal_is_digits(x);
    units_are_capitals(unit);
    assert forall|i: int| 0 <= i < n implies !text::white_space(#[trigger] t[i])
        && text::upper_char(t[i]) == t[i] && t[i] != ' ' by {
        if i < text::decimal(x).len() {
            assert(t[i] == text::decimal(x)[i]);
        } else {
            assert(t[i] == unit[i - text::decimal(x).len()]);
        }
    }
    start_is(t, 0, 0);
    end_is(t, n, n);
    assert(text::trimmed(t) =~= t);
    assert(t.map_values(|c: char| text::upper_char(c)) =~= t);
    nothing_to_filter(t);
    a_size_is_its_number_times_its_unit(t, x, unit);
}

/// Spaces anywhere make no difference to a size: without them it is the same.
proof fn spaces_never_change_a_size(s: Seq<char>)
    ensures
        config::normalised(s.filter(config::no_space())) == config::normalised(s),
    decreases s.len(),
{
    let p = config::no_space();
    if exists|i: int| 0 <= i < s.len() && s[i] == ' ' {
        let i = choose|i: int| 0 <= i < s.len() && s[i] == ' ';
        let less = s.remove(i);
        a_space_never_changes_a_size(less, i);
        assert(less.insert(i, ' ') =~= s);
        spaces_never_change_a_size(less);
        let (head, gap, tail) = (s.take(i), seq![' '], s.skip(i + 1));
        assert(s =~= head + (gap + tail));
        assert(less =~= head + tail);
        Seq::filter_distributes_over_add(head, tail, p);
        Seq::filter_distributes_over_add(head, gap + tail, p);
        Seq::filter_distributes_over_add(gap, tail, p);
        only_a_space(gap);
        assert(Seq::<char>::empty() + tail.filter(p) =~= tail.filter(p));
    } else {
        nothing_to_filter(s);
    }
}

proof fn only_a_space(gap: Seq<char>)
    requires
        gap == seq![' '],
    ensures
        gap.filter(config::no_space()) == Seq::<char>::empty(),
{
    reveal(Seq::filter);
    let p = config::no_space();
    assert(gap.drop_last() =~= Seq::<char>::empty());
    assert(Seq::<char>::empty().filter(p) =~= Seq::<char>::empty());
    assert(!p(gap.last()));
    assert(gap.filter(p) =~= Seq::<char>::empty());
}

/// A size is its number times its unit's bytes however it is written: in capitals or small
/// letters, with spaces before it, behind it or anywhere within.
pub proof fn the_way_a_size_is_written_does_not_matter(s: Seq<char>, x: nat, unit: Seq<char>)
    requires
        same_but_for_case(s.filter(config::no_space()), text::decimal(x) + unit),
        config::unit_bytes(unit) matches Some(mult) && x * mult <= usize::MAX,
        x < double::TOP,
    ensures
        config::size_of(s, config::normalised(s)) == Ok::<nat, Seq<char>>(
            x * config::unit_bytes(unit)->Some_0,
        ),
{
    spaces_never_change_a_size(s);
    case_never_changes_a_size(s.filter(config::no_space()), text::decimal(x) + unit);
    a_plain_size_is_what_it_says(x, unit);
    a_size_is_its_number_times_its_unit(s, x, unit);
}

/// A unit is so many bytes, and every next one 1024 times the one before, however much of its
/// name is written. Nothing else is a unit.
pub proof fn units_grow_by_1024(u: Seq<char>)
    ensures
        config::unit_bytes(""@) == Some(1nat),
        config::unit_bytes("B"@) == Some(1nat),
        u == "K"@ || u == "KB"@ || u == "KIB"@ ==> config::unit_bytes(u) == Some(1024nat),
        u == "M"@ || u == "MB"@ || u == "MIB"@ ==> config::unit_bytes(u) == Some(1024nat * 1024),
        u == "G"@ || u == "GB"@ || u == "GIB"@ ==> config::unit_bytes(u) == Some(
            1024nat * 1024 * 1024,
        ),
        u == "T"@ || u == "TB"@ || u == "TIB"@ ==> config::unit_bytes(u) == Some(
            1024nat * 1024 * 1024 * 1024,
        ),
        config::unit_bytes(u) is Some ==> u.len() <= 3,
{
    reveal_strlit("");
    reveal_strlit("B");
    reveal_strlit("K");
    reveal_strlit("KB");
    reveal_strlit("KIB");
    reveal_strlit("M");
    reveal_strlit("MB");
    reveal_strlit("MIB");
    reveal_strlit("G");
    reveal_strlit("GB");
    reveal_strlit("GIB");
    reveal_strlit("T");
    reveal_strlit("TB");
    reveal_strlit("TIB");
    assert(""@.len() == 0 && "B"@.len() == 1 && "K"@.len() == 1 && "M"@.len() == 1 && "G"@.len()
        == 1 && "T"@.len() == 1);
    assert("KB"@.len() == 2 && "MB"@.len() == 2 && "GB"@.len() == 2 && "TB"@.len() == 2);
    assert("KIB"@.len() == 3 && "MIB"@.len() == 3 && "GIB"@.len() == 3 && "TIB"@.len() == 3);
    assert("B"@[0] == 'B' && "K"@[0] == 'K' && "M"@[0] == 'M' && "G"@[0] == 'G' && "T"@[0] == 'T');
    assert("KB"@[0] == 'K' && "MB"@[0] == 'M' && "GB"@[0] == 'G' && "TB"@[0] == 'T');
    assert("KIB"@[0] == 'K' && "MIB"@[0] == 'M' && "GIB"@[0] == 'G' && "TIB"@[0] == 'T');
    assert(1024nat * 1024 == 0x10_0000 && 1024nat * 1024 * 1024 == 0x4000_0000 && 1024nat * 1024
        * 1024 * 1024 == 0x100_0000_0000) by (nonlinear_arith);
}

proof fn tens(k: nat)
    ensures
        config::pow10(k) == pow(10, k),
        config::pow10(k) > 0,
    decreases k,
{
    reveal(pow);
    if k > 0 {
        tens((k - 1) as nat);
    }
}

proof fn the_point_is_found(w: Seq<char>, f: Seq<char>, from: int)
    requires
        0 <= from <= w.len(),
        text::all_digits(w),
    ensures
        config::point(w + seq!['.'] + f, from) == w.len(),
    decreases w.len() - from,
{
    let d = w + seq!['.'] + f;
    if from < w.len() {
        assert(d[from] == w[from] && text::is_digit(w[from]));
        the_point_is_found(w, f, from + 1);
    } else {
        assert(d[from] == '.');
    }
}

/// Digits behind a point count for tenths, hundredths and so on of the unit: what a size comes
/// to is off from that by less than a part, one of two to the 55th that a byte is counted in
/// here, before it is rounded the way a double is; and where it comes out even it is exact. Its
/// whole bytes are the size.
pub proof fn digits_behind_the_point_count(
    s: Seq<char>,
    w: Seq<char>,
    f: Seq<char>,
    unit: Seq<char>,
)
    requires
        text::all_digits(w),
        text::all_digits(f),
        w.len() + f.len() > 0,
        config::unit_bytes(unit) is Some,
    ensures
        ({
            let mult = config::unit_bytes(unit)->Some_0;
            let parts = config::parts_of(w + seq!['.'] + f, mult) as int;
            let ten = pow(10, f.len());
            let number = text::digits_value(w) * ten + text::digits_value(f);
            let exact = number * (mult * 0x80_0000_0000_0000);
            let bytes = double::rounded(parts as nat, -55);
            &&& -ten < parts * ten - exact < ten
            &&& parts % 2 == 0 ==> parts * ten == exact
            &&& text::digits_value(w) < double::endless() && !double::below(
                double::rounded(usize::MAX as nat, 0),
                bytes,
            ) && double::whole(bytes) <= usize::MAX ==> config::size_of(
                s,
                w + seq!['.'] + f + unit,
            ) == Ok::<nat, Seq<char>>(double::whole(bytes))
        }),
{
    let d = w + seq!['.'] + f;
    let t = d + unit;
    let mult = config::unit_bytes(unit)->Some_0;
    tens(f.len());
    the_point_is_found(w, f, 0);
    assert(config::whole_part(d) =~= w);
    assert(config::fraction(d) =~= f);
    units_are_capitals(unit);
    assert forall|k: int| 0 <= k < d.len() implies config::numeric(#[trigger] t[k]) by {
        if k < w.len() {
            assert(t[k] == w[k]);
        } else if k > w.len() {
            assert(t[k] == f[k - w.len() - 1]);
        }
    }
    number_ends(t, 0, d.len() as int);
    assert(config::number_text(t) =~= d);
    assert(config::unit_text(t) =~= unit);
    parts_are_near(text::digits_value(w), text::digits_value(f), mult, config::pow10(f.len()));
}

proof fn parts_are_near(w: nat, f: nat, mult: nat, ten: nat)
    requires
        ten > 0,
    ensures
        ({
            let unit = mult * config::PARTS as nat;
            let carried = w * unit + f * unit / ten;
            let parts = 2 * carried + if f * unit % ten == 0 {
                0nat
            } else {
                1
            };
            let exact = (w * ten + f) * (mult * 0x80_0000_0000_0000);
            &&& -ten < parts * ten - exact < ten
            &&& parts % 2 == 0 ==> parts * ten == exact
        }),
{
    let unit = (mult * config::PARTS as nat) as int;
    let (w, f, ten) = (w as int, f as int, ten as int);
    let a = f * unit;
    assert(a >= 0) by (nonlinear_arith)
        requires
            a == f * unit,
            f >= 0,
            unit >= 0,
    ;
    lemma_fundamental_div_mod(a, ten);
    lemma_mod_bound(a, ten);
    let (q, r) = (a / ten, a % ten);
    let carried = w * unit + q;
    let exact = (w * ten + f) * (mult * 0x80_0000_0000_0000);
    assert(mult * 0x80_0000_0000_0000 == 2 * unit);
    assert((w * ten + f) * (2 * unit) == 2 * carried * ten + 2 * r) by (nonlinear_arith)
        requires
            carried == w * unit + q,
            f * unit == ten * q + r,
    ;
    assert((2 * carried + 1) * ten == 2 * carried * ten + ten) by (nonlinear_arith);
}

/// What starts with no digit and no point is no size, and neither is a number with a unit that
/// there is not.
pub proof fn no_other_text_is_a_size(s: Seq<char>, t: Seq<char>, x: nat, unit: Seq<char>)
    ensures
        t.len() == 0 ==> config::size_of(s, t) is Err,
        t.len() > 0 && t[0] != '.' && !text::is_digit(t[0]) ==> config::size_of(s, t) is Err,
        unit.len() > 0 && unit[0] != '.' && !text::is_digit(unit[0]) && config::unit_bytes(unit)
            is None ==> config::size_of(s, text::decimal(x) + unit) is Err,
{
    if t.len() > 0 && t[0] != '.' && !text::is_digit(t[0]) {
        number_ends(t, 0, 0);
        let d = config::number_text(t);
        assert(d.len() == 0);
        assert(config::point(d, 0) == 0);
    }
    if unit.len() > 0 && unit[0] != '.' && !text::is_digit(unit[0]) {
        let d = text::decimal(x);
        let u = d + unit;
        text::decimal_is_digits(x);
        assert forall|k: int| 0 <= k < d.len() implies config::numeric(#[trigger] u[k]) by {
            assert(u[k] == d[k]);
        }
        assert(u[d.len() as int] == unit[0]);
        number_ends(u, 0, d.len() as int);
        assert(config::unit_text(u) =~= unit);
    }
}

} // verus!
