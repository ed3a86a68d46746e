//! Text that messages and paths are put together from: decimal numerals and
//! concatenation, with lemmas that tell two texts built this way apart.

use vstd::prelude::*;
use vstd::slice::slice_subrange;
use vstd::string::*;

verus! {

/// The numeral of a single digit.
pub open spec fn digit_char(d: nat) -> char
    recommends
        d < 10,
{
    (48 + d) as char
}

/// The decimal numeral of `n`, without leading zeros.
pub open spec fn decimal(n: nat) -> Seq<char>
    decreases n,
{
    if n < 10 {
        seq![digit_char(n)]
    } else {
        decimal(n / 10).push(digit_char(n % 10))
    }
}

/// True of the ten characters that a numeral is made of.
pub open spec fn is_digit(c: char) -> bool {
    '0' <= c <= '9'
}

fn digit_text(d: u128) -> (s: &'static str)
    requires
        d < 10,
    ensures
        s@ == seq![digit_char(d as nat)],
{
    proof {
        reveal_strlit("0");
        reveal_strlit("1");
        reveal_strlit("2");
        reveal_strlit("3");
        reveal_strlit("4");
        reveal_strlit("5");
        reveal_strlit("6");
        reveal_strlit("7");
        reveal_strlit("8");
        reveal_strlit("9");
    }
    if d == 0 {
        "0"
    } else if d == 1 {
        "1"
    } else if d == 2 {
        "2"
    } else if d == 3 {
        "3"
    } else if d == 4 {
        "4"
    } else if d == 5 {
        "5"
    } else if d == 6 {
        "6"
    } else if d == 7 {
        "7"
    } else if d == 8 {
        "8"
    } else {
        "9"
    }
}

/// Appends the decimal numeral of a product of sizes to `out`.
pub fn push_wide(out: &mut String, n: u128)
    ensures
        final(out)@ == old(out)@ + decimal(n as nat),
    decreases n,
{
    if n < 10 {
        out.append(digit_text(n));
    } else {
        let ghost before = out@;
        push_wide(out, n / 10);
        out.append(digit_text(n % 10));
        assert(out@ =~= before + decimal(n as nat));
    }
}

/// Appends the decimal numeral of `n` to `out`.
pub fn push_number(out: &mut String, n: u64)
    ensures
        final(out)@ == old(out)@ + decimal(n as nat),
{
    push_wide(out, n as u128);
}

/// Appends the decimal numeral of a length or an index to `out`.
pub fn push_size(out: &mut String, n: usize)
    ensures
        final(out)@ == old(out)@ + decimal(n as nat),
{
    push_number(out, n as u64);
}

/// True when the two texts are the same.
pub fn same_text(a: &str, b: &str) -> (r: bool)
    ensures
        r == (a@ == b@),
{
    a.to_owned() == b.to_owned()
}

/// A character with the ASCII capitals made small.
pub open spec fn lower_char(c: char) -> char {
    if 'A' <= c <= 'Z' {
        (c as u32 + 32) as char
    } else {
        c
    }
}

/// The text with each of the ASCII capitals A to Z made small. Every other character
/// stays as it is.
pub fn ascii_lowercase(s: &str) -> (r: String)
    ensures
        r@ == s@.map_values(|c: char| lower_char(c)),
        r@.len() == s@.len(),
        forall|i: int|
            0 <= i < s@.len() ==> #[trigger] r@[i] as int == if 65 <= s@[i] as int <= 90 {
                s@[i] as int + 32
            } else {
                s@[i] as int
            },
{
    let cs = chars_of(s);
    let ghost want = s@.map_values(|c: char| lower_char(c));
    let mut r = String::new();
    let mut i: usize = 0;
    while i < cs.len()
        invariant
            i <= cs@.len(),
            cs@ == s@,
            want == s@.map_values(|c: char| lower_char(c)),
            r@ == want.take(i as int),
        decreases cs@.len() - i,
    {
        let c: char = cs[i];
        let small: char = if 'A' <= c && c <= 'Z' {
            (c as u8 + 32) as char
        } else {
            c
        };
        assert(want.take(i + 1) =~= want.take(i as int).push(lower_char(c)));
        r.push(small);
        i += 1;
    }
    assert(want.take(want.len() as int) =~= want);
    r
}

/// A numeral is never empty and holds digits only.
pub proof fn decimal_is_digits(n: nat)
    ensures
        decimal(n).len() > 0,
        forall|i: int| 0 <= i < decimal(n).len() ==> is_digit(#[trigger] decimal(n)[i]),
    decreases n,
{
    if n >= 10 {
        decimal_is_digits(n / 10);
    }
}

/// Two numbers with the same numeral are the same number.
pub proof fn decimal_is_injective(a: nat, b: nat)
    requires
        decimal(a) == decimal(b),
    ensures
        a == b,
    decreases a,
{
    decimal_is_digits(a / 10);
    decimal_is_digits(b / 10);
    if a < 10 && b < 10 {
        assert(decimal(a)[0] == digit_char(a));
        assert(decimal(b)[0] == digit_char(b));
        assert(digit_char(a) as int == 48 + a);
        assert(digit_char(b) as int == 48 + b);
    } else if a < 10 {
        assert(decimal(b).len() == decimal(b / 10).len() + 1);
        assert(false);
    } else if b < 10 {
        assert(decimal(a).len() == decimal(a / 10).len() + 1);
        assert(false);
    } else {
        assert(decimal(a).last() == digit_char(a % 10));
        assert(decimal(b).last() == digit_char(b % 10));
        assert(digit_char(a % 10) as int == 48 + a % 10);
        assert(digit_char(b % 10) as int == 48 + b % 10);
        assert(decimal(a).drop_last() =~= decimal(a / 10));
        assert(decimal(b).drop_last() =~= decimal(b / 10));
        decimal_is_injective(a / 10, b / 10);
    }
}

/// Where a numeral is followed by a character that is no digit, the text tells
/// the number and what follows it.
pub proof fn number_then_text_is_injective(a: nat, b: nat, s: Seq<char>, t: Seq<char>)
    requires
        decimal(a) + s == decimal(b) + t,
        s.len() > 0,
        t.len() > 0,
        !is_digit(s[0]),
        !is_digit(t[0]),
    ensures
        a == b,
        s == t,
{
    decimal_is_digits(a);
    decimal_is_digits(b);
    let whole = decimal(a) + s;
    let other = decimal(b) + t;
    let m = decimal(a).len() as int;
    let n = decimal(b).len() as int;
    if m < n {
        assert(whole[m] == s[0]);
        assert(other[m] == decimal(b)[m]);
        assert(false);
    }
    if n < m {
        assert(other[n] == t[0]);
        assert(whole[n] == decimal(a)[n]);
        assert(false);
    }
    assert(decimal(a) =~= whole.subrange(0, m));
    assert(decimal(b) =~= other.subrange(0, n));
    decimal_is_injective(a, b);
    assert(s =~= whole.subrange(m, whole.len() as int));
    assert(t =~= other.subrange(n, other.len() as int));
}

/// Two texts with a common head differ behind it.
pub proof fn same_head_same_tail(head: Seq<char>, s: Seq<char>, t: Seq<char>)
    requires
        head + s == head + t,
    ensures
        s == t,
{
    let a = head + s;
    let b = head + t;
    assert(s =~= a.subrange(head.len() as int, a.len() as int));
    assert(t =~= b.subrange(head.len() as int, b.len() as int));
}

/// The characters of a text.
pub fn chars_of(s: &str) -> (out: Vec<char>)
    ensures
        out@ == s@,
{
    let mut out: Vec<char> = Vec::new();
    for c in it: s.chars()
        invariant
            it.seq() == s@,
            out@ == s@.take(it.index()),
    {
        assert(s@.take(it.index() + 1) =~= s@.take(it.index()).push(c));
        out.push(c);
    }
    assert(s@.take(s@.len() as int) =~= s@);
    out
}

/// `String::push` appends one character.
pub assume_specification[ String::push ](s: &mut String, c: char)
    ensures
        final(s)@ == old(s)@.push(c),
;

/// The text that the characters make.
pub fn text_of(chars: &[char]) -> (s: String)
    ensures
        s@ == chars@,
{
    let mut s = String::new();
    let mut i: usize = 0;
    assert(chars@.take(0) =~= Seq::<char>::empty());
    while i < chars.len()
        invariant
            i <= chars@.len(),
            s@ == chars@.take(i as int),
        decreases chars@.len() - i,
    {
        assert(chars@.take(i + 1) =~= chars@.take(i as int).push(chars@[i as int]));
        s.push(chars[i]);
        i += 1;
    }
    assert(chars@.take(chars@.len() as int) =~= chars@);
    s
}

/// `needle` stands at place `i` of `s`.
pub open spec fn stands_at(s: Seq<char>, i: int, needle: Seq<char>) -> bool {
    0 <= i <= s.len() - needle.len() && s.subrange(i, i + needle.len()) == needle
}

/// `needle` stands somewhere in `s`.
pub open spec fn holds_text(s: Seq<char>, needle: Seq<char>) -> bool {
    exists|i: int| stands_at(s, i, needle)
}

/// True when `needle` stands at place `at`.
pub fn matches_at(s: &[char], at: usize, needle: &[char]) -> (r: bool)
    requires
        at <= s@.len(),
    ensures
        r == stands_at(s@, at as int, needle@),
{
    if needle.len() > s.len() - at {
        return false;
    }
    let mut k: usize = 0;
    while k < needle.len()
        invariant
            k <= needle@.len(),
            at + needle@.len() <= s@.len() <= usize::MAX,
            s@.subrange(at as int, at + k) == needle@.take(k as int),
        decreases needle@.len() - k,
    {
        if s[at + k] != needle[k] {
            assert(s@.subrange(at as int, at + needle@.len())[k as int] != needle@[k as int]);
            return false;
        }
        assert(s@.subrange(at as int, at + k + 1) =~= s@.subrange(at as int, at + k).push(
            needle@[k as int],
        ));
        assert(needle@.take(k + 1) =~= needle@.take(k as int).push(needle@[k as int]));
        k += 1;
    }
    assert(needle@.take(needle@.len() as int) =~= needle@);
    true
}

/// True when `needle` stands somewhere in `s`.
pub fn contains_text(s: &str, needle: &str) -> (r: bool)
    ensures
        r == holds_text(s@, needle@),
{
    let cs = chars_of(s);
    let ns = chars_of(needle);
    let mut i: usize = 0;
    while i <= cs.len()
        invariant
            cs@ == s@,
            ns@ == needle@,
            i <= cs@.len() + 1,
            forall|k: int| 0 <= k < i ==> !#[trigger] stands_at(s@, k, needle@),
        decreases cs@.len() + 1 - i,
    {
        if matches_at(cs.as_slice(), i, ns.as_slice()) {
            assert(stands_at(s@, i as int, needle@));
            return true;
        }
        if i == cs.len() {
            return false;
        }
        i += 1;
    }
    false
}

/// The value of a run of digits.
pub open spec fn digits_value(s: Seq<char>) -> nat
    decreases s.len(),
{
    if s.len() == 0 {
        0
    } else {
        digits_value(s.drop_last()) * 10 + (s.last() as nat - 48) as nat
    }
}

/// Every character is a digit.
pub open spec fn all_digits(s: Seq<char>) -> bool {
    forall|i: int| 0 <= i < s.len() ==> is_digit(#[trigger] s[i])
}

/// The number that a text of one or more digits denotes.
pub open spec fn numeral(s: Seq<char>) -> Option<nat> {
    if s.len() > 0 && all_digits(s) {
        Some(digits_value(s))
    } else {
        None
    }
}

/// The number that a text denotes: digits, with or without a plus sign before them.
pub open spec fn unsigned(s: Seq<char>) -> Option<nat> {
    if s.len() > 0 && s[0] == '+' {
        numeral(s.skip(1))
    } else {
        numeral(s)
    }
}

pub(crate) proof fn digits_value_grows(s: Seq<char>, k: int)
    requires
        0 <= k <= s.len(),
        all_digits(s),
    ensures
        digits_value(s.take(k)) <= digits_value(s),
    decreases s.len(),
{
    if k == s.len() {
        assert(s.take(k) =~= s);
    } else {
        assert(s.drop_last().take(k) =~= s.take(k));
        assert(all_digits(s.drop_last())) by {
            assert forall|i: int| 0 <= i < s.drop_last().len() implies is_digit(
                #[trigger] s.drop_last()[i],
            ) by {
                assert(is_digit(s[i]));
            }
        }
        digits_value_grows(s.drop_last(), k);
    }
}

/// The number that `s` denotes from place `from` on, unless it is too large.
fn parse_digits(s: &[char], from: usize) -> (r: Option<usize>)
    requires
        from <= s@.len(),
    ensures
        match r {
            Some(n) => numeral(s@.skip(from as int)) == Some(n as nat),
            None => numeral(s@.skip(from as int)) matches Some(n) ==> n > usize::MAX,
        },
{
    let ghost t = s@.skip(from as int);
    if from == s.len() {
        return None;
    }
    let mut n: usize = 0;
    let mut i: usize = from;
    assert(t.take(0) =~= Seq::<char>::empty());
    while i < s.len()
        invariant
            from <= i <= s@.len(),
            t == s@.skip(from as int),
            t.len() > 0,
            n == digits_value(t.take(i - from)),
            forall|k: int| 0 <= k < i - from ==> is_digit(#[trigger] t[k]),
        decreases s@.len() - i,
    {
        let c: char = s[i];
        assert(t[i - from] == c);
        if !('0' <= c && c <= '9') {
            assert(!is_digit(t[i - from]));
            return None;
        }
        assert(t.take(i - from + 1).drop_last() =~= t.take(i - from));
        let d: usize = (c as u32 - 48) as usize;
        let ghost next = digits_value(t.take(i - from + 1));
        assert(next == n * 10 + d);
        if n > (usize::MAX - d) / 10 {
            proof {
                if all_digits(t) {
                    digits_value_grows(t, i - from + 1);
                }
            }
            return None;
        }
        n = n * 10 + d;
        i += 1;
    }
    assert(t.take(t.len() as int) =~= t);
    Some(n)
}

/// The number that a text denotes, unless it is too large: digits, with or without a
/// plus sign before them.
pub fn parse_unsigned(s: &[char]) -> (r: Option<usize>)
    ensures
        match r {
            Some(n) => unsigned(s@) == Some(n as nat),
            None => unsigned(s@) matches Some(n) ==> n > usize::MAX,
        },
        s@.len() > 0 && all_digits(s@) && digits_value(s@) <= usize::MAX ==> r is Some
            && r->Some_0 == digits_value(s@),
        r is Some ==> s@.len() > 0 && (is_digit(s@[0]) || (s@[0] == '+' && s@.len() > 1)),
{
    assert(s@.skip(0) =~= s@);
    if s.len() > 0 && s[0] == '+' {
        parse_digits(s, 1)
    } else {
        parse_digits(s, 0)
    }
}

/// A character with the small ASCII letters made capital.
pub open spec fn upper_char(c: char) -> char {
    if 'a' <= c <= 'z' {
        (c as u32 - 32) as char
    } else {
        c
    }
}

/// The text with each of the small ASCII letters a to z made capital. Every other
/// character stays as it is.
pub fn ascii_uppercase(s: &str) -> (r: String)
    ensures
        r@ == s@.map_values(|c: char| upper_char(c)),
        r@.len() == s@.len(),
        forall|i: int|
            0 <= i < s@.len() ==> #[trigger] r@[i] as int == if 97 <= s@[i] as int <= 122 {
                s@[i] as int - 32
            } else {
                s@[i] as int
            },
{
    let cs = chars_of(s);
    let ghost want = s@.map_values(|c: char| upper_char(c));
    let mut r = String::new();
    let mut i: usize = 0;
    while i < cs.len()
        invariant
            i <= cs@.len(),
            cs@ == s@,
            want == s@.map_values(|c: char| upper_char(c)),
            r@ == want.take(i as int),
        decreases cs@.len() - i,
    {
        let c: char = cs[i];
        let capital: char = if 'a' <= c && c <= 'z' {
            (c as u8 - 32) as char
        } else {
            c
        };
        assert(want.take(i + 1) =~= want.take(i as int).push(upper_char(c)));
        r.push(capital);
        i += 1;
    }
    assert(want.take(want.len() as int) =~= want);
    r
}

/// The characters with Unicode's White_Space property.
pub open spec fn white_space(c: char) -> bool {
    ||| 0x9 <= c as int <= 0xd
    ||| c as int == 0x20
    ||| c as int == 0x85
    ||| c as int == 0xa0
    ||| c as int == 0x1680
    ||| 0x2000 <= c as int <= 0x200a
    ||| c as int == 0x2028
    ||| c as int == 0x2029
    ||| c as int == 0x202f
    ||| c as int == 0x205f
    ||| c as int == 0x3000
}

/// True of white space.
pub fn is_white(c: char) -> (r: bool)
    ensures
        r == white_space(c),
{
    let n: u32 = c as u32;
    (0x9 <= n && n <= 0xd) || n == 0x20 || n == 0x85 || n == 0xa0 || n == 0x1680 || (0x2000 <= n
        && n <= 0x200a) || n == 0x2028 || n == 0x2029 || n == 0x202f || n == 0x205f || n
        == 0x3000
}

/// Where the text of `s` starts, from `from` on: after its leading white space.
pub open spec fn start_of_text(s: Seq<char>, from: int) -> int
    decreases s.len() - from,
{
    if from < 0 || from >= s.len() || !white_space(s[from]) {
        from
    } else {
        start_of_text(s, from + 1)
    }
}

/// Where the text of `s` ends, up to `to`: before its trailing white space.
pub open spec fn end_of_text(s: Seq<char>, to: int) -> int
    decreases to,
{
    if to <= 0 || to > s.len() || !white_space(s[to - 1]) {
        to
    } else {
        end_of_text(s, to - 1)
    }
}

/// `s` without leading and trailing white space.
pub open spec fn trimmed(s: Seq<char>) -> Seq<char> {
    let a = start_of_text(s, 0);
    let b = end_of_text(s, s.len() as int);
    if a >= b {
        Seq::empty()
    } else {
        s.subrange(a, b)
    }
}

/// A text without leading and trailing white space.
pub fn trim(s: &str) -> (r: String)
    ensures
        r@ == trimmed(s@),
{
    let cs = chars_of(s);
    let mut a: usize = 0;
    while a < cs.len() && is_white(cs[a])
        invariant
            cs@ == s@,
            a <= cs@.len(),
            start_of_text(s@, 0) == start_of_text(s@, a as int),
        decreases cs@.len() - a,
    {
        a += 1;
    }
    let mut b: usize = cs.len();
    while b > 0 && is_white(cs[b - 1])
        invariant
            cs@ == s@,
            b <= cs@.len(),
            end_of_text(s@, s@.len() as int) == end_of_text(s@, b as int),
        decreases b,
    {
        b -= 1;
    }
    if a >= b {
        return String::new();
    }
    text_of(slice_subrange(cs.as_slice(), a, b))
}

/// A number reads back from its digits.
pub proof fn decimals_read_back(n: nat)
    ensures
        decimal(n).len() > 0,
        all_digits(decimal(n)),
        digits_value(decimal(n)) == n,
    decreases n,
{
    if n < 10 {
        assert(decimal(n).drop_last() =~= Seq::<char>::empty());
        assert(digits_value(Seq::<char>::empty()) == 0);
    } else {
        decimals_read_back(n / 10);
        let front = decimal(n / 10);
        let d = digit_char(n % 10);
        assert(front.push(d).drop_last() =~= front);
        assert forall|i: int| 0 <= i < decimal(n).len() implies is_digit(
            #[trigger] decimal(n)[i],
        ) by {
            if i < front.len() {
                assert(is_digit(front[i]));
            }
        }
    }
}

/// A digit behind a number makes it ten times as much and the digit more.
pub proof fn digits_have_places(s: Seq<char>, c: char)
    requires
        is_digit(c),
    ensures
        digits_value(s.push(c)) == 10 * digits_value(s) + (c as nat - 48),
        digits_value(Seq::empty()) == 0,
{
    assert(s.push(c).drop_last() =~= s);
}

proof fn starts_after_white_space(s: Seq<char>, from: int)
    requires
        0 <= from <= s.len(),
    ensures
        from <= start_of_text(s, from) <= s.len(),
        forall|i: int| from <= i < start_of_text(s, from) ==> white_space(#[trigger] s[i]),
        start_of_text(s, from) < s.len() ==> !white_space(s[start_of_text(s, from)]),
    decreases s.len() - from,
{
    if from < s.len() && white_space(s[from]) {
        starts_after_white_space(s, from + 1);
    }
}

proof fn ends_before_white_space(s: Seq<char>, to: int)
    requires
        0 <= to <= s.len(),
    ensures
        0 <= end_of_text(s, to) <= to,
        forall|i: int| end_of_text(s, to) <= i < to ==> white_space(#[trigger] s[i]),
        end_of_text(s, to) > 0 ==> !white_space(s[end_of_text(s, to) - 1]),
    decreases to,
{
    if to > 0 && white_space(s[to - 1]) {
        ends_before_white_space(s, to - 1);
    }
}

/// A text holds another exactly where it is something, then the other, then something.
pub proof fn texts_are_found_anywhere(s: Seq<char>, head: Seq<char>, needle: Seq<char>, tail: Seq<char>)
    ensures
        holds_text(head + needle + tail, needle),
        holds_text(s, needle) ==> exists|a: Seq<char>, b: Seq<char>| s == #[trigger] (a + needle + b),
{
    let all = head + needle + tail;
    assert(all.subrange(head.len() as int, (head.len() + needle.len()) as int) =~= needle);
    assert(stands_at(all, head.len() as int, needle));
    if holds_text(s, needle) {
        let i = choose|i: int| stands_at(s, i, needle);
        let (a, b) = (s.take(i), s.skip(i + needle.len()));
        assert(s =~= a + needle + b) by {
            assert(s.subrange(i, i + needle.len()) == needle);
        }
    }
}

/// Trimming takes white space off both ends, all of it and nothing else.
pub proof fn trimming_takes_white_space_off(s: Seq<char>)
    ensures
        exists|a: int, b: int|
            0 <= a <= b <= s.len() && #[trigger] s.subrange(a, b) == trimmed(s) && (forall|i: int|
                0 <= i < a ==> white_space(#[trigger] s[i])) && (forall|i: int|
                b <= i < s.len() ==> white_space(#[trigger] s[i])),
        trimmed(s).len() > 0 ==> !white_space(trimmed(s)[0]) && !white_space(trimmed(s).last()),
{
    let a = start_of_text(s, 0);
    let b = end_of_text(s, s.len() as int);
    starts_after_white_space(s, 0);
    ends_before_white_space(s, s.len() as int);
    if a >= b {
        assert(s.subrange(a, a) =~= trimmed(s));
        assert forall|i: int| a <= i < s.len() implies white_space(#[trigger] s[i]) by {
            assert(b <= i);
        }
    } else {
        assert(s.subrange(a, b) == trimmed(s));
    }
}

/// Capitals and small letters come in pairs, and nothing else changes its case.
pub proof fn letters_come_in_pairs(c: char)
    ensures
        'A' <= c <= 'Z' ==> 'a' <= lower_char(c) <= 'z' && upper_char(lower_char(c)) == c,
        'a' <= c <= 'z' ==> 'A' <= upper_char(c) <= 'Z' && lower_char(upper_char(c)) == c,
        !('A' <= c <= 'Z') ==> lower_char(c) == c,
        !('a' <= c <= 'z') ==> upper_char(c) == c,
        lower_char(lower_char(c)) == lower_char(c),
{
}

/// A numeral denotes its number, with or without a plus sign, and nothing that holds anything
/// but digits denotes one.
pub proof fn numbers_are_read(n: nat, s: Seq<char>, i: int)
    ensures
        unsigned(decimal(n)) == Some(n),
        unsigned(seq!['+'] + decimal(n)) == Some(n),
        unsigned(Seq::empty()) is None,
        unsigned(seq!['+']) is None,
        0 < i < s.len() && !is_digit(s[i]) ==> unsigned(s) is None,
        s.len() > 0 && s[0] != '+' && !is_digit(s[0]) ==> unsigned(s) is None,
{
    decimals_read_back(n);
    assert(is_digit(decimal(n)[0]));
    assert((seq!['+'] + decimal(n)).skip(1) =~= decimal(n));
    assert(seq!['+'].skip(1) =~= Seq::<char>::empty());
    if 0 < i < s.len() && !is_digit(s[i]) {
        assert(s.skip(1)[i - 1] == s[i]);
    }
}

/// White space is the space and the tab, what ends a line or a page, and the wide, narrow and
/// unbroken spaces.
pub proof fn white_space_is_what_parts_words(c: char)
    ensures
        white_space(c) <==> c == ' ' || c == '\t' || c == '\n' || c == '\u{b}' || c == '\u{c}' || c
            == '\r' || c == '\u{85}' || c == '\u{a0}' || c == '\u{1680}' || c == '\u{2000}' || c
            == '\u{2001}' || c == '\u{2002}' || c == '\u{2003}' || c == '\u{2004}' || c
            == '\u{2005}' || c == '\u{2006}' || c == '\u{2007}' || c == '\u{2008}' || c
            == '\u{2009}' || c == '\u{200a}' || c == '\u{2028}' || c == '\u{2029}' || c
            == '\u{202f}' || c == '\u{205f}' || c == '\u{3000}',
{
}

} // verus!
