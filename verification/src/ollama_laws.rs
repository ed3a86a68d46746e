//! What timestamps promise together.

use crate::ollama;
use crate::ollama::Date;
use crate::text;
use vstd::prelude::*;
use vstd::string::*;

verus! {

/// `a` sorts before `b`, character by character.
pub open spec fn sorts_before(a: Seq<char>, b: Seq<char>) -> bool {
    exists|i: int|
        0 <= i < a.len() && i < b.len() && #[trigger] a.take(i) == b.take(i) && a[i] < b[i]
}

/// The timestamp of a second since 1970 began.
pub open spec fn stamp_of(secs: nat) -> Seq<char> {
    ollama::stamp(ollama::date_of((secs / 86_400) as int), secs % 86_400)
}

/// The characters of a timestamp whose year has four digits.
#[verifier::opaque]
spec fn chars(d: Date, second: nat) -> Seq<char> {
    let (h, m, s) = (second / 3600, second % 3600 / 60, second % 60);
    seq![
        text::digit_char(d.year as nat / 1000),
        text::digit_char(d.year as nat / 100 % 10),
        text::digit_char(d.year as nat / 10 % 10),
        text::digit_char(d.year as nat % 10),
        '-',
        text::digit_char(d.month as nat / 10),
        text::digit_char(d.month as nat % 10),
        '-',
        text::digit_char(d.day as nat / 10),
        text::digit_char(d.day as nat % 10),
        'T',
        text::digit_char(h / 10),
        text::digit_char(h % 10),
        ':',
        text::digit_char(m / 10),
        text::digit_char(m % 10),
        ':',
        text::digit_char(s / 10),
        text::digit_char(s % 10),
        'Z',
    ]
}

proof fn two_digits(n: nat)
    requires
        n < 100,
    ensures
        ollama::two(n) == seq![text::digit_char(n / 10), text::digit_char(n % 10)],
{
    reveal_strlit("0");
    reveal_with_fuel(text::decimal, 3);
    assert(ollama::two(n) =~= seq![text::digit_char(n / 10), text::digit_char(n % 10)]);
}

proof fn four_digits(n: nat)
    requires
        1000 <= n < 10_000,
    ensures
        text::decimal(n) == seq![
            text::digit_char(n / 1000),
            text::digit_char(n / 100 % 10),
            text::digit_char(n / 10 % 10),
            text::digit_char(n % 10),
        ],
{
    reveal_with_fuel(text::decimal, 5);
    assert(n / 10 / 10 == n / 100);
    assert(n / 100 / 10 == n / 1000);
    assert(text::decimal(n) =~= seq![
        text::digit_char(n / 1000),
        text::digit_char(n / 100 % 10),
        text::digit_char(n / 10 % 10),
        text::digit_char(n % 10),
    ]);
}

proof fn stamp_is_chars(d: Date, second: nat)
    requires
        d.valid(),
        1000 <= d.year < 10_000,
        second < 86_400,
    ensures
        ollama::stamp(d, second) == chars(d, second),
        has_form(chars(d, second)),
{
    reveal(chars);
    four_digits(d.year as nat);
    two_digits(d.month as nat);
    two_digits(d.day as nat);
    two_digits(second / 3600);
    two_digits(second % 3600 / 60);
    two_digits(second % 60);
    reveal_strlit("-");
    reveal_strlit("T");
    reveal_strlit(":");
    reveal_strlit("Z");
    assert(ollama::stamp(d, second) =~= chars(d, second));
}

/// A later day has a later date.
proof fn dates_follow_days(a: Date, b: Date)
    requires
        a.valid(),
        b.valid(),
        a.number() < b.number(),
    ensures
        a.year < b.year || (a.year == b.year && (a.month < b.month || (a.month == b.month && a.day
            < b.day))),
{
    if b.year < a.year {
        ollama::earlier_year_earlier_day(b, a);
    } else if a.year == b.year && b.month < a.month {
        ollama::earlier_month_earlier_day(b, a);
    }
}

/// Two numbers of two digits, the smaller one first, differ in the tens or in the ones.
proof fn tens_or_ones(a: nat, b: nat)
    requires
        a < b < 100,
    ensures
        a / 10 < b / 10 || (a / 10 == b / 10 && a % 10 < b % 10),
{
}

/// `2024-02-29T12:34:56Z`: twenty ASCII characters, digits but for what parts them.
pub open spec fn has_form(s: Seq<char>) -> bool {
    &&& s.len() == 20
    &&& forall|i: int|
        0 <= i < 20 ==> if i == 4 || i == 7 {
            #[trigger] s[i] == '-'
        } else if i == 10 {
            s[i] == 'T'
        } else if i == 13 || i == 16 {
            s[i] == ':'
        } else if i == 19 {
            s[i] == 'Z'
        } else {
            text::is_digit(s[i])
        }
}

/// The year 10000 begins with this second.
pub const YEAR_10000: u64 = 253_402_300_800;

/// A moment before the year 10000 lies in a year of four digits.
proof fn four_digit_year(secs: u64)
    requires
        secs < YEAR_10000,
    ensures
        1970 <= ollama::date_of((secs / 86_400) as int).year < 10_000,
        ollama::date_of((secs / 86_400) as int).valid(),
        ollama::date_of((secs / 86_400) as int).number() == secs / 86_400,
{
    let d = ollama::date_of((secs / 86_400) as int);
    ollama::every_day_has_a_date(secs / 86_400);
    ollama::not_before_1970(d);
    let last = Date { year: 9999, month: 12, day: 31 };
    ollama::last_of_9999(last);
    if d.year >= 10_000 {
        ollama::earlier_year_earlier_day(last, d);
    }
}

/// Before the year 10000 every timestamp is of the same form, and timestamps sort as the
/// seconds they stand for: no two of them are the same.
pub proof fn timestamps_sort_as_their_seconds(a: u64, b: u64)
    requires
        a < b < YEAR_10000,
    ensures
        has_form(stamp_of(a as nat)),
        has_form(stamp_of(b as nat)),
        sorts_before(stamp_of(a as nat), stamp_of(b as nat)),
        stamp_of(a as nat) != stamp_of(b as nat),
{
    let (s, t) = ((a % 86_400) as nat, (b % 86_400) as nat);
    let (d, e) = (
        ollama::date_of((a / 86_400) as int),
        ollama::date_of((b / 86_400) as int),
    );
    four_digit_year(a);
    four_digit_year(b);
    assert(a / 86_400 <= b / 86_400);
    if a / 86_400 < b / 86_400 {
        dates_follow_days(d, e);
    } else {
        assert(d == e);
        assert(s < t);
    }
    stamp_is_chars(d, s);
    stamp_is_chars(e, t);
    let (x, y) = (chars(d, s), chars(e, t));
    let i = first_difference(d, s, e, t);
    assert(x.take(i) =~= y.take(i));
    assert(x[i] < y[i]);
}

/// Where the timestamps of two moments first differ, the earlier one has the smaller digit.
proof fn first_difference(d: Date, s: nat, e: Date, t: nat) -> (i: int)
    requires
        d.valid(),
        e.valid(),
        1000 <= d.year < 10_000,
        1000 <= e.year < 10_000,
        s < 86_400,
        t < 86_400,
        d.year < e.year || (d.year == e.year && (d.month < e.month || (d.month == e.month && (d.day
            < e.day || (d.day == e.day && s < t))))),
    ensures
        0 <= i < 20,
        forall|k: int| 0 <= k < i ==> chars(d, s)[k] == chars(e, t)[k],
        chars(d, s)[i] < chars(e, t)[i],
{
    if d.year < e.year {
        first_difference_of_years(d, s, e, t)
    } else if d.month < e.month || d.day < e.day {
        first_difference_of_days(d, s, e, t)
    } else {
        first_difference_of_times(d, s, e, t)
    }
}

#[verifier::spinoff_prover]
proof fn first_difference_of_years(d: Date, s: nat, e: Date, t: nat) -> (i: int)
    requires
        1000 <= d.year < e.year < 10_000,
    ensures
        0 <= i < 20,
        forall|k: int| 0 <= k < i ==> chars(d, s)[k] == chars(e, t)[k],
        chars(d, s)[i] < chars(e, t)[i],
{
    reveal(chars);
    let (p, q) = (d.year as nat, e.year as nat);
    if p / 1000 < q / 1000 {
        0
    } else if p / 100 % 10 < q / 100 % 10 {
        1
    } else if p / 10 % 10 < q / 10 % 10 {
        assert(p / 100 == q / 100);
        2
    } else {
        assert(p / 10 == q / 10);
        3
    }
}

#[verifier::spinoff_prover]
proof fn first_difference_of_days(d: Date, s: nat, e: Date, t: nat) -> (i: int)
    requires
        d.year == e.year,
        d.month < e.month || (d.month == e.month && d.day < e.day),
        e.month < 100,
        d.day < 100,
        e.day < 100,
    ensures
        0 <= i < 20,
        forall|k: int| 0 <= k < i ==> chars(d, s)[k] == chars(e, t)[k],
        chars(d, s)[i] < chars(e, t)[i],
{
    reveal(chars);
    if d.month < e.month {
        tens_or_ones(d.month as nat, e.month as nat);
        if d.month / 10 < e.month / 10 {
            5
        } else {
            6
        }
    } else {
        tens_or_ones(d.day as nat, e.day as nat);
        if d.day / 10 < e.day / 10 {
            8
        } else {
            9
        }
    }
}

#[verifier::spinoff_prover]
proof fn first_difference_of_times(d: Date, s: nat, e: Date, t: nat) -> (i: int)
    requires
        d.year == e.year && d.month == e.month && d.day == e.day,
        s < t < 86_400,
    ensures
        0 <= i < 20,
        forall|k: int| 0 <= k < i ==> chars(d, s)[k] == chars(e, t)[k],
        chars(d, s)[i] < chars(e, t)[i],
{
    reveal(chars);
    if s / 3600 < t / 3600 {
        tens_or_ones(s / 3600, t / 3600);
        if s / 3600 / 10 < t / 3600 / 10 {
            11
        } else {
            12
        }
    } else if s % 3600 / 60 < t % 3600 / 60 {
        tens_or_ones(s % 3600 / 60, t % 3600 / 60);
        if s % 3600 / 60 / 10 < t % 3600 / 60 / 10 {
            14
        } else {
            15
        }
    } else {
        assert(s / 3600 == t / 3600);
        assert(s % 3600 / 60 == t % 3600 / 60);
        assert(s % 60 < t % 60);
        tens_or_ones(s % 60, t % 60);
        if s % 60 / 10 < t % 60 / 10 {
            17
        } else {
            18
        }
    }
}

/// The last day of a month: February has 29 days in a year that four divides but not a hundred,
/// or that four hundred does.
pub open spec fn last_day(year: int, month: int) -> int {
    if month == 2 {
        if (year % 4 == 0 && year % 100 != 0) || year % 400 == 0 {
            29
        } else {
            28
        }
    } else if month == 4 || month == 6 || month == 9 || month == 11 {
        30
    } else {
        31
    }
}

/// The day after a date: the next of its month, or the first of the next month.
pub open spec fn is_next_day(d: Date, e: Date) -> bool {
    if d.day < last_day(d.year as int, d.month as int) {
        e.year == d.year && e.month == d.month && e.day == d.day + 1
    } else if d.month < 12 {
        e.year == d.year && e.month == d.month + 1 && e.day == 1
    } else {
        e.year == d.year + 1 && e.month == 1 && e.day == 1
    }
}

/// Days are counted from the first of 1970, one after the other as the calendar has them.
pub proof fn days_follow_the_calendar(d: Date, e: Date, first: Date)
    requires
        d.valid(),
        is_next_day(d, e),
        first.year == 1970 && first.month == 1 && first.day == 1,
    ensures
        1 <= d.month <= 12 && 1 <= d.day <= last_day(d.year as int, d.month as int),
        e.valid(),
        e.number() == d.number() + 1,
        first.number() == 0,
{
    reveal_with_fuel(ollama::days_before_month, 14);
}

/// A timestamp shows the year, month and day and the hour, minute and second, each but the year
/// in two digits.
pub proof fn stamps_show_the_time(d: Date, h: nat, m: nat, s: nat)
    requires
        h < 24,
        m < 60,
        s < 60,
    ensures
        ollama::stamp(d, 3600 * h + 60 * m + s) == text::decimal(d.year as nat) + "-"@
            + ollama::two(d.month as nat) + "-"@ + ollama::two(d.day as nat) + "T"@ + ollama::two(h)
            + ":"@ + ollama::two(m) + ":"@ + ollama::two(s) + "Z"@,
        ollama::two(m) == seq![text::digit_char(m / 10), text::digit_char(m % 10)],
{
    let t = 3600 * h + 60 * m + s;
    assert(t / 3600 == h && t % 3600 / 60 == m && t % 60 == s);
    two_digits(m);
}

} // verus!
