//! The Ollama API: timestamps, options and prompts.

use crate::api;
use crate::api::{limit_of, override_params, status_of};
use crate::runtime::StopReason;
use crate::sampling::{SamplingFault, SamplingParams};
use crate::text;
use crate::text::push_number;
use crate::types::GarudaError;
use vstd::prelude::*;
use vstd::string::*;

verus! {

/// What a request that cannot be served as it stands is answered: bad request.
pub const REFUSED: u16 = 400;

/// Whether a request that does not say streams: it does.
pub fn stream_default() -> (b: bool)
    ensures
        b,
{
    true
}

#[derive(Debug, Clone, Copy)]
pub struct Options {
    /// An `f32` bit pattern.
    pub temperature_bits: Option<u32>,
    /// An `f32` bit pattern.
    pub top_p_bits: Option<u32>,
    pub top_k: Option<usize>,
    /// Tokens to generate at most. Zero or less uses the server's default.
    pub num_predict: Option<i64>,
    pub seed: Option<u64>,
}

impl Default for Options {
    fn default() -> (o: Self)
        ensures
            o == (Options {
                temperature_bits: None,
                top_p_bits: None,
                top_k: None,
                num_predict: None,
                seed: None,
            }),
    {
        Options {
            temperature_bits: None,
            top_p_bits: None,
            top_k: None,
            num_predict: None,
            seed: None,
        }
    }
}

impl Options {
    pub open spec fn on(self, base: SamplingParams) -> SamplingParams {
        api::overridden(
            base,
            self.temperature_bits,
            self.top_p_bits,
            self.top_k,
            api::limit(self.num_predict),
            self.seed,
        )
    }

    pub fn apply(&self, base: SamplingParams) -> (r: Result<SamplingParams, SamplingFault>)
        ensures
            match r {
                Ok(p) => p == self.on(base) && p.fault() is None,
                Err(f) => self.on(base).fault() == Some(f),
            },
            r matches Ok(p) ==> p.temperature_bits == match self.temperature_bits {
                Some(x) => x,
                None => base.temperature_bits,
            },
            r matches Ok(p) ==> p.top_p_bits == match self.top_p_bits {
                Some(x) => x,
                None => base.top_p_bits,
            },
            r matches Ok(p) ==> p.top_k == match self.top_k {
                Some(x) => x,
                None => base.top_k,
            },
            r matches Ok(p) ==> p.max_tokens == match self.num_predict {
                Some(n) => if n > 0 {
                    n as usize
                } else {
                    base.max_tokens
                },
                None => base.max_tokens,
            },
            r matches Ok(p) ==> p.seed == if self.seed is Some {
                self.seed
            } else {
                base.seed
            },
    {
        override_params(
            base,
            self.temperature_bits,
            self.top_p_bits,
            self.top_k,
            limit_of(self.num_predict),
            self.seed,
        )
    }
}

/// The text that a generate request puts to the model: its system prompt, on a line of
/// its own, and its prompt.
pub fn generate_prompt(system: Option<&str>, prompt: &str) -> (text: String)
    ensures
        text@ == match system {
            Some(s) => s@ + "\n"@ + prompt@,
            None => prompt@,
        },
{
    match system {
        Some(s) => {
            let mut text = s.to_owned();
            text.append("\n");
            text.append(prompt);
            text
        },
        None => prompt.to_owned(),
    }
}

/// The name that the model is listed under.
pub fn tag(model: &str) -> (name: String)
    ensures
        name@ == model@ + ":latest"@,
{
    let mut name = model.to_owned();
    name.append(":latest");
    name
}

/// The status of an error.
pub fn map_error(e: &GarudaError) -> (s: u16)
    ensures
        s == api::plain_status(*e, REFUSED),
        *e is RateLimit ==> s == 429,
        *e is Busy ==> s == 503,
        *e is Config || *e is Inference || *e is InvalidToken ==> s == 400,
{
    status_of(e, REFUSED)
}

/// Why a reply stopped, in the API's words.
pub fn stop_reason(r: StopReason) -> (s: &'static str)
    ensures
        s@ == if r == StopReason::Eos {
            "stop"@
        } else {
            "length"@
        },
{
    match r {
        StopReason::Eos => "stop",
        _ => "length",
    }
}

/// A day of the Gregorian calendar.
#[derive(Debug, Clone, Copy, PartialEq, Eq)]
pub struct Date {
    pub year: u64,
    /// From one, January, to twelve.
    pub month: u64,
    /// From one.
    pub day: u64,
}

pub open spec fn is_leap(year: int) -> bool {
    year % 4 == 0 && (year % 100 != 0 || year % 400 == 0)
}

pub open spec fn february(year: int) -> int {
    if is_leap(year) {
        29
    } else {
        28
    }
}

pub open spec fn days_in_month(year: int, month: int) -> int {
    if month == 2 {
        february(year)
    } else if month == 4 || month == 6 || month == 9 || month == 11 {
        30
    } else {
        31
    }
}

/// Days of `year` before `month` begins.
pub open spec fn days_before_month(year: int, month: int) -> int
    decreases month,
{
    if month <= 1 {
        0
    } else {
        days_before_month(year, month - 1) + days_in_month(year, month - 1)
    }
}

/// Days from the first of January of the year one to that of `year`.
pub open spec fn days_before_year(year: int) -> int {
    365 * (year - 1) + (year - 1) / 4 - (year - 1) / 100 + (year - 1) / 400
}

impl Date {
    pub open spec fn valid(self) -> bool {
        &&& self.year >= 1
        &&& 1 <= self.month <= 12
        &&& 1 <= self.day <= days_in_month(self.year as int, self.month as int)
    }

    /// Days from the first of January 1970 to this day.
    pub open spec fn number(self) -> int {
        days_before_year(self.year as int) + days_before_month(
            self.year as int,
            self.month as int,
        ) + self.day - 1 - days_before_year(1970)
    }
}

/// The date of a day, counted from the first of January 1970.
pub open spec fn date_of(day: int) -> Date {
    choose|d: Date| d.valid() && #[trigger] d.number() == day
}

proof fn months_add_up(year: int)
    ensures
        days_before_month(year, 1) == 0,
        days_before_month(year, 2) == 31,
        days_before_month(year, 3) == 31 + february(year),
        days_before_month(year, 4) == 62 + february(year),
        days_before_month(year, 5) == 92 + february(year),
        days_before_month(year, 6) == 123 + february(year),
        days_before_month(year, 7) == 153 + february(year),
        days_before_month(year, 8) == 184 + february(year),
        days_before_month(year, 9) == 215 + february(year),
        days_before_month(year, 10) == 245 + february(year),
        days_before_month(year, 11) == 276 + february(year),
        days_before_month(year, 12) == 306 + february(year),
        days_before_month(year, 13) == 337 + february(year),
{
    reveal_with_fuel(days_before_month, 14);
}

/// A year is as long as its months: the count of days before a year grows by 366 over a
/// leap year and by 365 over any other.
pub proof fn years_add_up(year: int)
    requires
        year >= 1,
    ensures
        days_before_year(year + 1) == days_before_year(year) + days_before_month(year, 13),
        days_before_month(year, 13) == if is_leap(year) {
            366int
        } else {
            365int
        },
{
    months_add_up(year);
    let y = year - 1;
    assert((y + 1) / 4 == y / 4 + if (y + 1) % 4 == 0 {
        1int
    } else {
        0int
    });
    assert((y + 1) / 100 == y / 100 + if (y + 1) % 100 == 0 {
        1int
    } else {
        0int
    });
    assert((y + 1) / 400 == y / 400 + if (y + 1) % 400 == 0 {
        1int
    } else {
        0int
    });
}

proof fn later_years_start_later(a: int, b: int)
    requires
        1 <= a <= b,
    ensures
        days_before_year(a) <= days_before_year(b),
    decreases b - a,
{
    if a < b {
        later_years_start_later(a, b - 1);
        years_add_up(b - 1);
    }
}

proof fn later_months_start_later(year: int, a: int, b: int)
    requires
        1 <= a <= b,
    ensures
        days_before_month(year, a) <= days_before_month(year, b),
    decreases b - a,
{
    if a < b {
        later_months_start_later(year, a, b - 1);
    }
}

/// A day of an earlier year is an earlier day.
pub(crate) proof fn earlier_year_earlier_day(a: Date, b: Date)
    requires
        a.valid(),
        b.valid(),
        a.year < b.year,
    ensures
        a.number() < b.number(),
{
    later_months_start_later(a.year as int, a.month + 1, 13);
    later_months_start_later(b.year as int, 1, b.month as int);
    later_years_start_later(a.year + 1, b.year as int);
    years_add_up(a.year as int);
}

/// A day of an earlier month of a year is an earlier day.
pub(crate) proof fn earlier_month_earlier_day(a: Date, b: Date)
    requires
        a.valid(),
        b.valid(),
        a.year == b.year,
        a.month < b.month,
    ensures
        a.number() < b.number(),
{
    later_months_start_later(a.year as int, a.month + 1, b.month as int);
}

/// The last day before the year 10000.
pub(crate) proof fn last_of_9999(d: Date)
    requires
        d == (Date { year: 9999, month: 12, day: 31 }),
    ensures
        d.valid(),
        d.number() == 2_932_896,
{
    months_add_up(9999);
}

/// A day that is counted from 1970 on lies in 1970 or later.
pub(crate) proof fn not_before_1970(d: Date)
    requires
        d.valid(),
        d.number() >= 0,
    ensures
        d.year >= 1970,
{
    let first = Date { year: 1970, month: 1, day: 1 };
    months_add_up(1970);
    if d.year < 1970 {
        earlier_year_earlier_day(d, first);
    }
}

/// No two dates fall on the same day.
pub proof fn dates_are_unique(a: Date, b: Date)
    requires
        a.valid(),
        b.valid(),
        a.number() == b.number(),
    ensures
        a == b,
{
    if a.year < b.year {
        earlier_year_earlier_day(a, b);
    } else if b.year < a.year {
        earlier_year_earlier_day(b, a);
    } else if a.month < b.month {
        earlier_month_earlier_day(a, b);
    } else if b.month < a.month {
        earlier_month_earlier_day(b, a);
    }
}

/// Days from the first of March of the year zero to the first of January 1970.
const SHIFT: u64 = 719_468;

/// The years that a count of days from a first of March makes up: eras of 400 years,
/// centuries, spans of four years and single years, and what is left of the last.
proof fn march_years(z: int, era: int, c: int, q: int, yq: int, doy: int)
    requires
        z == 146_097 * era + 36_524 * c + 1461 * q + 365 * yq + doy,
        era >= 0,
        0 <= c <= 3,
        0 <= q <= 24,
        0 <= yq <= 3,
        0 <= doy <= 365,
        doy == 365 ==> yq == 3 && (q == 24 ==> c == 3),
    ensures
        ({
            let y = 400 * era + 100 * c + 4 * q + yq;
            &&& z == 365 * y + y / 4 - y / 100 + y / 400 + doy
            &&& doy == 365 ==> is_leap(y + 1)
        }),
{
    let y = 400 * era + 100 * c + 4 * q + yq;
    assert(y / 4 == 100 * era + 25 * c + q);
    assert(y / 100 == 4 * era + c);
    assert(y / 400 == era);
    if doy == 365 {
        assert((y + 1) % 4 == 0);
        if q == 24 {
            assert((y + 1) % 400 == 0);
        } else {
            assert((y + 1) % 100 == 4 * q + 4);
        }
    }
}

/// The month of a day of a year that begins in March, and the days before it.
pub open spec fn march_month(doy: int) -> (int, int) {
    if doy < 31 {
        (0, 3)
    } else if doy < 61 {
        (31, 4)
    } else if doy < 92 {
        (61, 5)
    } else if doy < 122 {
        (92, 6)
    } else if doy < 153 {
        (122, 7)
    } else if doy < 184 {
        (153, 8)
    } else if doy < 214 {
        (184, 9)
    } else if doy < 245 {
        (214, 10)
    } else if doy < 275 {
        (245, 11)
    } else if doy < 306 {
        (275, 12)
    } else if doy < 337 {
        (306, 1)
    } else {
        (337, 2)
    }
}

/// A day of a year that begins in March is the date that its month makes it.
proof fn march_date(y: int, doy: int, d: Date)
    requires
        y >= 1,
        0 <= doy <= 365,
        doy == 365 ==> is_leap(y + 1),
        d.month == march_month(doy).1,
        d.day == doy - march_month(doy).0 + 1,
        d.year == if d.month <= 2 {
            y + 1
        } else {
            y
        },
    ensures
        d.valid(),
        d.number() == 365 * y + y / 4 - y / 100 + y / 400 + doy - SHIFT,
{
    months_add_up(y);
    months_add_up(y + 1);
    years_add_up(y);
    assert(days_before_year(1970) == 719_162);
    assert(days_before_year(y + 1) == 365 * y + y / 4 - y / 100 + y / 400);
}

fn month_of(doy: u64) -> (r: (u64, u64))
    ensures
        r.0 == march_month(doy as int).0,
        r.1 == march_month(doy as int).1,
{
    if doy < 31 {
        (0, 3)
    } else if doy < 61 {
        (31, 4)
    } else if doy < 92 {
        (61, 5)
    } else if doy < 122 {
        (92, 6)
    } else if doy < 153 {
        (122, 7)
    } else if doy < 184 {
        (153, 8)
    } else if doy < 214 {
        (184, 9)
    } else if doy < 245 {
        (214, 10)
    } else if doy < 275 {
        (245, 11)
    } else if doy < 306 {
        (275, 12)
    } else if doy < 337 {
        (306, 1)
    } else {
        (337, 2)
    }
}

/// The date of a day. Years are counted from March, so that a leap day ends one.
fn civil(day: u64) -> (d: Date)
    requires
        day <= 0x1_0000_0000_0000,
    ensures
        d.valid(),
        d.number() == day,
{
    let z: u64 = day + SHIFT;
    let era: u64 = z / 146_097;
    let doe: u64 = z % 146_097;
    let c: u64 = if doe / 36_524 == 4 {
        3
    } else {
        doe / 36_524
    };
    let doc: u64 = doe - c * 36_524;
    let q: u64 = doc / 1461;
    let doq: u64 = doc % 1461;
    let yq: u64 = if doq / 365 == 4 {
        3
    } else {
        doq / 365
    };
    let doy: u64 = doq - 365 * yq;
    let march_year: u64 = 400 * era + 100 * c + 4 * q + yq;
    proof {
        march_years(z as int, era as int, c as int, q as int, yq as int, doy as int);
    }
    assert(march_year >= 1);
    let (past, month): (u64, u64) = month_of(doy);
    let year: u64 = if month <= 2 {
        march_year + 1
    } else {
        march_year
    };
    let d = Date { year, month, day: doy - past + 1 };
    proof {
        march_date(march_year as int, doy as int, d);
    }
    d
}

/// Every day from 1970 on has a date.
pub proof fn every_day_has_a_date(day: u64)
    requires
        day <= 0x1_0000_0000_0000,
    ensures
        date_of(day as int).valid(),
        date_of(day as int).number() == day,
{
    let z = day + SHIFT;
    let (era, doe) = (z / 146_097, z % 146_097);
    let c = if doe / 36_524 == 4 {
        3
    } else {
        doe / 36_524
    };
    let doc = doe - c * 36_524;
    let (q, doq) = (doc / 1461, doc % 1461);
    let yq = if doq / 365 == 4 {
        3
    } else {
        doq / 365
    };
    let doy = doq - 365 * yq;
    let y = 400 * era + 100 * c + 4 * q + yq;
    march_years(z, era, c, q, yq, doy);
    let (past, month) = march_month(doy);
    let d = Date {
        year: if month <= 2 {
            (y + 1) as u64
        } else {
            y as u64
        },
        month: month as u64,
        day: (doy - past + 1) as u64,
    };
    march_date(y, doy, d);
    assert(d.valid() && d.number() == day);
}

/// A number of at most two digits, with two digits.
pub open spec fn two(n: nat) -> Seq<char> {
    if n < 10 {
        "0"@ + text::decimal(n)
    } else {
        text::decimal(n)
    }
}

fn push_two(out: &mut String, n: u64)
    ensures
        final(out)@ == old(out)@ + two(n as nat),
{
    let ghost before = out@;
    if n < 10 {
        out.append("0");
    }
    push_number(out, n);
    assert(out@ =~= before + two(n as nat));
}

/// The timestamp of a second of a day.
pub open spec fn stamp(d: Date, second: nat) -> Seq<char> {
    text::decimal(d.year as nat) + "-"@ + two(d.month as nat) + "-"@ + two(d.day as nat) + "T"@
        + two(second / 3600) + ":"@ + two(second % 3600 / 60) + ":"@ + two(second % 60) + "Z"@
}

/// The RFC 3339 timestamp, in UTC, of a number of seconds since 1970 began.
pub fn rfc3339(secs: u64) -> (s: String)
    ensures
        date_of((secs / 86_400) as int).valid(),
        date_of((secs / 86_400) as int).number() == secs / 86_400,
        s@ == stamp(date_of((secs / 86_400) as int), (secs % 86_400) as nat),
{
    let day: u64 = secs / 86_400;
    let rem: u64 = secs % 86_400;
    let d = civil(day);
    proof {
        assert(d.valid() && d.number() == day);
        dates_are_unique(d, date_of(day as int));
    }
    let mut s = String::new();
    push_number(&mut s, d.year);
    s.append("-");
    push_two(&mut s, d.month);
    s.append("-");
    push_two(&mut s, d.day);
    s.append("T");
    push_two(&mut s, rem / 3600);
    s.append(":");
    push_two(&mut s, rem % 3600 / 60);
    s.append(":");
    push_two(&mut s, rem % 60);
    s.append("Z");
    assert(s@ =~= stamp(d, rem as nat));
    s
}

} // verus!
