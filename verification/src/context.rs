//! The injected values, and the one of them that exists: the clock.
//!
//! A run reads the date once, and no check fetches it for itself. The grain
//! is a day: a participation expectation is declared in days, so a verdict
//! changes at a day boundary and at no finer one.
use vstd::prelude::*;
use crate::text::{
    chars_of, decimal, extend, extend_decimal, is_space, is_whitespace, leading_space, lemma_trim_start_is_skip, string_of, trim, trim_end, lemma_decimal_digits,
};

verus! {

/// A calendar date, held as a whole number of days from 1970-01-01.
#[derive(Clone, Copy, Debug, PartialEq, Eq, PartialOrd, Ord, Structural)]
pub struct Date {
    days: i64,
}

/// The values a run injects, which no check can fetch for itself.
#[derive(Clone, Copy, Debug, PartialEq, Eq)]
pub struct Context {
    now: Date,
}

/// The largest day count a date renders from without overflow.
pub open spec fn renderable(days: int) -> bool {
    days <= i64::MAX - 719_468
}

/// Whether `y` is a leap year of the proleptic Gregorian calendar.
pub open spec fn leap(y: int) -> bool {
    (y % 4 == 0 && y % 100 != 0) || y % 400 == 0
}

/// The number of days in a month of a year.
pub open spec fn month_length(y: int, m: int) -> int {
    if m == 1 || m == 3 || m == 5 || m == 7 || m == 8 || m == 10 || m == 12 {
        31
    } else if m == 4 || m == 6 || m == 9 || m == 11 {
        30
    } else if leap(y) {
        29
    } else {
        28
    }
}

/// Days from 1970-01-01 to a civil date, by Howard Hinnant's `days_from_civil`.
pub open spec fn civil_days(y: int, m: int, d: int) -> int {
    let yy = if m <= 2 {
        y - 1
    } else {
        y
    };
    let era = yy / 400;
    let year_of_era = yy - era * 400;
    let day_of_year = (153 * (m + if m > 2 {
        -3int
    } else {
        9int
    }) + 2) / 5 + d - 1;
    let day_of_era = year_of_era * 365 + year_of_era / 4 - year_of_era / 100 + day_of_year;
    era * 146_097 + day_of_era - 719_468
}

/// The civil date of a day count, by the inverse algorithm of the same paper.
pub open spec fn civil_of(days: int) -> (int, int, int) {
    let z = days + 719_468;
    let era = z / 146_097;
    let day_of_era = z - era * 146_097;
    let year_of_era = (day_of_era - day_of_era / 1460 + day_of_era / 36_524 - day_of_era
        / 146_096) / 365;
    let year = year_of_era + era * 400;
    let day_of_year = day_of_era - (365 * year_of_era + year_of_era / 4 - year_of_era / 100);
    let mp = (5 * day_of_year + 2) / 153;
    let day = day_of_year - (153 * mp + 2) / 5 + 1;
    let month = if mp < 10 {
        mp + 3
    } else {
        mp - 9
    };
    (
        year + if month <= 2 {
            1int
        } else {
            0int
        },
        month,
        day,
    )
}

/// Whether a run of characters is one or more ASCII digits.
pub open spec fn all_digits(s: Seq<char>) -> bool {
    s.len() > 0 && forall|i: int| 0 <= i < s.len() ==> '0' <= #[trigger] s[i] <= '9'
}

/// The number a run of ASCII digits spells.
pub open spec fn digits_value(s: Seq<char>) -> int
    decreases s.len(),
{
    if s.len() == 0 {
        0
    } else {
        digits_value(s.drop_last()) * 10 + (s.last() as int - '0' as int)
    }
}

/// The number a field of a date spells: ASCII digits alone, with no sign.
pub open spec fn unsigned_field(s: Seq<char>) -> Option<int> {
    if all_digits(s) {
        Some(digits_value(s))
    } else {
        None
    }
}

/// The year field of a date, which is read as the other two are.
pub open spec fn signed_field(s: Seq<char>) -> Option<int> {
    unsigned_field(s)
}

/// The day count a date written `YYYY-MM-DD` names, and nothing for any other
/// text. Surrounding white space is not part of the date.
pub open spec fn date_of(text: Seq<char>) -> Option<int> {
    let t = trim(text);
    if t.len() != 10 || t[4] != '-' || t[7] != '-' {
        None
    } else {
        match (signed_field(t.take(4)), unsigned_field(t.subrange(5, 7)), unsigned_field(
            t.subrange(8, 10),
        )) {
            (Some(y), Some(m), Some(d)) => if 1 <= m <= 12 && 1 <= d <= month_length(y, m) {
                Some(civil_days(y, m, d))
            } else {
                None
            },
            _ => None,
        }
    }
}

/// `n` written with at least `width` digits, zeros in front.
pub open spec fn padded(n: nat, width: nat) -> Seq<char> {
    let digits = decimal(n);
    if digits.len() >= width {
        digits
    } else {
        Seq::new((width - digits.len()) as nat, |i: int| '0') + digits
    }
}

/// A year as `{:04}` writes it: the sign counts toward the four columns.
pub open spec fn year_text(y: int) -> Seq<char> {
    if y >= 0 {
        padded(y as nat, 4)
    } else {
        seq!['-'] + padded((-y) as nat, 3)
    }
}

/// A day count as `YYYY-MM-DD`.
pub open spec fn date_text(days: int) -> Seq<char> {
    let (y, m, d) = civil_of(days);
    year_text(y) + seq!['-'] + padded(m as nat, 2) + seq!['-'] + padded(d as nat, 2)
}

/// Seconds since the epoch as the host clock reads them, and nothing for a
/// clock set before the epoch: `SystemTime::elapsed` of `UNIX_EPOCH`, the
/// duration converted to whole seconds. The reading depends on the moment of
/// the call, so nothing is stated of its value.
#[verifier::external_body]
fn seconds_since_epoch() -> Option<u64> {
    std::time::UNIX_EPOCH.elapsed().ok().map(|d| d.as_secs())
}

/// Two dates are one date exactly when they count the same days.
pub proof fn lemma_same_day(a: Date, b: Date)
    ensures
        a == b <==> a.days() == b.days(),
{
}

impl Context {
    /// The date this run is at.
    pub closed spec fn today(&self) -> Date {
        self.now
    }

    /// A run at a stated date.
    pub fn at(now: Date) -> (c: Self)
        ensures
            c.today() == now,
    {
        Context { now }
    }

    /// A run at the day a number of seconds since the epoch falls on.
    pub fn at_elapsed(seconds: u64) -> (c: Self)
        ensures
            c.today().days() == seconds as int / 86_400,
    {
        Context { now: Date { days: (seconds / 86_400) as i64 } }
    }

    /// A run at today's date, read from the system clock, and nothing when the
    /// host clock is before the epoch. Which day, and whether the clock reads
    /// one at all, is the host's; whatever it reads, the day is one that
    /// `at_elapsed` makes of a count of seconds that fits a `u64`.
    pub fn from_system_clock() -> (c: Option<Self>)
        ensures
            c matches Some(c) ==> 0 <= c.today().days() <= u64::MAX as int / 86_400,
    {
        match seconds_since_epoch() {
            Some(seconds) => Some(Context::at_elapsed(seconds)),
            None => None,
        }
    }

    pub fn now(&self) -> (d: Date)
        ensures
            d == self.today(),
    {
        self.now
    }
}

impl Date {
    pub closed spec fn days(&self) -> int {
        self.days as int
    }

    /// A date as it is written in front matter: `YYYY-MM-DD`, and nothing else.
    pub fn parse(text: &str) -> (d: Option<Self>)
        ensures
            d matches Some(d) ==> date_of(text@) == Some(d.days()),
            d is None ==> date_of(text@) is None,
    {
        let all = chars_of(text);
        let t = trimmed(all.as_slice());
        if t.len() != 10 || t[4] != '-' || t[7] != '-' {
            return None;
        }
        let year = match signed_short(&t[0..4]) {
            Some(y) => y,
            None => return None,
        };
        let month = match unsigned_short(&t[5..7]) {
            Some(m) => m,
            None => return None,
        };
        let day = match unsigned_short(&t[8..10]) {
            Some(d) => d,
            None => return None,
        };
        proof {
            assert(t@.take(4) =~= t@.subrange(0, 4));
        }
        if month < 1 || month > 12 || day < 1 || day > days_in_month(year, month) {
            return None;
        }
        Some(Date { days: days_from_civil(year, month, day) })
    }

    pub fn from_days(days: i64) -> (d: Self)
        ensures
            d.days() == days,
    {
        Date { days }
    }

    /// Whether this date falls before another.
    pub fn before(&self, other: &Date) -> (r: bool)
        ensures
            r == (self.days() < other.days()),
    {
        self.days < other.days
    }

    /// Whole days from `origin` to this date. Negative when this date is
    /// earlier.
    pub fn days_since(&self, origin: Date) -> (n: i64)
        requires
            i64::MIN <= self.days() - origin.days() <= i64::MAX,
        ensures
            n == self.days() - origin.days(),
    {
        self.days - origin.days
    }

    /// Whole days from `origin` to this date, wide enough for any two dates.
    pub fn days_after(&self, origin: Date) -> (n: i128)
        ensures
            n == self.days() - origin.days(),
            -0xffff_ffff_ffff_ffff <= n <= 0xffff_ffff_ffff_ffff,
    {
        (self.days as i128) - (origin.days as i128)
    }

    /// The date as it is written.
    pub fn render(&self) -> (s: String)
        requires
            renderable(self.days()),
        ensures
            s@ == date_text(self.days()),
    {
        let (year, month, day) = civil_from_days(self.days);
        let mut out: Vec<char> = Vec::new();
        if year >= 0 {
            extend_padded(&mut out, year as u64, 4);
        } else {
            out.push('-');
            extend_padded(&mut out, (-year) as u64, 3);
        }
        out.push('-');
        extend_padded(&mut out, month as u64, 2);
        out.push('-');
        extend_padded(&mut out, day as u64, 2);
        proof {
            let (y, m, d) = civil_of(self.days());
            assert(out@ =~= date_text(self.days()));
        }
        string_of(out.as_slice())
    }
}

/// `out` with `n` after it, zero-padded to `width` digits.
fn extend_padded(out: &mut Vec<char>, n: u64, width: usize)
    requires
        width <= 4,
    ensures
        final(out)@ == old(out)@ + padded(n as nat, width as nat),
{
    let mut digits: Vec<char> = Vec::new();
    extend_decimal(&mut digits, n);
    let ghost start = out@;
    if digits.len() < width {
        let mut k: usize = digits.len();
        while k < width
            invariant
                digits@ == decimal(n as nat),
                digits@.len() <= k <= width,
                out@ == start + Seq::new((k - digits@.len()) as nat, |i: int| '0'),
            decreases width - k,
        {
            out.push('0');
            k = k + 1;
            assert(out@ =~= start + Seq::new((k - digits@.len()) as nat, |i: int| '0'));
        }
    }
    extend(out, digits.as_slice());
    assert(out@ =~= start + padded(n as nat, width as nat));
}

/// The text with its surrounding white space dropped.
pub fn trimmed(s: &[char]) -> (t: Vec<char>)
    ensures
        t@ == trim(s@),
{
    let mut start: usize = 0;
    proof {
        lemma_trim_start_is_skip(s@);
    }
    while start < s.len() && is_whitespace(s[start])
        invariant
            start <= s@.len(),
            forall|k: int| 0 <= k < start ==> is_space(#[trigger] s@[k]),
            start <= leading_space(s@),
            leading_space(s@) <= s@.len(),
            forall|k: int| 0 <= k < leading_space(s@) ==> is_space(#[trigger] s@[k]),
            leading_space(s@) < s@.len() ==> !is_space(s@[leading_space(s@) as int]),
        decreases s@.len() - start,
    {
        start = start + 1;
    }
    assert(start == leading_space(s@));
    let ghost front = s@.skip(start as int);
    let mut end: usize = s.len();
    proof {
        lemma_trim_end_prefix(front, front.len() as int);
    }
    while end > start && is_whitespace(s[end - 1])
        invariant
            start <= end <= s@.len(),
            front == s@.skip(start as int),
            trim_end(front) == trim_end(front.take(end - start)),
        decreases end,
    {
        proof {
            let cut = front.take(end - start);
            assert(cut.last() == s@[end - 1]);
            assert(cut.drop_last() =~= front.take(end - 1 - start));
        }
        end = end - 1;
    }
    proof {
        let cut = front.take(end - start);
        assert(cut.len() == 0 || !is_space(cut.last()));
        assert(trim_end(cut) == cut);
    }
    let mut t: Vec<char> = Vec::new();
    extend(&mut t, &s[start..end]);
    assert(t@ =~= front.take(end - start));
    t
}

proof fn lemma_trim_end_prefix(s: Seq<char>, n: int)
    requires
        n == s.len(),
    ensures
        trim_end(s) == trim_end(s.take(n)),
{
    assert(s.take(n) =~= s);
}

/// The value of a field of ASCII digits, which never exceeds four digits.
fn digits_short(s: &[char]) -> (v: Option<i64>)
    requires
        s@.len() <= 4,
    ensures
        v matches Some(v) ==> all_digits(s@) && v == digits_value(s@) && 0 <= v < 10_000,
        v is None ==> !all_digits(s@),
{
    if s.len() == 0 {
        return None;
    }
    let mut value: i64 = 0;
    let mut i: usize = 0;
    while i < s.len()
        invariant
            i <= s@.len() <= 4,
            forall|k: int| 0 <= k < i ==> '0' <= #[trigger] s@[k] <= '9',
            value == digits_value(s@.take(i as int)),
            0 <= value < pow10(i as nat),
        decreases s@.len() - i,
    {
        let c = s[i];
        if c < '0' || c > '9' {
            return None;
        }
        assert(s@.take(i + 1).drop_last() =~= s@.take(i as int));
        assert(pow10(i as nat) <= 1000) by {
            reveal_with_fuel(pow10, 5);
        }
        value = value * 10 + (c as i64 - '0' as i64);
        i = i + 1;
    }
    assert(s@.take(i as int) =~= s@);
    assert(pow10(i as nat) <= 10_000) by {
        reveal_with_fuel(pow10, 5);
    }
    Some(value)
}

spec fn pow10(n: nat) -> int
    decreases n,
{
    if n == 0 {
        1
    } else {
        10 * pow10((n - 1) as nat)
    }
}

/// A field of a date, of at most four characters: ASCII digits alone.
fn unsigned_short(s: &[char]) -> (v: Option<i64>)
    requires
        s@.len() <= 4,
    ensures
        v matches Some(v) ==> unsigned_field(s@) == Some(v as int) && 0 <= v < 10_000,
        v is None ==> unsigned_field(s@) is None,
{
    digits_short(s)
}

/// The year field of a date, of at most four characters.
fn signed_short(s: &[char]) -> (v: Option<i64>)
    requires
        s@.len() <= 4,
    ensures
        v matches Some(v) ==> signed_field(s@) == Some(v as int) && -10_000 < v < 10_000,
        v is None ==> signed_field(s@) is None,
{
    unsigned_short(s)
}

/// Days from 1970-01-01, by Howard Hinnant's `days_from_civil`.
fn days_from_civil(year: i64, month: i64, day: i64) -> (n: i64)
    requires
        -10_000 <= year <= 10_000,
        1 <= month <= 12,
        1 <= day <= 31,
    ensures
        n == civil_days(year as int, month as int, day as int),
{
    let year = year - if month <= 2 {
        1
    } else {
        0
    };
    let era = if year >= 0 {
        year / 400
    } else {
        -((-year + 399) / 400)
    };
    proof {
        assert(era == year as int / 400) by (nonlinear_arith)
            requires
                -10_001 <= year <= 10_000,
                year >= 0 ==> era == year / 400,
                year < 0 ==> era == -((-year + 399) / 400),
        ;
    }
    let year_of_era = year - era * 400;
    let day_of_year = (153 * (month + if month > 2 {
        -3
    } else {
        9
    }) + 2) / 5 + day - 1;
    let day_of_era = year_of_era * 365 + year_of_era / 4 - year_of_era / 100 + day_of_year;
    era * 146_097 + day_of_era - 719_468
}

/// The inverse of [`days_from_civil`].
fn civil_from_days(days: i64) -> (r: (i64, i64, i64))
    requires
        renderable(days as int),
    ensures
        (r.0 as int, r.1 as int, r.2 as int) == civil_of(days as int),
        1 <= r.1 <= 12,
        1 <= r.2 <= 31,
{
    let z = days + 719_468;
    let era = if z >= 0 {
        z / 146_097
    } else {
        -((-z + 146_096) / 146_097)
    };
    proof {
        assert(era == z as int / 146_097) by (nonlinear_arith)
            requires
                z >= 0 ==> era == z / 146_097,
                z < 0 ==> era == -((-z + 146_096) / 146_097),
                z <= i64::MAX,
                z >= i64::MIN + 719_468,
        ;
        assert(0 <= z - era * 146_097 < 146_097) by (nonlinear_arith)
            requires
                era == z as int / 146_097,
        ;
    }
    let day_of_era = z - era * 146_097;
    let year_of_era = (day_of_era - day_of_era / 1460 + day_of_era / 36_524 - day_of_era
        / 146_096) / 365;
    proof {
        assert(0 <= year_of_era <= 399) by (nonlinear_arith)
            requires
                0 <= day_of_era < 146_097,
                year_of_era == (day_of_era - day_of_era / 1460 + day_of_era / 36_524 - day_of_era
                    / 146_096) / 365,
        ;
    }
    let year = year_of_era + era * 400;
    let day_of_year = day_of_era - (365 * year_of_era + year_of_era / 4 - year_of_era / 100);
    proof {
        assert(0 <= day_of_year <= 365) by (nonlinear_arith)
            requires
                0 <= day_of_era < 146_097,
                year_of_era == (day_of_era - day_of_era / 1460 + day_of_era / 36_524 - day_of_era
                    / 146_096) / 365,
                day_of_year == day_of_era - (365 * year_of_era + year_of_era / 4 - year_of_era
                    / 100),
        ;
    }
    let mp = (5 * day_of_year + 2) / 153;
    let day = day_of_year - (153 * mp + 2) / 5 + 1;
    proof {
        assert(0 <= mp <= 11 && 1 <= day <= 31) by (nonlinear_arith)
            requires
                0 <= day_of_year <= 365,
                mp == (5 * day_of_year + 2) / 153,
                day == day_of_year - (153 * mp + 2) / 5 + 1,
        ;
    }
    let month = if mp < 10 {
        mp + 3
    } else {
        mp - 9
    };
    (year + if month <= 2 {
        1
    } else {
        0
    }, month, day)
}

/// The number of days in a month of a year.
#[verifier::spinoff_prover]
fn days_in_month(year: i64, month: i64) -> (n: i64)
    ensures
        n == month_length(year as int, month as int),
{
    if month == 1 || month == 3 || month == 5 || month == 7 || month == 8 || month == 10 || month
        == 12 {
        31
    } else if month == 4 || month == 6 || month == 9 || month == 11 {
        30
    } else if (year % 4 == 0 && year % 100 != 0) || year % 400 == 0 {
        29
    } else {
        28
    }
}

} // verus!

verus! {

/// Within an era, the year the inverse algorithm finds starts on or before
/// the day and its next year starts after it, and a day a year can only hold
/// in a leap year falls in a year before a leap year.
proof fn lemma_year_of_era(doe: int)
    requires
        0 <= doe <= 146_096,
    ensures
        ({
            let yoe = (doe - doe / 1460 + doe / 36_524 - doe / 146_096) / 365;
            let start = 365 * yoe + yoe / 4 - yoe / 100;
            &&& 0 <= yoe <= 399
            &&& 0 <= doe - start <= 365
            &&& doe - start == 365 ==> yoe % 4 == 3 && (yoe % 100 != 99 || yoe == 399)
        }),
{
    let yoe = (doe - doe / 1460 + doe / 36_524 - doe / 146_096) / 365;
    assert(0 <= yoe <= 399) by (nonlinear_arith)
        requires
            0 <= doe <= 146_096,
            yoe == (doe - doe / 1460 + doe / 36_524 - doe / 146_096) / 365,
    ;
    assert(0 <= doe - (365 * yoe + yoe / 4 - yoe / 100) <= 365) by (nonlinear_arith)
        requires
            0 <= doe <= 146_096,
            yoe == (doe - doe / 1460 + doe / 36_524 - doe / 146_096) / 365,
            0 <= yoe <= 399,
    ;
    assert(doe - (365 * yoe + yoe / 4 - yoe / 100) == 365 ==> yoe % 4 == 3 && (yoe % 100 != 99 || yoe
        == 399)) by (nonlinear_arith)
        requires
            0 <= doe <= 146_096,
            yoe == (doe - doe / 1460 + doe / 36_524 - doe / 146_096) / 365,
            0 <= yoe <= 399,
    ;
}

/// Within a year that starts in March, the month the inverse algorithm finds
/// holds the day, and the day is a day of that month.
proof fn lemma_month_of_year(doy: int)
    requires
        0 <= doy <= 365,
    ensures
        ({
            let mp = (5 * doy + 2) / 153;
            let day = doy - (153 * mp + 2) / 5 + 1;
            &&& 0 <= mp <= 11
            &&& 1 <= day
            &&& mp != 11 ==> day <= (if mp == 1 || mp == 3 || mp == 6 || mp == 8 {
                30int
            } else {
                31int
            })
            &&& mp == 11 ==> day <= 28 || doy == 365
            &&& mp == 11 ==> day <= 29
        }),
{
    let mp = (5 * doy + 2) / 153;
    assert(0 <= mp <= 11) by (nonlinear_arith)
        requires
            0 <= doy <= 365,
            mp == (5 * doy + 2) / 153,
    ;
    assert(1 <= doy - (153 * mp + 2) / 5 + 1) by (nonlinear_arith)
        requires
            0 <= doy <= 365,
            mp == (5 * doy + 2) / 153,
    ;
    assert(doy - (153 * mp + 2) / 5 + 1 <= 31) by (nonlinear_arith)
        requires
            0 <= doy <= 365,
            mp == (5 * doy + 2) / 153,
    ;
    assert(mp == 1 || mp == 3 || mp == 6 || mp == 8 ==> doy - (153 * mp + 2) / 5 + 1 <= 30) by (nonlinear_arith)
        requires
            0 <= doy <= 365,
            mp == (5 * doy + 2) / 153,
    ;
    assert(mp == 11 ==> doy - (153 * mp + 2) / 5 + 1 == doy - 336);
}

/// The civil date of a day count names that day back, and is a date: its
/// month is a month and its day a day of that month.
pub proof fn lemma_civil_round_trip(days: int)
    ensures
        ({
            let (y, m, d) = civil_of(days);
            &&& 1 <= m <= 12
            &&& 1 <= d <= month_length(y, m)
            &&& civil_days(y, m, d) == days
        }),
{
    let z = days + 719_468;
    let era = z / 146_097;
    let doe = z - era * 146_097;
    assert(0 <= doe <= 146_096) by (nonlinear_arith)
        requires
            era == z / 146_097,
            doe == z - era * 146_097,
    ;
    lemma_year_of_era(doe);
    let yoe = (doe - doe / 1460 + doe / 36_524 - doe / 146_096) / 365;
    let start = 365 * yoe + yoe / 4 - yoe / 100;
    let doy = doe - start;
    lemma_month_of_year(doy);
    let mp = (5 * doy + 2) / 153;
    let day = doy - (153 * mp + 2) / 5 + 1;
    let month = if mp < 10 {
        mp + 3
    } else {
        mp - 9
    };
    let year = yoe + era * 400 + if month <= 2 {
        1int
    } else {
        0int
    };
    assert(civil_of(days) == (year, month, day));
    let yy = if month <= 2 {
        year - 1
    } else {
        year
    };
    assert(yy == yoe + era * 400);
    assert(yy / 400 == era) by (nonlinear_arith)
        requires
            yy == yoe + era * 400,
            0 <= yoe <= 399,
    ;
    assert(yy - era * 400 == yoe);
    assert(month + (if month > 2 {
        -3int
    } else {
        9int
    }) == mp);
    if mp == 11 && doy == 365 {
        assert(yoe % 4 == 3 && (yoe % 100 != 99 || yoe == 399));
        assert(leap(year)) by (nonlinear_arith)
            requires
                year == yoe + era * 400 + 1,
                yoe % 4 == 3,
                yoe % 100 != 99 || yoe == 399,
                0 <= yoe <= 399,
        ;
    }
}
} // verus!

verus! {

/// A run of zeros spells nothing.
proof fn lemma_zeros_value(k: nat)
    ensures
        digits_value(Seq::new(k, |i: int| '0')) == 0,
    decreases k,
{
    if k > 0 {
        lemma_zeros_value((k - 1) as nat);
        assert(Seq::new(k, |i: int| '0').drop_last() =~= Seq::new((k - 1) as nat, |i: int| '0'));
    }
}

/// Zeros in front of a run of digits leave the number it spells.
proof fn lemma_leading_zeros(k: nat, b: Seq<char>)
    ensures
        digits_value(Seq::new(k, |i: int| '0') + b) == digits_value(b),
    decreases b.len(),
{
    let z = Seq::new(k, |i: int| '0');
    if b.len() == 0 {
        assert(z + b =~= z);
        lemma_zeros_value(k);
    } else {
        lemma_leading_zeros(k, b.drop_last());
        assert((z + b).drop_last() =~= z + b.drop_last());
        assert((z + b).last() == b.last());
    }
}

/// The number of digits of a number below a power of ten.
proof fn lemma_decimal_len(n: nat)
    ensures
        n < 10 ==> decimal(n).len() == 1,
        n < 100 ==> decimal(n).len() <= 2,
        n < 1000 ==> decimal(n).len() <= 3,
        n < 10000 ==> decimal(n).len() <= 4,
    decreases n,
{
    if n >= 10 {
        lemma_decimal_len(n / 10);
    }
}

/// A number padded with zeros is digits, and spells the number.
proof fn lemma_padded(n: nat, width: nat)
    ensures
        all_digits(padded(n, width)),
        digits_value(padded(n, width)) == n,
        padded(n, width).len() == if decimal(n).len() >= width {
            decimal(n).len()
        } else {
            width
        },
{
    lemma_decimal_digits(n);
    let d = decimal(n);
    if d.len() < width {
        let z = Seq::new((width - d.len()) as nat, |i: int| '0');
        lemma_leading_zeros((width - d.len()) as nat, d);
        assert forall|i: int| 0 <= i < (z + d).len() implies '0' <= #[trigger] (z + d)[i] <= '9' by {
            if i >= z.len() {
                assert((z + d)[i] == d[i - z.len()]);
            }
        }
    }
}

/// A text with no white space is its own trimmed form.
proof fn lemma_trim_plain(s: Seq<char>)
    requires
        forall|i: int| 0 <= i < s.len() ==> !is_space(#[trigger] s[i]),
    ensures
        trim(s) == s,
{
    if s.len() > 0 {
        assert(!is_space(s[0]));
        assert(!is_space(s[s.len() - 1]));
    }
}

/// The days of a month of the Gregorian calendar: thirty in April, June,
/// September and November, twenty-nine in February of a year divisible by
/// four and not by a hundred unless by four hundred, twenty-eight in any other
/// February, thirty-one in every other month.
pub open spec fn gregorian_days(y: int, m: int) -> int {
    if m == 4 || m == 6 || m == 9 || m == 11 {
        30
    } else if m == 2 {
        if (y % 4 == 0 && y % 100 != 0) || y % 400 == 0 {
            29
        } else {
            28
        }
    } else {
        31
    }
}

/// A date names a day of its month: a text reads as a date exactly when,
/// trimmed, it is `YYYY-MM-DD` with a month from 1 to 12 and a day from 1 to
/// the days of that month in the Gregorian calendar. `2026-04-31`,
/// `2026-02-29` and `2026-13-01` read as nothing.
pub proof fn law_a_date_names_a_day_of_its_month(text: Seq<char>)
    ensures
        date_of(text) is Some <==> {
            let t = trim(text);
            &&& t.len() == 10
            &&& t[4] == '-'
            &&& t[7] == '-'
            &&& signed_field(t.take(4)) is Some
            &&& unsigned_field(t.subrange(5, 7)) is Some
            &&& unsigned_field(t.subrange(8, 10)) is Some
            &&& 1 <= unsigned_field(t.subrange(5, 7)).unwrap() <= 12
            &&& 1 <= unsigned_field(t.subrange(8, 10)).unwrap() <= gregorian_days(
                signed_field(t.take(4)).unwrap(),
                unsigned_field(t.subrange(5, 7)).unwrap(),
            )
        },
{
}

/// A day of a year up to 9999 lies well within what a day count can hold.
proof fn lemma_civil_days_bound(y: int, m: int, d: int)
    requires
        y <= 9999,
        1 <= m <= 12,
        1 <= d <= 31,
    ensures
        civil_days(y, m, d) <= 3_000_000,
{
    let yy = if m <= 2 {
        y - 1
    } else {
        y
    };
    let era = yy / 400;
    let year_of_era = yy - era * 400;
    assert(0 <= year_of_era < 400 && era <= 24) by (nonlinear_arith)
        requires
            yy <= 9999,
            era == yy / 400,
            year_of_era == yy - era * 400,
    ;
    let day_of_year = (153 * (m + if m > 2 {
        -3int
    } else {
        9int
    }) + 2) / 5 + d - 1;
    assert(day_of_year <= 400);
    assert(year_of_era * 365 + year_of_era / 4 - year_of_era / 100 <= 146_000) by (nonlinear_arith)
        requires
            0 <= year_of_era < 400,
    ;
    assert(era * 146_097 <= 24 * 146_097) by (nonlinear_arith)
        requires
            era <= 24,
    ;
}

/// A date written with a year of four digits can be written, and reads back
/// as the day it was written from: `Date::parse` of `Date::render` is the
/// date.
pub proof fn law_date_reads_back(days: int)
    requires
        0 <= civil_of(days).0 <= 9999,
    ensures
        renderable(days),
        date_of(date_text(days)) == Some(days),
        forall|i: int| 0 <= i < date_text(days).len() ==> !is_space(#[trigger] date_text(days)[i]),
{
    let (y, m, d) = civil_of(days);
    lemma_civil_round_trip(days);
    lemma_civil_days_bound(y, m, d);
    lemma_decimal_len(m as nat);
    lemma_decimal_len(d as nat);
    lemma_padded(m as nat, 2);
    lemma_padded(d as nat, 2);
    let yt = year_text(y);
    if y >= 0 {
        lemma_decimal_len(y as nat);
        lemma_padded(y as nat, 4);
    } else {
        lemma_decimal_len((-y) as nat);
        lemma_padded((-y) as nat, 3);
        assert(yt.skip(1) =~= padded((-y) as nat, 3));
    }
    assert(yt.len() == 4);
    let t = date_text(days);
    let mt = padded(m as nat, 2);
    let dt = padded(d as nat, 2);
    assert(t == yt + seq!['-'] + mt + seq!['-'] + dt);
    assert(t.len() == 10);
    assert(t.take(4) =~= yt);
    assert(t.subrange(5, 7) =~= mt);
    assert(t.subrange(8, 10) =~= dt);
    assert forall|i: int| 0 <= i < t.len() implies !is_space(#[trigger] t[i]) by {
        if i < 4 {
            assert(t[i] == yt[i]);
            if y >= 0 {
                assert('0' <= yt[i] <= '9');
            } else if i > 0 {
                assert(yt[i] == yt.skip(1)[i - 1]);
                assert('0' <= yt.skip(1)[i - 1] <= '9');
            }
        } else if 5 <= i < 7 {
            assert(t[i] == mt[i - 5]);
            assert('0' <= mt[i - 5] <= '9');
        } else if 8 <= i {
            assert(t[i] == dt[i - 8]);
            assert('0' <= dt[i - 8] <= '9');
        }
    }
    lemma_trim_plain(t);
    assert(all_digits(yt)) by {
        assert forall|i: int| 0 <= i < yt.len() implies '0' <= #[trigger] yt[i] <= '9' by {
            assert(t[i] == yt[i]);
        }
    }
    assert(all_digits(mt));
    assert(all_digits(dt));
}

} // verus!
