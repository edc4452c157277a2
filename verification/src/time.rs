//! Instants as RFC 3339 text in the proleptic Gregorian calendar.
use vstd::prelude::*;
use vstd::string::StringExecFns;

verus! {

/// A calendar date.
pub struct Date {
    pub year: int,
    pub month: int,
    pub day: int,
}

/// Whether a year has a 29 February.
pub open spec fn is_leap(year: int) -> bool {
    year % 4 == 0 && (year % 100 != 0 || year % 400 == 0)
}

/// How many days a month has.
pub open spec fn days_in_month(year: int, month: int) -> int {
    if month == 2 {
        if is_leap(year) {
            29
        } else {
            28
        }
    } else if month == 4 || month == 6 || month == 9 || month == 11 {
        30
    } else {
        31
    }
}

/// How many days of a year lie before the first of a month.
pub open spec fn days_before_month(year: int, month: int) -> int
    decreases month,
{
    if month <= 1 {
        0
    } else {
        days_before_month(year, month - 1) + days_in_month(year, month - 1)
    }
}

/// How many days lie between 1 January of year 1 and 1 January of a year.
pub open spec fn days_before_year(year: int) -> int {
    365 * (year - 1) + (year - 1) / 4 - (year - 1) / 100 + (year - 1) / 400
}

/// How many days a year has.
pub open spec fn days_in_year(year: int) -> int {
    if is_leap(year) {
        366
    } else {
        365
    }
}

/// Whether month and day exist.
pub open spec fn is_date(d: Date) -> bool {
    1 <= d.month <= 12 && 1 <= d.day <= days_in_month(d.year, d.month)
}

/// How many days lie between 1 January of year 1 and a date.
pub open spec fn day_number(d: Date) -> int {
    days_before_year(d.year) + days_before_month(d.year, d.month) + d.day - 1
}

/// The number of 1 January 1970.
pub const EPOCH_DAY: i64 = 719162;

/// The date that lies `days` days after 1 January 1970.
pub open spec fn date_of(days: int) -> Date {
    choose|d: Date| is_date(d) && #[trigger] day_number(d) == days + EPOCH_DAY
}

proof fn lemma_month_bounds(year: int, month: int)
    requires
        1 <= month <= 13,
    ensures
        0 <= days_before_month(year, month),
        month == 13 ==> days_before_month(year, month) == days_in_year(year),
        month <= 12 ==> days_before_month(year, month) + days_in_month(year, month)
            <= days_in_year(year),
{
    reveal_with_fuel(days_before_month, 14);
}

proof fn lemma_months_increase(year: int, a: int, b: int)
    requires
        1 <= a < b <= 13,
    ensures
        days_before_month(year, a) + days_in_month(year, a) <= days_before_month(year, b),
    decreases b - a,
{
    if a + 1 < b {
        lemma_months_increase(year, a, b - 1);
    }
}

proof fn lemma_quotient_step(y: int, d: int)
    requires
        d > 1,
    ensures
        (y + 1) / d == y / d + if (y + 1) % d == 0 {
            1int
        } else {
            0
        },
{
    let q = y / d;
    let r = y % d;
    vstd::arithmetic::div_mod::lemma_fundamental_div_mod(y, d);
    if r + 1 < d {
        vstd::arithmetic::div_mod::lemma_fundamental_div_mod_converse(y + 1, d, q, r + 1);
    } else {
        assert(y + 1 == (q + 1) * d + 0) by (nonlinear_arith)
            requires
                y == d * q + r,
                r + 1 == d,
        ;
        vstd::arithmetic::div_mod::lemma_fundamental_div_mod_converse(y + 1, d, q + 1, 0);
    }
}

proof fn lemma_next_year(year: int)
    ensures
        days_before_year(year + 1) == days_before_year(year) + days_in_year(year),
{
    lemma_quotient_step(year - 1, 4);
    lemma_quotient_step(year - 1, 100);
    lemma_quotient_step(year - 1, 400);
    assert(year % 400 == 0 ==> year % 100 == 0);
    assert(year % 100 == 0 ==> year % 4 == 0);
}

proof fn lemma_years_increase(a: int, b: int)
    requires
        a < b,
    ensures
        days_before_year(a) + days_in_year(a) <= days_before_year(b),
    decreases b - a,
{
    lemma_next_year(b - 1);
    if a + 1 < b {
        lemma_years_increase(a, b - 1);
    }
}

/// No two dates have the same number.
pub proof fn law_date_unique(a: Date, b: Date)
    requires
        is_date(a),
        is_date(b),
        day_number(a) == day_number(b),
    ensures
        a == b,
{
    lemma_month_bounds(a.year, a.month);
    lemma_month_bounds(b.year, b.month);
    if a.year < b.year {
        lemma_years_increase(a.year, b.year);
    }
    if b.year < a.year {
        lemma_years_increase(b.year, a.year);
    }
    if a.month < b.month {
        lemma_months_increase(a.year, a.month, b.month);
    }
    if b.month < a.month {
        lemma_months_increase(a.year, b.month, a.month);
    }
}

/// The quotient rounded down and the remainder that is never negative.
fn floor_div_mod(n: i64, d: i64) -> (r: (i64, i64))
    requires
        d > 1,
    ensures
        r.0 == n as int / d as int,
        r.1 == n as int % d as int,
{
    if n >= 0 {
        (n / d, n % d)
    } else {
        let m: i64 = -(n + 1);
        let q: i64 = m / d;
        let s: i64 = m % d;
        proof {
            vstd::arithmetic::div_mod::lemma_fundamental_div_mod(m as int, d as int);
            assert(n == (-q - 1) * d + (d - 1 - s)) by (nonlinear_arith)
                requires
                    m == d * q + s,
                    m == -(n + 1),
            ;
            vstd::arithmetic::div_mod::lemma_fundamental_div_mod_converse(
                n as int,
                d as int,
                -q - 1,
                d - 1 - s,
            );
            assert(q <= m) by (nonlinear_arith)
                requires
                    m == d * q + s,
                    d > 1,
                    q >= 0,
                    s >= 0,
            ;
        }
        (-q - 1, d - 1 - s)
    }
}

/// Whether a year has a 29 February.
fn leap(year: i64) -> (r: bool)
    ensures
        r == is_leap(year as int),
{
    let (_, by4) = floor_div_mod(year, 4);
    let (_, by100) = floor_div_mod(year, 100);
    let (_, by400) = floor_div_mod(year, 400);
    by4 == 0 && (by100 != 0 || by400 == 0)
}

/// How many days a month has.
fn month_len(year: i64, month: i64) -> (r: i64)
    ensures
        r == days_in_month(year as int, month as int),
{
    if month == 2 {
        if leap(year) {
            29
        } else {
            28
        }
    } else if month == 4 || month == 6 || month == 9 || month == 11 {
        30
    } else {
        31
    }
}

/// The year of day number `n`, and how many days of that year lie before it.
fn split_year(n: i64) -> (r: (i64, i64))
    requires
        -0x1000_0000_0000_0000 < n < 0x1000_0000_0000_0000,
    ensures
        days_before_year(r.0 as int) + r.1 == n,
        0 <= r.1 < days_in_year(r.0 as int),
        -0x1000_0000_0000_0000 < r.0 < 0x1000_0000_0000_0000,
{
    let (era, in_era) = floor_div_mod(n, 146097);
    let century: i64 = if in_era / 36524 > 3 {
        3
    } else {
        in_era / 36524
    };
    let in_century: i64 = in_era - century * 36524;
    let quad: i64 = in_century / 1461;
    let in_quad: i64 = in_century - quad * 1461;
    let single: i64 = if in_quad / 365 > 3 {
        3
    } else {
        in_quad / 365
    };
    let rest: i64 = in_quad - single * 365;
    let year: i64 = era * 400 + century * 100 + quad * 4 + single + 1;
    proof {
        let y: int = year - 1;
        assert(0 <= quad <= 24);
        assert(y / 400 == era);
        assert(y / 100 == era * 4 + century);
        assert(y / 4 == era * 100 + century * 25 + quad);
        assert(rest <= 365);
        if rest == 365 {
            assert(single == 3);
            assert(in_quad == 1460);
            assert(year == era * 400 + century * 100 + quad * 4 + 4);
            assert(year % 4 == 0);
            assert(quad == 24 ==> century == 3);
            assert(quad == 24 ==> year % 400 == 0);
            assert(quad < 24 ==> year % 100 == (quad + 1) * 4);
        }
    }
    (year, rest)
}

/// The date of a day counted from 1 January 1970: year, month, day.
fn civil(days: i64) -> (r: (i64, i64, i64))
    requires
        -0x800_0000_0000_0000 < days < 0x800_0000_0000_0000,
    ensures
        date_of(days as int) == (Date {
            year: r.0 as int,
            month: r.1 as int,
            day: r.2 as int,
        }),
        is_date(date_of(days as int)),
        day_number(date_of(days as int)) == days + EPOCH_DAY,
        r.0 > -0x1000_0000_0000_0000,
{
    let (year, day_of_year) = split_year(days + EPOCH_DAY);
    let mut month: i64 = 1;
    let mut rest: i64 = day_of_year;
    while rest >= month_len(year, month)
        invariant
            1 <= month <= 12,
            0 <= rest < 400,
            rest + days_before_month(year as int, month as int) == day_of_year,
            day_of_year < days_in_year(year as int),
        decreases 13 - month,
    {
        proof {
            lemma_month_bounds(year as int, month + 1);
        }
        rest = rest - month_len(year, month);
        month = month + 1;
    }
    proof {
        let found = Date { year: year as int, month: month as int, day: rest + 1 };
        assert(is_date(found) && day_number(found) == days + EPOCH_DAY);
        let chosen = date_of(days as int);
        assert(is_date(chosen) && day_number(chosen) == days + EPOCH_DAY);
        law_date_unique(found, chosen);
    }
    (year, month, rest + 1)
}

/// One decimal digit.
pub open spec fn digit(d: int) -> Seq<char> {
    if d == 0 {
        "0"@
    } else if d == 1 {
        "1"@
    } else if d == 2 {
        "2"@
    } else if d == 3 {
        "3"@
    } else if d == 4 {
        "4"@
    } else if d == 5 {
        "5"@
    } else if d == 6 {
        "6"@
    } else if d == 7 {
        "7"@
    } else if d == 8 {
        "8"@
    } else {
        "9"@
    }
}

/// A number in decimal with at least `width` digits.
pub open spec fn decimal(n: nat, width: nat) -> Seq<char>
    decreases n, width,
{
    if n == 0 && width == 0 {
        Seq::empty()
    } else {
        decimal(
            n / 10,
            if width == 0 {
                0
            } else {
                (width - 1) as nat
            },
        ) + digit((n % 10) as int)
    }
}

/// A year with at least four places, the sign of a negative one among them.
pub open spec fn year_text(year: int) -> Seq<char> {
    if year < 0 {
        "-"@ + decimal((-year) as nat, 3)
    } else {
        decimal(year as nat, 4)
    }
}

/// The text of an instant, counted in seconds from 1970 in UTC, up to the
/// seconds.
pub open spec fn instant_text(seconds: int) -> Seq<char> {
    let date = date_of(seconds / 86400);
    let time = seconds % 86400;
    year_text(date.year) + "-"@ + decimal(date.month as nat, 2) + "-"@ + decimal(
        date.day as nat,
        2,
    ) + "T"@ + decimal((time / 3600) as nat, 2) + ":"@ + decimal(((time / 60) % 60) as nat, 2)
        + ":"@ + decimal((time % 60) as nat, 2)
}

/// The RFC 3339 text of an instant with whole seconds.
pub open spec fn rfc3339(seconds: int) -> Seq<char> {
    instant_text(seconds) + "Z"@
}

/// The microseconds in a count of nanoseconds; none where the count is not that
/// of a fraction of a second.
pub open spec fn micros_of(nanos: int) -> nat {
    if 0 <= nanos < 1_000_000_000 {
        (nanos / 1000) as nat
    } else {
        0
    }
}

/// The RFC 3339 text of an instant with six digits for the microseconds.
pub open spec fn rfc3339_micro(seconds: int, nanos: int) -> Seq<char> {
    instant_text(seconds) + "."@ + decimal(micros_of(nanos), 6) + "Z"@
}

fn digit_str(d: u64) -> (r: &'static str)
    requires
        d < 10,
    ensures
        r@ == digit(d as int),
{
    match d {
        0 => "0",
        1 => "1",
        2 => "2",
        3 => "3",
        4 => "4",
        5 => "5",
        6 => "6",
        7 => "7",
        8 => "8",
        _ => "9",
    }
}

/// Appends a number in decimal.
fn push_decimal(out: &mut String, n: u64, width: u64)
    ensures
        final(out)@ == old(out)@ + decimal(n as nat, width as nat),
    decreases n, width,
{
    if n == 0 && width == 0 {
        assert(out@ + Seq::<char>::empty() =~= out@);
        return;
    }
    let above: u64 = if width == 0 {
        0
    } else {
        width - 1
    };
    push_decimal(out, n / 10, above);
    out.append(digit_str(n % 10));
    assert(out@ =~= old(out)@ + decimal(n as nat, width as nat));
}

/// Appends the text of an instant up to the seconds.
fn push_instant(out: &mut String, seconds: i64)
    ensures
        final(out)@ == old(out)@ + instant_text(seconds as int),
{
    let (days, time) = floor_div_mod(seconds, 86400);
    let (year, month, day) = civil(days);
    if year < 0 {
        out.append("-");
        push_decimal(out, (-year) as u64, 3);
    } else {
        push_decimal(out, year as u64, 4);
    }
    assert(out@ =~= old(out)@ + year_text(year as int));
    out.append("-");
    push_decimal(out, month as u64, 2);
    out.append("-");
    push_decimal(out, day as u64, 2);
    out.append("T");
    push_decimal(out, (time / 3600) as u64, 2);
    out.append(":");
    push_decimal(out, ((time / 60) % 60) as u64, 2);
    out.append(":");
    push_decimal(out, (time % 60) as u64, 2);
    assert(out@ =~= old(out)@ + instant_text(seconds as int));
}

/// Writes an instant with whole seconds.
pub fn secs_to_rfc3339(seconds: i64) -> (r: String)
    ensures
        r@ == rfc3339(seconds as int),
{
    let mut out = String::new();
    push_instant(&mut out, seconds);
    out.append("Z");
    assert(out@ =~= rfc3339(seconds as int));
    out
}

/// Writes an instant with microseconds.
pub fn secs_nanos_to_rfc3339_micro(seconds: i64, nanos: i32) -> (r: String)
    ensures
        r@ == rfc3339_micro(seconds as int, nanos as int),
{
    let mut out = String::new();
    push_instant(&mut out, seconds);
    out.append(".");
    let micros: u64 = if 0 <= nanos && nanos < 1_000_000_000 {
        (nanos / 1000) as u64
    } else {
        0
    };
    push_decimal(&mut out, micros, 6);
    out.append("Z");
    assert(out@ =~= rfc3339_micro(seconds as int, nanos as int));
    out
}

proof fn lemma_year_found(n: int) -> (r: (int, int))
    ensures
        days_before_year(r.0) + r.1 == n,
        0 <= r.1 < days_in_year(r.0),
{
    let era = n / 146097;
    let in_era = n % 146097;
    let century = if in_era / 36524 > 3 {
        3
    } else {
        in_era / 36524
    };
    let in_century = in_era - century * 36524;
    let quad = in_century / 1461;
    let in_quad = in_century - quad * 1461;
    let single = if in_quad / 365 > 3 {
        3
    } else {
        in_quad / 365
    };
    let rest = in_quad - single * 365;
    let year = era * 400 + century * 100 + quad * 4 + single + 1;
    let y = year - 1;
    assert(0 <= quad <= 24);
    assert(y / 400 == era);
    assert(y / 100 == era * 4 + century);
    assert(y / 4 == era * 100 + century * 25 + quad);
    assert(rest <= 365);
    if rest == 365 {
        assert(single == 3);
        assert(in_quad == 1460);
        assert(year == era * 400 + century * 100 + quad * 4 + 4);
        assert(year % 4 == 0);
        assert(quad == 24 ==> century == 3);
        assert(quad == 24 ==> year % 400 == 0);
        assert(quad < 24 ==> year % 100 == (quad + 1) * 4);
    }
    (year, rest)
}

/// Every day has a date, and the date has the number of the day.
pub proof fn law_every_day_has_a_date(days: int)
    ensures
        is_date(date_of(days)),
        day_number(date_of(days)) == days + EPOCH_DAY,
{
    let (year, rest) = lemma_year_found(days + EPOCH_DAY);
    lemma_month_bounds(year, 13);
    let month = lemma_month_found(year, rest, 12);
    let found = Date { year, month, day: rest - days_before_month(year, month) + 1 };
    assert(is_date(found) && day_number(found) == days + EPOCH_DAY);
}

proof fn lemma_month_found(year: int, rest: int, upto: int) -> (month: int)
    requires
        1 <= upto <= 12,
        0 <= rest < days_before_month(year, upto + 1),
    ensures
        1 <= month <= upto,
        days_before_month(year, month) <= rest < days_before_month(year, month)
            + days_in_month(year, month),
    decreases upto,
{
    if rest >= days_before_month(year, upto) {
        upto
    } else {
        lemma_month_found(year, rest, upto - 1)
    }
}

/// The text of an instant is that of its date and time of day in UTC: year,
/// month, day, hour, minute and second, each with its own number of digits.
pub proof fn law_instants_are_written_by_date_and_time(
    d: Date,
    hour: int,
    minute: int,
    second: int,
)
    requires
        is_date(d),
        0 <= hour < 24,
        0 <= minute < 60,
        0 <= second < 60,
    ensures
        rfc3339((day_number(d) - 719162) * 86400 + hour * 3600 + minute * 60 + second) == year_text(
            d.year,
        ) + "-"@ + decimal(d.month as nat, 2) + "-"@ + decimal(d.day as nat, 2) + "T"@ + decimal(
            hour as nat,
            2,
        ) + ":"@ + decimal(minute as nat, 2) + ":"@ + decimal(second as nat, 2) + "Z"@,
{
    let days = day_number(d) - 719162;
    let time = hour * 3600 + minute * 60 + second;
    let seconds = days * 86400 + time;
    vstd::arithmetic::div_mod::lemma_fundamental_div_mod_converse(seconds, 86400, days, time);
    law_every_day_has_a_date(days);
    law_date_unique(d, date_of(days));
    assert(time / 3600 == hour);
    assert((time / 60) % 60 == minute);
    assert(time % 60 == second);
}

/// The text of an instant with microseconds is that of the whole second with six
/// digits before the "Z"; nanoseconds that are no fraction of a second count as
/// none.
pub proof fn law_microseconds_follow_the_second(seconds: int, nanos: int)
    ensures
        rfc3339_micro(seconds, nanos) == rfc3339(seconds).drop_last() + "."@ + decimal(
            if 0 <= nanos <= 999_999_999 {
                (nanos / 1000) as nat
            } else {
                0
            },
            6,
        ) + "Z"@,
        rfc3339(seconds).last() == 'Z',
{
    reveal_strlit("Z");
    assert(rfc3339(seconds).drop_last() =~= instant_text(seconds));
}

/// Decimal digits: a number is written with the digits of its tenth part and then
/// its last one, with at least as many digits as were asked for, and a digit is
/// one character.
pub proof fn law_decimal_digits(n: nat, width: nat, d: int)
    requires
        0 <= d < 10,
    ensures
        decimal(0, 0) == Seq::<char>::empty(),
        decimal((10 * n + d) as nat, width + 1) == decimal(n, width).push(
            ('0' as int + d) as char,
        ),
        10 * n + d > 0 ==> decimal((10 * n + d) as nat, 0) == decimal(n, 0).push(
            ('0' as int + d) as char,
        ),
        decimal(n, width).len() >= width,
    decreases width,
{
    reveal_strlit("0");
    reveal_strlit("1");
    reveal_strlit("2");
    reveal_strlit("3");
    reveal_strlit("4");
    reveal_strlit("5");
    reveal_strlit("6");
    reveal_strlit("7");
    reveal_strlit("8");
    reveal_strlit("9");
    assert(digit(d) =~= seq![('0' as int + d) as char]);
    let m = (10 * n + d) as nat;
    assert(m / 10 == n && m % 10 == d);
    assert(decimal(m, width + 1) =~= decimal(n, width).push(('0' as int + d) as char));
    if m > 0 {
        assert(decimal(m, 0) =~= decimal(n, 0).push(('0' as int + d) as char));
    }
    if width > 0 {
        law_decimal_digits(n / 10, (width - 1) as nat, (n % 10) as int);
        assert(10 * (n / 10) + n % 10 == n);
    }
}

/// Years from 0 on have at least four digits; negative ones a sign and at least
/// three.
pub proof fn law_years_are_written_with_four_places(year: int)
    ensures
        year >= 0 ==> year_text(year) == decimal(year as nat, 4),
        year < 0 ==> year_text(year) == seq!['-'] + decimal((-year) as nat, 3),
        year_text(year).len() >= 4,
{
    reveal_strlit("-");
    assert("-"@ =~= seq!['-']);
    law_decimal_digits(year as nat, 4, 0);
    law_decimal_digits((-year) as nat, 3, 0);
}

/// The calendar: day 0 is 1 January 1970, and each day is followed by the next
/// one of its month, the first of the next month after its last day, and the
/// first of January after the last of December. February has 29 days in years
/// that 4 divides, but for those that 100 divides and 400 does not.
pub proof fn law_calendar(days: int)
    ensures
        date_of(0) == (Date { year: 1970, month: 1, day: 1 }),
        ({
            let a = date_of(days);
            let leap = a.year % 4 == 0 && (a.year % 100 != 0 || a.year % 400 == 0);
            let last = if a.month == 2 {
                if leap {
                    29int
                } else {
                    28int
                }
            } else if a.month == 4 || a.month == 6 || a.month == 9 || a.month == 11 {
                30int
            } else {
                31int
            };
            date_of(days + 1) == if a.day < last {
                Date { year: a.year, month: a.month, day: a.day + 1 }
            } else if a.month < 12 {
                Date { year: a.year, month: a.month + 1, day: 1 }
            } else {
                Date { year: a.year + 1, month: 1, day: 1 }
            }
        }),
{
    let epoch = Date { year: 1970, month: 1, day: 1 };
    reveal_with_fuel(days_before_month, 2);
    assert(is_date(epoch) && day_number(epoch) == 719162);
    law_every_day_has_a_date(0);
    law_date_unique(epoch, date_of(0));
    law_every_day_has_a_date(days);
    law_every_day_has_a_date(days + 1);
    let a = date_of(days);
    let b = if a.day < days_in_month(a.year, a.month) {
        Date { year: a.year, month: a.month, day: a.day + 1 }
    } else if a.month < 12 {
        Date { year: a.year, month: a.month + 1, day: 1 }
    } else {
        Date { year: a.year + 1, month: 1, day: 1 }
    };
    lemma_next_year(a.year);
    lemma_month_bounds(a.year, 13);
    assert(days_before_month(a.year, 13) == days_before_month(a.year, 12) + days_in_month(
        a.year,
        12,
    ));
    assert(days_before_month(a.year + 1, 1) == 0);
    assert(is_date(b) && day_number(b) == day_number(a) + 1);
    law_date_unique(b, date_of(days + 1));
}

} // verus!
