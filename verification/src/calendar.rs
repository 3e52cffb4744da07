//! UTC calendar keys for partitions (`YYYY-MM`, `YYYY-MM-DD`, `YYYY-MM-DDTHH`) and the
//! zero-padded decimal text they and generation-stamped file names use. The calendar itself
//! comes from `chrono`.
use vstd::prelude::*;
use chrono::{Datelike, Timelike};
use crate::error::{FastKError, Result, invalid_input};
use crate::meta::PartitionUnit;

verus! {

/// The UTC calendar fields `(year, month, day, hour)` that chrono gives the instant `ms`
/// milliseconds after the Unix epoch; `None` where chrono cannot represent it.
pub uninterp spec fn utc_calendar_fields(ms: i64) -> Option<(i32, u32, u32, u32)>;

/// Whether `y` is a leap year of the proleptic Gregorian calendar.
pub open spec fn leap_year(y: int) -> bool {
    (y % 4 == 0 && y % 100 != 0) || y % 400 == 0
}

/// Number of days in month `m` (1 to 12) of year `y`.
pub open spec fn month_length(y: int, m: int) -> int {
    if m == 2 {
        if leap_year(y) { 29 } else { 28 }
    } else if m == 4 || m == 6 || m == 9 || m == 11 {
        30
    } else {
        31
    }
}

/// Leap years among years `1..=y`, counted by floor division (negative below year 1).
pub open spec fn leap_count(y: int) -> int {
    y / 4 - y / 100 + y / 400
}

/// Days from 1970-01-01 to January 1 of year `y` (negative before 1970).
pub open spec fn days_to_year(y: int) -> int {
    365 * (y - 1970) + leap_count(y - 1) - leap_count(1969)
}

/// Days from January 1 to the first day of month `m` of year `y`.
pub open spec fn days_to_month(y: int, m: int) -> int
    decreases m,
{
    if m <= 1 { 0 } else { days_to_month(y, m - 1) + month_length(y, m - 1) }
}

/// `(year, month, day, hour)` is the proleptic Gregorian UTC date and hour of the instant
/// `ms` milliseconds after 1970-01-01T00:00:00Z.
pub open spec fn is_utc_date_hour(f: (i32, u32, u32, u32), ms: i64) -> bool {
    let (y, m, d, h) = f;
    &&& 1 <= m <= 12
    &&& 1 <= d <= month_length(y as int, m as int)
    &&& days_to_year(y as int) + days_to_month(y as int, m as int) + d - 1 == ms as int / 86_400_000
    &&& h as int == (ms as int % 86_400_000) / 3_600_000
}

/// The first and last years chrono represents.
pub open spec fn chrono_year_in_range(y: int) -> bool {
    -262143 <= y <= 262142
}

/// `DateTime::<Utc>::from_timestamp_millis` followed by `Datelike::year`, `Datelike::month`,
/// `Datelike::day` and `Timelike::hour` on the result. The fields are named by
/// `utc_calendar_fields`, a function of `ms` alone. chrono places `ms` in the proleptic
/// Gregorian calendar (days by Euclidean division of the milliseconds, the hour from the
/// remainder) and represents the years -262143 to 262142: the result is those fields where
/// the year is in that range and `None` where it is not.
#[verifier::external_body]
fn utc_fields(ms: i64) -> (r: Option<(i32, u32, u32, u32)>)
    ensures
        r == utc_calendar_fields(ms),
        r matches Some((y, m, d, h)) ==> 1 <= m <= 12 && 1 <= d <= 31 && h <= 23,
        r matches Some(f) ==> is_utc_date_hour(f, ms) && chrono_year_in_range(f.0 as int),
        r is None ==> forall|f: (i32, u32, u32, u32)| #[trigger] is_utc_date_hour(f, ms) ==> !chrono_year_in_range(f.0 as int),
{
    chrono::DateTime::<chrono::Utc>::from_timestamp_millis(ms)
        .map(|dt| (dt.year(), dt.month(), dt.day(), dt.hour()))
}

/// The decimal digit character of `d < 10`.
pub open spec fn digit_char(d: nat) -> char {
    if d == 0 {
        '0'
    } else if d == 1 {
        '1'
    } else if d == 2 {
        '2'
    } else if d == 3 {
        '3'
    } else if d == 4 {
        '4'
    } else if d == 5 {
        '5'
    } else if d == 6 {
        '6'
    } else if d == 7 {
        '7'
    } else if d == 8 {
        '8'
    } else {
        '9'
    }
}

/// Decimal digits of `v`, most significant first, without leading zeros.
pub open spec fn digits(v: nat) -> Seq<char>
    decreases v,
{
    if v < 10 {
        seq![digit_char(v)]
    } else {
        digits(v / 10).push(digit_char(v % 10))
    }
}

/// Decimal digits of `v` left-padded with `0` to at least `width` characters.
pub open spec fn zero_padded(v: nat, width: nat) -> Seq<char> {
    if digits(v).len() < width {
        Seq::new((width - digits(v).len()) as nat, |i: int| '0') + digits(v)
    } else {
        digits(v)
    }
}

/// Decimal text of `v` padded to `width` the way `{:0width}` prints it: a negative value
/// keeps its `-` in front and counts it in the width.
pub open spec fn signed_padded(v: int, width: nat) -> Seq<char> {
    if v < 0 {
        seq!['-'] + zero_padded((-v) as nat, if width > 0 { (width - 1) as nat } else { 0 })
    } else {
        zero_padded(v as nat, width)
    }
}

fn digit_str(d: u64) -> (r: &'static str)
    requires
        d < 10,
    ensures
        r@ == seq![digit_char(d as nat)],
{
    proof {
        reveal_strlit("0");
        reveal_strlit("1");
        reveal_strlit("2");
        reveal_strlit("3");
        reveal_strlit("4");
        reveal_strlit("5");
        reveal_strlit("6");
        reveal_strlit("7");
        reveal_strlit("8");
        reveal_strlit("9");
    }
    if d == 0 {
        "0"
    } else if d == 1 {
        "1"
    } else if d == 2 {
        "2"
    } else if d == 3 {
        "3"
    } else if d == 4 {
        "4"
    } else if d == 5 {
        "5"
    } else if d == 6 {
        "6"
    } else if d == 7 {
        "7"
    } else if d == 8 {
        "8"
    } else {
        "9"
    }
}

proof fn lemma_digits_len(v: nat)
    ensures
        digits(v).len() >= 1,
        v < 10 ==> digits(v).len() == 1,
    decreases v,
{
    if v >= 10 {
        lemma_digits_len(v / 10);
    }
}

/// Decimal text of `v` without leading zeros.
pub fn decimal_text(v: u64) -> (r: String)
    ensures
        r@ == digits(v as nat),
    decreases v,
{
    if v < 10 {
        let s = String::new();
        let d = digit_str(v);
        let r = s.concat(d);
        assert(r@ =~= digits(v as nat));
        r
    } else {
        let s = decimal_text(v / 10);
        let r = s.concat(digit_str(v % 10));
        assert(r@ =~= digits(v as nat));
        r
    }
}

/// Number of decimal digits of `v`.
fn digit_count(v: u64) -> (r: usize)
    ensures
        r == digits(v as nat).len(),
        r <= 20,
    decreases v,
{
    if v < 10 {
        1
    } else {
        let c = digit_count(v / 10);
        proof {
            lemma_digit_count_bound(v as nat);
        }
        c + 1
    }
}

proof fn lemma_digit_count_bound(v: nat)
    requires
        v <= u64::MAX,
    ensures
        digits(v).len() <= 20,
{
    assert(pow10(20) == 100000000000000000000nat) by {
        reveal_with_fuel(pow10, 21);
    }
    lemma_digits_len_le(v, 20);
}

proof fn lemma_digits_len_le(v: nat, n: nat)
    requires
        n >= 1,
        v < pow10(n),
    ensures
        digits(v).len() <= n,
    decreases v,
{
    if v >= 10 {
        assert(n >= 2) by {
            if n == 1 {
                reveal_with_fuel(pow10, 2);
                assert(pow10(1) == 10);
            }
        }
        assert(pow10(n) == 10 * pow10((n - 1) as nat));
        assert(v / 10 < pow10((n - 1) as nat)) by (nonlinear_arith)
            requires
                v < pow10(n),
                pow10(n) == 10 * pow10((n - 1) as nat),
        ;
        lemma_digits_len_le(v / 10, (n - 1) as nat);
    }
}

/// `10^n`.
pub open spec fn pow10(n: nat) -> nat
    decreases n,
{
    if n == 0 { 1 } else { 10 * pow10((n - 1) as nat) }
}

/// Decimal text of `v`, zero-padded to `width` characters.
pub fn pad_decimal(v: u64, width: usize) -> (r: String)
    ensures
        r@ == zero_padded(v as nat, width as nat),
{
    let d = decimal_text(v);
    let n = digit_count(v);
    if n >= width {
        return d;
    }
    let mut z = String::new();
    let mut i: usize = 0;
    proof {
        reveal_strlit("0");
    }
    while i < width - n
        invariant
            i <= width - n,
            n < width,
            z@ == Seq::new(i as nat, |q: int| '0'),
        decreases width - n - i,
    {
        proof {
            reveal_strlit("0");
        }
        z = z.concat("0");
        i = i + 1;
        assert(z@ =~= Seq::new(i as nat, |q: int| '0'));
    }
    z.concat(d.as_str())
}

/// Decimal text of `v` padded to `width` as `{:0width}` prints it.
pub fn signed_text(v: i32, width: usize) -> (r: String)
    ensures
        r@ == signed_padded(v as int, width as nat),
{
    if v < 0 {
        let magnitude = (-(v as i64)) as u64;
        let w = if width > 0 { width - 1 } else { 0 };
        let digits = pad_decimal(magnitude, w);
        proof {
            reveal_strlit("-");
        }
        let s = String::new();
        let s = s.concat("-");
        let r = s.concat(digits.as_str());
        assert(r@ =~= signed_padded(v as int, width as nat));
        r
    } else {
        pad_decimal(v as u64, width)
    }
}

/// `YYYY-MM`.
pub open spec fn month_text(y: int, m: nat) -> Seq<char> {
    signed_padded(y, 4) + seq!['-'] + zero_padded(m, 2)
}

/// `YYYY-MM-DD`.
pub open spec fn day_text(y: int, m: nat, d: nat) -> Seq<char> {
    month_text(y, m) + seq!['-'] + zero_padded(d, 2)
}

/// `YYYY-MM-DDTHH`.
pub open spec fn hour_text(y: int, m: nat, d: nat, h: nat) -> Seq<char> {
    day_text(y, m, d) + seq!['T'] + zero_padded(h, 2)
}

/// The key of the partition of `unit` holding the calendar instant; `None` for units that
/// are not time-based.
pub open spec fn calendar_key_text(unit: PartitionUnit, y: int, m: nat, d: nat, h: nat) -> Option<Seq<char>> {
    match unit {
        PartitionUnit::Month => Some(month_text(y, m)),
        PartitionUnit::Day => Some(day_text(y, m, d)),
        PartitionUnit::Hour => Some(hour_text(y, m, d, h)),
        _ => None,
    }
}

/// Builds the partition key of `unit` from calendar fields; `InvalidInput` for the units
/// that are not time-based.
pub fn calendar_key(unit: PartitionUnit, year: i32, month: u32, day: u32, hour: u32) -> (r: Result<String>)
    ensures
        match calendar_key_text(unit, year as int, month as nat, day as nat, hour as nat) {
            Some(t) => r matches Ok(s) && s@ == t,
            None => r matches Err(FastKError::InvalidInput(_)),
        },
{
    proof {
        reveal_strlit("-");
        reveal_strlit("T");
    }
    let ym = signed_text(year, 4).concat("-").concat(pad_decimal(month as u64, 2).as_str());
    assert(ym@ =~= month_text(year as int, month as nat));
    match unit {
        PartitionUnit::Month => Ok(ym),
        PartitionUnit::Day => {
            let r = ym.concat("-").concat(pad_decimal(day as u64, 2).as_str());
            assert(r@ =~= day_text(year as int, month as nat, day as nat));
            Ok(r)
        },
        PartitionUnit::Hour => {
            let ymd = ym.concat("-").concat(pad_decimal(day as u64, 2).as_str());
            let r = ymd.concat("T").concat(pad_decimal(hour as u64, 2).as_str());
            assert(r@ =~= hour_text(year as int, month as nat, day as nat, hour as nat));
            Ok(r)
        },
        _ => Err(invalid_input("partition unit is not implemented for timestamp partitioning")),
    }
}

/// The partition key of `unit` for the UTC instant `ts`, where chrono places `ts` and the
/// unit is time-based.
pub open spec fn partition_key_text(ts: i64, unit: PartitionUnit) -> Option<Seq<char>> {
    match utc_calendar_fields(ts) {
        Some((y, m, d, h)) => calendar_key_text(unit, y as int, m as nat, d as nat, h as nat),
        None => None,
    }
}

/// The `YYYY-MM` key of the UTC month holding `ts`, where chrono places `ts`.
pub open spec fn month_key_text(ts: i64) -> Option<Seq<char>> {
    partition_key_text(ts, PartitionUnit::Month)
}

/// Builds the partition key of `unit` for the UTC instant `ts` (milliseconds since the
/// epoch): `InvalidInput` when the unit is not time-based or chrono cannot place `ts`.
pub fn partition_key(ts: i64, unit: PartitionUnit) -> (r: Result<String>)
    ensures
        match partition_key_text(ts, unit) {
            Some(t) => r matches Ok(s) && s@ == t,
            None => r matches Err(FastKError::InvalidInput(_)),
        },
        !unit.time_based() ==> r is Err,
        r matches Ok(s) ==> exists|f: (i32, u32, u32, u32)| #[trigger] is_utc_date_hour(f, ts) && chrono_year_in_range(f.0 as int)
            && calendar_key_text(unit, f.0 as int, f.1 as nat, f.2 as nat, f.3 as nat) == Some(s@),
{
    match utc_fields(ts) {
        Some((y, m, d, h)) => calendar_key(unit, y, m, d, h),
        None => Err(invalid_input("timestamp out of range")),
    }
}

/// Builds the `YYYY-MM` key of the UTC month holding `ts`.
pub fn month_key(ts: i64) -> (r: Result<String>)
    ensures
        match month_key_text(ts) {
            Some(t) => r matches Ok(s) && s@ == t,
            None => r matches Err(FastKError::InvalidInput(_)),
        },
        r matches Ok(s) ==> exists|f: (i32, u32, u32, u32)| #[trigger] is_utc_date_hour(f, ts) && chrono_year_in_range(f.0 as int)
            && s@ == month_text(f.0 as int, f.1 as nat),
{
    partition_key(ts, PartitionUnit::Month)
}

} // verus!
