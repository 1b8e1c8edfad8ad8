//! Mac 1904-epoch timestamps.

use vstd::prelude::*;
use vstd::string::*;

use crate::text;
use crate::text::push_decimal_padded;

verus! {

/// Seconds between the Mac epoch (1904-01-01 00:00:00) and the Unix epoch
/// (1970-01-01 00:00:00). 66 years, 17 of which were leap years.
pub const MAC_EPOCH_TO_UNIX: i64 = 2_082_844_800;

/// A classic Mac OS timestamp: seconds since 1904-01-01 00:00:00.
///
/// The classic Mac had no notion of time zones — the date/time stored on disk
/// is whatever the creating machine's clock read, i.e. nominally *local* time.
/// This type performs **no** timezone correction: [`to_unix`](Self::to_unix)
/// and [`to_ymd_hms`](Self::to_ymd_hms) treat the stored value as if it were
/// UTC, so a timestamp read from a disk formatted in another zone renders as
/// the wall-clock time that machine saw. That is the best available
/// interpretation; the on-disk format simply does not record the offset.
///
/// The `u32` range runs from 1904-01-01 to 2040-02-06.
#[derive(Debug, Clone, Copy, PartialEq, Eq, PartialOrd, Ord, Hash)]
pub struct MacTimestamp(pub u32);

/// A timestamp in seconds since the Unix epoch.
pub open spec fn unix_time(t: u32) -> int {
    t - 2_082_844_800
}

/// The timestamp of an instant in seconds since the Unix epoch, if there is
/// one.
pub open spec fn mac_time(unix: int) -> Option<u32> {
    if 0 <= unix + 2_082_844_800 <= u32::MAX {
        Some((unix + 2_082_844_800) as u32)
    } else {
        None
    }
}

// ---------------------------------------------------------------- the calendar

/// Whether `y` is a leap year of the Gregorian calendar.
pub open spec fn is_leap(y: int) -> bool {
    y % 4 == 0 && (y % 100 != 0 || y % 400 == 0)
}

/// Number of days in year `y`.
pub open spec fn year_len(y: int) -> nat {
    if is_leap(y) {
        366
    } else {
        365
    }
}

/// Number of days in month `m` of year `y`.
pub open spec fn month_len(y: int, m: nat) -> nat {
    if m == 2 {
        if is_leap(y) {
            29
        } else {
            28
        }
    } else if m == 4 || m == 6 || m == 9 || m == 11 {
        30
    } else {
        31
    }
}

/// The year that a day falls in and its place in that year, counted from 0,
/// where `days` is its distance from the first day of year `y`.
pub open spec fn year_from(days: nat, y: int) -> (int, nat)
    decreases days,
{
    if days < year_len(y) {
        (y, days)
    } else {
        year_from((days - year_len(y)) as nat, y + 1)
    }
}

/// The month of year `y` that a day falls in and its place in that month,
/// counted from 0, where `days` is its distance from the first day of month
/// `m`.
pub open spec fn month_from(days: nat, y: int, m: nat) -> (nat, nat)
    decreases 12 - m,
{
    if m >= 12 || days < month_len(y, m) {
        (m, days)
    } else {
        month_from((days - month_len(y, m)) as nat, y, m + 1)
    }
}

/// Year, month, day, hour, minute and second of the second `t` after
/// 1904-01-01 00:00:00.
pub open spec fn civil(t: u32) -> (int, nat, nat, nat, nat, nat) {
    let (y, day_of_year) = year_from((t / 86_400) as nat, 1904);
    let (m, day_of_month) = month_from(day_of_year, y, 1);
    (
        y,
        m,
        day_of_month + 1,
        (t % 86_400 / 3_600) as nat,
        (t % 86_400 / 60 % 60) as nat,
        (t % 60) as nat,
    )
}

/// A number as at least `width` decimal digits.
pub open spec fn digits(n: nat, width: nat) -> Seq<char> {
    text::pad_left(text::decimal(n), width, '0')
}

/// `t` as `YYYY-MM-DD hh:mm:ss`.
pub open spec fn rendered(t: u32) -> Seq<char> {
    let (y, mo, d, h, mi, s) = civil(t);
    digits(y as nat, 4) + "-"@ + digits(mo, 2) + "-"@ + digits(d, 2) + " "@ + digits(h, 2) + ":"@
        + digits(mi, 2) + ":"@ + digits(s, 2)
}

/// The first day of year `y`, counted from the first day of 1904, in the
/// years that a timestamp can reach.
spec fn year_start(y: int) -> int {
    365 * (y - 1904) + (y - 1901) / 4
}

/// Counting off years from `y0` ends in year `y` for the days of year `y`.
proof fn lemma_year_from(y0: int, y: int, k: nat)
    requires
        1904 <= y0 <= y <= 2040,
        k < year_len(y),
    ensures
        year_start(y) - year_start(y0) + k >= 0,
        year_from((year_start(y) - year_start(y0) + k) as nat, y0) == (y, k),
    decreases y - y0,
{
    if y0 < y {
        lemma_year_from(y0 + 1, y, k);
        assert(year_start(y0 + 1) - year_start(y0) == year_len(y0));
    }
}

/// Days from March 1st to the first day of the `mp`-th month after March.
spec fn from_march(mp: int) -> int {
    (153 * mp + 2) / 5
}

/// Counting off months of a year reaches the month that a day of the
/// March-based calendar falls in.
proof fn lemma_month_from(y: int, mp: int, k: nat)
    requires
        0 <= mp <= 11,
        k < month_len(
            y,
            if mp < 10 {
                (mp + 3) as nat
            } else {
                (mp - 9) as nat
            },
        ),
    ensures
        mp < 10 ==> month_from(
            (from_march(mp) + 59 + (if is_leap(y) {
                1int
            } else {
                0int
            }) + k) as nat,
            y,
            1,
        ) == ((mp + 3) as nat, k),
        mp >= 10 ==> month_from((from_march(mp) - 306 + k) as nat, y, 1) == ((mp - 9) as nat, k),
{
    reveal_with_fuel(month_from, 13);
}

/// The steps of [`MacTimestamp::to_ymd_hms`] from a day to a date: what they
/// compute is what counting off years and months gives.
proof fn lemma_civil_from_days(days: int)
    requires
        0 <= days <= 49_710,
    ensures
        ({
            let z = days + 695_361;
            let era = z / 146_097;
            let doe = z % 146_097;
            let yoe = (doe - doe / 1_460 + doe / 36_524 - doe / 146_096) / 365;
            let doy = doe - (365 * yoe + yoe / 4 - yoe / 100);
            let mp = (5 * doy + 2) / 153;
            let d = doy - (153 * mp + 2) / 5 + 1;
            let m = if mp < 10 {
                mp + 3
            } else {
                mp - 9
            };
            let y = yoe + era * 400 + (if m <= 2 {
                1int
            } else {
                0int
            });
            let (cy, doy_c) = year_from(days as nat, 1904);
            let (cm, dom_c) = month_from(doy_c, cy, 1);
            &&& 4 <= era <= 5
            &&& 0 <= yoe <= 399
            &&& 0 <= doy <= 365
            &&& 0 <= mp <= 11
            &&& 1 <= d <= 31
            &&& 1904 <= y <= 2040
            &&& y == cy
            &&& m == cm
            &&& d == dom_c + 1
        }),
{
    let z = days + 695_361;
    let era = z / 146_097;
    let doe = z % 146_097;
    assert(era == 4 || era == 5);
    assert(z == era * 146_097 + doe);
    let yoe = (doe - doe / 1_460 + doe / 36_524 - doe / 146_096) / 365;
    let doy = doe - (365 * yoe + yoe / 4 - yoe / 100);
    lemma_year_of_era(doe, era == 4);
    lemma_month_of_doy(doy);
    let mp = (5 * doy + 2) / 153;
    let k = doy - from_march(mp);
    let ym = yoe + era * 400;
    lemma_march_year(days, era, yoe, doy);
    if mp < 10 {
        let leap = if is_leap(ym) {
            1int
        } else {
            0int
        };
        lemma_month_from(ym, mp, k as nat);
        lemma_year_from(1904, ym, (59 + leap + doy) as nat);
    } else {
        let y = ym + 1;
        lemma_month_from(y, mp, k as nat);
        lemma_year_from(1904, y, (doy - 306) as nat);
    }
}

/// The month of the March-based calendar that a day falls in.
proof fn lemma_month_of_doy(doy: int)
    requires
        0 <= doy <= 365,
    ensures
        ({
            let mp = (5 * doy + 2) / 153;
            let k = doy - from_march(mp);
            &&& 0 <= mp <= 11
            &&& mp >= 10 <==> doy >= 306
            &&& 0 <= k
            &&& k <= (if mp == 11 {
                28int
            } else if mp == 1 || mp == 3 || mp == 6 || mp == 8 {
                29int
            } else {
                30int
            })
            &&& mp == 11 && k == 28 ==> doy == 365
        }),
{
}

/// A day of the March-based calendar, counted from the first day of 1904.
proof fn lemma_march_year(days: int, era: int, yoe: int, doy: int)
    requires
        0 <= days <= 49_710,
        era == 4 && 303 <= yoe <= 399 && yoe / 100 == 3 || era == 5 && 0 <= yoe <= 39 && yoe / 100
            == 0,
        0 <= doy <= 365,
        doy == 365 ==> (yoe + 1) % 4 == 0,
        days + 695_361 == era * 146_097 + 365 * yoe + yoe / 4 - yoe / 100 + doy,
    ensures
        ({
            let y = yoe + era * 400;
            &&& doy < 306 ==> 1904 <= y <= 2039 && days == year_start(y) + 59 + (if is_leap(y) {
                1int
            } else {
                0int
            }) + doy
            &&& doy >= 306 ==> 1904 <= y + 1 <= 2040 && days == year_start(y + 1) + doy - 306
            &&& doy == 365 ==> is_leap(y + 1)
        }),
{
    let y = yoe + era * 400;
    assert(y % 4 == yoe % 4);
    if era == 4 {
        assert(y / 4 == yoe / 4 + 400);
        assert(1903 <= y <= 1999);
    } else {
        assert(y / 4 == yoe / 4 + 500);
        assert(2000 <= y <= 2039);
    }
}

/// The year of the era that a day of the era falls in.
proof fn lemma_year_of_era(doe: int, fourth: bool)
    requires
        fourth ==> 110_973 <= doe <= 146_096,
        !fourth ==> 0 <= doe <= 14_586,
    ensures
        ({
            let yoe = (doe - doe / 1_460 + doe / 36_524 - doe / 146_096) / 365;
            let first = 365 * yoe + yoe / 4 - yoe / 100;
            &&& fourth ==> 303 <= yoe <= 399 && yoe / 100 == 3
            &&& !fourth ==> 0 <= yoe <= 39 && yoe / 100 == 0
            &&& first <= doe
            &&& doe - first <= 365
            &&& doe - first == 365 ==> (yoe + 1) % 4 == 0
        }),
{
    let q = doe / 1_460;
    let r = doe % 1_460;
    assert(doe == 1_460 * q + r);
    let e = if fourth {
        3int
    } else {
        0int
    };
    assert(doe / 36_524 - doe / 146_096 == e);
    let yoe = (doe - q + e) / 365;
    assert(doe - q + e == 365 * (4 * q) + (r - q + e));
    let j = r - q + e;
    if j < 0 {
        assert(yoe == 4 * q - 1);
    } else {
        assert(yoe == 4 * q + j / 365);
    }
}

// ------------------------------------------------------------------- the clock

/// `std::time::SystemTime`, carried from the clock to its reading.
#[verifier::external_type_specification]
#[verifier::external_body]
pub struct ExSystemTime(std::time::SystemTime);

/// `std::time::SystemTimeError`, carried from the clock to its reading.
#[verifier::external_type_specification]
#[verifier::external_body]
pub struct ExSystemTimeError(std::time::SystemTimeError);

/// `SystemTime::now` reads the system clock. Nothing is claimed of it.
pub assume_specification[ std::time::SystemTime::now ]() -> (t: std::time::SystemTime)
;

/// `Duration::as_secs`, the whole seconds of a duration. Nothing is claimed of
/// how many they are: the durations here come from the clock.
pub assume_specification[ core::time::Duration::as_secs ](d: &core::time::Duration) -> (secs: u64)
;

/// `SystemTimeError::duration`, how far the clock is behind the point of time
/// that it was measured from. Nothing is claimed of it.
pub assume_specification[ std::time::SystemTimeError::duration ](
    e: &std::time::SystemTimeError,
) -> (d: core::time::Duration)
;

/// `SystemTime::duration_since` the Unix epoch: how far `t` is after it, or an
/// error that holds how far it is before it. Nothing is claimed of either.
#[verifier::external_body]
fn since_unix_epoch(t: std::time::SystemTime) -> core::result::Result<
    core::time::Duration,
    std::time::SystemTimeError,
> {
    t.duration_since(std::time::UNIX_EPOCH)
}

/// The timestamp of a clock that is so many seconds after (`Ok`) or before
/// (`Err`) the Unix epoch, held to the ends of the representable range.
pub open spec fn clock_reading(secs: core::result::Result<u64, u64>) -> u32 {
    let mac = match secs {
        Ok(s) => 2_082_844_800 + s,
        Err(s) => 2_082_844_800 - s,
    };
    if mac < 0 {
        0
    } else if mac > u32::MAX {
        u32::MAX
    } else {
        mac as u32
    }
}

impl MacTimestamp {
    /// Seconds since the Unix epoch. Values before 1970 are negative.
    pub fn to_unix(self) -> (unix: i64)
        ensures
            unix == unix_time(self.0),
    {
        self.0 as i64 - MAC_EPOCH_TO_UNIX
    }

    /// Convert from a Unix timestamp, or `None` if the instant falls outside
    /// the representable range (before 1904-01-01 or after 2040-02-06).
    pub fn from_unix(unix: i64) -> (t: Option<MacTimestamp>)
        ensures
            match t {
                Some(t) => mac_time(unix as int) == Some(t.0),
                None => mac_time(unix as int) is None,
            },
    {
        match unix.checked_add(MAC_EPOCH_TO_UNIX) {
            Some(mac) => {
                if 0 <= mac && mac <= u32::MAX as i64 {
                    Some(MacTimestamp(mac as u32))
                } else {
                    None
                }
            },
            None => None,
        }
    }

    /// The current time, saturating at the ends of the representable range
    /// (so a wildly wrong system clock yields a clamped value, never a panic).
    pub fn now() -> (t: MacTimestamp)
        ensures
            exists|secs: core::result::Result<u64, u64>| t.0 == #[trigger] clock_reading(secs),
    {
        let secs = match since_unix_epoch(std::time::SystemTime::now()) {
            Ok(d) => Ok(d.as_secs()),
            // Clock is before 1970.
            Err(e) => Err(e.duration().as_secs()),
        };
        MacTimestamp::from_clock(secs)
    }

    /// The timestamp of a clock that is so many seconds after (`Ok`) or before
    /// (`Err`) the Unix epoch, saturating at the ends of the representable
    /// range.
    pub fn from_clock(secs: core::result::Result<u64, u64>) -> (t: MacTimestamp)
        ensures
            t.0 == clock_reading(secs),
    {
        let epoch: u64 = MAC_EPOCH_TO_UNIX as u64;
        match secs {
            Ok(s) => if s > u32::MAX as u64 - epoch {
                MacTimestamp(u32::MAX)
            } else {
                MacTimestamp((epoch + s) as u32)
            },
            Err(s) => if s > epoch {
                MacTimestamp(0)
            } else {
                MacTimestamp((epoch - s) as u32)
            },
        }
    }

    /// Break the timestamp down into `(year, month, day, hour, minute, second)`
    /// in the proleptic Gregorian calendar, with no timezone adjustment.
    ///
    /// Uses Howard Hinnant's `civil_from_days` algorithm, which shifts the year
    /// so it begins in March; that puts the leap day at the end of the year and
    /// removes every special case from the month-length arithmetic.
    pub fn to_ymd_hms(self) -> (r: (i32, u32, u32, u32, u32, u32))
        ensures
            r.0 == civil(self.0).0,
            r.1 == civil(self.0).1,
            r.2 == civil(self.0).2,
            r.3 == civil(self.0).3,
            r.4 == civil(self.0).4,
            r.5 == civil(self.0).5,
            1904 <= r.0 <= 2040,
    {
        let days: i64 = (self.0 / 86_400) as i64;
        let secs_of_day: u32 = self.0 % 86_400;
        proof {
            lemma_civil_from_days(days as int);
        }
        // civil_from_days: days since 1904-01-01 -> (y, m, d).
        let z: i64 = days + 695_361;  // shift epoch to 0000-03-01
        let era: i64 = z / 146_097;  // 400-year era
        let doe: i64 = z % 146_097;  // day of era, [0, 146096]
        let yoe: i64 = (doe - doe / 1_460 + doe / 36_524 - doe / 146_096) / 365;  // [0, 399]
        let doy: i64 = doe - (365 * yoe + yoe / 4 - yoe / 100);  // [0, 365]
        let mp: i64 = (5 * doy + 2) / 153;  // March-based month, [0, 11]
        let d: i64 = doy - (153 * mp + 2) / 5 + 1;  // [1, 31]
        let m: i64 = if mp < 10 {
            mp + 3
        } else {
            mp - 9
        };  // [1, 12]
        let y: i64 = yoe + era * 400 + (if m <= 2 {
            1
        } else {
            0
        });  // back to January-based years
        (
            y as i32,
            m as u32,
            d as u32,
            secs_of_day / 3_600,
            secs_of_day / 60 % 60,
            secs_of_day % 60,
        )
    }

    /// The timestamp as `YYYY-MM-DD hh:mm:ss`.
    pub fn to_string(&self) -> (s: String)
        ensures
            s@ == rendered(self.0),
    {
        let (y, mo, d, h, mi, sec) = self.to_ymd_hms();
        let mut s = String::new();
        push_decimal_padded(&mut s, y as u64, 4, '0');
        assert(s@ =~= digits(y as nat, 4));
        s.append("-");
        push_decimal_padded(&mut s, mo as u64, 2, '0');
        s.append("-");
        push_decimal_padded(&mut s, d as u64, 2, '0');
        s.append(" ");
        push_decimal_padded(&mut s, h as u64, 2, '0');
        s.append(":");
        push_decimal_padded(&mut s, mi as u64, 2, '0');
        s.append(":");
        push_decimal_padded(&mut s, sec as u64, 2, '0');
        s
    }
}

/// Converting to Unix time and back gives the timestamp back.
pub proof fn lemma_unix_round_trip(t: u32)
    ensures
        mac_time(unix_time(t)) == Some(t),
{
}

/// Every instant that can be converted from Unix time comes back as it was.
pub proof fn lemma_mac_round_trip(unix: int)
    ensures
        mac_time(unix) matches Some(t) ==> unix_time(t) == unix,
{
}

/// The place of a day in its year, once years have been counted off.
proof fn lemma_year_from_bound(days: nat, y: int)
    ensures
        year_from(days, y).1 < year_len(year_from(days, y).0),
    decreases days,
{
    if days >= year_len(y) {
        lemma_year_from_bound((days - year_len(y)) as nat, y + 1);
    }
}

/// Every timestamp is a day of the Gregorian calendar and a time of that day.
pub proof fn lemma_civil_valid(t: u32)
    ensures
        ({
            let (y, m, d, h, mi, s) = civil(t);
            &&& 1904 <= y <= 2040
            &&& 1 <= m <= 12
            &&& 1 <= d <= month_len(y, m)
            &&& h < 24
            &&& mi < 60
            &&& s < 60
        }),
{
    let days = (t / 86_400) as nat;
    lemma_civil_from_days(days as int);
    lemma_year_from_bound(days, 1904);
    reveal_with_fuel(month_from, 13);
}

/// The first and the last date that a timestamp can stand for.
pub proof fn lemma_civil_ends()
    ensures
        civil(0) == (1904int, 1nat, 1nat, 0nat, 0nat, 0nat),
        civil(u32::MAX) == (2040int, 2nat, 6nat, 6nat, 28nat, 15nat),
{
    lemma_year_from(1904, 1904, 0);
    lemma_year_from(1904, 2040, 36);
    reveal_with_fuel(month_from, 3);
}

/// Whether one date and time comes before another: field by field, the first
/// that differs decides.
pub open spec fn earlier(
    a: (int, nat, nat, nat, nat, nat),
    b: (int, nat, nat, nat, nat, nat),
) -> bool {
    if a.0 != b.0 {
        a.0 < b.0
    } else if a.1 != b.1 {
        a.1 < b.1
    } else if a.2 != b.2 {
        a.2 < b.2
    } else if a.3 != b.3 {
        a.3 < b.3
    } else if a.4 != b.4 {
        a.4 < b.4
    } else {
        a.5 < b.5
    }
}

/// Counting off years does not go back.
proof fn lemma_year_from_on(days: nat, y: int)
    ensures
        year_from(days, y).0 >= y,
    decreases days,
{
    if days >= year_len(y) {
        lemma_year_from_on((days - year_len(y)) as nat, y + 1);
    }
}

/// A later day falls in a later year, or later in the same one.
proof fn lemma_years_ordered(a: nat, b: nat, y: int)
    requires
        a < b,
    ensures
        ({
            let p = year_from(a, y);
            let q = year_from(b, y);
            p.0 < q.0 || p.0 == q.0 && p.1 < q.1
        }),
    decreases b,
{
    let len = year_len(y);
    if a >= len {
        lemma_years_ordered((a - len) as nat, (b - len) as nat, y + 1);
    } else if b >= len {
        lemma_year_from_on((b - len) as nat, y + 1);
    }
}

/// Counting off months does not go back.
proof fn lemma_month_from_on(days: nat, y: int, m: nat)
    ensures
        month_from(days, y, m).0 >= m,
    decreases 12 - m,
{
    if m < 12 && days >= month_len(y, m) {
        lemma_month_from_on((days - month_len(y, m)) as nat, y, m + 1);
    }
}

/// A later day of a year falls in a later month, or later in the same one.
proof fn lemma_months_ordered(a: nat, b: nat, y: int, m: nat)
    requires
        a < b,
    ensures
        ({
            let p = month_from(a, y, m);
            let q = month_from(b, y, m);
            p.0 < q.0 || p.0 == q.0 && p.1 < q.1
        }),
    decreases 12 - m,
{
    let len = month_len(y, m);
    if m < 12 {
        if a >= len {
            lemma_months_ordered((a - len) as nat, (b - len) as nat, y, m + 1);
        } else if b >= len {
            lemma_month_from_on((b - len) as nat, y, m + 1);
        }
    }
}

/// A later timestamp is a later date and time.
proof fn lemma_later_is_later(s: u32, t: u32)
    requires
        s < t,
    ensures
        earlier(civil(s), civil(t)),
{
    let a = (s / 86_400) as nat;
    let b = (t / 86_400) as nat;
    if a < b {
        lemma_years_ordered(a, b, 1904);
        let (y, j) = year_from(a, 1904);
        let (z, k) = year_from(b, 1904);
        if y == z {
            lemma_months_ordered(j, k, y, 1);
        }
    } else {
        let p = s % 86_400;
        let q = t % 86_400;
        assert(p < q);
        assert(s % 60 == p % 60 && t % 60 == q % 60);
        assert(p / 60 / 60 == p / 3_600 && q / 60 / 60 == q / 3_600);
    }
}

/// Of two timestamps one is smaller if and only if its date and time come
/// first.
pub proof fn lemma_civil_ordered(s: u32, t: u32)
    ensures
        s < t <==> earlier(civil(s), civil(t)),
{
    if s < t {
        lemma_later_is_later(s, t);
    } else if t < s {
        lemma_later_is_later(t, s);
    }
}

/// The day of a year, counted from 0, that a month begins on.
pub open spec fn month_start(y: int, m: nat) -> int {
    let leap = if m > 2 && is_leap(y) {
        1int
    } else {
        0int
    };
    leap + (if m <= 1 {
        0int
    } else if m == 2 {
        31
    } else if m == 3 {
        59
    } else if m == 4 {
        90
    } else if m == 5 {
        120
    } else if m == 6 {
        151
    } else if m == 7 {
        181
    } else if m == 8 {
        212
    } else if m == 9 {
        243
    } else if m == 10 {
        273
    } else if m == 11 {
        304
    } else {
        334
    })
}

/// Counting off months of a year takes away what lies before the month.
proof fn lemma_month_start(days: nat, y: int)
    ensures
        month_start(y, month_from(days, y, 1).0) + month_from(days, y, 1).1 == days,
{
    reveal_with_fuel(month_from, 13);
}

/// Counting off years takes away what lies before the year.
proof fn lemma_year_start(days: nat, y0: int)
    requires
        1904 <= y0,
        year_from(days, y0).0 <= 2040,
    ensures
        year_from(days, y0).0 >= y0,
        year_start(year_from(days, y0).0) - year_start(y0) + year_from(days, y0).1 == days,
    decreases days,
{
    if days >= year_len(y0) {
        lemma_year_from_on((days - year_len(y0)) as nat, y0 + 1);
        lemma_year_start((days - year_len(y0)) as nat, y0 + 1);
        assert(year_start(y0 + 1) - year_start(y0) == year_len(y0));
    }
}

/// A timestamp counts the seconds from the beginning of 1904 to its date and
/// time: 365 days for every year before, one more for every fourth of them, the
/// days of the year before the month, the days of the month before the day, and
/// the hours, minutes and seconds of the day.
pub proof fn lemma_civil_counts(t: u32)
    ensures
        ({
            let (y, m, d, h, mi, s) = civil(t);
            t == 86_400 * (365 * (y - 1904) + (y - 1901) / 4 + month_start(y, m) + d - 1) + 3_600 * h
                + 60 * mi + s
        }),
{
    let days = (t / 86_400) as nat;
    lemma_civil_valid(t);
    lemma_year_start(days, 1904);
    lemma_month_start(year_from(days, 1904).1, year_from(days, 1904).0);
    let sec = t % 86_400;
    assert(t == 86_400 * days + sec);
    assert(sec == 3_600 * (sec / 3_600) + 60 * (sec / 60 % 60) + sec % 60);
    assert(t % 60 == sec % 60);
}

/// A leap year is one that four divides, unless a hundred does and four hundred
/// does not.
pub proof fn lemma_leap_years(y: int)
    ensures
        y % 4 != 0 ==> !is_leap(y),
        y % 100 == 0 ==> (is_leap(y) <==> y % 400 == 0),
        y % 4 == 0 && y % 100 != 0 ==> is_leap(y),
{
}

/// The Unix epoch is the beginning of 1970, and both times count seconds: the
/// timestamps of two instants are as far apart as the instants.
pub proof fn lemma_unix_epoch(a: int, b: int)
    ensures
        mac_time(0) is Some,
        civil(mac_time(0)->0) == (1970int, 1nat, 1nat, 0nat, 0nat, 0nat),
        mac_time(a) is Some && mac_time(b) is Some ==> mac_time(a)->0 - mac_time(b)->0 == a - b,
        mac_time(a) is Some <==> -2_082_844_800 <= a <= 2_212_122_495,
{
    lemma_year_from(1904, 1970, 0);
    reveal_with_fuel(month_from, 2);
}

/// The reading of a clock is the timestamp of its instant, or the end of the
/// range that the instant lies behind.
pub proof fn lemma_clock(s: u64)
    ensures
        clock_reading(Ok(s)) == (match mac_time(s as int) {
            Some(t) => t,
            None => u32::MAX,
        }),
        clock_reading(Err(s)) == (match mac_time(-(s as int)) {
            Some(t) => t,
            None => 0,
        }),
{
}

/// Two decimal digits for a number below a hundred.
proof fn lemma_two_digits(n: nat)
    requires
        n < 100,
    ensures
        digits(n, 2).len() == 2,
        '0' <= digits(n, 2)[0] <= '9',
        '0' <= digits(n, 2)[1] <= '9',
        10 * text::digit_value(digits(n, 2)[0]) + text::digit_value(digits(n, 2)[1]) == n,
{
    reveal_with_fuel(text::decimal, 3);
}

/// Whether two digits at a place of a text stand for a number.
pub open spec fn shows_two(r: Seq<char>, at: int, n: nat) -> bool {
    &&& '0' <= r[at] <= '9'
    &&& '0' <= r[at + 1] <= '9'
    &&& 10 * text::digit_value(r[at]) + text::digit_value(r[at + 1]) == n
}

/// A timestamp is rendered in nineteen characters, its year, month, day, hour,
/// minute and second each in their place.
#[verifier::rlimit(30)]
pub proof fn lemma_rendered(t: u32)
    ensures
        ({
            let (y, m, d, h, mi, s) = civil(t);
            let r = rendered(t);
            &&& r.len() == 19
            &&& text::spells(r.take(4), y as nat)
            &&& r[4] == '-' && r[7] == '-' && r[10] == ' ' && r[13] == ':' && r[16] == ':'
            &&& shows_two(r, 5, m)
            &&& shows_two(r, 8, d)
            &&& shows_two(r, 11, h)
            &&& shows_two(r, 14, mi)
            &&& shows_two(r, 17, s)
        }),
{
    let (y, m, d, h, mi, s) = civil(t);
    lemma_civil_valid(t);
    reveal_strlit("-");
    reveal_strlit(" ");
    reveal_strlit(":");
    text::lemma_decimal(y as nat, 0);
    text::lemma_decimal_len(y as nat);
    lemma_two_digits(m);
    lemma_two_digits(d);
    lemma_two_digits(h);
    lemma_two_digits(mi);
    lemma_two_digits(s);
    let r = rendered(t);
    assert(r.take(4) =~= text::decimal(y as nat));
    assert(r.subrange(5, 7) =~= digits(m, 2));
    assert(r.subrange(8, 10) =~= digits(d, 2));
    assert(r.subrange(11, 13) =~= digits(h, 2));
    assert(r.subrange(14, 16) =~= digits(mi, 2));
    assert(r.subrange(17, 19) =~= digits(s, 2));
    assert(r[5] == digits(m, 2)[0] && r[6] == digits(m, 2)[1]);
    assert(r[8] == digits(d, 2)[0] && r[9] == digits(d, 2)[1]);
    assert(r[11] == digits(h, 2)[0] && r[12] == digits(h, 2)[1]);
    assert(r[14] == digits(mi, 2)[0] && r[15] == digits(mi, 2)[1]);
    assert(r[17] == digits(s, 2)[0] && r[18] == digits(s, 2)[1]);
}

} // verus!
