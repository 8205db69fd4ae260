//! The rules of a tiny timestamped log.
//!
//! Each line starts with the time as `YYYY-MM-DD HH:MM:SS`, and the log file is
//! rotated (keeping the last 200 lines) once it exceeds 100 KB.

use vstd::prelude::*;

use crate::text::{
    chars_of, decimal, decimal_text, first_place, joined, lines, pad_start, padded_start,
    push_text, split_lines, string_of, without_return,
};

verus! {

/// The size in bytes above which a log is rotated.
pub const MAX_LOG_SIZE: u64 = 102_400;

/// How many lines a rotated log keeps.
pub const LOG_KEEP_LINES: usize = 200;

/// Whether a year of the Gregorian calendar is a leap year.
pub open spec fn leap(year: int) -> bool {
    year % 4 == 0 && (year % 100 != 0 || year % 400 == 0)
}

/// The number of days in a month of the Gregorian calendar.
pub open spec fn month_days(year: int, month: int) -> int {
    if month == 2 {
        if leap(year) {
            29
        } else {
            28
        }
    } else if month == 4 || month == 6 || month == 9 || month == 11 {
        30
    } else {
        31
    }
}

/// The number of days in a year before one of its months.
pub open spec fn days_before(year: int, month: int) -> int
    decreases month,
{
    if month <= 1 {
        0
    } else {
        days_before(year, month - 1) + month_days(year, month - 1)
    }
}

/// The number of leap days before a year.
pub open spec fn leaps_before(year: int) -> int {
    (year - 1) / 4 - (year - 1) / 100 + (year - 1) / 400
}

/// Whether a date is one of the Gregorian calendar.
pub open spec fn valid_date(year: int, month: int, day: int) -> bool {
    1 <= month <= 12 && 1 <= day <= month_days(year, month)
}

/// The number of days from 1970-01-01 to a date of the Gregorian calendar.
pub open spec fn day_number(year: int, month: int, day: int) -> int {
    365 * (year - 1970) + leaps_before(year) - leaps_before(1970) + days_before(year, month) + day
        - 1
}

/// The days of an era of 400 years, counted from March, that come before its year `y`.
spec fn era_days(y: int) -> int {
    365 * y + y / 4 - y / 100
}

/// The year of an era that a day of the era is in.
#[verifier::spinoff_prover]
#[verifier::rlimit(60)]
proof fn lemma_year_of_era(doe: int)
    requires
        0 <= doe < 146_097,
    ensures
        ({
            let yoe = (doe - doe / 1460 + doe / 36_524 - doe / 146_096) / 365;
            let doy = doe - era_days(yoe);
            &&& 0 <= yoe < 400
            &&& 0 <= doy <= 365
            &&& doy == 365 ==> leap(yoe + 1)
        }),
{
}

/// The months of a year that is counted from March: the days before month `mp` in it.
proof fn lemma_month_of_year(doy: int)
    requires
        0 <= doy <= 365,
    ensures
        ({
            let mp = (5 * doy + 2) / 153;
            let day = doy - (153 * mp + 2) / 5 + 1;
            &&& 0 <= mp <= 11
            &&& 1 <= day <= 31
            &&& (mp == 1 || mp == 3 || mp == 6 || mp == 8) ==> day <= 30
            &&& mp == 11 ==> day <= 29
            &&& mp == 11 && day == 29 ==> doy == 365
        }),
{
}

/// The days before a month, counted from January, by those counted from March.
proof fn lemma_days_before(year: int, mp: int)
    requires
        0 <= mp <= 11,
    ensures
        mp < 10 ==> days_before(year, mp + 3) == (153 * mp + 2) / 5 + 59 + (if leap(year) {
            1int
        } else {
            0
        }),
        mp >= 10 ==> days_before(year, mp - 9) == (153 * mp + 2) / 5 - 306,
{
    reveal_with_fuel(days_before, 13);
}

/// Whole eras of 400 years hold a whole number of leap days.
proof fn lemma_eras(era: int, yoe: int)
    requires
        0 <= yoe < 400,
    ensures
        (400 * era + yoe) / 4 == 100 * era + yoe / 4,
        (400 * era + yoe) / 100 == 4 * era + yoe / 100,
        (400 * era + yoe) / 400 == era,
        leap(400 * era + yoe) == leap(yoe),
        leap(400 * era + yoe + 1) == leap(yoe + 1),
{
    lemma_parts(era, yoe);
    lemma_parts(era, yoe + 1);
}

/// Division of a year by the spans of the calendar.
proof fn lemma_parts(era: int, y: int)
    requires
        0 <= y <= 400,
    ensures
        (400 * era + y) / 4 == 100 * era + y / 4,
        (400 * era + y) / 100 == 4 * era + y / 100,
        (400 * era + y) / 400 == era + y / 400,
        (400 * era + y) % 4 == y % 4,
        (400 * era + y) % 100 == y % 100,
        (400 * era + y) % 400 == y % 400,
{
    let n = 400 * era + y;
    vstd::arithmetic::div_mod::lemma_fundamental_div_mod_converse(n, 4, 100 * era + y / 4, y % 4);
    vstd::arithmetic::div_mod::lemma_fundamental_div_mod_converse(
        n,
        100,
        4 * era + y / 100,
        y % 100,
    );
    vstd::arithmetic::div_mod::lemma_fundamental_div_mod_converse(n, 400, era + y / 400, y % 400);
}

/// The leap days up to the end of February.
pub proof fn lemma_leaps(year: int)
    ensures
        leaps_before(year) + (if leap(year) {
            1int
        } else {
            0
        }) == year / 4 - year / 100 + year / 400,
        leaps_before(year + 1) == year / 4 - year / 100 + year / 400,
{
    assert((year - 1) / 4 == year / 4 - (if year % 4 == 0 {
        1int
    } else {
        0
    }));
    assert((year - 1) / 100 == year / 100 - (if year % 100 == 0 {
        1int
    } else {
        0
    }));
    assert((year - 1) / 400 == year / 400 - (if year % 400 == 0 {
        1int
    } else {
        0
    }));
    assert(year % 400 == 0 ==> year % 100 == 0);
    assert(year % 100 == 0 ==> year % 4 == 0);
}

/// The date that is reached by counting eras, years from March, and months.
proof fn lemma_civil(era: int, doe: int)
    requires
        0 <= doe < 146_097,
    ensures
        ({
            let yoe = (doe - doe / 1460 + doe / 36_524 - doe / 146_096) / 365;
            let doy = doe - era_days(yoe);
            let mp = (5 * doy + 2) / 153;
            let day = doy - (153 * mp + 2) / 5 + 1;
            let month = if mp < 10 {
                mp + 3
            } else {
                mp - 9
            };
            let year = 400 * era + yoe + (if month <= 2 {
                1int
            } else {
                0
            });
            &&& valid_date(year, month, day)
            &&& day_number(year, month, day) == era * 146_097 + doe - 719_468
        }),
{
    let yoe = (doe - doe / 1460 + doe / 36_524 - doe / 146_096) / 365;
    let doy = doe - era_days(yoe);
    let mp = (5 * doy + 2) / 153;
    let march_year = 400 * era + yoe;
    lemma_year_of_era(doe);
    lemma_month_of_year(doy);
    lemma_eras(era, yoe);
    lemma_leaps(march_year);
    lemma_leaps(1969);
    if mp < 10 {
        lemma_days_before(march_year, mp);
    } else {
        lemma_days_before(march_year + 1, mp);
    }
}

/// Converts days since 1970-01-01 to (year, month, day), by Howard Hinnant's algorithm.
pub fn civil_from_days(days: i64) -> (r: (i64, u32, u32))
    requires
        days + 719_468 <= i64::MAX,
    ensures
        valid_date(r.0 as int, r.1 as int, r.2 as int),
        day_number(r.0 as int, r.1 as int, r.2 as int) == days,
{
    let z: i64 = days + 719_468;
    let era: i64 = if z >= 0 {
        (z as u64 / 146_097) as i64
    } else {
        -(((-(z + 1)) as u64 / 146_097) as i64) - 1
    };
    assert(era == z as int / 146_097);
    let doe: u64 = (z - era * 146_097) as u64;
    proof {
        lemma_year_of_era(doe as int);
        lemma_civil(era as int, doe as int);
    }
    let yoe: u64 = (doe - doe / 1460 + doe / 36_524 - doe / 146_096) / 365;
    let doy: u64 = doe - (365 * yoe + yoe / 4 - yoe / 100);
    proof {
        lemma_month_of_year(doy as int);
    }
    let mp: u64 = (5 * doy + 2) / 153;
    let day: u64 = doy - (153 * mp + 2) / 5 + 1;
    let month: u64 = if mp < 10 {
        mp + 3
    } else {
        mp - 9
    };
    let year: i64 = yoe as i64 + era * 400 + if month <= 2 {
        1
    } else {
        0
    };
    (year, month as u32, day as u32)
}

/// A date lies in its year.
proof fn lemma_in_year(year: int, month: int, day: int)
    requires
        valid_date(year, month, day),
    ensures
        day_number(year, 1, 1) <= day_number(year, month, day) < day_number(year + 1, 1, 1),
{
    reveal_with_fuel(days_before, 13);
    lemma_leaps(year);
}

/// Years follow one another.
proof fn lemma_years(a: int, b: int)
    requires
        a < b,
    ensures
        day_number(a + 1, 1, 1) <= day_number(b, 1, 1),
    decreases b - a,
{
    if a + 1 < b {
        lemma_years(a, b - 1);
        lemma_in_year(b - 1, 1, 1);
    }
}

/// No two dates have the same number of days since 1970-01-01.
pub proof fn law_date_unique(y1: int, m1: int, d1: int, y2: int, m2: int, d2: int)
    requires
        valid_date(y1, m1, d1),
        valid_date(y2, m2, d2),
        day_number(y1, m1, d1) == day_number(y2, m2, d2),
    ensures
        y1 == y2 && m1 == m2 && d1 == d2,
{
    lemma_in_year(y1, m1, d1);
    lemma_in_year(y2, m2, d2);
    if y1 < y2 {
        lemma_years(y1, y2);
    } else if y2 < y1 {
        lemma_years(y2, y1);
    } else {
        reveal_with_fuel(days_before, 13);
    }
}

/// A year in at least four characters, with a minus sign where it is negative.
pub open spec fn year_text(year: int) -> Seq<char> {
    if year >= 0 {
        padded_start(decimal(year as nat), 4, '0')
    } else {
        "-"@ + padded_start(decimal((-year) as nat), 3, '0')
    }
}

/// A number in at least two digits.
pub open spec fn two_digits(n: int) -> Seq<char> {
    padded_start(decimal(n as nat), 2, '0')
}

/// Whether a text is the time of a Unix timestamp as `YYYY-MM-DD HH:MM:SS`, so many seconds east
/// of UTC.
pub open spec fn is_time_text(text: Seq<char>, secs: int, utc_offset: int) -> bool {
    let local = secs + utc_offset;
    let time = local % 86_400;
    exists|year: int, month: int, day: int| #[trigger]
        valid_date(year, month, day) && day_number(year, month, day) == local / 86_400 && text
            == year_text(year) + "-"@ + two_digits(month) + "-"@ + two_digits(day) + " "@
            + two_digits(time / 3600) + ":"@ + two_digits(time % 3600 / 60) + ":"@ + two_digits(
            time % 60,
        )
}

/// Writes a year in at least four characters.
fn write_year(year: i64) -> (r: String)
    requires
        year > i64::MIN,
    ensures
        r@ == year_text(year as int),
{
    if year >= 0 {
        pad_start(&decimal_text(year as u64), 4, '0')
    } else {
        joined("-", &pad_start(&decimal_text((-year) as u64), 3, '0'))
    }
}

/// Writes a number in at least two digits.
fn write_two(n: u64) -> (r: String)
    ensures
        r@ == two_digits(n as int),
{
    pad_start(&decimal_text(n), 2, '0')
}

/// Converts a Unix timestamp (seconds) to a `YYYY-MM-DD HH:MM:SS` string in
/// local time, which is `utc_offset` seconds ahead of UTC.
pub fn broken_down_localtime(secs: i64, utc_offset: i64) -> (r: String)
    requires
        i64::MIN <= secs + utc_offset <= i64::MAX,
    ensures
        is_time_text(r@, secs as int, utc_offset as int),
{
    let local: i64 = secs + utc_offset;
    let days: i64 = if local >= 0 {
        (local as u64 / 86_400) as i64
    } else {
        -(((-(local + 1)) as u64 / 86_400) as i64) - 1
    };
    assert(days == local as int / 86_400);
    let time: u64 = (local as i128 - days as i128 * 86_400) as u64;
    assert(time == local as int % 86_400);
    let (year, month, day) = civil_from_days(days);
    proof {
        lemma_year_bound(year as int, month as int, day as int);
    }
    let mut r = write_year(year);
    push_text(&mut r, "-");
    push_text(&mut r, &write_two(month as u64));
    push_text(&mut r, "-");
    push_text(&mut r, &write_two(day as u64));
    push_text(&mut r, " ");
    push_text(&mut r, &write_two(time / 3600));
    push_text(&mut r, ":");
    push_text(&mut r, &write_two(time % 3600 / 60));
    push_text(&mut r, ":");
    push_text(&mut r, &write_two(time % 60));
    assert(valid_date(year as int, month as int, day as int));
    r
}

/// A year is closer to 1970 than its days are.
proof fn lemma_year_bound(year: int, month: int, day: int)
    requires
        valid_date(year, month, day),
        day_number(year, month, day) >= -0x7fff_ffff_ffff_ffff,
    ensures
        year > i64::MIN,
{
    lemma_in_year(year, month, day);
}

/// A line of the log.
pub fn log_line(time: &str, msg: &str) -> (r: String)
    ensures
        r@ == "["@ + time@ + "] "@ + msg@,
{
    let mut r = joined("[", time);
    push_text(&mut r, "] ");
    push_text(&mut r, msg);
    r
}

/// Lines with a line feed after each.
pub open spec fn unlines(list: Seq<Seq<char>>) -> Seq<char>
    decreases list.len(),
{
    if list.len() == 0 {
        seq![]
    } else {
        list[0] + seq!['\n'] + unlines(list.drop_first())
    }
}

/// What a log is to hold after rotation: its last 200 lines, where it is larger than 100 KB and
/// has more than those.
pub open spec fn rotated_log(size: int, contents: Seq<char>) -> Option<Seq<char>> {
    let list = lines(contents);
    if size <= MAX_LOG_SIZE || list.len() <= LOG_KEEP_LINES {
        None
    } else {
        Some(unlines(list.skip(list.len() - LOG_KEEP_LINES)))
    }
}

/// Decides what a log is to hold after rotation, or that it stays as it is.
pub fn rotated(size: u64, contents: &str) -> (r: Option<String>)
    ensures
        crate::types::text_view(r) == rotated_log(size as int, contents@),
{
    if size <= MAX_LOG_SIZE {
        return None;
    }
    let list = split_lines(&chars_of(contents));
    let n: usize = list.len();
    if n <= LOG_KEEP_LINES {
        return None;
    }
    let ghost all = crate::text::char_views(list@);
    let first: usize = n - LOG_KEEP_LINES;
    let ghost kept = all.skip(first as int);
    let mut r = String::new();
    let mut i: usize = first;
    assert(kept.skip(0) =~= kept);
    assert(r@ + unlines(kept) =~= unlines(kept));
    while i < n
        invariant
            first <= i <= n,
            n == list.len(),
            all == crate::text::char_views(list@),
            kept == all.skip(first as int),
            r@ + unlines(kept.skip(i - first)) == unlines(kept),
        decreases n - i,
    {
        let ghost rest = kept.skip(i - first);
        let ghost done = r@;
        assert(rest[0] == list@[i as int]@);
        assert(rest.drop_first() =~= kept.skip(i + 1 - first));
        push_text(&mut r, &string_of(&list[i]));
        r.push('\n');
        assert(r@ + unlines(kept.skip(i + 1 - first)) =~= done + unlines(rest));
        i = i + 1;
    }
    assert(kept.skip(i - first) =~= seq![]);
    assert(r@ + Seq::<char>::empty() =~= r@);
    Some(r)
}

/// Whether a line can be written and read back: it has no line feed in it and no carriage return
/// at its end.
pub open spec fn plain_line(line: Seq<char>) -> bool {
    &&& forall|i: int| 0 <= i < line.len() ==> #[trigger] line[i] != '\n'
    &&& line.len() == 0 || line[line.len() - 1] != '\r'
}

/// Lines are read back from the text they make up.
#[verifier::spinoff_prover]
#[verifier::rlimit(40)]
pub proof fn law_lines_read_back(list: Seq<Seq<char>>)
    requires
        forall|i: int| 0 <= i < list.len() ==> plain_line(#[trigger] list[i]),
    ensures
        lines(unlines(list)) == list,
    decreases list.len(),
{
    let s = unlines(list);
    if list.len() == 0 {
        assert(list =~= seq![]);
    } else {
        let first = list[0];
        let rest = list.drop_first();
        let n = first.len() as int;
        assert(plain_line(first));
        assert forall|i: int| 0 <= i < rest.len() implies plain_line(#[trigger] rest[i]) by {
            assert(rest[i] == list[i + 1]);
        }
        law_lines_read_back(rest);
        assert(s == first + seq!['\n'] + unlines(rest));
        assert(s[n] == '\n');
        crate::text::lemma_first_place(s, '\n');
        assert(first_place(s, '\n') == Some(n)) by {
            assert forall|j: int| 0 <= j < n implies s[j] != '\n' by {
                assert(s[j] == first[j]);
            }
        }
        assert(s.subrange(0, n) =~= first);
        assert(without_return(first) == first);
        assert(s.subrange(n + 1, s.len() as int) =~= unlines(rest));
        assert(seq![first] + rest =~= list);
    }
}

/// A rotated log holds the last 200 lines of the old one, and is not rotated again.
pub proof fn law_rotation(size: int, later: int, contents: Seq<char>)
    requires
        rotated_log(size, contents) is Some,
        forall|i: int| 0 <= i < lines(contents).len() ==> plain_line(#[trigger] lines(contents)[i]),
    ensures
        lines(rotated_log(size, contents)->0) == lines(contents).skip(
            lines(contents).len() - LOG_KEEP_LINES,
        ),
        rotated_log(later, rotated_log(size, contents)->0) is None,
{
    let all = lines(contents);
    let kept = all.skip(all.len() - LOG_KEEP_LINES);
    assert forall|i: int| 0 <= i < kept.len() implies plain_line(#[trigger] kept[i]) by {
        assert(kept[i] == all[i + all.len() - LOG_KEEP_LINES]);
    }
    law_lines_read_back(kept);
}

/// Builds a log path by appending `suffix` to `self_path`.
/// e.g. `/config/scripts/synclyr2metadata` + `.log`.
pub fn path_with_suffix(self_path: &str, suffix: &str) -> (r: String)
    ensures
        r@ == self_path@ + suffix@,
{
    joined(self_path, suffix)
}

} // verus!
