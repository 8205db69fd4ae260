//! What the logs and reports tell.

use vstd::prelude::*;

use crate::logger::{
    day_number, days_before, is_time_text, month_days, plain_line, rotated_log, two_digits, unlines,
    valid_date, year_text,
};
use crate::report::{progress, tally};
use crate::text::{decimal, padded_end, padded_start, repeated, shortened};
use crate::types::SyncResult;

verus! {

/// The lengths of the months. February has 29 days in a year that can be divided by 4, unless it can
/// be divided by 100 and not by 400, and 28 in any other.
pub proof fn law_months(year: int, month: int, day: int)
    ensures
        valid_date(year, month, day) <==> 1 <= day && {
            ||| (month == 1 || month == 3 || month == 5 || month == 7 || month == 8 || month == 10
                || month == 12) && day <= 31
            ||| (month == 4 || month == 6 || month == 9 || month == 11) && day <= 30
            ||| month == 2 && day <= 28
            ||| month == 2 && day == 29 && year % 4 == 0 && (year % 100 != 0 || year % 400 == 0)
        },
{
}

/// Days are counted from the first of January 1970 on: the next day of a month, the first of the
/// next month and the first of the next year each count one more.
pub proof fn law_days(year: int, month: int, day: int)
    requires
        valid_date(year, month, day),
    ensures
        day_number(1970, 1, 1) == 0,
        valid_date(year, month, day + 1) ==> day_number(year, month, day + 1) == day_number(
            year,
            month,
            day,
        ) + 1,
        !valid_date(year, month, day + 1) && month < 12 ==> day_number(year, month + 1, 1)
            == day_number(year, month, day) + 1,
        month == 12 && day == 31 ==> day_number(year + 1, 1, 1) == day_number(year, month, day) + 1,
{
    reveal_with_fuel(days_before, 13);
    crate::logger::lemma_leaps(year);
    assert(days_before(year, month + 1) == days_before(year, month) + month_days(year, month));
}

/// A number below 100 in two digits.
pub open spec fn two(n: int) -> Seq<char> {
    seq![(48 + n / 10) as char, (48 + n % 10) as char]
}

/// A number below 10000 in four digits.
pub open spec fn four(n: int) -> Seq<char> {
    two(n / 100) + two(n % 100)
}

proof fn lemma_two(n: int)
    requires
        0 <= n < 100,
    ensures
        two_digits(n) == two(n),
{
    reveal_with_fuel(decimal, 3);
    let d = decimal(n as nat);
    if n < 10 {
        assert(padded_start(d, 2, '0') =~= two(n));
    } else {
        assert(d =~= two(n));
        assert(padded_start(d, 2, '0') =~= two(n));
    }
}

proof fn lemma_four(n: int)
    requires
        0 <= n < 10_000,
    ensures
        year_text(n) == four(n),
{
    reveal_with_fuel(decimal, 5);
    let d = decimal(n as nat);
    if n < 10 {
        assert(padded_start(d, 4, '0') =~= four(n));
    } else if n < 100 {
        assert(d =~= two(n));
        assert(padded_start(d, 4, '0') =~= four(n));
    } else if n < 1000 {
        assert(d =~= seq![(48 + n / 100) as char] + two(n % 100));
        assert(padded_start(d, 4, '0') =~= four(n));
    } else {
        assert(d =~= four(n));
        assert(padded_start(d, 4, '0') =~= four(n));
    }
}

proof fn lemma_clock(local: int)
    ensures
        ({
            let time = local % 86_400;
            &&& time % 3600 / 60 == time / 60 % 60
            &&& 0 <= time / 3600 < 24 && 0 <= time / 60 % 60 < 60 && 0 <= time % 60 < 60
            &&& ((local / 86_400 * 24 + time / 3600) * 60 + time / 60 % 60) * 60 + time % 60
                == local
        }),
{
    let time = local % 86_400;
    let minutes = time / 60;
    assert(minutes / 60 == time / 3600);
    assert(time == minutes * 60 + time % 60);
    assert(minutes == minutes / 60 * 60 + minutes % 60);
    assert(time % 3600 == time - time / 3600 * 3600);
    assert(time % 3600 / 60 == minutes % 60);
}

/// The time in a log line is that of the timestamp, in the time zone that is so many seconds ahead
/// of UTC: year, month, day, hour, minute and second in decimal digits, from which the timestamp can
/// be counted back. This is said of the years up to 9999.
#[verifier::spinoff_prover]
#[verifier::rlimit(40)]
pub proof fn law_time_text(text: Seq<char>, secs: int, utc_offset: int) -> (date: (int, int, int))
    requires
        is_time_text(text, secs, utc_offset),
    ensures
        ({
            let (year, month, day) = date;
            let time = (secs + utc_offset) % 86_400;
            let hour = time / 3600;
            let minute = time / 60 % 60;
            let second = time % 60;
            &&& valid_date(year, month, day)
            &&& 0 <= hour < 24 && 0 <= minute < 60 && 0 <= second < 60
            &&& ((day_number(year, month, day) * 24 + hour) * 60 + minute) * 60 + second == secs
                + utc_offset
            &&& 0 <= year < 10_000 ==> text == four(year) + seq!['-'] + two(month) + seq!['-'] + two(
                day,
            ) + seq![' '] + two(hour) + seq![':'] + two(minute) + seq![':'] + two(second)
        }),
{
    let local = secs + utc_offset;
    let time = local % 86_400;
    let (year, month, day) = choose|year: int, month: int, day: int| #[trigger]
        valid_date(year, month, day) && day_number(year, month, day) == local / 86_400 && text
            == year_text(year) + "-"@ + two_digits(month) + "-"@ + two_digits(day) + " "@
            + two_digits(time / 3600) + ":"@ + two_digits(time % 3600 / 60) + ":"@ + two_digits(
            time % 60,
        );
    reveal_strlit("-");
    reveal_strlit(" ");
    reveal_strlit(":");
    assert("-"@ =~= seq!['-']);
    assert(" "@ =~= seq![' ']);
    assert(":"@ =~= seq![':']);
    lemma_clock(local);
    if 0 <= year < 10_000 {
        lemma_four(year);
        lemma_two(month);
        lemma_two(day);
        lemma_two(time / 3600);
        lemma_two(time / 60 % 60);
        lemma_two(time % 60);
    }
    (year, month, day)
}

/// A log that is larger than 102400 bytes and has more than 200 lines keeps its last 200; any other
/// stays as it is.
pub proof fn law_log_kept(size: int, list: Seq<Seq<char>>)
    requires
        forall|i: int| 0 <= i < list.len() ==> plain_line(#[trigger] list[i]),
    ensures
        size > 102_400 && list.len() > 200 ==> rotated_log(size, unlines(list)) == Some(
            unlines(list.skip(list.len() - 200)),
        ),
        size <= 102_400 || list.len() <= 200 ==> rotated_log(size, unlines(list)) is None,
{
    crate::logger::law_lines_read_back(list);
}

/// A line of a log ends with a line feed.
pub proof fn law_log_lines(list: Seq<Seq<char>>, line: Seq<char>)
    ensures
        unlines(list.push(line)) == unlines(list) + line + seq!['\n'],
        unlines(Seq::empty()) == Seq::<char>::empty(),
    decreases list.len(),
{
    let all = list.push(line);
    if list.len() == 0 {
        assert(all.drop_first() =~= Seq::<Seq<char>>::empty());
        assert(unlines(all.drop_first()) =~= Seq::<char>::empty());
        assert(unlines(all) =~= unlines(list) + line + seq!['\n']);
    } else {
        law_log_lines(list.drop_first(), line);
        assert(all.drop_first() =~= list.drop_first().push(line));
        assert(unlines(all) =~= unlines(list) + line + seq!['\n']);
    }
}

/// The line for a track tells its number from one on, how many there are, the first 40 characters
/// of its title, padded to that width, and how it ended.
pub proof fn law_progress(idx: int, total: int, title: Seq<char>, status: Seq<char>)
    requires
        0 <= idx,
        0 <= total,
    ensures
        ({
            let number = if idx < 9 {
                seq![' '] + decimal((idx + 1) as nat)
            } else {
                decimal((idx + 1) as nat)
            };
            let shown = if title.len() >= 40 {
                title.subrange(0, 40)
            } else {
                title + repeated(' ', 40 - title.len())
            };
            &&& shown.len() == 40
            &&& progress(idx, total, title, status) == "  ["@ + number + "/"@ + decimal(
                total as nat,
            ) + "] "@ + shown + " "@ + status
        }),
{
    let d = decimal((idx + 1) as nat);
    crate::laws::text::law_decimal((idx + 1) as nat);
    if idx < 9 {
        assert(d.len() == 1);
        assert(padded_start(d, 2, ' ') =~= seq![' '] + d);
    } else {
        crate::laws::text::law_decimal(((idx + 1) / 10) as nat);
        assert(d.len() >= 2);
        assert(padded_start(d, 2, ' ') =~= d);
    }
    let s = shortened(title, 40);
    if title.len() >= 40 {
        assert(s =~= title.subrange(0, 40));
        assert(padded_end(s, 40, ' ') =~= title.subrange(0, 40));
    } else {
        assert(padded_end(s, 40, ' ') =~= title + repeated(' ', 40 - title.len()));
    }
}

/// The tally tells how many tracks were synced, skipped and not found, and how many got plain
/// lyrics or failed where there are any, each on a line of its own between two rules.
pub proof fn law_tally(r: SyncResult)
    ensures
        ({
            let rule = "\n"@ + repeated('\u{2500}', 46);
            let synced = "\n  \u{2713} Synced:     "@ + decimal(r.synced as nat);
            let plain = "\n  \u{2713} Plain:      "@ + decimal(r.plain as nat);
            let skipped = "\n  \u{2298} Skipped:    "@ + decimal(r.skipped as nat);
            let missing = "\n  \u{2717} Not found:  "@ + decimal(r.not_found as nat);
            let errors = "\n  \u{2717} Errors:     "@ + decimal(r.errors as nat);
            &&& r.plain == 0 && r.errors == 0 ==> tally(r) == rule + synced + skipped + missing
                + rule
            &&& r.plain > 0 && r.errors == 0 ==> tally(r) == rule + synced + plain + skipped
                + missing + rule
            &&& r.plain == 0 && r.errors > 0 ==> tally(r) == rule + synced + skipped + missing
                + errors + rule
            &&& r.plain > 0 && r.errors > 0 ==> tally(r) == rule + synced + plain + skipped
                + missing + errors + rule
        }),
{
    let rule = "\n"@ + repeated('\u{2500}', 46);
    let synced = "\n  \u{2713} Synced:     "@ + decimal(r.synced as nat);
    let plain = "\n  \u{2713} Plain:      "@ + decimal(r.plain as nat);
    let skipped = "\n  \u{2298} Skipped:    "@ + decimal(r.skipped as nat);
    let missing = "\n  \u{2717} Not found:  "@ + decimal(r.not_found as nat);
    let errors = "\n  \u{2717} Errors:     "@ + decimal(r.errors as nat);
    if r.plain == 0 && r.errors == 0 {
        assert(tally(r) =~= rule + synced + skipped + missing + rule);
    } else if r.errors == 0 {
        assert(tally(r) =~= rule + synced + plain + skipped + missing + rule);
    } else if r.plain == 0 {
        assert(tally(r) =~= rule + synced + skipped + missing + errors + rule);
    } else {
        assert(tally(r) =~= rule + synced + plain + skipped + missing + errors + rule);
    }
}

} // verus!
