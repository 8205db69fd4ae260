use synclyr2metadata::logger::{
    broken_down_localtime, civil_from_days, log_line, path_with_suffix, rotated, LOG_KEEP_LINES,
    MAX_LOG_SIZE,
};

#[test]
fn days_and_dates() {
    assert_eq!(civil_from_days(0), (1970, 1, 1));
    assert_eq!(civil_from_days(-1), (1969, 12, 31));
    assert_eq!(civil_from_days(11_016), (2000, 2, 29));
    assert_eq!(civil_from_days(11_017), (2000, 3, 1));
    assert_eq!(civil_from_days(-719_468), (0, 3, 1));
    assert_eq!(civil_from_days(-719_469), (0, 2, 29));
    assert_eq!(civil_from_days(47_541), (2100, 3, 1));
}

#[test]
fn no_two_days_share_a_date() {
    let mut last = civil_from_days(-1000);
    for day in -999..1000 {
        let date = civil_from_days(day);
        assert!(date > last);
        last = date;
    }
}

#[test]
fn timestamps() {
    assert_eq!(broken_down_localtime(0, 0), "1970-01-01 00:00:00");
    assert_eq!(broken_down_localtime(951_782_399, 0), "2000-02-28 23:59:59");
    assert_eq!(broken_down_localtime(951_782_399, 3600), "2000-02-29 00:59:59");
    assert_eq!(broken_down_localtime(-1, 0), "1969-12-31 23:59:59");
    assert_eq!(broken_down_localtime(0, -18_000), "1969-12-31 19:00:00");
}

#[test]
fn years_of_other_lengths() {
    assert_eq!(broken_down_localtime(253_402_300_800, 0), "10000-01-01 00:00:00");
    assert_eq!(broken_down_localtime(-62_198_755_200, 0), "-001-01-01 00:00:00");
}

#[test]
fn lines_of_the_log() {
    assert_eq!(log_line("2000-01-01 00:00:00", "Test OK"), "[2000-01-01 00:00:00] Test OK");
}

fn numbered(n: usize) -> String {
    (0..n).map(|i| format!("line {}\n", i)).collect()
}

#[test]
fn large_logs_keep_their_last_lines() {
    let contents = numbered(250);
    let kept = rotated(MAX_LOG_SIZE + 1, &contents).unwrap();
    let lines: Vec<&str> = kept.lines().collect();
    assert_eq!(lines.len(), LOG_KEEP_LINES);
    assert_eq!(lines[0], "line 50");
    assert_eq!(lines[199], "line 249");
    assert!(kept.ends_with("line 249\n"));
    assert!(rotated(MAX_LOG_SIZE + 1, &kept).is_none());
}

#[test]
fn small_or_short_logs_stay() {
    assert!(rotated(MAX_LOG_SIZE, &numbered(250)).is_none());
    assert!(rotated(MAX_LOG_SIZE + 1, &numbered(200)).is_none());
    assert!(rotated(MAX_LOG_SIZE + 1, &numbered(201)).is_some());
}

#[test]
fn returns_before_line_feeds_are_dropped() {
    let contents: String = (0..201).map(|i| format!("{}\r\n", i)).collect();
    let kept = rotated(MAX_LOG_SIZE + 1, &contents).unwrap();
    assert!(kept.starts_with("1\n2\n"));
}

#[test]
fn log_paths() {
    assert_eq!(path_with_suffix("/config/scripts/synclyr2metadata", ".log"), "/config/scripts/synclyr2metadata.log");
    assert_eq!(path_with_suffix("a.b", "_plain.log"), "a.b_plain.log");
}
