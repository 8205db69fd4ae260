use synclyr2metadata::lidarr::{
    album_dir_from_title, album_dir_from_tracks, choose_target, dir_log, event_action,
    lidarr_config, target_exit_code, target_log, EventAction, Target,
};
use synclyr2metadata::report::{
    album_line, done_text, exit_code, folder_heading, library_closing, library_heading,
    progress_line, summary_text,
};
use synclyr2metadata::types::{SyncResult, TrackOutcome};
use synclyr2metadata::walk::{AlbumStart, Walk};

fn counts(synced: u32, plain: u32, skipped: u32, not_found: u32, errors: u32) -> SyncResult {
    SyncResult { synced, plain, skipped, not_found, errors }
}

#[test]
fn progress_lines_are_aligned() {
    let line = progress_line(0, 12, "Song", "\u{2713} synced");
    assert_eq!(line, format!("  [ 1/12] Song{} \u{2713} synced", " ".repeat(36)));
    let long = "x".repeat(50);
    let line = progress_line(99, 100, &long, "s");
    assert_eq!(line, format!("  [100/100] {} s", "x".repeat(40)));
}

#[test]
fn an_album_as_it_is_shown() {
    assert_eq!(album_line("MM.FOOD (2004)", 26), "\u{25b6} MM.FOOD (2004) (26 tracks)");
    assert_eq!(
        progress_line(0, 26, "Beef Rapp", TrackOutcome::Synced.label()),
        "  [ 1/26] Beef Rapp                                \u{2713} synced"
    );
    assert_eq!(
        progress_line(2, 26, "Potholderz", TrackOutcome::Skipped.label()),
        "  [ 3/26] Potholderz                               \u{2298} already has lyrics"
    );
    let shown = summary_text(&counts(22, 1, 1, 2, 0));
    assert!(shown.contains("\n  \u{2713} Synced:     22\n  \u{2713} Plain:      1\n  \u{2298} Skipped:    1\n  \u{2717} Not found:  2\n"));
}

#[test]
fn summaries() {
    let rule = "\u{2500}".repeat(46);
    assert_eq!(
        summary_text(&counts(1, 0, 2, 3, 0)),
        format!("\n{}\n  \u{2713} Synced:     1\n  \u{2298} Skipped:    2\n  \u{2717} Not found:  3\n{}", rule, rule)
    );
    assert_eq!(
        summary_text(&counts(1, 4, 2, 3, 5)),
        format!("\n{}\n  \u{2713} Synced:     1\n  \u{2713} Plain:      4\n  \u{2298} Skipped:    2\n  \u{2717} Not found:  3\n  \u{2717} Errors:     5\n{}", rule, rule)
    );
    assert_eq!(exit_code(&counts(1, 1, 1, 1, 0)), 0);
    assert_eq!(exit_code(&counts(0, 0, 0, 0, 1)), 1);
    assert_eq!(done_text(&counts(1, 2, 3, 4, 5)), "Done: 1 synced, 2 plain, 3 skipped, 4 not found");
}

#[test]
fn headings() {
    let rule = "\u{2550}".repeat(60);
    assert_eq!(
        folder_heading(3, "album", "/m", 4),
        "Syncing lyrics for 3 track(s) in album '/m' [4 threads]...\n"
    );
    assert_eq!(album_line("Name", 10), "\u{25b6} Name (10 tracks)");
    assert_eq!(
        library_heading("/m", 16),
        format!("{}\n  synclyr2metadata \u{2014} Library Sync\n  Path:     /m\n  Threads:  16\n{}\n", rule, rule)
    );
    assert_eq!(
        library_closing(2, 5),
        format!("{}\n  Library Sync Complete\n  Artists:  2\n  Albums:   5", rule)
    );
}

#[test]
fn walks_count_what_has_tracks() {
    let mut walk = Walk::new();
    walk.enter_artist();
    assert_eq!(walk.enter_album(0), AlbumStart::Empty);
    assert_eq!(walk.enter_album(2), AlbumStart::First);
    walk.finish_album(&counts(1, 0, 1, 0, 0));
    assert_eq!(walk.enter_album(1), AlbumStart::Later);
    walk.finish_album(&counts(0, 0, 0, 0, 1));
    assert!(walk.leave_artist());
    walk.enter_artist();
    assert_eq!(walk.enter_album(0), AlbumStart::Empty);
    assert!(!walk.leave_artist());
    walk.enter_artist();
    assert!(walk.can_enter_album());
    assert_eq!(walk.enter_album(1), AlbumStart::First);
    walk.finish_album(&counts(1, 0, 0, 0, 0));
    assert!(walk.can_leave_artist());
    assert!(walk.leave_artist());
    assert_eq!((walk.artists, walk.albums), (2, 3));
    assert_eq!((walk.total.synced, walk.total.skipped, walk.total.errors), (2, 1, 1));
    assert!(walk.total.can_record(TrackOutcome::Synced));
}

#[test]
fn events() {
    let stop = |event: Option<&str>| match event_action(event) {
        EventAction::Stop(m, code) => (m, code),
        EventAction::Sync => panic!("nothing is to be synced"),
    };
    assert_eq!(stop(None), ("ERROR: lidarr_eventtype not set".to_string(), 1));
    assert_eq!(stop(Some("Test")), ("Test OK".to_string(), 0));
    assert_eq!(stop(Some("Grab")), ("Ignoring event: Grab".to_string(), 0));
    assert!(matches!(event_action(Some("AlbumDownload")), EventAction::Sync));
}

#[test]
fn album_directories() {
    assert_eq!(album_dir_from_tracks("/m/a/1.flac|/m/a/2.flac"), "/m/a/1.flac");
    assert_eq!(album_dir_from_tracks("/m/a/1.flac"), "/m/a/1.flac");
    assert_eq!(album_dir_from_tracks(""), "");
    let names = vec![
        Some("Other".to_string()), None, Some("Title (1999)".to_string()), Some("Title".to_string()),
    ];
    assert_eq!(album_dir_from_title(&names, "Title"), Some(2));
    assert_eq!(album_dir_from_title(&names, "title"), None);
    assert_eq!(album_dir_from_title(&names, ""), Some(0));
}

#[test]
fn targets() {
    assert_eq!(choose_target(true, false), Target::Album);
    assert_eq!(choose_target(true, true), Target::Album);
    assert_eq!(choose_target(false, true), Target::Artist);
    assert_eq!(choose_target(false, false), Target::Unknown);
    assert_eq!(target_log(Target::Album, "/a"), "Album: /a");
    assert_eq!(target_log(Target::Artist, "/a"), "Album dir not found, syncing artist: /a");
    assert_eq!(target_log(Target::Unknown, ""), "ERROR: could not determine album directory");
    assert_eq!(target_exit_code(Target::Unknown), 1);
    assert_eq!(target_exit_code(Target::Artist), 0);
    assert_eq!(dir_log(0, "/a"), "No audio files found in '/a'");
    assert_eq!(dir_log(7, "/a"), "Syncing 7 track(s) in '/a'");
}

#[test]
fn configuration_for_lidarr() {
    let c = lidarr_config("p".to_string(), "m".to_string());
    assert!(!c.force && !c.clean_lrc && c.prefer_synced);
    assert_eq!(c.num_threads, 4);
    assert_eq!((c.out_plain.as_deref(), c.out_missing.as_deref()), (Some("p"), Some("m")));
}
