use synclyr2metadata::fs_util::{
    basename, is_directory, is_hidden, is_scanned, is_subdir, lrc_sidecar, sort_tracks, EntryKind,
};
use synclyr2metadata::types::TrackMeta;

fn track(number: u32, path: &str) -> TrackMeta {
    TrackMeta {
        title: None,
        artist: None,
        album: None,
        track_number: number,
        duration: 0,
        filepath: path.to_string(),
    }
}

#[test]
fn sidecar_names() {
    assert_eq!(lrc_sidecar("01-track.flac"), "01-track.lrc");
    assert_eq!(lrc_sidecar("a.b.mp3"), "a.b.lrc");
    assert_eq!(lrc_sidecar("noext"), "noext.lrc");
    assert_eq!(lrc_sidecar(".hidden"), ".hidden.lrc");
    assert_eq!(lrc_sidecar("x."), "x.lrc");
}

#[test]
fn hidden_entries_are_passed_over() {
    assert!(is_hidden(Some(".a")));
    assert!(!is_hidden(Some("a.")));
    assert!(!is_hidden(None));
    assert!(is_scanned(Some("a.FLAC"), true, Some("FLAC")));
    assert!(!is_scanned(Some(".a.flac"), true, Some("flac")));
    assert!(!is_scanned(Some("a.flac"), false, Some("flac")));
    assert!(!is_scanned(Some("a.txt"), true, Some("txt")));
    assert!(!is_scanned(Some("a"), true, None));
    assert!(is_subdir(Some("d"), true) && !is_subdir(Some(".d"), true) && !is_subdir(Some("d"), false));
}

#[test]
fn a_link_is_no_directory() {
    assert!(is_directory(EntryKind::Directory));
    assert!(!is_directory(EntryKind::Link));
    assert!(!is_directory(EntryKind::File));
    assert!(!is_directory(EntryKind::Other));
}

#[test]
fn basenames() {
    assert_eq!(basename(Some("Artist")), "Artist");
    assert_eq!(basename(None), "?");
}

#[test]
fn tracks_without_a_number_come_last() {
    let sorted = sort_tracks(vec![
        track(0, "a"), track(3, "b"), track(1, "c"), track(0, "d"), track(3, "e"), track(u32::MAX, "f"),
    ]);
    let paths: Vec<&str> = sorted.iter().map(|t| t.filepath.as_str()).collect();
    assert_eq!(paths, vec!["c", "b", "e", "f", "a", "d"]);
    assert!(sort_tracks(Vec::new()).is_empty());
}
