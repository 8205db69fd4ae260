use synclyr2metadata::lrclib::LrclibTrack;
use synclyr2metadata::metadata::LyricsOutcome;
use synclyr2metadata::sync::{
    advance, api_result, build_query, check_identity, choose_source, local_result, plan_api,
    shown_title, start, worker_count, Event, Found, Plan, Sidecar, Source, Step, TrackResult,
};
use synclyr2metadata::types::{SyncConfig, SyncResult, TrackMeta, TrackOutcome};

fn track() -> TrackMeta {
    TrackMeta {
        title: Some("T".to_string()),
        artist: Some("A".to_string()),
        album: Some("L".to_string()),
        track_number: 1,
        duration: 200,
        filepath: "/m/t.flac".to_string(),
    }
}

fn record(synced: Option<&str>, plain: Option<&str>, instrumental: bool) -> LrclibTrack {
    LrclibTrack {
        artist_name: None,
        track_name: None,
        album_name: None,
        duration: "0".to_string(),
        synced_lyrics: synced.map(|s| s.to_string()),
        plain_lyrics: plain.map(|s| s.to_string()),
        instrumental,
    }
}

fn finished(p: Plan) -> TrackResult {
    match p {
        Plan::Finish(r) => r,
        Plan::Embed(_, _) => panic!("nothing is to be embedded"),
    }
}

fn embedded(p: Plan) -> (String, bool) {
    match p {
        Plan::Embed(s, synced) => (s, synced),
        Plan::Finish(_) => panic!("lyrics are to be embedded"),
    }
}

#[test]
fn labels() {
    assert_eq!(TrackOutcome::Synced.label(), "\u{2713} synced");
    assert_eq!(TrackOutcome::Plain.label(), "\u{2713} plain");
    assert_eq!(TrackOutcome::Skipped.label(), "\u{2298} already has lyrics");
    assert_eq!(TrackOutcome::NotFound.label(), "\u{2717} not found");
    assert_eq!(TrackOutcome::Error.label(), "\u{2717} error");
}

#[test]
fn results_add_up() {
    let mut a = SyncResult::default();
    assert!(!a.has_errors());
    a.record(TrackOutcome::Synced);
    a.record(TrackOutcome::Plain);
    let mut b = SyncResult::default();
    b.record(TrackOutcome::Skipped);
    b.record(TrackOutcome::NotFound);
    b.record(TrackOutcome::Error);
    b.record(TrackOutcome::Synced);
    assert!(a.can_add(&b));
    a.add(&b);
    assert_eq!((a.synced, a.plain, a.skipped, a.not_found, a.errors), (2, 1, 1, 1, 1));
    assert!(a.has_errors());
}

#[test]
fn full_counters_are_noticed() {
    let mut a = SyncResult::default();
    a.not_found = u32::MAX;
    assert!(!a.can_record(TrackOutcome::NotFound));
    assert!(a.can_record(TrackOutcome::Error));
    let mut b = SyncResult::default();
    assert!(a.can_add(&b));
    b.not_found = 1;
    assert!(!a.can_add(&b));
}

#[test]
fn default_configuration() {
    let c = SyncConfig::default();
    assert!(!c.force && !c.clean_lrc && c.prefer_synced);
    assert_eq!(c.num_threads, 4);
}

#[test]
fn tracks_need_an_artist_and_a_title() {
    assert!(check_identity(&track()).is_none());
    let mut t = track();
    t.artist = None;
    let r = check_identity(&t).unwrap();
    assert_eq!(r.outcome, TrackOutcome::Error);
    assert!(r.is_missing && !r.is_plain);
    let mut t = track();
    t.title = None;
    assert!(check_identity(&t).is_some());
}

#[test]
fn sidecars_come_before_the_api() {
    let c = SyncConfig::default();
    for text in ["[00:01.00] la", ""] {
        match choose_source(Sidecar::Contents(text.to_string()), &track(), &c) {
            Source::Sidecar(s) => assert_eq!(s, text),
            _ => panic!("the sidecar was expected"),
        }
    }
    match choose_source(Sidecar::Missing, &track(), &c) {
        Source::Api(q) => {
            assert_eq!((q.artist.as_str(), q.track.as_str()), ("A", "T"));
            assert_eq!(q.album.as_deref(), Some("L"));
            assert_eq!(q.duration, Some(200));
            assert!(q.prefer_synced);
        }
        _ => panic!("there is no sidecar"),
    }
    match choose_source(Sidecar::Unreadable, &track(), &c) {
        Source::Broken(r) => assert_eq!((r.outcome, r.is_plain, r.is_missing), (TrackOutcome::Error, false, false)),
        _ => panic!("the sidecar cannot be read"),
    }
}

#[test]
fn a_duration_of_zero_is_none() {
    let mut t = track();
    t.duration = 0;
    t.album = None;
    let q = build_query(&t, &SyncConfig::default());
    assert!(q.duration.is_none() && q.album.is_none());
}

#[test]
fn sidecars_are_deleted_on_demand_once_written() {
    let mut c = SyncConfig::default();
    let (r, delete) = local_result(Some(LyricsOutcome::Written), &c);
    assert_eq!(r.outcome, TrackOutcome::Synced);
    assert!(!delete && !r.is_plain && !r.is_missing);
    c.clean_lrc = true;
    assert!(local_result(Some(LyricsOutcome::Written), &c).1);
    let (r, delete) = local_result(Some(LyricsOutcome::Skipped), &c);
    assert_eq!(r.outcome, TrackOutcome::Skipped);
    assert!(!delete);
    let (r, delete) = local_result(None, &c);
    assert_eq!(r.outcome, TrackOutcome::Error);
    assert!(!delete);
}

#[test]
fn lookups_without_lyrics_end_a_track() {
    let r = finished(plan_api(Found::Nothing));
    assert_eq!(r.outcome, TrackOutcome::NotFound);
    assert!(r.is_missing);
    let r = finished(plan_api(Found::Failed));
    assert_eq!(r.outcome, TrackOutcome::Error);
    assert!(!r.is_missing);
    let r = finished(plan_api(Found::Track(record(Some("s"), Some("p"), true))));
    assert_eq!(r.outcome, TrackOutcome::Synced);
    assert!(!r.is_missing);
    let r = finished(plan_api(Found::Track(record(Some(""), None, false))));
    assert_eq!(r.outcome, TrackOutcome::NotFound);
    assert!(r.is_missing);
}

#[test]
fn synced_lyrics_are_preferred() {
    assert_eq!(embedded(plan_api(Found::Track(record(Some("s"), Some("p"), false)))), ("s".to_string(), true));
    assert_eq!(embedded(plan_api(Found::Track(record(Some(""), Some("p"), false)))), ("p".to_string(), false));
    assert_eq!(embedded(plan_api(Found::Track(record(None, Some("p"), false)))), ("p".to_string(), false));
}

#[test]
fn plain_lyrics_are_logged() {
    let r = api_result(Some(LyricsOutcome::Written), false);
    assert_eq!(r.outcome, TrackOutcome::Plain);
    assert!(r.is_plain && !r.is_missing);
    let r = api_result(Some(LyricsOutcome::Written), true);
    assert_eq!(r.outcome, TrackOutcome::Synced);
    assert!(!r.is_plain);
    assert_eq!(api_result(Some(LyricsOutcome::Skipped), false).outcome, TrackOutcome::Skipped);
    assert_eq!(api_result(None, true).outcome, TrackOutcome::Error);
}

#[test]
fn workers_are_capped() {
    let mut c = SyncConfig::default();
    assert_eq!(worker_count(&c, 10), 4);
    assert_eq!(worker_count(&c, 2), 2);
    assert_eq!(worker_count(&c, 0), 1);
    c.num_threads = 0;
    assert_eq!(worker_count(&c, 5), 1);
}

#[test]
fn titles_shown() {
    assert_eq!(shown_title(&track()), "T");
    let mut t = track();
    t.title = None;
    assert_eq!(shown_title(&t), "(unknown)");
}

fn outcome(step: Step) -> (TrackOutcome, bool, bool, bool) {
    match step {
        Step::Finish(r, delete) => (r.outcome, r.is_plain, r.is_missing, delete),
        _ => panic!("the track is not done"),
    }
}

#[test]
fn a_track_with_a_sidecar() {
    let mut c = SyncConfig::default();
    c.clean_lrc = true;
    let t = track();
    let step = start(&t);
    assert!(matches!(step, Step::ReadSidecar));
    let step = advance(step, Event::Sidecar(Sidecar::Contents("la".to_string())), &t, &c);
    assert!(matches!(step, Step::EmbedSidecar(ref s) if s == "la"));
    let step = advance(step, Event::Embedded(Some(LyricsOutcome::Written)), &t, &c);
    assert_eq!(outcome(step), (TrackOutcome::Synced, false, false, true));
}

#[test]
fn a_track_from_the_api() {
    let c = SyncConfig::default();
    let t = track();
    let step = advance(start(&t), Event::Sidecar(Sidecar::Missing), &t, &c);
    assert!(matches!(step, Step::Ask(ref q) if q.artist == "A"));
    let step = advance(step, Event::Lookup(Found::Track(record(None, Some("p"), false))), &t, &c);
    assert!(matches!(step, Step::EmbedFound(ref s, false) if s == "p"));
    let step = advance(step, Event::Embedded(Some(LyricsOutcome::Written)), &t, &c);
    assert_eq!(outcome(step), (TrackOutcome::Plain, true, false, false));
}

#[test]
fn tracks_that_end_early() {
    let c = SyncConfig::default();
    let mut t = track();
    let ask = advance(start(&t), Event::Sidecar(Sidecar::Missing), &t, &c);
    let step = advance(ask, Event::Lookup(Found::Nothing), &t, &c);
    assert_eq!(outcome(step), (TrackOutcome::NotFound, false, true, false));
    let ask = advance(start(&t), Event::Sidecar(Sidecar::Missing), &t, &c);
    let step = advance(ask, Event::Lookup(Found::Failed), &t, &c);
    assert_eq!(outcome(step), (TrackOutcome::Error, false, false, false));
    let embed = advance(start(&t), Event::Sidecar(Sidecar::Contents("la".to_string())), &t, &c);
    let step = advance(embed, Event::Embedded(None), &t, &c);
    assert_eq!(outcome(step), (TrackOutcome::Error, false, false, false));
    t.title = None;
    assert_eq!(outcome(start(&t)), (TrackOutcome::Error, false, true, false));
}

#[test]
fn an_empty_sidecar_is_a_sidecar() {
    let c = SyncConfig::default();
    let t = track();
    let step = advance(start(&t), Event::Sidecar(Sidecar::Contents(String::new())), &t, &c);
    assert!(matches!(step, Step::EmbedSidecar(ref s) if s.is_empty()));
}

#[test]
fn a_sidecar_that_cannot_be_read_is_an_error() {
    let c = SyncConfig::default();
    let t = track();
    let step = advance(start(&t), Event::Sidecar(Sidecar::Unreadable), &t, &c);
    assert_eq!(outcome(step), (TrackOutcome::Error, false, false, false));
}
