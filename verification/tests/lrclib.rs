use synclyr2metadata::json::{parse, Json};
use synclyr2metadata::lrclib::{
    build_get_url, build_search_at_url, build_search_q_url, candidate_score, durations,
    normalized_copy, normalized_match_score, parse_track, pick_best, read_reply, ApiReply,
    DurationGap, LrclibTrack, Lookup, Query, Stage,
};

fn gap(wanted: f64, found: f64) -> DurationGap {
    DurationGap { found: found.to_bits(), distance: (wanted - found).abs().to_bits() }
}

fn no_gap() -> DurationGap {
    gap(0.0, 0.0)
}

fn query() -> Query {
    Query {
        artist: "The Band".to_string(),
        track: "Song".to_string(),
        album: Some("Album".to_string()),
        duration: Some(200),
        prefer_synced: true,
    }
}

fn candidate(artist: &str, track: &str) -> LrclibTrack {
    LrclibTrack {
        artist_name: Some(artist.to_string()),
        track_name: Some(track.to_string()),
        album_name: None,
        duration: "0".to_string(),
        synced_lyrics: None,
        plain_lyrics: None,
        instrumental: false,
    }
}

fn doc(text: &str) -> Option<Json> {
    Some(parse(text).unwrap())
}

fn none() -> Vec<DurationGap> {
    Vec::new()
}

#[test]
fn records_are_read() {
    let t = parse_track(&parse(
        "{\"artistName\":\"A\",\"trackName\":\"T\",\"albumName\":null,\"duration\":12.5,\
         \"syncedLyrics\":\"s\",\"plainLyrics\":\"\",\"instrumental\":true}",
    ).unwrap());
    assert_eq!(t.artist_name.as_deref(), Some("A"));
    assert_eq!(t.track_name.as_deref(), Some("T"));
    assert!(t.album_name.is_none());
    assert_eq!(t.duration, "12.5");
    assert_eq!(t.synced_lyrics.as_deref(), Some("s"));
    assert_eq!(t.plain_lyrics.as_deref(), Some(""));
    assert!(t.instrumental);
    let t = parse_track(&parse("[]").unwrap());
    assert!(t.artist_name.is_none() && !t.instrumental);
    assert_eq!(t.duration, "0");
}

#[test]
fn lyrics_of_a_record() {
    let mut t = candidate("a", "t");
    assert!(!t.has_any_lyrics() && !t.has_synced_or_instrumental());
    t.synced_lyrics = Some(String::new());
    t.plain_lyrics = Some("p".to_string());
    assert!(t.has_any_lyrics() && !t.has_synced_or_instrumental());
    t.synced_lyrics = Some("s".to_string());
    assert!(t.has_synced_or_instrumental());
    let mut t = candidate("a", "t");
    t.instrumental = true;
    assert!(t.has_any_lyrics() && t.has_synced_or_instrumental());
}

#[test]
fn replies() {
    assert!(matches!(read_reply(404, "x"), ApiReply::NoMatch));
    assert!(matches!(read_reply(200, "{}"), ApiReply::Document(_)));
    match read_reply(500, "") {
        ApiReply::Useless(m) => assert_eq!(m, "error: LRCLIB API returned HTTP 500"),
        _ => panic!("an error was expected"),
    }
    match read_reply(200, "x") {
        ApiReply::Useless(m) => assert_eq!(
            m,
            "error: failed to parse API response as JSON: json error at byte 0: expected JSON value"
        ),
        _ => panic!("an error was expected"),
    }
}

#[test]
fn request_urls() {
    assert_eq!(
        build_get_url("A b", "T&", Some("L"), Some(200)),
        "https://lrclib.net/api/get?artist_name=A%20b&track_name=T%26&album_name=L&duration=200"
    );
    assert_eq!(
        build_get_url("A", "T", None, Some(0)),
        "https://lrclib.net/api/get?artist_name=A&track_name=T"
    );
    assert_eq!(build_search_q_url("a b"), "https://lrclib.net/api/search?q=a%20b");
    assert_eq!(
        build_search_at_url("A", "T"),
        "https://lrclib.net/api/search?artist_name=A&track_name=T"
    );
}

#[test]
fn names_are_compared_loosely() {
    let n: String = normalized_copy("AC/DC \u{e9} 9!").into_iter().collect();
    assert_eq!(n, "acdc9");
    assert_eq!(normalized_match_score("AC/DC", "acdc", 40, 15), 40);
    assert_eq!(normalized_match_score("The Band", "Band", 40, 15), 15);
    assert_eq!(normalized_match_score("Band", "The Band", 40, 15), 15);
    assert_eq!(normalized_match_score("Band", "Group", 40, 15), 0);
    assert_eq!(normalized_match_score("", "Group", 40, 15), 0);
    assert_eq!(normalized_match_score("\u{e9}", "\u{e9}", 40, 15), 0);
}

#[test]
fn scores() {
    let q = query();
    let mut c = candidate("the band", "SONG");
    assert_eq!(candidate_score(&c, &q, no_gap()), 100);
    assert_eq!(candidate_score(&c, &q, gap(200.0, 202.0)), 115);
    assert_eq!(candidate_score(&c, &q, gap(200.0, 202.5)), 108);
    assert_eq!(candidate_score(&c, &q, gap(200.0, 195.0)), 108);
    assert_eq!(candidate_score(&c, &q, gap(200.0, 194.9)), 100);
    c.album_name = Some("The Album".to_string());
    assert_eq!(candidate_score(&c, &q, no_gap()), 105);
    c.album_name = Some("album".to_string());
    assert_eq!(candidate_score(&c, &q, no_gap()), 115);
    c.plain_lyrics = Some("p".to_string());
    assert_eq!(candidate_score(&c, &q, no_gap()), 120);
    c.synced_lyrics = Some("s".to_string());
    assert_eq!(candidate_score(&c, &q, no_gap()), 145);
    c.instrumental = true;
    assert_eq!(candidate_score(&c, &q, no_gap()), 135);
    let mut loose = query();
    loose.prefer_synced = false;
    c.instrumental = false;
    assert_eq!(candidate_score(&c, &loose, no_gap()), 130);
    assert_eq!(candidate_score(&candidate("Other", "Song"), &q, no_gap()), 0);
    assert_eq!(candidate_score(&candidate("The Band", "Other"), &q, no_gap()), 0);
}

#[test]
fn no_number_of_seconds_scores_nothing() {
    let c = candidate("the band", "SONG");
    let nan = DurationGap { found: f64::NAN.to_bits(), distance: f64::NAN.to_bits() };
    assert_eq!(candidate_score(&c, &query(), nan), 100);
    let negative = DurationGap { found: (-1.0f64).to_bits(), distance: 201.0f64.to_bits() };
    assert_eq!(candidate_score(&c, &query(), negative), 100);
    let mut unknown = query();
    unknown.duration = None;
    assert_eq!(candidate_score(&c, &unknown, gap(0.0, 1.0)), 100);
}

#[test]
fn the_best_candidate_is_picked() {
    let found = parse(
        "[{\"artistName\":\"The Band\",\"trackName\":\"Song\",\"plainLyrics\":\"one\",\"duration\":200},\
          {\"artistName\":\"The Band\",\"trackName\":\"Song\",\"syncedLyrics\":\"two\"},\
          {\"artistName\":\"The Band\",\"trackName\":\"Song\",\"syncedLyrics\":\"three\"}]",
    ).unwrap();
    assert_eq!(durations(&found), vec!["200", "0", "0"]);
    let gaps = vec![gap(200.0, 200.0), no_gap(), no_gap()];
    let best = pick_best(&found, &query(), &gaps).unwrap();
    assert_eq!(best.synced_lyrics.as_deref(), Some("two"));
}

#[test]
fn weak_candidates_are_refused() {
    let found = parse("[{\"artistName\":\"Band\",\"trackName\":\"A Song\",\"syncedLyrics\":\"x\"}]").unwrap();
    let mut q = query();
    q.prefer_synced = false;
    assert!(pick_best(&found, &q, &vec![no_gap()]).is_none());
    assert!(pick_best(&found, &query(), &vec![no_gap()]).is_some());
    assert!(pick_best(&parse("{}").unwrap(), &query(), &none()).is_none());
    assert!(durations(&parse("{}").unwrap()).is_empty());
}

#[test]
fn an_exact_match_with_synced_lyrics_ends_a_lookup() {
    let l = Lookup::new(query());
    assert_eq!(
        l.url().unwrap(),
        "https://lrclib.net/api/get?artist_name=The%20Band&track_name=Song&album_name=Album&duration=200"
    );
    assert!(!l.is_searching());
    let l = l.advance(doc("{\"syncedLyrics\":\"s\"}"), &none());
    assert_eq!(l.stage, Stage::Finished);
    assert!(l.url().is_none());
    assert_eq!(l.result().unwrap().synced_lyrics.as_deref(), Some("s"));
}

#[test]
fn a_lookup_goes_through_all_stages() {
    let l = Lookup::new(query()).advance(None, &none());
    assert_eq!(l.stage, Stage::SearchNames);
    assert!(l.is_searching());
    assert_eq!(
        l.url().unwrap(),
        "https://lrclib.net/api/search?artist_name=The%20Band&track_name=Song"
    );
    let l = l.advance(doc("[]"), &none());
    assert_eq!(l.stage, Stage::SearchText);
    assert_eq!(l.url().unwrap(), "https://lrclib.net/api/search?q=The%20Band%20Song");
    let l = l.advance(None, &none());
    assert_eq!(l.stage, Stage::Relaxed);
    assert_eq!(
        l.url().unwrap(),
        "https://lrclib.net/api/get?artist_name=The%20Band&track_name=Song"
    );
    let l = l.advance(None, &none());
    assert_eq!(l.stage, Stage::Finished);
    assert!(l.result().is_none());
}

#[test]
fn a_plain_search_result_does_not_replace_plain_lyrics() {
    let item = "[{\"artistName\":\"The Band\",\"trackName\":\"Song\",\"plainLyrics\":\"other\"}]";
    let l = Lookup::new(query()).advance(doc("{\"plainLyrics\":\"mine\"}"), &none());
    assert_eq!(l.stage, Stage::SearchNames);
    let l = l.advance(doc(item), &vec![no_gap()]);
    assert_eq!(l.stage, Stage::Relaxed);
    let l = l.advance(None, &none());
    assert_eq!(l.result().unwrap().plain_lyrics.as_deref(), Some("mine"));
}

#[test]
fn a_search_result_is_adopted_where_there_is_nothing() {
    let item = "[{\"artistName\":\"The Band\",\"trackName\":\"Song\",\"plainLyrics\":\"other\"}]";
    let l = Lookup::new(query()).advance(None, &none()).advance(doc(item), &vec![no_gap()]);
    assert_eq!(l.stage, Stage::Relaxed);
    let l = l.advance(doc("{\"instrumental\":true}"), &none());
    assert!(l.result().unwrap().instrumental);
}

#[test]
fn without_a_preference_no_search_is_made() {
    let mut q = query();
    q.prefer_synced = false;
    let l = Lookup::new(q).advance(doc("{\"plainLyrics\":\"p\"}"), &none());
    assert_eq!(l.stage, Stage::Relaxed);
    let l = l.advance(doc("{\"plainLyrics\":\"\"}"), &none());
    assert_eq!(l.result().unwrap().plain_lyrics.as_deref(), Some("p"));
}

#[test]
fn a_relaxed_reply_without_lyrics_leaves_what_was_found() {
    let relaxed = |reply: Option<Json>| {
        Lookup::new(query())
            .advance(doc("{\"plainLyrics\":\"mine\"}"), &none())
            .advance(None, &none())
            .advance(doc("[]"), &none())
            .advance(reply, &none())
            .result()
    };
    assert_eq!(relaxed(doc("{}")).unwrap().plain_lyrics.as_deref(), Some("mine"));
    assert_eq!(relaxed(None).unwrap().plain_lyrics.as_deref(), Some("mine"));
    let other = relaxed(doc("{\"plainLyrics\":\"other\"}")).unwrap();
    assert_eq!(other.plain_lyrics.as_deref(), Some("other"));
}

#[test]
fn nothing_useful_is_nothing() {
    let l = Lookup::new(query()).advance(doc("{}"), &none()).advance(None, &none());
    let l = l.advance(None, &none()).advance(doc("{\"syncedLyrics\":\"\"}"), &none());
    assert!(l.result().is_none());
}
