//! The rules of the [LRCLIB](https://lrclib.net) lyrics lookup.
//!
//! A lookup goes through up to three stages:
//!
//! 1. **Exact `/api/get`** — fast path, returns the single best match for
//!    the given `(artist, track, album, duration)`.
//! 2. **Fuzzy `/api/search`** — when the exact endpoint returns nothing
//!    useful (no synced lyrics and the track isn't marked instrumental),
//!    every candidate of a search is scored by artist/title/album/duration
//!    similarity and the best one above a quality threshold is picked.
//! 3. **Relaxed `/api/get`** — last resort: drop the album and duration
//!    constraints and ask for any track matching `(artist, track)`. A
//!    record without lyrics does not take the place of what was found.
//!
//! The requests are made by the caller, who asks a [`Lookup`] for the next URL and hands in what
//! came back.

use vstd::prelude::*;
use vstd::utf8::encode_utf8;

use crate::http_client::{percent_encoded, url_encode};
use crate::json::{document, member, parse, values, Json, Value};
use crate::text::{
    chars_of, contains, decimal, decimal_text, holds, joined, push_text, same_chars, small,
    to_small,
};
use crate::types::{str_view, text_view};

verus! {

/// A single lyrics record from LRCLIB.
#[derive(Debug, Clone)]
pub struct LrclibTrack {
    pub artist_name: Option<String>,
    pub track_name: Option<String>,
    pub album_name: Option<String>,
    /// The duration in seconds as it is written; `0` when absent.
    pub duration: String,
    pub synced_lyrics: Option<String>,
    pub plain_lyrics: Option<String>,
    pub instrumental: bool,
}

/// What an [`LrclibTrack`] holds.
pub struct Record {
    pub artist: Option<Seq<char>>,
    pub track: Option<Seq<char>>,
    pub album: Option<Seq<char>>,
    pub duration: Seq<char>,
    pub synced: Option<Seq<char>>,
    pub plain: Option<Seq<char>>,
    pub instrumental: bool,
}

impl View for LrclibTrack {
    type V = Record;

    open spec fn view(&self) -> Record {
        Record {
            artist: text_view(self.artist_name),
            track: text_view(self.track_name),
            album: text_view(self.album_name),
            duration: self.duration@,
            synced: text_view(self.synced_lyrics),
            plain: text_view(self.plain_lyrics),
            instrumental: self.instrumental,
        }
    }
}

impl Default for LrclibTrack {
    fn default() -> (r: Self)
        ensures
            r@ == (Record {
                artist: None,
                track: None,
                album: None,
                duration: "0"@,
                synced: None,
                plain: None,
                instrumental: false,
            }),
    {
        LrclibTrack {
            artist_name: None,
            track_name: None,
            album_name: None,
            duration: "0".to_owned(),
            synced_lyrics: None,
            plain_lyrics: None,
            instrumental: false,
        }
    }
}

/// Whether there is a text that is not empty.
pub open spec fn present(text: Option<Seq<char>>) -> bool {
    text matches Some(s) && s.len() > 0
}

/// Tells whether there is a text that is not empty.
pub fn is_present(text: &Option<String>) -> (r: bool)
    ensures
        r == present(text_view(*text)),
{
    match text {
        Some(s) => chars_of(s).len() > 0,
        None => false,
    }
}

impl Record {
    /// Whether the record carries any lyrics at all (synced, plain, or the instrumental flag).
    pub open spec fn has_any_lyrics(self) -> bool {
        self.instrumental || present(self.synced) || present(self.plain)
    }

    /// Whether the record carries synced lyrics or the instrumental flag.
    pub open spec fn has_synced_or_instrumental(self) -> bool {
        self.instrumental || present(self.synced)
    }
}

impl LrclibTrack {
    /// `true` if this record carries any lyrics at all (synced, plain, or
    /// the instrumental flag).
    pub fn has_any_lyrics(&self) -> (r: bool)
        ensures
            r == self@.has_any_lyrics(),
    {
        self.instrumental || is_present(&self.synced_lyrics) || is_present(&self.plain_lyrics)
    }

    /// `true` if this record carries synced lyrics or the instrumental flag.
    pub fn has_synced_or_instrumental(&self) -> (r: bool)
        ensures
            r == self@.has_synced_or_instrumental(),
    {
        self.instrumental || is_present(&self.synced_lyrics)
    }
}

/// The text in a field of an object.
pub open spec fn text_member(obj: Value, key: Seq<char>) -> Option<Seq<char>> {
    match member(obj, key) {
        Some(Value::Text(s)) => Some(s),
        _ => None,
    }
}

/// The record in a JSON value. What is absent, or not of the right type, is taken as missing.
pub open spec fn record_of(obj: Value) -> Record {
    Record {
        artist: text_member(obj, "artistName"@),
        track: text_member(obj, "trackName"@),
        album: text_member(obj, "albumName"@),
        duration: match member(obj, "duration"@) {
            Some(Value::Number(n)) => n,
            _ => "0"@,
        },
        synced: text_member(obj, "syncedLyrics"@),
        plain: text_member(obj, "plainLyrics"@),
        instrumental: member(obj, "instrumental"@) == Some(Value::Bool(true)),
    }
}

/// Reads the text in a field of an object.
fn get_text(obj: &Json, key: &str) -> (r: Option<String>)
    ensures
        text_view(r) == text_member(obj.value(), key@),
{
    match obj.get(key) {
        Some(v) => match v.as_str() {
            Some(s) => Some(s.to_owned()),
            None => None,
        },
        None => None,
    }
}

/// Reads the duration of a record, as it is written.
pub fn duration_text(obj: &Json) -> (r: String)
    ensures
        r@ == record_of(obj.value()).duration,
{
    match obj.get("duration") {
        Some(v) => match v.number_text() {
            Some(n) => n.to_owned(),
            None => "0".to_owned(),
        },
        None => "0".to_owned(),
    }
}

/// Parses a JSON value into an `LrclibTrack`.
pub fn parse_track(obj: &Json) -> (r: LrclibTrack)
    ensures
        r@ == record_of(obj.value()),
{
    let instrumental = match obj.get("instrumental") {
        Some(v) => match v.as_bool() {
            Some(b) => b,
            None => false,
        },
        None => false,
    };
    LrclibTrack {
        artist_name: get_text(obj, "artistName"),
        track_name: get_text(obj, "trackName"),
        album_name: get_text(obj, "albumName"),
        duration: duration_text(obj),
        synced_lyrics: get_text(obj, "syncedLyrics"),
        plain_lyrics: get_text(obj, "plainLyrics"),
        instrumental,
    }
}

/// What the API had to say.
#[derive(Debug)]
pub enum ApiReply {
    /// A JSON document.
    Document(Json),
    /// There is no match.
    NoMatch,
    /// The reply is of no use, for the reason in this message.
    Useless(String),
}

/// Takes the status and the body of a response. A 404 is no match, which is a normal outcome for
/// the `/api/get` endpoint; another status than 200, or a body that is no JSON, is of no use.
pub fn read_reply(status_code: u16, body: &str) -> (r: ApiReply)
    ensures
        match r {
            ApiReply::Document(json) => status_code == 200 && document(encode_utf8(body@)) == Ok::<
                Value,
                crate::json::Flaw,
            >(json.value()),
            ApiReply::NoMatch => status_code == 404,
            ApiReply::Useless(m) => status_code != 404 && (if status_code != 200 {
                m@ == "error: LRCLIB API returned HTTP "@ + decimal(status_code as nat)
            } else {
                document(encode_utf8(body@)) matches Err(flaw) && m@
                    == "error: failed to parse API response as JSON: json error at byte "@ + decimal(
                    flaw.offset as nat,
                ) + ": "@ + flaw.message
            }),
        },
{
    if status_code == 404 {
        return ApiReply::NoMatch;
    }
    if status_code != 200 {
        return ApiReply::Useless(
            joined("error: LRCLIB API returned HTTP ", &decimal_text(status_code as u64)),
        );
    }
    match parse(body) {
        Ok(v) => ApiReply::Document(v),
        Err(e) => {
            let r = joined("error: failed to parse API response as JSON: ", &e.shown());
            proof {
                reveal_strlit("error: failed to parse API response as JSON: ");
                reveal_strlit("json error at byte ");
                reveal_strlit("error: failed to parse API response as JSON: json error at byte ");
                assert("error: failed to parse API response as JSON: "@ + "json error at byte "@
                    =~= "error: failed to parse API response as JSON: json error at byte "@);
                assert(r@
                    =~= "error: failed to parse API response as JSON: json error at byte "@
                    + decimal(e.offset as nat) + ": "@ + e.message@);
            }
            ApiReply::Useless(r)
        },
    }
}

/// A text as it stands in a query.
pub open spec fn encoded(text: Seq<char>) -> Seq<char> {
    percent_encoded(encode_utf8(text))
}

/// The `/api/get` URL with optional album and duration filters.
pub open spec fn get_url(
    artist: Seq<char>,
    track: Seq<char>,
    album: Option<Seq<char>>,
    duration: Option<u32>,
) -> Seq<char> {
    let base = "https://lrclib.net/api/get?artist_name="@ + encoded(artist) + "&track_name="@
        + encoded(track);
    let with_album = match album {
        Some(a) => base + "&album_name="@ + encoded(a),
        None => base,
    };
    match duration {
        Some(d) => if d > 0 {
            with_album + "&duration="@ + decimal(d as nat)
        } else {
            with_album
        },
        None => with_album,
    }
}

/// Builds a `/api/get` URL with optional album and duration filters.
pub fn build_get_url(artist: &str, track: &str, album: Option<&str>, duration: Option<u32>) -> (r:
    String)
    ensures
        r@ == get_url(artist@, track@, str_view(album), duration),
{
    let mut url = joined("https://lrclib.net/api/get?artist_name=", &url_encode(artist));
    push_text(&mut url, "&track_name=");
    push_text(&mut url, &url_encode(track));
    if let Some(a) = album {
        push_text(&mut url, "&album_name=");
        push_text(&mut url, &url_encode(a));
    }
    if let Some(d) = duration {
        if d > 0 {
            push_text(&mut url, "&duration=");
            push_text(&mut url, &decimal_text(d as u64));
        }
    }
    url
}

/// The `/api/search?q=...` URL (free-text query).
pub open spec fn search_q_url(query: Seq<char>) -> Seq<char> {
    "https://lrclib.net/api/search?q="@ + encoded(query)
}

/// Builds a `/api/search?q=...` URL (free-text query).
pub fn build_search_q_url(query: &str) -> (r: String)
    ensures
        r@ == search_q_url(query@),
{
    joined("https://lrclib.net/api/search?q=", &url_encode(query))
}

/// The `/api/search?artist_name=...&track_name=...` URL.
pub open spec fn search_at_url(artist: Seq<char>, track: Seq<char>) -> Seq<char> {
    "https://lrclib.net/api/search?artist_name="@ + encoded(artist) + "&track_name="@ + encoded(
        track,
    )
}

/// Builds a `/api/search?artist_name=...&track_name=...` URL.
pub fn build_search_at_url(artist: &str, track: &str) -> (r: String)
    ensures
        r@ == search_at_url(artist@, track@),
{
    let mut url = joined("https://lrclib.net/api/search?artist_name=", &url_encode(artist));
    push_text(&mut url, "&track_name=");
    push_text(&mut url, &url_encode(track));
    url
}

/// Whether a character is an ASCII letter or digit.
pub open spec fn alphanumeric(c: char) -> bool {
    'a' <= c <= 'z' || 'A' <= c <= 'Z' || '0' <= c <= '9'
}

/// A text for fuzzy comparison: its ASCII letters, made small, and digits.
pub open spec fn normalized(s: Seq<char>) -> Seq<char>
    decreases s.len(),
{
    if s.len() == 0 {
        seq![]
    } else if alphanumeric(s.last()) {
        normalized(s.drop_last()).push(small(s.last()))
    } else {
        normalized(s.drop_last())
    }
}

/// Normalises a string for fuzzy comparison: lowercase ASCII alphanumeric only.
pub fn normalized_copy(src: &str) -> (r: Vec<char>)
    ensures
        r@ == normalized(src@),
{
    let chars = chars_of(src);
    let mut r: Vec<char> = Vec::new();
    let mut i: usize = 0;
    assert(chars@.take(0) =~= seq![]);
    while i < chars.len()
        invariant
            i <= chars@.len(),
            r@ == normalized(chars@.take(i as int)),
        decreases chars@.len() - i,
    {
        assert(chars@.take(i + 1).drop_last() =~= chars@.take(i as int));
        assert(chars@.take(i + 1).last() == chars@[i as int]);
        let c: char = chars[i];
        if ('a' <= c && c <= 'z') || ('A' <= c && c <= 'Z') || ('0' <= c && c <= '9') {
            r.push(to_small(c));
        }
        i = i + 1;
    }
    assert(chars@.take(i as int) =~= chars@);
    r
}

/// How well two texts match after normalisation: `exact` on equality, `part` where one holds the
/// other, and 0 otherwise or where one is empty.
pub open spec fn match_score(expected: Seq<char>, actual: Seq<char>, exact: int, part: int) -> int {
    let a = normalized(expected);
    let b = normalized(actual);
    if a.len() == 0 || b.len() == 0 {
        0
    } else if a == b {
        exact
    } else if holds(a, b) || holds(b, a) {
        part
    } else {
        0
    }
}

/// Scores how well `expected` matches `actual` after normalisation.
pub fn normalized_match_score(expected: &str, actual: &str, exact: i32, part: i32) -> (r: i32)
    ensures
        r == match_score(expected@, actual@, exact as int, part as int),
{
    let a = normalized_copy(expected);
    let b = normalized_copy(actual);
    if a.len() == 0 || b.len() == 0 {
        return 0;
    }
    if same_chars(&a, &b) {
        exact
    } else if contains(&a, &b) || contains(&b, &a) {
        part
    } else {
        0
    }
}

/// How far the duration of a candidate is from the wanted one.
///
/// Both numbers are the bits of a binary64 floating-point number that is not negative. As such
/// they are ordered as the numbers they stand for.
#[derive(Debug, Clone, Copy, PartialEq, Eq, Structural)]
pub struct DurationGap {
    /// The bits of the candidate's duration in seconds.
    pub found: u64,
    /// The bits of its distance from the wanted duration in seconds.
    pub distance: u64,
}

/// The bits of two seconds.
pub const TWO_SECONDS: u64 = 0x4000_0000_0000_0000;

/// The bits of five seconds.
pub const FIVE_SECONDS: u64 = 0x4014_0000_0000_0000;

/// The bits of infinity, the largest of the numbers.
pub const INFINITE: u64 = 0x7ff0_0000_0000_0000;

/// The points for a duration: 15 within two seconds, 8 within five.
pub open spec fn duration_score(wanted: Option<u32>, gap: DurationGap) -> int {
    if wanted matches Some(d) && d > 0 && 0 < gap.found <= INFINITE {
        if gap.distance <= TWO_SECONDS {
            15
        } else if gap.distance <= FIVE_SECONDS {
            8
        } else {
            0
        }
    } else {
        0
    }
}

/// The points for the lyrics that a candidate carries.
pub open spec fn lyrics_score(candidate: Record, prefer_synced: bool) -> int {
    if candidate.instrumental {
        20
    } else if present(candidate.synced) {
        if prefer_synced {
            30
        } else {
            15
        }
    } else if present(candidate.plain) {
        5
    } else {
        0
    }
}

/// A text, or an empty one where there is none.
pub open spec fn or_empty(text: Option<Seq<char>>) -> Seq<char> {
    match text {
        Some(s) => s,
        None => ""@,
    }
}

/// What is looked for.
pub struct Wanted {
    pub artist: Seq<char>,
    pub track: Seq<char>,
    pub album: Option<Seq<char>>,
    pub duration: Option<u32>,
    pub prefer_synced: bool,
}

/// The score of a candidate. One whose artist or track does not match at all is no match.
pub open spec fn score_of(candidate: Record, wanted: Wanted, gap: DurationGap) -> int {
    let track_score = match_score(wanted.track, or_empty(candidate.track), 60, 25);
    let artist_score = match_score(wanted.artist, or_empty(candidate.artist), 40, 15);
    let album_score = match (wanted.album, candidate.album) {
        (Some(a), Some(b)) => match_score(a, b, 15, 5),
        _ => 0,
    };
    if track_score == 0 || artist_score == 0 {
        0
    } else {
        track_score + artist_score + album_score + duration_score(wanted.duration, gap)
            + lyrics_score(candidate, wanted.prefer_synced)
    }
}

/// What a lookup asks for.
#[derive(Debug, Clone)]
pub struct Query {
    pub artist: String,
    pub track: String,
    pub album: Option<String>,
    /// Wanted duration in whole seconds.
    pub duration: Option<u32>,
    /// Give synced lyrics priority over plain matches.
    pub prefer_synced: bool,
}

impl View for Query {
    type V = Wanted;

    open spec fn view(&self) -> Wanted {
        Wanted {
            artist: self.artist@,
            track: self.track@,
            album: text_view(self.album),
            duration: self.duration,
            prefer_synced: self.prefer_synced,
        }
    }
}

/// Scores a candidate against the query.
pub fn candidate_score(candidate: &LrclibTrack, query: &Query, gap: DurationGap) -> (r: i32)
    ensures
        r == score_of(candidate@, query@, gap),
        0 <= r <= 160,
{
    let found_track = match &candidate.track_name {
        Some(s) => s.as_str(),
        None => "",
    };
    let found_artist = match &candidate.artist_name {
        Some(s) => s.as_str(),
        None => "",
    };
    let track_score: i32 = normalized_match_score(&query.track, found_track, 60, 25);
    let artist_score: i32 = normalized_match_score(&query.artist, found_artist, 40, 15);
    if track_score == 0 || artist_score == 0 {
        return 0;
    }
    let mut score: i32 = track_score + artist_score;
    if let Some(album) = &query.album {
        if let Some(found_album) = &candidate.album_name {
            score = score + normalized_match_score(album, found_album, 15, 5);
        }
    }
    if let Some(d) = query.duration {
        if d > 0 && 0 < gap.found && gap.found <= INFINITE {
            if gap.distance <= TWO_SECONDS {
                score = score + 15;
            } else if gap.distance <= FIVE_SECONDS {
                score = score + 8;
            }
        }
    }
    if candidate.instrumental {
        score = score + 20;
    } else if is_present(&candidate.synced_lyrics) {
        score = score + if query.prefer_synced {
            30
        } else {
            15
        };
    } else if is_present(&candidate.plain_lyrics) {
        score = score + 5;
    }
    score
}

/// The score that a candidate needs to be picked.
pub const THRESHOLD: i32 = 70;

/// The score of item `i` of a search result.
pub open spec fn item_score(items: Seq<Value>, wanted: Wanted, gaps: Seq<DurationGap>, i: int) -> int {
    score_of(record_of(items[i]), wanted, gaps[i])
}

/// Whether item `k` is the best of a search result: it reaches the threshold, none has a higher
/// score, and none before it has the same.
pub open spec fn best_item(items: Seq<Value>, wanted: Wanted, gaps: Seq<DurationGap>, k: int) -> bool {
    &&& 0 <= k < items.len()
    &&& item_score(items, wanted, gaps, k) >= THRESHOLD
    &&& forall|i: int|
        0 <= i < items.len() ==> #[trigger] item_score(items, wanted, gaps, i) <= item_score(
            items,
            wanted,
            gaps,
            k,
        )
    &&& forall|i: int|
        0 <= i < k ==> #[trigger] item_score(items, wanted, gaps, i) < item_score(
            items,
            wanted,
            gaps,
            k,
        )
}

/// The best record of a search result, where there is one.
pub open spec fn best_record(result: Value, wanted: Wanted, gaps: Seq<DurationGap>) -> Option<Record> {
    match result {
        Value::Array(items) => if exists|k: int| best_item(items, wanted, gaps, k) {
            Some(record_of(items[choose|k: int| best_item(items, wanted, gaps, k)]))
        } else {
            None
        },
        _ => None,
    }
}

/// The number of items in a search result.
pub open spec fn item_count(result: Value) -> int {
    match result {
        Value::Array(items) => items.len() as int,
        _ => 0,
    }
}

/// There is at most one best item.
pub proof fn law_best_is_one(
    items: Seq<Value>,
    wanted: Wanted,
    gaps: Seq<DurationGap>,
    j: int,
    k: int,
)
    requires
        best_item(items, wanted, gaps, j),
        best_item(items, wanted, gaps, k),
    ensures
        j == k,
{
    assert(item_score(items, wanted, gaps, j) <= item_score(items, wanted, gaps, k));
    assert(item_score(items, wanted, gaps, k) <= item_score(items, wanted, gaps, j));
}

/// Lists the durations in a search result, as they are written.
pub fn durations(result: &Json) -> (r: Vec<String>)
    ensures
        r@.len() == item_count(result.value()),
        result.value() matches Value::Array(items) ==> forall|i: int|
            0 <= i < r@.len() ==> (#[trigger] r@[i])@ == record_of(items[i]).duration,
{
    let mut r: Vec<String> = Vec::new();
    match result.as_array() {
        Some(items) => {
            let ghost all = values(items@);
            let mut i: usize = 0;
            proof {
                crate::json::lemma_values(items@);
            }
            while i < items.len()
                invariant
                    i <= items@.len(),
                    r@.len() == i,
                    all == values(items@),
                    all.len() == items@.len(),
                    forall|j: int| 0 <= j < items@.len() ==> #[trigger] all[j] == items@[j].value(),
                    forall|j: int| 0 <= j < i ==> (#[trigger] r@[j])@ == record_of(all[j]).duration,
                decreases items@.len() - i,
            {
                assert(all[i as int] == items@[i as int].value());
                r.push(duration_text(&items[i]));
                i = i + 1;
            }
            r
        },
        None => r,
    }
}

/// Walks a search-result array and picks the highest-scoring candidate with a score of at least
/// 70, the first one of those with the same score. `gaps` holds one entry for each item.
pub fn pick_best(result: &Json, query: &Query, gaps: &Vec<DurationGap>) -> (r: Option<LrclibTrack>)
    requires
        gaps@.len() == item_count(result.value()),
    ensures
        match r {
            Some(t) => best_record(result.value(), query@, gaps@) == Some(t@),
            None => best_record(result.value(), query@, gaps@) is None,
        },
{
    let items = match result.as_array() {
        Some(items) => items,
        None => return None,
    };
    let ghost all = values(items@);
    let ghost wanted = query@;
    let mut best: Option<LrclibTrack> = None;
    let mut best_score: i32 = 0;
    let ghost mut at: int = 0;
    let mut i: usize = 0;
    proof {
        crate::json::lemma_values(items@);
    }
    while i < items.len()
        invariant
            i <= items@.len(),
            all == values(items@),
            all.len() == items@.len(),
            gaps@.len() == all.len(),
            wanted == query@,
            forall|j: int| 0 <= j < items@.len() ==> #[trigger] all[j] == items@[j].value(),
            best is None ==> best_score == 0,
            best is None ==> forall|j: int|
                0 <= j < i ==> #[trigger] item_score(all, wanted, gaps@, j) < THRESHOLD,
            best matches Some(t) ==> 0 <= at < i && t@ == record_of(all[at]) && best_score
                == item_score(all, wanted, gaps@, at) && best_score >= THRESHOLD,
            best is Some ==> forall|j: int|
                0 <= j < i ==> #[trigger] item_score(all, wanted, gaps@, j) <= best_score,
            best is Some ==> forall|j: int|
                0 <= j < at ==> #[trigger] item_score(all, wanted, gaps@, j) < best_score,
        decreases items@.len() - i,
    {
        assert(all[i as int] == items@[i as int].value());
        let candidate = parse_track(&items[i]);
        let score: i32 = candidate_score(&candidate, query, gaps[i]);
        assert(score == item_score(all, wanted, gaps@, i as int));
        if score >= THRESHOLD && score > best_score {
            best = Some(candidate);
            best_score = score;
            proof {
                at = i as int;
            }
        }
        i = i + 1;
    }
    proof {
        if best is Some {
            assert(best_item(all, wanted, gaps@, at));
            let k = choose|k: int| best_item(all, wanted, gaps@, k);
            law_best_is_one(all, wanted, gaps@, at, k);
        } else {
            assert forall|k: int| !best_item(all, wanted, gaps@, k) by {
                if 0 <= k < all.len() {
                    assert(item_score(all, wanted, gaps@, k) < THRESHOLD);
                }
            }
        }
    }
    best
}

/// The stages of a lookup.
#[derive(Debug, Clone, Copy, PartialEq, Eq, Structural)]
pub enum Stage {
    /// Ask for the exact match.
    Exact,
    /// Search by artist and track name.
    SearchNames,
    /// Search by free text.
    SearchText,
    /// Ask for any track of that artist and name.
    Relaxed,
    /// Nothing more to ask.
    Finished,
}

/// A lookup with the full strategy of the sync engine: what it asks for, how far it
/// has come, and the best record so far.
#[derive(Debug)]
pub struct Lookup {
    pub query: Query,
    pub stage: Stage,
    pub current: Option<LrclibTrack>,
}

/// What a [`Lookup`] holds.
pub struct Search {
    pub wanted: Wanted,
    pub stage: Stage,
    pub current: Option<Record>,
}

/// The view of an optional record.
pub open spec fn record_view(t: Option<LrclibTrack>) -> Option<Record> {
    match t {
        Some(track) => Some(track@),
        None => None,
    }
}

impl View for Lookup {
    type V = Search;

    open spec fn view(&self) -> Search {
        Search { wanted: self.query@, stage: self.stage, current: record_view(self.current) }
    }
}

/// Whether there is a record with synced lyrics or the instrumental flag.
pub open spec fn satisfying(current: Option<Record>) -> bool {
    current matches Some(r) && r.has_synced_or_instrumental()
}

/// The stage after the searches: relax the constraints, unless there is a satisfying record.
pub open spec fn closing_stage(current: Option<Record>) -> Stage {
    if satisfying(current) {
        Stage::Finished
    } else {
        Stage::Relaxed
    }
}

/// The record after a search found a candidate: it is adopted when it carries synced lyrics or the
/// instrumental flag, or when the record so far has no plain lyrics.
pub open spec fn adopted(current: Option<Record>, candidate: Record) -> Option<Record> {
    if candidate.has_synced_or_instrumental() || !(current matches Some(r) && present(r.plain)) {
        Some(candidate)
    } else {
        current
    }
}

impl Search {
    /// The URL to be requested, if any.
    pub open spec fn next_url(self) -> Option<Seq<char>> {
        let w = self.wanted;
        match self.stage {
            Stage::Exact => Some(get_url(w.artist, w.track, w.album, w.duration)),
            Stage::SearchNames => Some(search_at_url(w.artist, w.track)),
            Stage::SearchText => Some(search_q_url(w.artist + " "@ + w.track)),
            Stage::Relaxed => Some(get_url(w.artist, w.track, None, None)),
            Stage::Finished => None,
        }
    }

    /// The lookup after a reply.
    pub open spec fn after(self, reply: Option<Value>, gaps: Seq<DurationGap>) -> Search {
        match self.stage {
            Stage::Exact => {
                let current = match reply {
                    Some(v) => Some(record_of(v)),
                    None => None,
                };
                Search {
                    stage: if self.wanted.prefer_synced && !satisfying(current) {
                        Stage::SearchNames
                    } else {
                        closing_stage(current)
                    },
                    current,
                    ..self
                }
            },
            Stage::SearchNames | Stage::SearchText => {
                let best = match reply {
                    Some(v) => best_record(v, self.wanted, gaps),
                    None => None,
                };
                match best {
                    Some(candidate) => {
                        let current = adopted(self.current, candidate);
                        Search { stage: closing_stage(current), current, ..self }
                    },
                    None => Search {
                        stage: if self.stage == Stage::SearchNames {
                            Stage::SearchText
                        } else {
                            closing_stage(self.current)
                        },
                        ..self
                    },
                }
            },
            Stage::Relaxed => Search {
                stage: Stage::Finished,
                current: match reply {
                    Some(v) => if record_of(v).has_any_lyrics() {
                        Some(record_of(v))
                    } else {
                        self.current
                    },
                    None => self.current,
                },
                ..self
            },
            Stage::Finished => self,
        }
    }

    /// The record that the lookup gives: the one found, if it carries any lyrics.
    pub open spec fn outcome(self) -> Option<Record> {
        if self.current matches Some(r) && r.has_any_lyrics() {
            self.current
        } else {
            None
        }
    }

    /// How many requests are still to be made at most.
    pub open spec fn left(self) -> int {
        match self.stage {
            Stage::Exact => 4,
            Stage::SearchNames => 3,
            Stage::SearchText => 2,
            Stage::Relaxed => 1,
            Stage::Finished => 0,
        }
    }
}

/// Tells whether there is a record with synced lyrics or the instrumental flag.
fn is_satisfying(current: &Option<LrclibTrack>) -> (r: bool)
    ensures
        r == satisfying(record_view(*current)),
{
    match current {
        Some(t) => t.has_synced_or_instrumental(),
        None => false,
    }
}

/// Gives the stage after the searches.
fn close(current: &Option<LrclibTrack>) -> (r: Stage)
    ensures
        r == closing_stage(record_view(*current)),
{
    if is_satisfying(current) {
        Stage::Finished
    } else {
        Stage::Relaxed
    }
}

/// Takes over the candidate of a search, or keeps the record so far.
fn adopt(current: Option<LrclibTrack>, candidate: LrclibTrack) -> (r: Option<LrclibTrack>)
    ensures
        record_view(r) == adopted(record_view(current), candidate@),
{
    let has_plain = match &current {
        Some(t) => is_present(&t.plain_lyrics),
        None => false,
    };
    if candidate.has_synced_or_instrumental() || !has_plain {
        Some(candidate)
    } else {
        current
    }
}

/// Whether there is a gap for each item of a reply that is searched.
pub open spec fn gaps_fit(stage: Stage, reply: Option<Value>, gaps: Seq<DurationGap>) -> bool {
    (stage == Stage::SearchNames || stage == Stage::SearchText) ==> (reply matches Some(v)
        ==> gaps.len() == item_count(v))
}

/// The view of an optional document.
pub open spec fn json_view(reply: Option<Json>) -> Option<Value> {
    match reply {
        Some(json) => Some(json.value()),
        None => None,
    }
}

impl Lookup {
    /// Starts a lookup.
    pub fn new(query: Query) -> (r: Self)
        ensures
            r@ == (Search { wanted: query@, stage: Stage::Exact, current: None }),
    {
        Lookup { query, stage: Stage::Exact, current: None }
    }

    /// Gives the URL to be requested next, or none when the lookup is done.
    pub fn url(&self) -> (r: Option<String>)
        ensures
            text_view(r) == self@.next_url(),
    {
        let q = &self.query;
        match self.stage {
            Stage::Exact => {
                let album = match &q.album {
                    Some(a) => Some(a.as_str()),
                    None => None,
                };
                Some(build_get_url(&q.artist, &q.track, album, q.duration))
            },
            Stage::SearchNames => Some(build_search_at_url(&q.artist, &q.track)),
            Stage::SearchText => {
                let mut text = joined(&q.artist, " ");
                push_text(&mut text, &q.track);
                Some(build_search_q_url(&text))
            },
            Stage::Relaxed => Some(build_get_url(&q.artist, &q.track, None, None)),
            Stage::Finished => None,
        }
    }

    /// Tells whether the durations of a reply count, because it is the result of a search.
    pub fn is_searching(&self) -> (r: bool)
        ensures
            r == (self.stage == Stage::SearchNames || self.stage == Stage::SearchText),
    {
        match self.stage {
            Stage::SearchNames | Stage::SearchText => true,
            _ => false,
        }
    }

    /// Takes in a reply, with a gap for each item of a search result.
    pub fn advance(self, reply: Option<Json>, gaps: &Vec<DurationGap>) -> (r: Self)
        requires
            gaps_fit(self.stage, json_view(reply), gaps@),
        ensures
            r@ == self@.after(json_view(reply), gaps@),
    {
        let Lookup { query, stage, current } = self;
        match stage {
            Stage::Exact => {
                let current = match &reply {
                    Some(json) => Some(parse_track(json)),
                    None => None,
                };
                let stage = if query.prefer_synced && !is_satisfying(&current) {
                    Stage::SearchNames
                } else {
                    close(&current)
                };
                Lookup { query, stage, current }
            },
            Stage::SearchNames | Stage::SearchText => {
                let best = match &reply {
                    Some(json) => pick_best(json, &query, gaps),
                    None => None,
                };
                match best {
                    Some(candidate) => {
                        let current = adopt(current, candidate);
                        let stage = close(&current);
                        Lookup { query, stage, current }
                    },
                    None => {
                        let stage = match stage {
                            Stage::SearchNames => Stage::SearchText,
                            _ => close(&current),
                        };
                        Lookup { query, stage, current }
                    },
                }
            },
            Stage::Relaxed => {
                let relaxed = match &reply {
                    Some(json) => Some(parse_track(json)),
                    None => None,
                };
                let current = match relaxed {
                    Some(t) => if t.has_any_lyrics() {
                        Some(t)
                    } else {
                        current
                    },
                    None => current,
                };
                Lookup { query, stage: Stage::Finished, current }
            },
            Stage::Finished => Lookup { query, stage, current },
        }
    }

    /// Gives the record that was found, if it carries any lyrics.
    pub fn result(self) -> (r: Option<LrclibTrack>)
        ensures
            record_view(r) == self@.outcome(),
    {
        match self.current {
            Some(t) => if t.has_any_lyrics() {
                Some(t)
            } else {
                None
            },
            None => None,
        }
    }
}

/// Every reply brings a lookup closer to its end: it takes four requests at most.
pub proof fn law_lookup_ends(search: Search, reply: Option<Value>, gaps: Seq<DurationGap>)
    requires
        search.next_url() is Some,
    ensures
        search.after(reply, gaps).left() < search.left() <= 4,
        search.after(reply, gaps).wanted == search.wanted,
        search.left() == 0 <==> search.next_url() is None,
{
}

/// What a lookup gives carries lyrics.
pub proof fn law_lookup_useful(search: Search)
    ensures
        search.outcome() matches Some(r) ==> r.has_any_lyrics(),
{
}

/// An exact match with synced lyrics, or of an instrumental track, is taken at once.
pub proof fn law_exact_match_wins(wanted: Wanted, found: Value, gaps: Seq<DurationGap>)
    requires
        record_of(found).has_synced_or_instrumental(),
    ensures
        ({
            let start = Search { wanted, stage: Stage::Exact, current: None };
            let end = start.after(Some(found), gaps);
            end.stage == Stage::Finished && end.outcome() == Some(record_of(found))
        }),
{
}

/// Whether a lookup is in a state it can come to: it starts without a record, and goes on only
/// while there is no satisfying one.
pub open spec fn reachable(search: Search) -> bool {
    &&& search.stage == Stage::Exact ==> search.current is None
    &&& search.stage != Stage::Finished ==> !satisfying(search.current)
}

/// A lookup stays in states it can come to.
pub proof fn law_lookup_reachable(search: Search, reply: Option<Value>, gaps: Seq<DurationGap>)
    requires
        reachable(search),
    ensures
        reachable(search.after(reply, gaps)),
        reachable(Search { wanted: search.wanted, stage: Stage::Exact, current: None }),
{
}

/// A lookup that has found lyrics does not end without any.
pub proof fn law_lyrics_kept(search: Search, reply: Option<Value>, gaps: Seq<DurationGap>)
    requires
        reachable(search),
        search.outcome() is Some,
    ensures
        search.after(reply, gaps).outcome() is Some,
{
}

/// A relaxed reply with lyrics is what the lookup gives, and one without leaves what was found
/// before. So the lookup gives nothing only where neither carries lyrics.
pub proof fn law_relaxed_reply(search: Search, reply: Option<Value>, gaps: Seq<DurationGap>)
    requires
        search.stage == Stage::Relaxed,
    ensures
        search.after(reply, gaps).outcome() == (if reply matches Some(v) && record_of(
            v,
        ).has_any_lyrics() {
            Some(record_of(reply->0))
        } else {
            search.outcome()
        }),
{
}

} // verus!
