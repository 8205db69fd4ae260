//! Which record a lookup gives, and what it asks LRCLIB for.

use vstd::prelude::*;
use vstd::utf8::encode_utf8;

use crate::http_client::{percent_decoded, percent_encoded};
use crate::json::{field_of, last_field_of, Value};
use crate::lrclib::{
    alphanumeric, best_item, best_record, encoded, item_score, normalized, reachable, record_of,
    score_of, DurationGap, LrclibTrack, Query, Record, Search, Stage, Wanted,
};
use crate::text::{decimal, holds, part_at};
use crate::types::text_view;

verus! {

/// Whether entry `i` of an object is the first one with its key.
pub open spec fn first_named(list: Seq<(Seq<char>, Value)>, i: int) -> bool {
    &&& 0 <= i < list.len()
    &&& forall|j: int| 0 <= j < i ==> (#[trigger] list[j]).0 != list[i].0
}

/// Whether an object has no entry with a key.
pub open spec fn unnamed(list: Seq<(Seq<char>, Value)>, key: Seq<char>) -> bool {
    forall|j: int| 0 <= j < list.len() ==> (#[trigger] list[j]).0 != key
}

/// The text that a JSON value is, if it is one.
pub open spec fn as_text(v: Value) -> Option<Seq<char>> {
    match v {
        Value::Text(s) => Some(s),
        _ => None,
    }
}

/// The first entry with a key is the one that is found.
pub proof fn law_first_entry(list: Seq<(Seq<char>, Value)>, i: int)
    requires
        first_named(list, i),
    ensures
        field_of(list, list[i].0) == Some(list[i].1),
    decreases list.len(),
{
    if i > 0 {
        let rest = list.drop_first();
        assert(list[0].0 != list[i].0);
        assert forall|j: int| 0 <= j < i - 1 implies (#[trigger] rest[j]).0 != rest[i - 1].0 by {
            assert(rest[j] == list[j + 1]);
        }
        law_first_entry(rest, i - 1);
    }
}

/// Nothing is found under a key that no entry has.
pub proof fn law_no_entry(list: Seq<(Seq<char>, Value)>, key: Seq<char>)
    requires
        unnamed(list, key),
    ensures
        field_of(list, key) is None,
    decreases list.len(),
{
    if list.len() > 0 {
        let rest = list.drop_first();
        assert forall|j: int| 0 <= j < rest.len() implies (#[trigger] rest[j]).0 != key by {
            assert(rest[j] == list[j + 1]);
        }
        assert(list[0].0 != key);
        law_no_entry(rest, key);
    }
}

/// Of several entries with a key the last one counts where a map is made of an object.
pub proof fn law_last_entry(list: Seq<(Seq<char>, Value)>, i: int)
    requires
        0 <= i < list.len(),
        forall|j: int| i < j < list.len() ==> (#[trigger] list[j]).0 != list[i].0,
    ensures
        last_field_of(list, list[i].0) == Some(list[i].1),
    decreases list.len(),
{
    if i < list.len() - 1 {
        let part = list.drop_last();
        assert(list[list.len() - 1].0 != list[i].0);
        assert forall|j: int| i < j < part.len() implies (#[trigger] part[j]).0 != part[i].0 by {
            assert(part[j] == list[j]);
        }
        law_last_entry(part, i);
    }
}

/// Each field of a record comes from the first entry of the JSON object with the name that LRCLIB
/// gives it.
pub proof fn law_record_fields(list: Seq<(Seq<char>, Value)>, i: int)
    requires
        first_named(list, i),
    ensures
        ({
            let r = record_of(Value::Object(list));
            let (key, v) = list[i];
            &&& key == "artistName"@ ==> r.artist == as_text(v)
            &&& key == "trackName"@ ==> r.track == as_text(v)
            &&& key == "albumName"@ ==> r.album == as_text(v)
            &&& key == "syncedLyrics"@ ==> r.synced == as_text(v)
            &&& key == "plainLyrics"@ ==> r.plain == as_text(v)
            &&& key == "instrumental"@ ==> r.instrumental == (v == Value::Bool(true))
            &&& key == "duration"@ ==> (v matches Value::Number(n) ==> r.duration == n)
            &&& key == "duration"@ ==> (v !is Number ==> r.duration == seq!['0'])
        }),
{
    reveal_strlit("0");
    assert("0"@ =~= seq!['0']);
    law_first_entry(list, i);
}

/// A field of a record that the JSON object does not name is missing, and so are all fields of
/// what is no object.
#[verifier::spinoff_prover]
#[verifier::rlimit(40)]
pub proof fn law_record_gaps(list: Seq<(Seq<char>, Value)>, v: Value)
    ensures
        ({
            let r = record_of(Value::Object(list));
            &&& unnamed(list, "artistName"@) ==> r.artist is None
            &&& unnamed(list, "trackName"@) ==> r.track is None
            &&& unnamed(list, "albumName"@) ==> r.album is None
            &&& unnamed(list, "syncedLyrics"@) ==> r.synced is None
            &&& unnamed(list, "plainLyrics"@) ==> r.plain is None
            &&& unnamed(list, "instrumental"@) ==> !r.instrumental
            &&& unnamed(list, "duration"@) ==> r.duration == seq!['0']
        }),
        v !is Object ==> ({
            let r = record_of(v);
            &&& r.artist is None && r.track is None && r.album is None
            &&& r.synced is None && r.plain is None && !r.instrumental
            &&& r.duration == seq!['0']
        }),
{
    reveal_strlit("0");
    assert("0"@ =~= seq!['0']);
    if unnamed(list, "artistName"@) {
        law_no_entry(list, "artistName"@);
    }
    if unnamed(list, "trackName"@) {
        law_no_entry(list, "trackName"@);
    }
    if unnamed(list, "albumName"@) {
        law_no_entry(list, "albumName"@);
    }
    if unnamed(list, "syncedLyrics"@) {
        law_no_entry(list, "syncedLyrics"@);
    }
    if unnamed(list, "plainLyrics"@) {
        law_no_entry(list, "plainLyrics"@);
    }
    if unnamed(list, "instrumental"@) {
        law_no_entry(list, "instrumental"@);
    }
    if unnamed(list, "duration"@) {
        law_no_entry(list, "duration"@);
    }
}

/// A record and a query hold what their fields hold.
pub proof fn law_record_held(t: LrclibTrack, q: Query)
    ensures
        t@.artist == text_view(t.artist_name),
        t@.track == text_view(t.track_name),
        t@.album == text_view(t.album_name),
        t@.duration == t.duration@,
        t@.synced == text_view(t.synced_lyrics),
        t@.plain == text_view(t.plain_lyrics),
        t@.instrumental == t.instrumental,
        q@.artist == q.artist@,
        q@.track == q.track@,
        q@.album == text_view(q.album),
        q@.duration == q.duration,
        q@.prefer_synced == q.prefer_synced,
{
}

/// Whether there is a text of at least one character.
pub open spec fn filled(text: Option<Seq<char>>) -> bool {
    text matches Some(s) && s.len() >= 1
}

/// Whether a record says how a track is sung from second to second, or that it is not sung at all.
pub open spec fn settling(r: Record) -> bool {
    r.instrumental || filled(r.synced)
}

/// A search whose best candidate has synced lyrics, or is instrumental, ends the lookup with that
/// candidate, whatever was found before. Any other candidate only takes the place of a record
/// without plain lyrics, and the lookup goes on.
pub proof fn law_search_settles(
    search: Search,
    items: Seq<Value>,
    gaps: Seq<DurationGap>,
    k: int,
)
    requires
        search.stage == Stage::SearchNames || search.stage == Stage::SearchText,
        best_item(items, search.wanted, gaps, k),
    ensures
        ({
            let found = record_of(items[k]);
            let next = search.after(Some(Value::Array(items)), gaps);
            &&& next.wanted == search.wanted
            &&& settling(found) ==> next.next_url() is None && next.outcome() == Some(found)
            &&& !settling(found) && (search.current matches Some(c) && filled(c.plain))
                ==> next.current == search.current
            &&& !settling(found) && !(search.current matches Some(c) && filled(c.plain))
                ==> next.current == Some(found) && next.stage == Stage::Relaxed
            &&& !settling(found) && (search.current matches Some(c) && !settling(c))
                ==> next.stage == Stage::Relaxed
        }),
{
    let chosen = choose|j: int| best_item(items, search.wanted, gaps, j);
    assert(best_item(items, search.wanted, gaps, chosen));
    crate::lrclib::law_best_is_one(items, search.wanted, gaps, chosen, k);
}

/// The best item of a search is the first of those with the highest score, which is 70 at least.
pub proof fn law_best_item(items: Seq<Value>, wanted: Wanted, gaps: Seq<DurationGap>, k: int)
    requires
        best_item(items, wanted, gaps, k),
    ensures
        0 <= k < items.len(),
        score_of(record_of(items[k]), wanted, gaps[k]) >= 70,
        forall|i: int|
            0 <= i < items.len() ==> score_of(
                record_of(#[trigger] items[i]),
                wanted,
                gaps[i],
            ) <= score_of(record_of(items[k]), wanted, gaps[k]),
        forall|i: int|
            0 <= i < k ==> score_of(record_of(#[trigger] items[i]), wanted, gaps[i]) < score_of(
                record_of(items[k]),
                wanted,
                gaps[k],
            ),
        best_record(Value::Array(items), wanted, gaps) == Some(record_of(items[k])),
{
    let chosen = choose|j: int| best_item(items, wanted, gaps, j);
    assert(best_item(items, wanted, gaps, chosen));
    crate::lrclib::law_best_is_one(items, wanted, gaps, chosen, k);
    assert forall|i: int| 0 <= i < items.len() implies score_of(
        record_of(#[trigger] items[i]),
        wanted,
        gaps[i],
    ) <= score_of(record_of(items[k]), wanted, gaps[k]) by {
        assert(item_score(items, wanted, gaps, i) <= item_score(items, wanted, gaps, k));
    }
    assert forall|i: int| 0 <= i < k implies score_of(
        record_of(#[trigger] items[i]),
        wanted,
        gaps[i],
    ) < score_of(record_of(items[k]), wanted, gaps[k]) by {
        assert(item_score(items, wanted, gaps, i) < item_score(items, wanted, gaps, k));
    }
}

/// A search finds something exactly if some item reaches 70 points.
pub proof fn law_search_finds(items: Seq<Value>, wanted: Wanted, gaps: Seq<DurationGap>, k: int)
    requires
        0 <= k < items.len(),
        score_of(record_of(items[k]), wanted, gaps[k]) >= 70,
    ensures
        exists|j: int| best_item(items, wanted, gaps, j),
        best_record(Value::Array(items), wanted, gaps) is Some,
{
    let j = lemma_highest(items, wanted, gaps, items.len() as int);
    assert(item_score(items, wanted, gaps, k) <= item_score(items, wanted, gaps, j));
    assert(best_item(items, wanted, gaps, j));
}

proof fn lemma_highest(items: Seq<Value>, wanted: Wanted, gaps: Seq<DurationGap>, n: int) -> (j: int)
    requires
        0 < n <= items.len(),
    ensures
        0 <= j < n,
        forall|i: int|
            0 <= i < n ==> #[trigger] item_score(items, wanted, gaps, i) <= item_score(
                items,
                wanted,
                gaps,
                j,
            ),
        forall|i: int|
            0 <= i < j ==> #[trigger] item_score(items, wanted, gaps, i) < item_score(
                items,
                wanted,
                gaps,
                j,
            ),
    decreases n,
{
    if n == 1 {
        0
    } else {
        let j = lemma_highest(items, wanted, gaps, n - 1);
        if item_score(items, wanted, gaps, n - 1) > item_score(items, wanted, gaps, j) {
            n - 1
        } else {
            j
        }
    }
}

/// A search that finds nothing leaves what was found: the search by names is followed by one by
/// free text, and that one by the relaxed request.
pub proof fn law_search_misses(search: Search, reply: Option<Value>, gaps: Seq<DurationGap>)
    requires
        search.stage == Stage::SearchNames || search.stage == Stage::SearchText,
        !(search.current matches Some(c) && settling(c)),
        reply matches Some(Value::Array(items)) ==> forall|i: int|
            0 <= i < items.len() ==> score_of(
                record_of(#[trigger] items[i]),
                search.wanted,
                gaps[i],
            ) < 70,
    ensures
        ({
            let next = search.after(reply, gaps);
            &&& next.wanted == search.wanted
            &&& next.current == search.current
            &&& next.stage == (if search.stage == Stage::SearchNames {
                Stage::SearchText
            } else {
                Stage::Relaxed
            })
        }),
{
    if let Some(Value::Array(items)) = reply {
        assert forall|k: int| !best_item(items, search.wanted, gaps, k) by {
            if best_item(items, search.wanted, gaps, k) {
                assert(score_of(record_of(items[k]), search.wanted, gaps[k]) < 70);
            }
        }
    }
}

/// A lookup at a stage.
pub open spec fn at_stage(wanted: Wanted, stage: Stage, current: Option<Record>) -> Search {
    Search { wanted, stage, current }
}

/// The exact request comes first. A reply with synced lyrics, or for an instrumental track, ends
/// the lookup; after any other the searches follow where synced lyrics are preferred, and the
/// relaxed request where they are not.
pub proof fn law_exact_reply(wanted: Wanted, reply: Option<Value>, gaps: Seq<DurationGap>)
    ensures
        ({
            let start = at_stage(wanted, Stage::Exact, None);
            let next = start.after(reply, gaps);
            &&& next.wanted == wanted
            &&& reply is None ==> next.current is None
            &&& reply matches Some(v) ==> next.current == Some(record_of(v))
            &&& (reply matches Some(v) && settling(record_of(v))) ==> next.next_url() is None
                && next.outcome() == Some(record_of(reply->0))
            &&& !(reply matches Some(v) && settling(record_of(v))) ==> next.stage == (
            if wanted.prefer_synced {
                Stage::SearchNames
            } else {
                Stage::Relaxed
            })
        }),
{
}

/// Whether a record says anything about the lyrics of a track.
pub open spec fn useful(r: Record) -> bool {
    r.instrumental || filled(r.synced) || filled(r.plain)
}

/// After the relaxed request the lookup is over. It gives the record of the reply where that
/// carries synced lyrics, plain lyrics or the instrumental flag, and else the record from before
/// where that carries any of these.
pub proof fn law_relaxed_ends(search: Search, reply: Option<Value>, gaps: Seq<DurationGap>)
    requires
        search.stage == Stage::Relaxed,
    ensures
        ({
            let next = search.after(reply, gaps);
            let fresh = (reply matches Some(v) && useful(record_of(v)));
            let before = (search.current matches Some(c) && useful(c));
            &&& next.next_url() is None
            &&& fresh ==> next.outcome() == Some(record_of(reply->0))
            &&& !fresh && before ==> next.outcome() == search.current
            &&& !fresh && !before ==> next.outcome() is None
        }),
{
}

/// A lookup that is over stays as it is.
pub proof fn law_lookup_over(search: Search, reply: Option<Value>, gaps: Seq<DurationGap>)
    requires
        search.stage == Stage::Finished,
    ensures
        search.after(reply, gaps) == search,
        search.next_url() is None,
        search.current matches Some(r) && useful(r) ==> search.outcome() == search.current,
        search.current matches Some(r) && !useful(r) ==> search.outcome() is None,
        search.current is None ==> search.outcome() is None,
{
}

/// What is found stays found until something better comes: plain lyrics are never exchanged for
/// none, and a track is only given up where no reply had any lyrics.
pub proof fn law_nothing_lost(search: Search, reply: Option<Value>, gaps: Seq<DurationGap>)
    requires
        reachable(search),
        search.current matches Some(c) && filled(c.plain),
    ensures
        search.after(reply, gaps).outcome() matches Some(r) && useful(r),
{
}

/// Normalisation goes part by part: letters are made small, digits stay, and every other
/// character is dropped.
pub proof fn law_normalized_char(c: char)
    ensures
        'a' <= c <= 'z' ==> normalized(seq![c]) == seq![c],
        '0' <= c <= '9' ==> normalized(seq![c]) == seq![c],
        'A' <= c <= 'Z' ==> normalized(seq![c]).len() == 1 && normalized(seq![c])[0] as int
            == c as int + 32,
        !('a' <= c <= 'z' || 'A' <= c <= 'Z' || '0' <= c <= '9') ==> normalized(seq![c])
            == Seq::<char>::empty(),
{
    assert(seq![c].drop_last() =~= Seq::<char>::empty());
    assert(seq![c].last() == c);
    assert(normalized(Seq::<char>::empty()) =~= Seq::<char>::empty());
    if alphanumeric(c) {
        assert(normalized(seq![c]) =~= seq![crate::text::small(c)]);
    }
}

/// Normalisation goes part by part.
pub proof fn law_normalized_parts(a: Seq<char>, b: Seq<char>)
    ensures
        normalized(a + b) == normalized(a) + normalized(b),
        normalized(Seq::empty()) == Seq::<char>::empty(),
    decreases b.len(),
{
    if b.len() == 0 {
        assert(a + b =~= a);
        assert(normalized(a) + normalized(b) =~= normalized(a));
    } else {
        law_normalized_parts(a, b.drop_last());
        assert((a + b).drop_last() =~= a + b.drop_last());
        assert((a + b).last() == b.last());
        assert(normalized(a + b) =~= normalized(a) + normalized(b));
    }
}

/// A text holds another one exactly if it is that one with something before and after it.
pub proof fn law_holds(s: Seq<char>, part: Seq<char>, ahead: Seq<char>, behind: Seq<char>)
    ensures
        holds(ahead + part + behind, part),
        holds(s, part) ==> exists|a: Seq<char>, z: Seq<char>| s == #[trigger] (a + part + z),
{
    let whole = ahead + part + behind;
    assert(whole.subrange(ahead.len() as int, (ahead.len() + part.len()) as int) =~= part);
    assert(part_at(whole, ahead.len() as int, part));
    if holds(s, part) {
        let at = choose|at: int| part_at(s, at, part);
        let a = s.subrange(0, at);
        let z = s.subrange(at + part.len(), s.len() as int);
        assert(s =~= a + part + z);
    }
}

/// Whether two names are the same but for case, spaces and punctuation.
pub open spec fn same_name(a: Seq<char>, b: Seq<char>) -> bool {
    normalized(a).len() > 0 && normalized(a) == normalized(b)
}

/// Whether one name holds the other, but for case, spaces and punctuation, and they are not the
/// same.
pub open spec fn part_name(a: Seq<char>, b: Seq<char>) -> bool {
    &&& normalized(a).len() > 0 && normalized(b).len() > 0
    &&& normalized(a) != normalized(b)
    &&& holds(normalized(a), normalized(b)) || holds(normalized(b), normalized(a))
}

/// A text, or an empty one where there is none.
pub open spec fn text_or(t: Option<Seq<char>>) -> Seq<char> {
    match t {
        Some(s) => s,
        None => seq![],
    }
}

/// The points for the names alone: 60 for the track and 40 for the artist where they are the same,
/// 25 and 15 where one name holds the other, and none at all where either name does not match.
pub proof fn law_score_of_names(c: Record, wanted: Wanted, gap: DurationGap)
    requires
        c.album is None || wanted.album is None,
        wanted.duration is None,
        !c.instrumental && !filled(c.synced) && !filled(c.plain),
    ensures
        ({
            let score = score_of(c, wanted, gap);
            let track = text_or(c.track);
            let artist = text_or(c.artist);
            &&& same_name(wanted.track, track) && same_name(wanted.artist, artist) ==> score == 100
            &&& same_name(wanted.track, track) && part_name(wanted.artist, artist) ==> score == 75
            &&& part_name(wanted.track, track) && same_name(wanted.artist, artist) ==> score == 65
            &&& part_name(wanted.track, track) && part_name(wanted.artist, artist) ==> score == 40
        }),
{
    reveal_strlit("");
    assert(""@ =~= Seq::<char>::empty());
}

/// A candidate whose track or artist does not match has no points, whatever else it has.
pub proof fn law_other_names(c: Record, wanted: Wanted, gap: DurationGap)
    requires
        ({
            let track = text_or(c.track);
            let artist = text_or(c.artist);
            ||| !same_name(wanted.track, track) && !part_name(wanted.track, track)
            ||| !same_name(wanted.artist, artist) && !part_name(wanted.artist, artist)
        }),
    ensures
        score_of(c, wanted, gap) == 0,
{
    reveal_strlit("");
    assert(""@ =~= Seq::<char>::empty());
}

/// The album adds 15 points to a candidate that matches where it is the same, 5 where one name
/// holds the other, and none otherwise.
pub proof fn law_score_of_album(c: Record, wanted: Wanted, gap: DurationGap)
    requires
        score_of(Record { album: None, ..c }, wanted, gap) > 0,
    ensures
        ({
            let added = score_of(c, wanted, gap) - score_of(
                Record { album: None, ..c },
                wanted,
                gap,
            );
            match (wanted.album, c.album) {
                (Some(a), Some(b)) => {
                    &&& same_name(a, b) ==> added == 15
                    &&& part_name(a, b) ==> added == 5
                    &&& !same_name(a, b) && !part_name(a, b) ==> added == 0
                },
                _ => added == 0,
            }
        }),
{
}

/// A duration adds 15 points to a candidate that matches where it is at most two seconds off, 8
/// where it is at most five, and none otherwise or where either is not known. The bounds are the
/// bits of 2.0 and 5.0.
pub proof fn law_score_of_duration(c: Record, wanted: Wanted, gap: DurationGap)
    requires
        score_of(c, Wanted { duration: None, ..wanted }, gap) > 0,
    ensures
        ({
            let added = score_of(c, wanted, gap) - score_of(
                c,
                Wanted { duration: None, ..wanted },
                gap,
            );
            let known = (wanted.duration matches Some(d) && d > 0) && 0 < gap.found
                <= 0x7ff0_0000_0000_0000;
            &&& known && gap.distance <= 0x4000_0000_0000_0000 ==> added == 15
            &&& known && 0x4000_0000_0000_0000 < gap.distance <= 0x4014_0000_0000_0000 ==> added == 8
            &&& known && gap.distance > 0x4014_0000_0000_0000 ==> added == 0
            &&& !known ==> added == 0
        }),
{
}

/// Lyrics add points to a candidate that matches: 20 where it is instrumental, else 30 for synced
/// lyrics where they are preferred and 15 where they are not, else 5 for plain lyrics.
pub proof fn law_score_of_lyrics(c: Record, wanted: Wanted, gap: DurationGap)
    requires
        score_of(Record { instrumental: false, synced: None, plain: None, ..c }, wanted, gap) > 0,
    ensures
        ({
            let added = score_of(c, wanted, gap) - score_of(
                Record { instrumental: false, synced: None, plain: None, ..c },
                wanted,
                gap,
            );
            &&& c.instrumental ==> added == 20
            &&& !c.instrumental && filled(c.synced) && wanted.prefer_synced ==> added == 30
            &&& !c.instrumental && filled(c.synced) && !wanted.prefer_synced ==> added == 15
            &&& !c.instrumental && !filled(c.synced) && filled(c.plain) ==> added == 5
            &&& !c.instrumental && !filled(c.synced) && !filled(c.plain) ==> added == 0
        }),
{
}

/// Of two candidates that differ in their lyrics only, one with synced lyrics is always picked
/// over one with plain lyrics.
pub proof fn law_synced_picked(
    items: Seq<Value>,
    wanted: Wanted,
    gaps: Seq<DurationGap>,
    synced: int,
    plain: int,
)
    requires
        0 <= synced < items.len(),
        0 <= plain < items.len(),
        gaps[synced] == gaps[plain],
        ({
            let s = record_of(items[synced]);
            let p = record_of(items[plain]);
            &&& s.artist == p.artist && s.track == p.track && s.album == p.album
            &&& filled(s.synced)
            &&& !p.instrumental && !filled(p.synced)
        }),
    ensures
        !best_item(items, wanted, gaps, plain),
{
    if best_item(items, wanted, gaps, plain) {
        assert(item_score(items, wanted, gaps, synced) <= item_score(items, wanted, gaps, plain));
    }
}

/// Whether a text in a query stands for another: decoded it is that one in UTF-8, and it holds
/// none of the characters that part a query.
pub open spec fn carries(part: Seq<char>, text: Seq<char>) -> bool {
    &&& percent_decoded(part) == encode_utf8(text)
    &&& forall|i: int|
        0 <= i < part.len() ==> #[trigger] part[i] != '&' && part[i] != '=' && part[i] != '?'
            && part[i] != '/' && part[i] != ' '
}

/// A text that is encoded for a query carries itself.
pub proof fn law_query_text(text: Seq<char>)
    ensures
        carries(encoded(text), text),
{
    let b = encode_utf8(text);
    crate::http_client::law_url_round_trip(b);
    assert forall|i: int| 0 <= i < percent_encoded(b).len() implies #[trigger] percent_encoded(b)[i]
        != '&' && percent_encoded(b)[i] != '=' && percent_encoded(b)[i] != '?' && percent_encoded(
        b,
    )[i] != '/' && percent_encoded(b)[i] != ' ' by {
        assert(crate::http_client::url_safe(percent_encoded(b)[i]));
    }
}

/// The exact request asks for artist and track, for the album where there is one, and for the
/// duration where it is not zero.
pub proof fn law_exact_request(wanted: Wanted, current: Option<Record>)
    ensures
        ({
            let url = at_stage(wanted, Stage::Exact, current).next_url();
            let names = "https://lrclib.net/api/get?artist_name="@ + encoded(wanted.artist)
                + "&track_name="@ + encoded(wanted.track);
            let album = match wanted.album {
                Some(a) => names + "&album_name="@ + encoded(a),
                None => names,
            };
            &&& carries(encoded(wanted.artist), wanted.artist)
            &&& carries(encoded(wanted.track), wanted.track)
            &&& wanted.album matches Some(a) ==> carries(encoded(a), a)
            &&& (wanted.duration matches Some(d) && d > 0) ==> url == Some(
                album + "&duration="@ + decimal(wanted.duration->0 as nat),
            )
            &&& !(wanted.duration matches Some(d) && d > 0) ==> url == Some(album)
        }),
{
    law_query_text(wanted.artist);
    law_query_text(wanted.track);
    if let Some(a) = wanted.album {
        law_query_text(a);
    }
}

/// The searches ask for artist and track by name, and then for both in one text. The relaxed
/// request asks for artist and track and for nothing else.
pub proof fn law_further_requests(wanted: Wanted, current: Option<Record>)
    ensures
        at_stage(wanted, Stage::SearchNames, current).next_url() == Some(
            "https://lrclib.net/api/search?artist_name="@ + encoded(wanted.artist) + "&track_name="@
                + encoded(wanted.track),
        ),
        at_stage(wanted, Stage::SearchText, current).next_url() == Some(
            "https://lrclib.net/api/search?q="@ + encoded(wanted.artist + seq![' '] + wanted.track),
        ),
        at_stage(wanted, Stage::Relaxed, current).next_url() == Some(
            "https://lrclib.net/api/get?artist_name="@ + encoded(wanted.artist) + "&track_name="@
                + encoded(wanted.track),
        ),
        at_stage(wanted, Stage::Finished, current).next_url() is None,
        carries(encoded(wanted.artist), wanted.artist),
        carries(encoded(wanted.track), wanted.track),
        carries(
            encoded(wanted.artist + seq![' '] + wanted.track),
            wanted.artist + seq![' '] + wanted.track,
        ),
{
    reveal_strlit(" ");
    assert(" "@ =~= seq![' ']);
    law_query_text(wanted.artist);
    law_query_text(wanted.track);
    law_query_text(wanted.artist + seq![' '] + wanted.track);
}

} // verus!
