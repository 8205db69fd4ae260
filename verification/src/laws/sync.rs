//! How a track is synced, and in which order tracks come.

use vstd::prelude::*;

use crate::fs_util::{hidden, numbered, sorted, stem};
use crate::laws::text::law_last_place;
use crate::lrclib::{Record, Wanted};
use crate::metadata::LyricsOutcome;
use crate::sync::{
    first_step, next_step, workers, Event, EventView, Found, FoundView, Sidecar, SidecarView, Step,
    StepView, TrackResult,
};
use crate::types::{SyncConfig, SyncResult, Track, TrackOutcome};

verus! {

/// A result: how the track ended, and whether it is logged as plain or as missing.
pub open spec fn ended(outcome: TrackOutcome, is_plain: bool, is_missing: bool) -> TrackResult {
    TrackResult { outcome, is_plain, is_missing }
}

/// A track with artist and title starts with a look at its sidecar; any other is an error and
/// logged as missing.
pub proof fn law_track_starts(track: Track)
    ensures
        track.artist is Some && track.title is Some ==> first_step(track) == StepView::ReadSidecar,
        track.artist is None || track.title is None ==> first_step(track) == StepView::Finish(
            ended(TrackOutcome::Error, false, true),
            false,
        ),
{
}

/// The text of a sidecar is embedded as it is. A track counts as synced once it was written, as
/// skipped where the file had lyrics, and as an error where it could not be written or read; the
/// sidecar is deleted where it was written and that is asked for.
pub proof fn law_sidecar_story(text: Seq<char>, track: Track, config: SyncConfig)
    ensures
        ({
            let read = StepView::ReadSidecar;
            let embed = StepView::EmbedSidecar(text);
            let contents = EventView::Sidecar(SidecarView::Contents(text));
            let written = EventView::Embedded(Some(LyricsOutcome::Written));
            let skipped = EventView::Embedded(Some(LyricsOutcome::Skipped));
            let failed = EventView::Embedded(None);
            let unreadable = EventView::Sidecar(SidecarView::Unreadable);
            &&& next_step(read, contents, track, config) == embed
            &&& next_step(embed, written, track, config) == StepView::Finish(
                ended(TrackOutcome::Synced, false, false),
                config.clean_lrc,
            )
            &&& next_step(embed, skipped, track, config) == StepView::Finish(
                ended(TrackOutcome::Skipped, false, false),
                false,
            )
            &&& next_step(embed, failed, track, config) == StepView::Finish(
                ended(TrackOutcome::Error, false, false),
                false,
            )
            &&& next_step(read, unreadable, track, config) == StepView::Finish(
                ended(TrackOutcome::Error, false, false),
                false,
            )
        }),
{
}

/// Where there is no sidecar, LRCLIB is asked for the artist, title and album of the track, for its
/// duration where that is known, and with the preference that is configured.
pub proof fn law_asks_for_the_track(
    artist: Seq<char>,
    title: Seq<char>,
    track: Track,
    config: SyncConfig,
)
    requires
        track.artist == Some(artist),
        track.title == Some(title),
    ensures
        next_step(
            StepView::ReadSidecar,
            EventView::Sidecar(SidecarView::Missing),
            track,
            config,
        ) matches StepView::Ask(w) && {
            &&& w.artist == artist
            &&& w.track == title
            &&& w.album == track.album
            &&& track.duration > 0 ==> w.duration == Some(track.duration)
            &&& track.duration == 0 ==> w.duration is None
            &&& w.prefer_synced == config.prefer_synced
        },
{
}

/// An instrumental track is done. Synced lyrics are embedded where there are any, else plain ones;
/// where there are none, or nothing was found, the track is not found and logged as missing, and a
/// failed lookup is an error.
pub proof fn law_lookup_story(asked: Wanted, r: Record, track: Track, config: SyncConfig)
    ensures
        ({
            let ask = StepView::Ask(asked);
            let next = next_step(ask, EventView::Lookup(FoundView::Track(r)), track, config);
            let silent = r.synced is None || r.synced->0.len() == 0;
            &&& r.instrumental ==> next == StepView::Finish(
                ended(TrackOutcome::Synced, false, false),
                false,
            )
            &&& !r.instrumental && !silent ==> next == StepView::EmbedFound(r.synced->0, true)
            &&& !r.instrumental && silent && r.plain is Some ==> next == StepView::EmbedFound(
                r.plain->0,
                false,
            )
            &&& !r.instrumental && silent && r.plain is None ==> next == StepView::Finish(
                ended(TrackOutcome::NotFound, false, true),
                false,
            )
            &&& next_step(ask, EventView::Lookup(FoundView::Nothing), track, config)
                == StepView::Finish(ended(TrackOutcome::NotFound, false, true), false)
            &&& next_step(ask, EventView::Lookup(FoundView::Failed), track, config)
                == StepView::Finish(ended(TrackOutcome::Error, false, false), false)
        }),
{
}

/// A track whose lyrics from LRCLIB were written counts as synced or, where they are plain, as
/// plain, and is logged as such; one that had lyrics is skipped, and one that could not be written
/// is an error. Its sidecar is never deleted.
pub proof fn law_embedding_story(lyrics: Seq<char>, track: Track, config: SyncConfig)
    ensures
        ({
            let synced = StepView::EmbedFound(lyrics, true);
            let plain = StepView::EmbedFound(lyrics, false);
            let written = EventView::Embedded(Some(LyricsOutcome::Written));
            let skipped = EventView::Embedded(Some(LyricsOutcome::Skipped));
            let failed = EventView::Embedded(None);
            let skip = StepView::Finish(ended(TrackOutcome::Skipped, false, false), false);
            let fail = StepView::Finish(ended(TrackOutcome::Error, false, false), false);
            &&& next_step(synced, written, track, config) == StepView::Finish(
                ended(TrackOutcome::Synced, false, false),
                false,
            )
            &&& next_step(plain, written, track, config) == StepView::Finish(
                ended(TrackOutcome::Plain, true, false),
                false,
            )
            &&& next_step(synced, skipped, track, config) == skip
            &&& next_step(plain, skipped, track, config) == skip
            &&& next_step(synced, failed, track, config) == fail
            &&& next_step(plain, failed, track, config) == fail
        }),
{
}

/// A step and an event hold what their fields hold.
pub proof fn law_step_held(step: Step, event: Event)
    ensures
        match step {
            Step::ReadSidecar => step@ == StepView::ReadSidecar,
            Step::EmbedSidecar(s) => step@ == StepView::EmbedSidecar(s@),
            Step::Ask(q) => step@ == StepView::Ask(q@),
            Step::EmbedFound(s, synced) => step@ == StepView::EmbedFound(s@, synced),
            Step::Finish(r, delete) => step@ == StepView::Finish(r, delete),
        },
        match event {
            Event::Sidecar(Sidecar::Missing) => event@ == EventView::Sidecar(SidecarView::Missing),
            Event::Sidecar(Sidecar::Unreadable) => event@ == EventView::Sidecar(
                SidecarView::Unreadable,
            ),
            Event::Sidecar(Sidecar::Contents(s)) => event@ == EventView::Sidecar(
                SidecarView::Contents(s@),
            ),
            Event::Embedded(e) => event@ == EventView::Embedded(e),
            Event::Lookup(Found::Track(t)) => event@ == EventView::Lookup(FoundView::Track(t@)),
            Event::Lookup(Found::Nothing) => event@ == EventView::Lookup(FoundView::Nothing),
            Event::Lookup(Found::Failed) => event@ == EventView::Lookup(FoundView::Failed),
        },
{
}

/// There are as many workers as threads, but no more than tracks, and at least one.
pub proof fn law_workers(threads: int, tracks: int)
    requires
        0 <= threads,
        0 <= tracks < 0x1_0000_0000,
    ensures
        threads >= 1 && tracks >= 1 ==> workers(threads, tracks) == (if threads < tracks {
            threads
        } else {
            tracks
        }),
        threads == 0 || tracks == 0 ==> workers(threads, tracks) == 1,
{
}

/// Each outcome has a count of its own, and together they make up the total.
pub proof fn law_counts(r: SyncResult)
    ensures
        r.count(TrackOutcome::Synced) == r.synced,
        r.count(TrackOutcome::Plain) == r.plain,
        r.count(TrackOutcome::Skipped) == r.skipped,
        r.count(TrackOutcome::NotFound) == r.not_found,
        r.count(TrackOutcome::Error) == r.errors,
        r.total() == r.synced + r.plain + r.skipped + r.not_found + r.errors,
        SyncResult::zero().total() == 0,
{
}

/// Tracks come in the order of their numbers, those without one last; none is lost or added, and
/// tracks with the same number keep their order.
pub proof fn law_track_order(tracks: Seq<Track>, n: u32, i: int, j: int)
    requires
        0 <= i < j < tracks.len(),
    ensures
        sorted(tracks).len() == tracks.len(),
        sorted(tracks).to_multiset() =~= tracks.to_multiset(),
        sorted(tracks)[i].track_number == 0 ==> sorted(tracks)[j].track_number == 0,
        sorted(tracks)[j].track_number != 0 ==> sorted(tracks)[i].track_number <= sorted(
            tracks,
        )[j].track_number,
        sorted(tracks).filter(|t: Track| t.track_number == n) == tracks.filter(
            |t: Track| t.track_number == n,
        ),
{
    crate::fs_util::law_sorted(tracks, n);
    let all = sorted(tracks);
    tracks.to_multiset_ensures();
    all.to_multiset_ensures();
    assert(numbered(all, n) == numbered(tracks, n));
    assert(all[i].track_number == all[i].track_number && all[j].track_number
        == all[j].track_number);
}

/// The name of a sidecar is that of the audio file up to its last dot. A name without a dot, or with
/// none but its first character, is taken whole.
pub proof fn law_stem(name: Seq<char>, extension: Seq<char>)
    requires
        forall|i: int| 0 <= i < extension.len() ==> #[trigger] extension[i] != '.',
    ensures
        name.len() > 0 ==> stem(name + seq!['.'] + extension) == name,
        stem(seq!['.'] + extension) == seq!['.'] + extension,
        stem(extension) == extension,
{
    let none = Seq::<char>::empty();
    let all = name + seq!['.'] + extension;
    law_last_place(name, '.', extension);
    law_last_place(none, '.', extension);
    assert(all.subrange(0, name.len() as int) =~= name);
    assert(none + seq!['.'] + extension =~= seq!['.'] + extension);
}

/// A name that starts with a dot is hidden, and no other.
pub proof fn law_hidden(name: Seq<char>)
    ensures
        hidden(Some(seq!['.'] + name)),
        name.len() > 0 && name[0] != '.' ==> !hidden(Some(name)),
        !hidden(None),
{
}

} // verus!
