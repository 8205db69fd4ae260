//! The decisions of the lyrics sync engine.
//!
//! For each track it tries, in order:
//!
//! 1. **Local `.lrc` sidecar** — if a file `track.flac` is accompanied by
//!    `track.lrc`, embed its contents immediately and (optionally) delete it.
//! 2. **LRCLIB API** — query LRCLIB with the track's `(artist, title,
//!    album, duration)`, using the full fallback strategy of
//!    [`crate::lrclib::Lookup`].
//!
//! Files, requests and threads are left to the caller, who tells what came of them.

use vstd::prelude::*;

use crate::lrclib::{is_present, present, LrclibTrack, Query, Record, Wanted};
use crate::metadata::LyricsOutcome;
use crate::types::{text_view, SyncConfig, Track, TrackMeta, TrackOutcome};

verus! {

/// Per-track result. The caller maps each field onto the right counter.
#[derive(Debug, Clone, Copy, PartialEq, Eq, Structural)]
pub struct TrackResult {
    pub outcome: TrackOutcome,
    /// `true` if the track should be logged to the "plain lyrics" output file.
    pub is_plain: bool,
    /// `true` if the track should be logged to the "missing" output file.
    pub is_missing: bool,
}

/// A result of which no log is to be kept.
pub open spec fn unlogged(outcome: TrackOutcome) -> TrackResult {
    TrackResult { outcome, is_plain: false, is_missing: false }
}

/// A result that goes to the "missing" output file.
pub open spec fn missing(outcome: TrackOutcome) -> TrackResult {
    TrackResult { outcome, is_plain: false, is_missing: true }
}

/// Whether a track can be looked up: it has an artist and a title.
pub open spec fn identified(track: Track) -> bool {
    track.artist is Some && track.title is Some
}

/// Gives the result for a track without artist or title, which cannot be looked up. Its tag is in
/// error, and it counts as missing lyrics.
pub fn check_identity(track: &TrackMeta) -> (r: Option<TrackResult>)
    ensures
        r == (if identified(track@) {
            None
        } else {
            Some(missing(TrackOutcome::Error))
        }),
{
    if track.artist.is_none() || track.title.is_none() {
        Some(TrackResult { outcome: TrackOutcome::Error, is_plain: false, is_missing: true })
    } else {
        None
    }
}

/// What came of embedding lyrics; `None` stands for an error.
pub type Embedded = Option<LyricsOutcome>;

/// The result of embedding lyrics from a sidecar.
pub open spec fn sidecar_result(embedded: Embedded) -> TrackResult {
    unlogged(
        match embedded {
            Some(LyricsOutcome::Written) => TrackOutcome::Synced,
            Some(LyricsOutcome::Skipped) => TrackOutcome::Skipped,
            None => TrackOutcome::Error,
        },
    )
}

/// Gives the result for a track whose sidecar was found, and tells whether the sidecar is to be
/// deleted.
pub fn local_result(embedded: Embedded, config: &SyncConfig) -> (r: (TrackResult, bool))
    ensures
        r.0 == sidecar_result(embedded),
        r.1 == (embedded == Some(LyricsOutcome::Written) && config.clean_lrc),
{
    let outcome = match embedded {
        Some(LyricsOutcome::Written) => TrackOutcome::Synced,
        Some(LyricsOutcome::Skipped) => TrackOutcome::Skipped,
        None => TrackOutcome::Error,
    };
    let written = match embedded {
        Some(LyricsOutcome::Written) => true,
        _ => false,
    };
    (TrackResult { outcome, is_plain: false, is_missing: false }, written && config.clean_lrc)
}

/// What is asked of LRCLIB for a track; a duration of zero is none.
pub open spec fn wanted_for(track: Track, prefer_synced: bool) -> Wanted {
    Wanted {
        artist: crate::lrclib::or_empty(track.artist),
        track: crate::lrclib::or_empty(track.title),
        album: track.album,
        duration: if track.duration > 0 {
            Some(track.duration)
        } else {
            None
        },
        prefer_synced,
    }
}

/// Copies a text, or gives an empty one where there is none.
fn text_or_empty(text: &Option<String>) -> (r: String)
    ensures
        r@ == crate::lrclib::or_empty(text_view(*text)),
{
    match text {
        Some(s) => s.as_str().to_owned(),
        None => "".to_owned(),
    }
}

/// Builds the query for a track.
pub fn build_query(track: &TrackMeta, config: &SyncConfig) -> (r: Query)
    ensures
        r@ == wanted_for(track@, config.prefer_synced),
{
    Query {
        artist: text_or_empty(&track.artist),
        track: text_or_empty(&track.title),
        album: match &track.album {
            Some(s) => Some(s.as_str().to_owned()),
            None => None,
        },
        duration: if track.duration > 0 {
            Some(track.duration)
        } else {
            None
        },
        prefer_synced: config.prefer_synced,
    }
}

/// What was found of the sidecar of a track.
#[derive(Debug)]
pub enum Sidecar {
    /// There is none.
    Missing,
    /// There is one that cannot be read as text.
    Unreadable,
    /// There is one that holds this text, which may be empty.
    Contents(String),
}

/// What a [`Sidecar`] holds.
pub enum SidecarView {
    Missing,
    Unreadable,
    Contents(Seq<char>),
}

impl View for Sidecar {
    type V = SidecarView;

    open spec fn view(&self) -> SidecarView {
        match self {
            Sidecar::Missing => SidecarView::Missing,
            Sidecar::Unreadable => SidecarView::Unreadable,
            Sidecar::Contents(s) => SidecarView::Contents(s@),
        }
    }
}

/// What is to be done once the sidecar of a track has been looked for.
#[derive(Debug)]
pub enum Source {
    /// The lyrics of the sidecar are to be embedded.
    Sidecar(String),
    /// LRCLIB is to be asked.
    Api(Query),
    /// The sidecar is there but of no use, and this is the result.
    Broken(TrackResult),
}

/// Decides where the lyrics of a track come from: from its sidecar where there is one, else from
/// LRCLIB. A sidecar that cannot be read is an error.
pub fn choose_source(sidecar: Sidecar, track: &TrackMeta, config: &SyncConfig) -> (r: Source)
    ensures
        match sidecar@ {
            SidecarView::Contents(s) => r matches Source::Sidecar(lyrics) && lyrics@ == s,
            SidecarView::Unreadable => r == Source::Broken(unlogged(TrackOutcome::Error)),
            SidecarView::Missing => r matches Source::Api(query) && query@ == wanted_for(
                track@,
                config.prefer_synced,
            ),
        },
{
    match sidecar {
        Sidecar::Contents(lyrics) => Source::Sidecar(lyrics),
        Sidecar::Unreadable => Source::Broken(
            TrackResult { outcome: TrackOutcome::Error, is_plain: false, is_missing: false },
        ),
        Sidecar::Missing => Source::Api(build_query(track, config)),
    }
}

/// What came of a lookup.
#[derive(Debug)]
pub enum Found {
    /// A record.
    Track(LrclibTrack),
    /// Nothing useful.
    Nothing,
    /// The lookup failed.
    Failed,
}

/// What is to be done after a lookup.
#[derive(Debug)]
pub enum Plan {
    /// The result is there already.
    Finish(TrackResult),
    /// These lyrics are to be embedded; they are synced or not.
    Embed(String, bool),
}

/// The lyrics of a record, and whether they are synced: the synced ones where there are any,
/// else the plain ones.
pub open spec fn chosen(record: Record) -> Option<(Seq<char>, bool)> {
    if present(record.synced) {
        Some((record.synced->0, true))
    } else {
        match record.plain {
            Some(p) => Some((p, false)),
            None => None,
        }
    }
}

/// What is to be done with a record: an instrumental track counts as a successful sync but writes
/// nothing; one without lyrics is not found.
pub open spec fn planned(record: Record) -> Result<(Seq<char>, bool), TrackResult> {
    if record.instrumental {
        Err(unlogged(TrackOutcome::Synced))
    } else {
        match chosen(record) {
            Some(lyrics) => Ok(lyrics),
            None => Err(missing(TrackOutcome::NotFound)),
        }
    }
}

/// Decides what is to be done after a lookup.
pub fn plan_api(found: Found) -> (r: Plan)
    ensures
        match found {
            Found::Failed => r == Plan::Finish(unlogged(TrackOutcome::Error)),
            Found::Nothing => r == Plan::Finish(missing(TrackOutcome::NotFound)),
            Found::Track(t) => match (r, planned(t@)) {
                (Plan::Embed(s, synced), Ok((lyrics, expected))) => s@ == lyrics && synced
                    == expected,
                (Plan::Finish(result), Err(expected)) => result == expected,
                _ => false,
            },
        },
{
    let lrc = match found {
        Found::Track(t) => t,
        Found::Nothing => return Plan::Finish(
            TrackResult { outcome: TrackOutcome::NotFound, is_plain: false, is_missing: true },
        ),
        Found::Failed => return Plan::Finish(
            TrackResult { outcome: TrackOutcome::Error, is_plain: false, is_missing: false },
        ),
    };
    if lrc.instrumental {
        return Plan::Finish(
            TrackResult { outcome: TrackOutcome::Synced, is_plain: false, is_missing: false },
        );
    }
    if is_present(&lrc.synced_lyrics) {
        if let Some(s) = lrc.synced_lyrics {
            return Plan::Embed(s, true);
        }
    }
    match lrc.plain_lyrics {
        Some(p) => Plan::Embed(p, false),
        None => Plan::Finish(
            TrackResult { outcome: TrackOutcome::NotFound, is_plain: false, is_missing: true },
        ),
    }
}

/// The result of embedding lyrics from LRCLIB.
pub open spec fn embedded_result(embedded: Embedded, is_synced: bool) -> TrackResult {
    match embedded {
        Some(LyricsOutcome::Written) => if is_synced {
            unlogged(TrackOutcome::Synced)
        } else {
            TrackResult { outcome: TrackOutcome::Plain, is_plain: true, is_missing: false }
        },
        Some(LyricsOutcome::Skipped) => unlogged(TrackOutcome::Skipped),
        None => unlogged(TrackOutcome::Error),
    }
}

/// Gives the result of embedding lyrics from LRCLIB.
pub fn api_result(embedded: Embedded, is_synced: bool) -> (r: TrackResult)
    ensures
        r == embedded_result(embedded, is_synced),
{
    match embedded {
        Some(LyricsOutcome::Written) => TrackResult {
            outcome: if is_synced {
                TrackOutcome::Synced
            } else {
                TrackOutcome::Plain
            },
            is_plain: !is_synced,
            is_missing: false,
        },
        Some(LyricsOutcome::Skipped) => TrackResult {
            outcome: TrackOutcome::Skipped,
            is_plain: false,
            is_missing: false,
        },
        None => TrackResult { outcome: TrackOutcome::Error, is_plain: false, is_missing: false },
    }
}

/// What is to be done next for a track.
#[derive(Debug)]
pub enum Step {
    /// Read the sidecar of the track.
    ReadSidecar,
    /// Embed the lyrics of the sidecar.
    EmbedSidecar(String),
    /// Ask LRCLIB.
    Ask(Query),
    /// Embed lyrics from LRCLIB; they are synced or not.
    EmbedFound(String, bool),
    /// The track is done, and its sidecar is to be deleted or not.
    Finish(TrackResult, bool),
}

/// What came of a step.
#[derive(Debug)]
pub enum Event {
    /// The sidecar was looked for.
    Sidecar(Sidecar),
    /// Lyrics were embedded, or could not be.
    Embedded(Embedded),
    /// LRCLIB was asked.
    Lookup(Found),
}

/// What a [`Step`] holds.
pub enum StepView {
    ReadSidecar,
    EmbedSidecar(Seq<char>),
    Ask(Wanted),
    EmbedFound(Seq<char>, bool),
    Finish(TrackResult, bool),
}

/// What an [`Event`] holds.
pub enum EventView {
    Sidecar(SidecarView),
    Embedded(Embedded),
    Lookup(FoundView),
}

/// What a [`Found`] holds.
pub enum FoundView {
    Track(Record),
    Nothing,
    Failed,
}

impl View for Step {
    type V = StepView;

    open spec fn view(&self) -> StepView {
        match self {
            Step::ReadSidecar => StepView::ReadSidecar,
            Step::EmbedSidecar(s) => StepView::EmbedSidecar(s@),
            Step::Ask(q) => StepView::Ask(q@),
            Step::EmbedFound(s, synced) => StepView::EmbedFound(s@, *synced),
            Step::Finish(r, delete) => StepView::Finish(*r, *delete),
        }
    }
}

impl View for Found {
    type V = FoundView;

    open spec fn view(&self) -> FoundView {
        match self {
            Found::Track(t) => FoundView::Track(t@),
            Found::Nothing => FoundView::Nothing,
            Found::Failed => FoundView::Failed,
        }
    }
}

impl View for Event {
    type V = EventView;

    open spec fn view(&self) -> EventView {
        match self {
            Event::Sidecar(s) => EventView::Sidecar(s@),
            Event::Embedded(e) => EventView::Embedded(*e),
            Event::Lookup(f) => EventView::Lookup(f@),
        }
    }
}

impl StepView {
    /// Whether an event is one that can come of the step.
    pub open spec fn fits(self, event: EventView) -> bool {
        match self {
            StepView::ReadSidecar => event is Sidecar,
            StepView::EmbedSidecar(_) => event is Embedded,
            StepView::Ask(_) => event is Lookup,
            StepView::EmbedFound(_, _) => event is Embedded,
            StepView::Finish(_, _) => false,
        }
    }

    /// How many more events there can be.
    pub open spec fn left(self) -> nat {
        match self {
            StepView::ReadSidecar => 3,
            StepView::EmbedSidecar(_) => 1,
            StepView::Ask(_) => 2,
            StepView::EmbedFound(_, _) => 1,
            StepView::Finish(_, _) => 0,
        }
    }
}

/// The first step for a track.
pub open spec fn first_step(track: Track) -> StepView {
    if identified(track) {
        StepView::ReadSidecar
    } else {
        StepView::Finish(missing(TrackOutcome::Error), false)
    }
}

/// The step that follows an event.
pub open spec fn next_step(
    step: StepView,
    event: EventView,
    track: Track,
    config: SyncConfig,
) -> StepView {
    match event {
        EventView::Sidecar(sidecar) => match sidecar {
            SidecarView::Contents(s) => StepView::EmbedSidecar(s),
            SidecarView::Unreadable => StepView::Finish(unlogged(TrackOutcome::Error), false),
            SidecarView::Missing => StepView::Ask(wanted_for(track, config.prefer_synced)),
        },
        EventView::Lookup(found) => match found {
            FoundView::Failed => StepView::Finish(unlogged(TrackOutcome::Error), false),
            FoundView::Nothing => StepView::Finish(missing(TrackOutcome::NotFound), false),
            FoundView::Track(record) => match planned(record) {
                Ok((lyrics, synced)) => StepView::EmbedFound(lyrics, synced),
                Err(result) => StepView::Finish(result, false),
            },
        },
        EventView::Embedded(embedded) => match step {
            StepView::EmbedFound(_, synced) => StepView::Finish(
                embedded_result(embedded, synced),
                false,
            ),
            _ => StepView::Finish(
                sidecar_result(embedded),
                embedded == Some(LyricsOutcome::Written) && config.clean_lrc,
            ),
        },
    }
}

/// Gives the first step for a track.
pub fn start(track: &TrackMeta) -> (r: Step)
    ensures
        r@ == first_step(track@),
{
    match check_identity(track) {
        Some(result) => Step::Finish(result, false),
        None => Step::ReadSidecar,
    }
}

/// Gives the step that follows an event.
pub fn advance(step: Step, event: Event, track: &TrackMeta, config: &SyncConfig) -> (r: Step)
    requires
        step@.fits(event@),
    ensures
        r@ == next_step(step@, event@, track@, *config),
{
    match event {
        Event::Sidecar(sidecar) => match choose_source(sidecar, track, config) {
            Source::Sidecar(lyrics) => Step::EmbedSidecar(lyrics),
            Source::Api(query) => Step::Ask(query),
            Source::Broken(result) => Step::Finish(result, false),
        },
        Event::Lookup(found) => match plan_api(found) {
            Plan::Finish(result) => Step::Finish(result, false),
            Plan::Embed(lyrics, synced) => Step::EmbedFound(lyrics, synced),
        },
        Event::Embedded(embedded) => match step {
            Step::EmbedFound(_, synced) => Step::Finish(api_result(embedded, synced), false),
            _ => {
                let (result, delete) = local_result(embedded, config);
                Step::Finish(result, delete)
            },
        },
    }
}

/// Every event brings a track closer to its end: there are three at most.
pub proof fn law_track_ends(step: StepView, event: EventView, track: Track, config: SyncConfig)
    requires
        step.fits(event),
    ensures
        next_step(step, event, track, config).left() < step.left() <= 3,
        first_step(track).left() <= 3,
{
}

/// LRCLIB is asked exactly where there is no sidecar, and the text of a sidecar that can be read
/// is embedded, even if it is empty.
pub proof fn law_sidecar_first(
    step: StepView,
    event: EventView,
    track: Track,
    config: SyncConfig,
    text: Seq<char>,
)
    requires
        step.fits(event),
    ensures
        next_step(step, event, track, config) is Ask <==> event == EventView::Sidecar(
            SidecarView::Missing,
        ),
        next_step(step, event, track, config) == StepView::EmbedSidecar(text) <==> event
            == EventView::Sidecar(SidecarView::Contents(text)),
{
}

/// A sidecar is deleted only on demand, and only once its lyrics were written.
pub proof fn law_sidecar_deleted(step: StepView, event: EventView, track: Track, config: SyncConfig)
    requires
        step.fits(event),
    ensures
        next_step(step, event, track, config) matches StepView::Finish(result, true) ==> {
            &&& config.clean_lrc
            &&& step is EmbedSidecar
            &&& event == EventView::Embedded(Some(LyricsOutcome::Written))
            &&& result == unlogged(TrackOutcome::Synced)
        },
{
}

/// A track counts as synced or plain only where lyrics were written to its file or LRCLIB says that
/// it is instrumental, and as skipped only where its file had lyrics already.
pub proof fn law_outcome_earned(step: StepView, event: EventView, track: Track, config: SyncConfig)
    requires
        step.fits(event),
    ensures
        next_step(step, event, track, config) matches StepView::Finish(result, _) ==> {
            &&& result.outcome == TrackOutcome::Synced || result.outcome == TrackOutcome::Plain ==> {
                ||| event == EventView::Embedded(Some(LyricsOutcome::Written))
                ||| event matches EventView::Lookup(FoundView::Track(record)) && record.instrumental
            }
            &&& result.outcome == TrackOutcome::Skipped <==> event == EventView::Embedded(
                Some(LyricsOutcome::Skipped),
            )
        },
{
}

/// The number of workers for some tracks: as many as there are threads, but no more than there
/// are tracks (as a 32-bit number), and at least one.
pub open spec fn workers(num_threads: int, tracks: int) -> int {
    let low = tracks % 0x1_0000_0000;
    let capped = if num_threads <= low {
        num_threads
    } else {
        low
    };
    if capped < 1 {
        1
    } else {
        capped
    }
}

/// Gives the number of workers (capped by the track count to avoid idle threads).
pub fn worker_count(config: &SyncConfig, tracks: usize) -> (r: usize)
    ensures
        r == workers(config.num_threads as int, tracks as int),
        1 <= r,
        r <= config.num_threads || r == 1,
{
    let low: u32 = (tracks as u64 % 0x1_0000_0000) as u32;
    let capped: u32 = if config.num_threads <= low {
        config.num_threads
    } else {
        low
    };
    if capped < 1 {
        1
    } else {
        capped as usize
    }
}

/// The title that is shown for a track.
pub fn shown_title(track: &TrackMeta) -> (r: String)
    ensures
        r@ == (match track@.title {
            Some(t) => t,
            None => "(unknown)"@,
        }),
{
    match &track.title {
        Some(t) => t.as_str().to_owned(),
        None => "(unknown)".to_owned(),
    }
}

/// Plain lyrics are embedded only where there are no synced ones, and only such a track is logged
/// as plain; no track is logged twice.
pub proof fn law_synced_preferred(record: Record, embedded: Embedded)
    ensures
        planned(record) matches Ok((_, synced)) ==> synced == present(record.synced),
        planned(record) matches Ok((_, synced)) ==> {
            let result = embedded_result(embedded, synced);
            &&& result.is_plain <==> result.outcome == TrackOutcome::Plain
            &&& !result.is_missing
            &&& result.is_plain ==> !present(record.synced)
        },
        planned(record) matches Err(result) ==> !result.is_plain,
{
}

} // verus!
