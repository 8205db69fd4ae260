//! Data types shared across the sync pipeline.

use vstd::prelude::*;

verus! {

/// The view of an optional text.
pub open spec fn text_view(t: Option<String>) -> Option<Seq<char>> {
    match t {
        Some(s) => Some(s@),
        None => None,
    }
}

/// The view of an optional piece of text.
pub open spec fn str_view(t: Option<&str>) -> Option<Seq<char>> {
    match t {
        Some(s) => Some(s@),
        None => None,
    }
}

/// Metadata extracted from a single audio file.
///
/// All text fields are optional because not every file is fully tagged.
#[derive(Debug, Clone)]
pub struct TrackMeta {
    pub title: Option<String>,
    pub artist: Option<String>,
    pub album: Option<String>,
    /// 1-based track number from the file's tag, 0 when absent.
    pub track_number: u32,
    /// Playback duration in whole seconds.
    pub duration: u32,
    /// Path of the audio file.
    pub filepath: String,
}

/// What a [`TrackMeta`] holds.
pub struct Track {
    pub title: Option<Seq<char>>,
    pub artist: Option<Seq<char>>,
    pub album: Option<Seq<char>>,
    pub track_number: u32,
    pub duration: u32,
    pub filepath: Seq<char>,
}

impl View for TrackMeta {
    type V = Track;

    open spec fn view(&self) -> Track {
        Track {
            title: text_view(self.title),
            artist: text_view(self.artist),
            album: text_view(self.album),
            track_number: self.track_number,
            duration: self.duration,
            filepath: self.filepath@,
        }
    }
}

/// Aggregate counts produced by a sync run, shown in the final summary.
#[derive(Debug, Clone)]
pub struct SyncResult {
    pub synced: u32,
    pub plain: u32,
    pub skipped: u32,
    pub not_found: u32,
    pub errors: u32,
}

impl Default for SyncResult {
    /// No track counted yet.
    fn default() -> (r: Self)
        ensures
            r == SyncResult::zero(),
    {
        SyncResult { synced: 0, plain: 0, skipped: 0, not_found: 0, errors: 0 }
    }
}

impl SyncResult {
    /// The counts before any track.
    pub open spec fn zero() -> Self {
        SyncResult { synced: 0, plain: 0, skipped: 0, not_found: 0, errors: 0 }
    }

    /// The number of tracks counted.
    pub open spec fn total(self) -> int {
        self.synced + self.plain + self.skipped + self.not_found + self.errors
    }

    /// How many tracks ended with `outcome`.
    pub open spec fn count(self, outcome: TrackOutcome) -> int {
        match outcome {
            TrackOutcome::Synced => self.synced as int,
            TrackOutcome::Plain => self.plain as int,
            TrackOutcome::Skipped => self.skipped as int,
            TrackOutcome::NotFound => self.not_found as int,
            TrackOutcome::Error => self.errors as int,
        }
    }

    /// Combine another run's counts into `self` (used by artist and library
    /// modes that iterate over many albums).
    pub fn add(&mut self, other: &SyncResult)
        requires
            forall|o: TrackOutcome| #[trigger] old(self).count(o) + other.count(o) <= u32::MAX,
        ensures
            forall|o: TrackOutcome| #[trigger]
                final(self).count(o) == old(self).count(o) + other.count(o),
            final(self).total() == old(self).total() + other.total(),
    {
        assert(old(self).count(TrackOutcome::Synced) + other.count(TrackOutcome::Synced)
            <= u32::MAX);
        assert(old(self).count(TrackOutcome::Plain) + other.count(TrackOutcome::Plain) <= u32::MAX);
        assert(old(self).count(TrackOutcome::Skipped) + other.count(TrackOutcome::Skipped)
            <= u32::MAX);
        assert(old(self).count(TrackOutcome::NotFound) + other.count(TrackOutcome::NotFound)
            <= u32::MAX);
        assert(old(self).count(TrackOutcome::Error) + other.count(TrackOutcome::Error) <= u32::MAX);
        self.synced = self.synced + other.synced;
        self.plain = self.plain + other.plain;
        self.skipped = self.skipped + other.skipped;
        self.not_found = self.not_found + other.not_found;
        self.errors = self.errors + other.errors;
    }

    /// Tells whether [`SyncResult::add`] may be called.
    pub fn can_add(&self, other: &SyncResult) -> (r: bool)
        ensures
            r == forall|o: TrackOutcome| #[trigger] self.count(o) + other.count(o) <= u32::MAX,
    {
        let r = self.synced <= u32::MAX - other.synced && self.plain <= u32::MAX - other.plain
            && self.skipped <= u32::MAX - other.skipped && self.not_found <= u32::MAX
            - other.not_found && self.errors <= u32::MAX - other.errors;
        proof {
            if !r {
                assert(!(self.count(TrackOutcome::Synced) + other.count(TrackOutcome::Synced)
                    <= u32::MAX && self.count(TrackOutcome::Plain) + other.count(
                    TrackOutcome::Plain,
                ) <= u32::MAX && self.count(TrackOutcome::Skipped) + other.count(
                    TrackOutcome::Skipped,
                ) <= u32::MAX && self.count(TrackOutcome::NotFound) + other.count(
                    TrackOutcome::NotFound,
                ) <= u32::MAX && self.count(TrackOutcome::Error) + other.count(TrackOutcome::Error)
                    <= u32::MAX));
            }
        }
        r
    }

    /// `true` if any track hit an error during this run.
    pub fn has_errors(&self) -> (r: bool)
        ensures
            r <==> self.errors > 0,
    {
        self.errors > 0
    }

    /// Tells whether [`SyncResult::record`] may be called.
    pub fn can_record(&self, outcome: TrackOutcome) -> (r: bool)
        ensures
            r == (self.count(outcome) < u32::MAX),
    {
        match outcome {
            TrackOutcome::Synced => self.synced < u32::MAX,
            TrackOutcome::Plain => self.plain < u32::MAX,
            TrackOutcome::Skipped => self.skipped < u32::MAX,
            TrackOutcome::NotFound => self.not_found < u32::MAX,
            TrackOutcome::Error => self.errors < u32::MAX,
        }
    }

    /// Count one track that ended with `outcome`.
    pub fn record(&mut self, outcome: TrackOutcome)
        requires
            old(self).count(outcome) < u32::MAX,
        ensures
            final(self).count(outcome) == old(self).count(outcome) + 1,
            forall|o: TrackOutcome|
                o != outcome ==> #[trigger] final(self).count(o) == old(self).count(o),
            final(self).total() == old(self).total() + 1,
    {
        match outcome {
            TrackOutcome::Synced => {
                self.synced = self.synced + 1;
            },
            TrackOutcome::Plain => {
                self.plain = self.plain + 1;
            },
            TrackOutcome::Skipped => {
                self.skipped = self.skipped + 1;
            },
            TrackOutcome::NotFound => {
                self.not_found = self.not_found + 1;
            },
            TrackOutcome::Error => {
                self.errors = self.errors + 1;
            },
        }
    }
}

/// Configuration controlling a single sync run.
#[derive(Debug, Clone)]
pub struct SyncConfig {
    /// Overwrite lyrics that are already embedded in the file.
    pub force: bool,
    /// Delete the local `.lrc` sidecar after successfully embedding it.
    pub clean_lrc: bool,
    /// Give synced lyrics priority over plain matches during scoring.
    pub prefer_synced: bool,
    /// Number of parallel worker threads (clamped to 1..=16 by the CLI).
    pub num_threads: u32,
    /// Optional file to log tracks that only received plain lyrics.
    pub out_plain: Option<String>,
    /// Optional file to log tracks for which no lyrics were found.
    pub out_missing: Option<String>,
}

impl Default for SyncConfig {
    fn default() -> (r: Self)
        ensures
            !r.force,
            !r.clean_lrc,
            r.prefer_synced,
            r.num_threads == 4,
            r.out_plain is None,
            r.out_missing is None,
    {
        SyncConfig {
            force: false,
            clean_lrc: false,
            prefer_synced: true,
            num_threads: 4,
            out_plain: None,
            out_missing: None,
        }
    }
}

/// Outcome of processing a single track, used both for the progress
/// callback and for incrementing the right [`SyncResult`] counter.
#[derive(Debug, Clone, Copy, PartialEq, Eq, Structural)]
pub enum TrackOutcome {
    /// Lyrics were embedded successfully (synced, or a local `.lrc`).
    Synced,
    /// Only unsynchronised lyrics were available and were embedded.
    Plain,
    /// The file already had lyrics and `force` was not set.
    Skipped,
    /// LRCLIB had no matching track.
    NotFound,
    /// The file's tag was missing artist or title, or the write failed.
    Error,
}

impl TrackOutcome {
    /// Human-readable status line shown to the user.
    pub fn label(self) -> (r: &'static str)
        ensures
            r@ == match self {
                TrackOutcome::Synced => "\u{2713} synced"@,
                TrackOutcome::Plain => "\u{2713} plain"@,
                TrackOutcome::Skipped => "\u{2298} already has lyrics"@,
                TrackOutcome::NotFound => "\u{2717} not found"@,
                TrackOutcome::Error => "\u{2717} error"@,
            },
    {
        match self {
            TrackOutcome::Synced => "\u{2713} synced",
            TrackOutcome::Plain => "\u{2713} plain",
            TrackOutcome::Skipped => "\u{2298} already has lyrics",
            TrackOutcome::NotFound => "\u{2717} not found",
            TrackOutcome::Error => "\u{2717} error",
        }
    }
}

} // verus!
