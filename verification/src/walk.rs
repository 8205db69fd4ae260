//! What is counted and announced while albums are synced one after another.

use vstd::prelude::*;

use crate::types::{SyncResult, TrackOutcome};

verus! {

/// The running counts of a walk over the albums of one or more artists.
#[derive(Debug)]
pub struct Walk {
    /// The outcomes of all tracks so far.
    pub total: SyncResult,
    /// How many artists had an album with tracks.
    pub artists: u32,
    /// How many albums had tracks.
    pub albums: u32,
    /// How many of those albums belong to the artist being walked.
    pub artist_albums: u32,
}

/// The counts of a walk, of which one outcome is singled out.
pub struct Tally {
    pub artists: int,
    pub albums: int,
    pub artist_albums: int,
    pub counted: int,
}

/// How an album directory is announced.
#[derive(Debug, Clone, Copy, PartialEq, Eq, Structural)]
pub enum AlbumStart {
    /// It holds no tracks and is passed over.
    Empty,
    /// It is the first one with tracks of its artist.
    First,
    /// It comes after another one of its artist.
    Later,
}

/// The counts before anything.
pub open spec fn untouched() -> Tally {
    Tally { artists: 0, albums: 0, artist_albums: 0, counted: 0 }
}

/// The counts when an artist is turned to.
pub open spec fn turned(t: Tally) -> Tally {
    Tally { artist_albums: 0, ..t }
}

/// The counts when an album of `tracks` tracks is turned to.
pub open spec fn opened(t: Tally, tracks: int) -> Tally {
    if tracks == 0 {
        t
    } else {
        Tally { albums: t.albums + 1, artist_albums: t.artist_albums + 1, ..t }
    }
}

/// The counts when an album is done in which `n` tracks had the outcome.
pub open spec fn done(t: Tally, n: int) -> Tally {
    Tally { counted: t.counted + n, ..t }
}

/// The counts when an artist is left.
pub open spec fn closed_off(t: Tally) -> Tally {
    if t.artist_albums > 0 {
        Tally { artists: t.artists + 1, ..t }
    } else {
        t
    }
}

impl Walk {
    /// The counts, with `outcome` singled out.
    pub open spec fn tally(self, outcome: TrackOutcome) -> Tally {
        Tally {
            artists: self.artists as int,
            albums: self.albums as int,
            artist_albums: self.artist_albums as int,
            counted: self.total.count(outcome),
        }
    }

    /// Starts a walk.
    pub fn new() -> (r: Self)
        ensures
            forall|o: TrackOutcome| #[trigger] r.tally(o) == untouched(),
    {
        Walk { total: SyncResult::default(), artists: 0, albums: 0, artist_albums: 0 }
    }

    /// Turns to an artist.
    pub fn enter_artist(&mut self)
        ensures
            forall|o: TrackOutcome| #[trigger] final(self).tally(o) == turned(old(self).tally(o)),
    {
        self.artist_albums = 0;
    }

    /// Tells whether [`Walk::enter_album`] may be called.
    pub fn can_enter_album(&self) -> (r: bool)
        ensures
            r == (self.albums < u32::MAX && self.artist_albums < u32::MAX),
    {
        self.albums < u32::MAX && self.artist_albums < u32::MAX
    }

    /// Turns to an album that holds `tracks` tracks.
    pub fn enter_album(&mut self, tracks: usize) -> (r: AlbumStart)
        requires
            old(self).albums < u32::MAX,
            old(self).artist_albums < u32::MAX,
        ensures
            r == (if tracks == 0 {
                AlbumStart::Empty
            } else if old(self).artist_albums == 0 {
                AlbumStart::First
            } else {
                AlbumStart::Later
            }),
            forall|o: TrackOutcome| #[trigger]
                final(self).tally(o) == opened(old(self).tally(o), tracks as int),
    {
        if tracks == 0 {
            return AlbumStart::Empty;
        }
        let first = self.artist_albums == 0;
        self.albums = self.albums + 1;
        self.artist_albums = self.artist_albums + 1;
        if first {
            AlbumStart::First
        } else {
            AlbumStart::Later
        }
    }

    /// Counts the outcomes of an album that is done.
    pub fn finish_album(&mut self, result: &SyncResult)
        requires
            forall|o: TrackOutcome| #[trigger]
                old(self).total.count(o) + result.count(o) <= u32::MAX,
        ensures
            forall|o: TrackOutcome| #[trigger]
                final(self).tally(o) == done(old(self).tally(o), result.count(o)),
    {
        self.total.add(result);
    }

    /// Tells whether [`Walk::leave_artist`] may be called.
    pub fn can_leave_artist(&self) -> (r: bool)
        ensures
            r == (self.artists < u32::MAX),
    {
        self.artists < u32::MAX
    }

    /// Leaves an artist, and tells whether any album with tracks was found there.
    pub fn leave_artist(&mut self) -> (r: bool)
        requires
            old(self).artists < u32::MAX,
        ensures
            r == (old(self).artist_albums > 0),
            forall|o: TrackOutcome| #[trigger]
                final(self).tally(o) == closed_off(old(self).tally(o)),
    {
        if self.artist_albums > 0 {
            self.artists = self.artists + 1;
            true
        } else {
            false
        }
    }
}

/// An album: how many tracks it holds, and how many of them had the outcome.
pub struct AlbumModel {
    pub tracks: int,
    pub counted: int,
}

/// The counts after the albums of an artist.
pub open spec fn after_albums(t: Tally, albums: Seq<AlbumModel>) -> Tally
    decreases albums.len(),
{
    if albums.len() == 0 {
        t
    } else {
        let before = after_albums(t, albums.drop_last());
        let a = albums.last();
        if a.tracks == 0 {
            opened(before, 0)
        } else {
            done(opened(before, a.tracks), a.counted)
        }
    }
}

/// The counts after the artists of a library.
pub open spec fn after_artists(t: Tally, artists: Seq<Seq<AlbumModel>>) -> Tally
    decreases artists.len(),
{
    if artists.len() == 0 {
        t
    } else {
        closed_off(after_albums(turned(after_artists(t, artists.drop_last())), artists.last()))
    }
}

/// The albums that hold tracks.
pub open spec fn with_tracks(albums: Seq<AlbumModel>) -> Seq<AlbumModel> {
    albums.filter(|a: AlbumModel| a.tracks != 0)
}

/// How many tracks of some albums had the outcome.
pub open spec fn tracks_counted(albums: Seq<AlbumModel>) -> int
    decreases albums.len(),
{
    if albums.len() == 0 {
        0
    } else {
        tracks_counted(albums.drop_last()) + albums.last().counted
    }
}

/// The walk over one artist counts the albums with tracks and the outcomes in them, no others.
pub proof fn law_artist_counts(t: Tally, albums: Seq<AlbumModel>)
    ensures
        after_albums(t, albums) == (Tally {
            artists: t.artists,
            albums: t.albums + with_tracks(albums).len(),
            artist_albums: t.artist_albums + with_tracks(albums).len(),
            counted: t.counted + tracks_counted(with_tracks(albums)),
        }),
    decreases albums.len(),
{
    reveal(Seq::filter);
    if albums.len() > 0 {
        law_artist_counts(t, albums.drop_last());
        let kept = with_tracks(albums.drop_last());
        if albums.last().tracks != 0 {
            assert(with_tracks(albums) =~= kept.push(albums.last()));
            assert(kept.push(albums.last()).drop_last() =~= kept);
        }
    }
}

/// The artists that have an album with tracks.
pub open spec fn with_albums(artists: Seq<Seq<AlbumModel>>) -> Seq<Seq<AlbumModel>> {
    artists.filter(|albums: Seq<AlbumModel>| with_tracks(albums).len() > 0)
}

/// All the albums of a library, one artist after another.
pub open spec fn all_albums(artists: Seq<Seq<AlbumModel>>) -> Seq<AlbumModel>
    decreases artists.len(),
{
    if artists.len() == 0 {
        seq![]
    } else {
        all_albums(artists.drop_last()) + artists.last()
    }
}

proof fn lemma_tracks_counted(a: Seq<AlbumModel>, b: Seq<AlbumModel>)
    ensures
        tracks_counted(a + b) == tracks_counted(a) + tracks_counted(b),
    decreases b.len(),
{
    if b.len() == 0 {
        assert(a + b =~= a);
    } else {
        assert((a + b).drop_last() =~= a + b.drop_last());
        lemma_tracks_counted(a, b.drop_last());
    }
}

/// The walk over a library counts the artists that have an album with tracks, the albums with
/// tracks, and the outcomes in those.
pub proof fn law_library_counts(artists: Seq<Seq<AlbumModel>>)
    ensures
        after_artists(untouched(), artists).artists == with_albums(artists).len(),
        after_artists(untouched(), artists).albums == with_tracks(all_albums(artists)).len(),
        after_artists(untouched(), artists).counted == tracks_counted(
            with_tracks(all_albums(artists)),
        ),
    decreases artists.len(),
{
    reveal(Seq::filter);
    if artists.len() > 0 {
        let earlier = artists.drop_last();
        law_library_counts(earlier);
        law_artist_counts(turned(after_artists(untouched(), earlier)), artists.last());
        let filled = |a: AlbumModel| a.tracks != 0;
        Seq::filter_distributes_over_add(all_albums(earlier), artists.last(), filled);
        lemma_tracks_counted(with_tracks(all_albums(earlier)), with_tracks(artists.last()));
    }
}

} // verus!
