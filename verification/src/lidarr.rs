//! The rules of the Lidarr Custom Script integration.
//!
//! When Lidarr invokes the binary as a Custom Script, it passes event data
//! through environment variables instead of command-line arguments:
//!
//! | Variable                  | Meaning                                   |
//! |---------------------------|-------------------------------------------|
//! | `lidarr_eventtype`        | `Test`, `AlbumDownload`, `Grab`, ...      |
//! | `lidarr_addedtrackpaths`  | pipe-separated list of imported files     |
//! | `lidarr_artist_path`      | root directory of the artist              |
//! | `lidarr_album_title`      | title of the imported album               |
//!
//! On `AlbumDownload` the album directory is located (from the imported
//! track paths, falling back to a title-based directory search, then to
//! syncing the whole artist folder), lyrics are embedded for every track, and
//! the result is logged next to the binary.

use vstd::prelude::*;

use crate::text::{
    before, chars_of, contains, decimal, decimal_text, holds, joined, part_before, push_text,
    same_text, string_of,
};
use crate::types::{str_view, text_view, SyncConfig};

verus! {

/// How many tracks are processed in parallel.
pub const LIDARR_THREADS: u32 = 4;

/// What an event asks for.
#[derive(Debug)]
pub enum EventAction {
    /// Log a message and stop with an exit code.
    Stop(String, u8),
    /// Sync an album.
    Sync,
}

/// Decides what an event asks for: a test is answered, a download is synced, other events are
/// ignored.
pub fn event_action(event: Option<&str>) -> (r: EventAction)
    ensures
        match str_view(event) {
            None => r matches EventAction::Stop(m, code) && m@
                == "ERROR: lidarr_eventtype not set"@ && code == 1,
            Some(e) => if e == "Test"@ {
                r matches EventAction::Stop(m, code) && m@ == "Test OK"@ && code == 0
            } else if e == "AlbumDownload"@ {
                r is Sync
            } else {
                r matches EventAction::Stop(m, code) && m@ == "Ignoring event: "@ + e && code == 0
            },
        },
{
    match event {
        None => EventAction::Stop("ERROR: lidarr_eventtype not set".to_owned(), 1),
        Some(e) => if same_text(e, "Test") {
            EventAction::Stop("Test OK".to_owned(), 0)
        } else if same_text(e, "AlbumDownload") {
            EventAction::Sync
        } else {
            EventAction::Stop(joined("Ignoring event: ", e), 0)
        },
    }
}

/// Takes the first path out of a pipe-separated list. Its parent directory is that of the album.
pub fn album_dir_from_tracks(paths: &str) -> (r: String)
    ensures
        r@ == before(paths@, '|'),
{
    string_of(part_before(&chars_of(paths), '|'))
}

/// Whether a name is a text that holds `title`.
pub open spec fn names_album(name: Option<Seq<char>>, title: Seq<char>) -> bool {
    name matches Some(n) && holds(n, title)
}

/// Searches the names of subdirectories for the first one that contains `title`.
pub fn album_dir_from_title(names: &Vec<Option<String>>, title: &str) -> (r: Option<usize>)
    ensures
        match r {
            Some(i) => i < names.len() && names_album(text_view(names@[i as int]), title@)
                && forall|j: int|
                0 <= j < i ==> !names_album(text_view(#[trigger] names@[j]), title@),
            None => forall|j: int|
                0 <= j < names.len() ==> !names_album(text_view(#[trigger] names@[j]), title@),
        },
{
    let wanted = chars_of(title);
    let mut i: usize = 0;
    while i < names.len()
        invariant
            i <= names@.len(),
            wanted@ == title@,
            forall|j: int| 0 <= j < i ==> !names_album(text_view(#[trigger] names@[j]), title@),
        decreases names@.len() - i,
    {
        if let Some(name) = &names[i] {
            if contains(&chars_of(name), &wanted) {
                return Some(i);
            }
        }
        i = i + 1;
    }
    None
}

/// What is synced.
#[derive(Debug, Clone, Copy, PartialEq, Eq, Structural)]
pub enum Target {
    /// The album directory.
    Album,
    /// Every directory of the artist.
    Artist,
    /// Neither is known.
    Unknown,
}

/// Decides what is synced: the album directory where it is known, else the artist's.
pub fn choose_target(album_known: bool, artist_known: bool) -> (r: Target)
    ensures
        r == (if album_known {
            Target::Album
        } else if artist_known {
            Target::Artist
        } else {
            Target::Unknown
        }),
{
    if album_known {
        Target::Album
    } else if artist_known {
        Target::Artist
    } else {
        Target::Unknown
    }
}

/// The configuration of a sync for Lidarr: nothing is overwritten or deleted.
pub fn lidarr_config(plain_log: String, missing_log: String) -> (r: SyncConfig)
    ensures
        !r.force,
        !r.clean_lrc,
        r.prefer_synced,
        r.num_threads == LIDARR_THREADS,
        r.out_plain == Some(plain_log),
        r.out_missing == Some(missing_log),
{
    SyncConfig {
        force: false,
        clean_lrc: false,
        prefer_synced: true,
        num_threads: LIDARR_THREADS,
        out_plain: Some(plain_log),
        out_missing: Some(missing_log),
    }
}

/// The log line that says what is synced, and whether anything can be: where neither directory is
/// known the line reports the error.
pub fn target_log(target: Target, dir: &str) -> (r: String)
    ensures
        r@ == (match target {
            Target::Album => "Album: "@ + dir@,
            Target::Artist => "Album dir not found, syncing artist: "@ + dir@,
            Target::Unknown => "ERROR: could not determine album directory"@,
        }),
{
    match target {
        Target::Album => joined("Album: ", dir),
        Target::Artist => joined("Album dir not found, syncing artist: ", dir),
        Target::Unknown => "ERROR: could not determine album directory".to_owned(),
    }
}

/// The exit code of a run: one where nothing could be synced.
pub fn target_exit_code(target: Target) -> (r: u8)
    ensures
        r == (if target == Target::Unknown {
            1int
        } else {
            0
        }),
{
    match target {
        Target::Unknown => 1,
        _ => 0,
    }
}

/// The log line above a directory that holds `tracks` tracks.
pub fn dir_log(tracks: usize, dir: &str) -> (r: String)
    ensures
        r@ == (if tracks == 0 {
            "No audio files found in '"@ + dir@ + "'"@
        } else {
            "Syncing "@ + decimal(tracks as nat) + " track(s) in '"@ + dir@ + "'"@
        }),
{
    let mut r = "No audio files found in '".to_owned();
    if tracks > 0 {
        r = joined("Syncing ", &decimal_text(tracks as u64));
        push_text(&mut r, " track(s) in '");
    }
    push_text(&mut r, dir);
    push_text(&mut r, "'");
    r
}

} // verus!
