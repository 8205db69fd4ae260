//! Audio metadata reading and lyrics embedding.
//!
//! | Extension  | Module   | Container / tag scheme              |
//! |------------|----------|-------------------------------------|
//! | `.flac`    | `flac`   | native FLAC + VORBIS_COMMENT        |
//! | `.mp3`     | `id3v2`  | ID3v2.3 / ID3v2.4 + MPEG frame scan |
//! | `.ogg`     | `ogg`    | OGG Vorbis (Vorbis comments)        |
//! | `.opus`    | `ogg`    | OGG Opus (Vorbis comments)          |
//! | `.m4a`/`.mp4`/`.m4b`/`.m4p`/`.aac` | `mp4` | MP4 box tree + `ilst` tags |
//!
//! Each format implements the [`AudioFormat`] trait on the bytes of a file.

pub mod flac;
pub mod id3v2;
pub mod mp4;
pub mod ogg;
pub mod vorbis;

use vstd::prelude::*;

use crate::metadata::flac::Flac;
use crate::metadata::id3v2::Mp3;
use crate::metadata::mp4::Mp4;
use crate::metadata::ogg::Ogg;
use crate::text::{chars_of, is_text, joined, lowered, to_lowered};
use crate::types::{str_view, Track, TrackMeta};

verus! {

/// Outcome of a lyrics sync.
#[derive(Debug, Clone, Copy, PartialEq, Eq, Structural)]
pub enum LyricsOutcome {
    /// Lyrics were written to the file.
    Written,
    /// The file already contained lyrics and `force` was `false`.
    Skipped,
}

/// What a lyrics sync makes of the bytes of a file.
#[derive(Debug)]
pub enum Edit {
    /// The file is to hold these bytes.
    Rewritten(Vec<u8>),
    /// The file already contains lyrics and stays as it is.
    Unchanged,
}

impl Edit {
    /// The new bytes of the file, where there are any.
    pub open spec fn content(self) -> Option<Seq<u8>> {
        match self {
            Edit::Rewritten(bytes) => Some(bytes@),
            Edit::Unchanged => None,
        }
    }

    /// How the sync is reported.
    pub fn outcome(&self) -> (r: LyricsOutcome)
        ensures
            r == (match self.content() {
                Some(_) => LyricsOutcome::Written,
                None => LyricsOutcome::Skipped,
            }),
    {
        match self {
            Edit::Rewritten(_) => LyricsOutcome::Written,
            Edit::Unchanged => LyricsOutcome::Skipped,
        }
    }
}

/// Errors that can occur while reading or writing tags.
#[derive(Debug)]
pub struct MetaError(pub String);

impl MetaError {
    pub fn new(msg: &str) -> (r: Self)
        ensures
            r.0@ == msg@,
    {
        MetaError(msg.to_owned())
    }
}

/// Whether a reading gave the track, or the error message, that it should.
pub open spec fn read_agrees(
    r: Result<TrackMeta, MetaError>,
    expected: Result<Track, Seq<char>>,
) -> bool {
    match (r, expected) {
        (Ok(track), Ok(t)) => track@ == t,
        (Err(e), Err(message)) => e.0@ == message,
        _ => false,
    }
}

/// Whether a sync gave the edit, or the error message, that it should.
pub open spec fn edit_agrees(
    r: Result<Edit, MetaError>,
    expected: Result<Option<Seq<u8>>, Seq<char>>,
) -> bool {
    match (r, expected) {
        (Ok(edit), Ok(content)) => edit.content() == content,
        (Err(e), Err(message)) => e.0@ == message,
        _ => false,
    }
}

/// Per-format behaviour required by the sync engine, on the bytes of a file.
///
/// Implementations extract identity metadata (title / artist / album / track
/// / duration) and know how to embed lyrics in the format-native way:
///
/// * FLAC / OGG: a `LYRICS` Vorbis comment field.
/// * MP3: a `USLT` (unsynchronised lyrics) frame, the ID3 standard.
/// * MP4: the `©lyr` atom, the iTunes-standard lyrics location.
pub trait AudioFormat {
    /// Whether `b` can be searched for metadata without running past its end.
    spec fn readable(b: Seq<u8>) -> bool;

    /// The metadata in `b`, or the message of the error.
    spec fn metadata(b: Seq<u8>, filepath: Seq<char>) -> Result<Track, Seq<char>>;

    /// Whether lyrics can be put into `b` without running past its end.
    spec fn editable(b: Seq<u8>, lyrics: Seq<char>, force: bool) -> bool;

    /// `b` with `lyrics` in it, `None` where it stays as it is, or the message of the error.
    spec fn edited(b: Seq<u8>, lyrics: Seq<char>, force: bool) -> Result<Option<Seq<u8>>, Seq<char>>;

    /// Tells whether [`AudioFormat::read_metadata`] may be called.
    fn can_read(bytes: &[u8]) -> (r: bool)
        ensures
            r == Self::readable(bytes@),
    ;

    /// Tells whether [`AudioFormat::sync_lyrics`] may be called.
    fn can_sync(bytes: &[u8], lyrics: &str, force: bool) -> (r: bool)
        ensures
            r == Self::editable(bytes@, lyrics@, force),
    ;

    /// Reads the metadata of the file at `filepath`, whose content is `bytes`.
    fn read_metadata(bytes: &[u8], filepath: &str) -> (r: Result<TrackMeta, MetaError>)
        requires
            Self::readable(bytes@),
        ensures
            read_agrees(r, Self::metadata(bytes@, filepath@)),
    ;

    /// Puts `lyrics` into the file whose content is `bytes`, unless it has lyrics already and
    /// `force` is not set.
    fn sync_lyrics(bytes: &[u8], lyrics: &str, force: bool) -> (r: Result<Edit, MetaError>)
        requires
            Self::editable(bytes@, lyrics@, force),
        ensures
            edit_agrees(r, Self::edited(bytes@, lyrics@, force)),
    ;
}

/// The ID3v2 "synchsafe" number at `at`: four bytes of seven bits each.
pub open spec fn synchsafe(b: Seq<u8>, at: int) -> int {
    (b[at] % 0x80) * 0x20_0000 + (b[at + 1] % 0x80) * 0x4000 + (b[at + 2] % 0x80) * 0x80 + b[at + 3]
        % 0x80
}

/// The low 28 bits of `n` as a "synchsafe" number.
pub open spec fn synchsafe_bytes(n: int) -> Seq<u8> {
    seq![
        (n / 0x20_0000 % 0x80) as u8,
        (n / 0x4000 % 0x80) as u8,
        (n / 0x80 % 0x80) as u8,
        (n % 0x80) as u8,
    ]
}

/// Decodes an ID3v2 "synchsafe" number.
pub fn synchsafe_u32(b: &[u8]) -> (n: u32)
    requires
        b.len() >= 4,
    ensures
        n == synchsafe(b@, 0),
        n < 0x1000_0000,
{
    ((b[0] % 0x80) as u32) * 0x20_0000 + ((b[1] % 0x80) as u32) * 0x4000 + ((b[2] % 0x80) as u32)
        * 0x80 + ((b[3] % 0x80) as u32)
}

/// Appends the low 28 bits of `n` as a "synchsafe" number.
pub fn push_synchsafe(out: &mut Vec<u8>, n: u64)
    ensures
        final(out)@ == old(out)@ + synchsafe_bytes(n as int),
{
    out.push((n / 0x20_0000 % 0x80) as u8);
    out.push((n / 0x4000 % 0x80) as u8);
    out.push((n / 0x80 % 0x80) as u8);
    out.push((n % 0x80) as u8);
}

/// A "synchsafe" number is read back from the bytes it was written as.
#[verifier::spinoff_prover]
pub proof fn lemma_synchsafe_round_trip(n: int)
    requires
        0 <= n < 0x1000_0000,
    ensures
        synchsafe_bytes(n).len() == 4,
        synchsafe(synchsafe_bytes(n), 0) == n,
{
    let x = n / 0x80;
    let y = x / 0x80;
    let z = y / 0x80;
    assert(n / 0x4000 == y);
    assert(n / 0x20_0000 == z);
    assert(0 <= z < 0x80);
    assert(z % 0x80 == z);
    assert(n == z * 0x20_0000 + y % 0x80 * 0x4000 + x % 0x80 * 0x80 + n % 0x80);
    let b = synchsafe_bytes(n);
    assert(b[0] == z && b[1] == y % 0x80 && b[2] == x % 0x80 && b[3] == n % 0x80);
}

/// A track of which only the place is known.
pub open spec fn blank(filepath: Seq<char>) -> Track {
    Track { title: None, artist: None, album: None, track_number: 0, duration: 0, filepath }
}

/// Makes a track of which only the place is known.
pub fn blank_track(filepath: &str) -> (r: TrackMeta)
    ensures
        r@ == blank(filepath@),
{
    TrackMeta {
        title: None,
        artist: None,
        album: None,
        track_number: 0,
        duration: 0,
        filepath: filepath.to_owned(),
    }
}

/// The kinds of audio file.
#[derive(Debug, Clone, Copy, PartialEq, Eq, Structural)]
pub enum AudioKind {
    Flac,
    Mp3,
    Ogg,
    Opus,
    Mp4,
}

/// The kind of audio file that an extension stands for, whatever the case of its letters.
pub open spec fn kind_of(extension: Option<Seq<char>>) -> Option<AudioKind> {
    match extension {
        Some(ext) => {
            let e = lowered(ext);
            if e == "flac"@ {
                Some(AudioKind::Flac)
            } else if e == "mp3"@ {
                Some(AudioKind::Mp3)
            } else if e == "ogg"@ {
                Some(AudioKind::Ogg)
            } else if e == "opus"@ {
                Some(AudioKind::Opus)
            } else if e == "m4a"@ || e == "mp4"@ || e == "m4b"@ || e == "m4p"@ || e == "aac"@ {
                Some(AudioKind::Mp4)
            } else {
                None
            }
        },
        None => None,
    }
}

/// The kind of audio file that an extension stands for.
pub fn audio_extension(extension: Option<&str>) -> (r: Option<AudioKind>)
    ensures
        r == kind_of(str_view(extension)),
{
    let e = match extension {
        Some(ext) => to_lowered(&chars_of(ext)),
        None => return None,
    };
    if is_text(&e, "flac") {
        Some(AudioKind::Flac)
    } else if is_text(&e, "mp3") {
        Some(AudioKind::Mp3)
    } else if is_text(&e, "ogg") {
        Some(AudioKind::Ogg)
    } else if is_text(&e, "opus") {
        Some(AudioKind::Opus)
    } else if is_text(&e, "m4a") || is_text(&e, "mp4") || is_text(&e, "m4b") || is_text(&e, "m4p")
        || is_text(&e, "aac") {
        Some(AudioKind::Mp4)
    } else {
        None
    }
}

/// `true` if the file extension is one that is supported for tag IO.
pub fn is_audio_file(extension: Option<&str>) -> (r: bool)
    ensures
        r == (kind_of(str_view(extension)) is Some),
{
    audio_extension(extension).is_some()
}

/// The message for a file that is not supported.
pub open spec fn unsupported(filepath: Seq<char>) -> Seq<char> {
    "unsupported audio format: "@ + filepath
}

/// Whether the metadata of a file of some kind can be read without running past its end.
pub open spec fn readable(kind: Option<AudioKind>, b: Seq<u8>) -> bool {
    match kind {
        Some(AudioKind::Flac) => Flac::readable(b),
        Some(AudioKind::Mp3) => Mp3::readable(b),
        Some(AudioKind::Ogg) | Some(AudioKind::Opus) => Ogg::readable(b),
        Some(AudioKind::Mp4) => Mp4::readable(b),
        None => true,
    }
}

/// The metadata of a file of some kind, or the message of the error.
pub open spec fn metadata_of(kind: Option<AudioKind>, b: Seq<u8>, filepath: Seq<char>) -> Result<
    Track,
    Seq<char>,
> {
    match kind {
        Some(AudioKind::Flac) => Flac::metadata(b, filepath),
        Some(AudioKind::Mp3) => Mp3::metadata(b, filepath),
        Some(AudioKind::Ogg) | Some(AudioKind::Opus) => Ogg::metadata(b, filepath),
        Some(AudioKind::Mp4) => Mp4::metadata(b, filepath),
        None => Err(unsupported(filepath)),
    }
}

/// Whether lyrics can be put into a file of some kind without running past its end.
pub open spec fn editable(
    kind: Option<AudioKind>,
    b: Seq<u8>,
    lyrics: Seq<char>,
    force: bool,
) -> bool {
    match kind {
        Some(AudioKind::Flac) => Flac::editable(b, lyrics, force),
        Some(AudioKind::Mp3) => Mp3::editable(b, lyrics, force),
        Some(AudioKind::Ogg) | Some(AudioKind::Opus) => Ogg::editable(b, lyrics, force),
        Some(AudioKind::Mp4) => Mp4::editable(b, lyrics, force),
        None => true,
    }
}

/// A file of some kind with lyrics in it, `None` where it stays as it is, or the message of the
/// error.
pub open spec fn edited(
    kind: Option<AudioKind>,
    b: Seq<u8>,
    filepath: Seq<char>,
    lyrics: Seq<char>,
    force: bool,
) -> Result<Option<Seq<u8>>, Seq<char>> {
    match kind {
        Some(AudioKind::Flac) => Flac::edited(b, lyrics, force),
        Some(AudioKind::Mp3) => Mp3::edited(b, lyrics, force),
        Some(AudioKind::Ogg) | Some(AudioKind::Opus) => Ogg::edited(b, lyrics, force),
        Some(AudioKind::Mp4) => Mp4::edited(b, lyrics, force),
        None => Err(unsupported(filepath)),
    }
}

/// Tells whether [`read_metadata`] may be called.
pub fn can_read(extension: Option<&str>, bytes: &[u8]) -> (r: bool)
    ensures
        r == readable(kind_of(str_view(extension)), bytes@),
{
    match audio_extension(extension) {
        Some(AudioKind::Flac) => Flac::can_read(bytes),
        Some(AudioKind::Mp3) => Mp3::can_read(bytes),
        Some(AudioKind::Ogg) | Some(AudioKind::Opus) => Ogg::can_read(bytes),
        Some(AudioKind::Mp4) => Mp4::can_read(bytes),
        None => true,
    }
}

/// Tells whether [`sync_lyrics`] may be called.
pub fn can_sync(extension: Option<&str>, bytes: &[u8], lyrics: &str, force: bool) -> (r: bool)
    ensures
        r == editable(kind_of(str_view(extension)), bytes@, lyrics@, force),
{
    match audio_extension(extension) {
        Some(AudioKind::Flac) => Flac::can_sync(bytes, lyrics, force),
        Some(AudioKind::Mp3) => Mp3::can_sync(bytes, lyrics, force),
        Some(AudioKind::Ogg) | Some(AudioKind::Opus) => Ogg::can_sync(bytes, lyrics, force),
        Some(AudioKind::Mp4) => Mp4::can_sync(bytes, lyrics, force),
        None => true,
    }
}

/// Dispatches metadata reading by extension.
pub fn read_metadata(extension: Option<&str>, filepath: &str, bytes: &[u8]) -> (r: Result<
    TrackMeta,
    MetaError,
>)
    requires
        readable(kind_of(str_view(extension)), bytes@),
    ensures
        read_agrees(r, metadata_of(kind_of(str_view(extension)), bytes@, filepath@)),
{
    match audio_extension(extension) {
        Some(AudioKind::Flac) => Flac::read_metadata(bytes, filepath),
        Some(AudioKind::Mp3) => Mp3::read_metadata(bytes, filepath),
        Some(AudioKind::Ogg) | Some(AudioKind::Opus) => Ogg::read_metadata(bytes, filepath),
        Some(AudioKind::Mp4) => Mp4::read_metadata(bytes, filepath),
        None => Err(MetaError(joined("unsupported audio format: ", filepath))),
    }
}

/// Dispatches lyrics syncing by extension.
pub fn sync_lyrics(
    extension: Option<&str>,
    filepath: &str,
    bytes: &[u8],
    lyrics: &str,
    force: bool,
) -> (r: Result<Edit, MetaError>)
    requires
        editable(kind_of(str_view(extension)), bytes@, lyrics@, force),
    ensures
        edit_agrees(
            r,
            edited(kind_of(str_view(extension)), bytes@, filepath@, lyrics@, force),
        ),
{
    match audio_extension(extension) {
        Some(AudioKind::Flac) => Flac::sync_lyrics(bytes, lyrics, force),
        Some(AudioKind::Mp3) => Mp3::sync_lyrics(bytes, lyrics, force),
        Some(AudioKind::Ogg) | Some(AudioKind::Opus) => Ogg::sync_lyrics(bytes, lyrics, force),
        Some(AudioKind::Mp4) => Mp4::sync_lyrics(bytes, lyrics, force),
        None => Err(MetaError(joined("unsupported audio format: ", filepath))),
    }
}

/// Reads the metadata of a file, or gives nothing where [`read_metadata`] may not be called.
pub fn read_checked(extension: Option<&str>, filepath: &str, bytes: &[u8]) -> (r: Option<
    Result<TrackMeta, MetaError>,
>)
    ensures
        match r {
            Some(result) => readable(kind_of(str_view(extension)), bytes@) && read_agrees(
                result,
                metadata_of(kind_of(str_view(extension)), bytes@, filepath@),
            ),
            None => !readable(kind_of(str_view(extension)), bytes@),
        },
{
    if can_read(extension, bytes) {
        Some(read_metadata(extension, filepath, bytes))
    } else {
        None
    }
}

/// Puts lyrics into a file, or gives nothing where [`sync_lyrics`] may not be called.
pub fn sync_checked(
    extension: Option<&str>,
    filepath: &str,
    bytes: &[u8],
    lyrics: &str,
    force: bool,
) -> (r: Option<Result<Edit, MetaError>>)
    ensures
        match r {
            Some(result) => editable(
                kind_of(str_view(extension)),
                bytes@,
                lyrics@,
                force,
            ) && edit_agrees(
                result,
                edited(kind_of(str_view(extension)), bytes@, filepath@, lyrics@, force),
            ),
            None => !editable(kind_of(str_view(extension)), bytes@, lyrics@, force),
        },
{
    if can_sync(extension, bytes, lyrics, force) {
        Some(sync_lyrics(extension, filepath, bytes, lyrics, force))
    } else {
        None
    }
}

} // verus!
