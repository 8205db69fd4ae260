//! Which file is handled by which format.

use vstd::prelude::*;

use crate::metadata::flac::Flac;
use crate::metadata::id3v2::Mp3;
use crate::metadata::mp4::Mp4;
use crate::metadata::ogg::Ogg;
use crate::metadata::{
    edit_agrees, editable, edited, kind_of, metadata_of, read_agrees, readable, AudioFormat,
    AudioKind, Edit, MetaError,
};
use crate::text::{lowered, small};
use crate::types::{text_view, Track, TrackMeta};

verus! {

/// Whether a word is a name in small letters, in any case of its letters.
pub open spec fn spells(word: Seq<char>, name: Seq<char>) -> bool {
    &&& word.len() == name.len()
    &&& forall|i: int|
        0 <= i < word.len() ==> #[trigger] word[i] == name[i] || ('a' <= name[i] <= 'z'
            && word[i] as int == name[i] as int - 32)
}

pub proof fn lemma_spelled(word: Seq<char>, name: Seq<char>)
    requires
        forall|i: int| 0 <= i < name.len() ==> !('A' <= #[trigger] name[i] <= 'Z'),
    ensures
        lowered(word) == name <==> spells(word, name),
{
    if spells(word, name) {
        assert forall|i: int| 0 <= i < word.len() implies lowered(word)[i] == name[i] by {
            assert(word[i] == name[i] || ('a' <= name[i] <= 'z' && word[i] as int == name[i] as int
                - 32));
        }
        assert(lowered(word) =~= name);
    }
    if lowered(word) == name {
        assert(lowered(word).len() == word.len());
        assert forall|i: int| 0 <= i < word.len() implies #[trigger] word[i] == name[i] || ('a'
            <= name[i] <= 'z' && word[i] as int == name[i] as int - 32) by {
            assert(lowered(word)[i] == small(word[i]));
        }
    }
}

pub proof fn lemma_names(word: Seq<char>)
    ensures
        lowered(word) == "flac"@ <==> spells(word, "flac"@),
        lowered(word) == "mp3"@ <==> spells(word, "mp3"@),
        lowered(word) == "ogg"@ <==> spells(word, "ogg"@),
        lowered(word) == "opus"@ <==> spells(word, "opus"@),
        lowered(word) == "m4a"@ <==> spells(word, "m4a"@),
        lowered(word) == "mp4"@ <==> spells(word, "mp4"@),
        lowered(word) == "m4b"@ <==> spells(word, "m4b"@),
        lowered(word) == "m4p"@ <==> spells(word, "m4p"@),
        lowered(word) == "aac"@ <==> spells(word, "aac"@),
        "flac"@ =~= seq!['f', 'l', 'a', 'c'],
        "mp3"@ =~= seq!['m', 'p', '3'],
        "ogg"@ =~= seq!['o', 'g', 'g'],
        "opus"@ =~= seq!['o', 'p', 'u', 's'],
        "m4a"@ =~= seq!['m', '4', 'a'],
        "mp4"@ =~= seq!['m', 'p', '4'],
        "m4b"@ =~= seq!['m', '4', 'b'],
        "m4p"@ =~= seq!['m', '4', 'p'],
        "aac"@ =~= seq!['a', 'a', 'c'],
{
    reveal_strlit("flac");
    reveal_strlit("mp3");
    reveal_strlit("ogg");
    reveal_strlit("opus");
    reveal_strlit("m4a");
    reveal_strlit("mp4");
    reveal_strlit("m4b");
    reveal_strlit("m4p");
    reveal_strlit("aac");
    lemma_spelled(word, "flac"@);
    lemma_spelled(word, "mp3"@);
    lemma_spelled(word, "ogg"@);
    lemma_spelled(word, "opus"@);
    lemma_spelled(word, "m4a"@);
    lemma_spelled(word, "mp4"@);
    lemma_spelled(word, "m4b"@);
    lemma_spelled(word, "m4p"@);
    lemma_spelled(word, "aac"@);
}

/// A file named `.m4a`, `.mp4`, `.m4b`, `.m4p` or `.aac`, in any case of letters, is read and
/// written as an MP4 file.
pub proof fn law_mp4_files(
    extension: Seq<char>,
    b: Seq<u8>,
    filepath: Seq<char>,
    lyrics: Seq<char>,
    force: bool,
)
    requires
        spells(extension, seq!['m', '4', 'a']) || spells(extension, seq!['m', 'p', '4']) || spells(
            extension,
            seq!['m', '4', 'b'],
        ) || spells(extension, seq!['m', '4', 'p']) || spells(extension, seq!['a', 'a', 'c']),
    ensures
        ({
            let kind = kind_of(Some(extension));
            &&& readable(kind, b) == Mp4::readable(b)
            &&& metadata_of(kind, b, filepath) == Mp4::metadata(b, filepath)
            &&& editable(kind, b, lyrics, force) == Mp4::editable(b, lyrics, force)
            &&& edited(kind, b, filepath, lyrics, force) == Mp4::edited(b, lyrics, force)
        }),
{
    lemma_names(extension);
}

/// A file named `.flac`, in any case of letters, is read and written as a FLAC file.
pub proof fn law_flac_files(
    extension: Seq<char>,
    b: Seq<u8>,
    filepath: Seq<char>,
    lyrics: Seq<char>,
    force: bool,
)
    requires
        spells(extension, seq!['f', 'l', 'a', 'c']),
    ensures
        ({
            let kind = kind_of(Some(extension));
            &&& readable(kind, b) == Flac::readable(b)
            &&& metadata_of(kind, b, filepath) == Flac::metadata(b, filepath)
            &&& editable(kind, b, lyrics, force) == Flac::editable(b, lyrics, force)
            &&& edited(kind, b, filepath, lyrics, force) == Flac::edited(b, lyrics, force)
        }),
{
    lemma_names(extension);
}

/// A file named `.mp3`, in any case of letters, is read and written as an MP3 file.
pub proof fn law_mp3_files(
    extension: Seq<char>,
    b: Seq<u8>,
    filepath: Seq<char>,
    lyrics: Seq<char>,
    force: bool,
)
    requires
        spells(extension, seq!['m', 'p', '3']),
    ensures
        ({
            let kind = kind_of(Some(extension));
            &&& readable(kind, b) == Mp3::readable(b)
            &&& metadata_of(kind, b, filepath) == Mp3::metadata(b, filepath)
            &&& editable(kind, b, lyrics, force) == Mp3::editable(b, lyrics, force)
            &&& edited(kind, b, filepath, lyrics, force) == Mp3::edited(b, lyrics, force)
        }),
{
    lemma_names(extension);
}

/// A file named `.ogg` or `.opus`, in any case of letters, is read and written as an OGG file.
pub proof fn law_ogg_files(
    extension: Seq<char>,
    b: Seq<u8>,
    filepath: Seq<char>,
    lyrics: Seq<char>,
    force: bool,
)
    requires
        spells(extension, seq!['o', 'g', 'g']) || spells(extension, seq!['o', 'p', 'u', 's']),
    ensures
        ({
            let kind = kind_of(Some(extension));
            &&& readable(kind, b) == Ogg::readable(b)
            &&& metadata_of(kind, b, filepath) == Ogg::metadata(b, filepath)
            &&& editable(kind, b, lyrics, force) == Ogg::editable(b, lyrics, force)
            &&& edited(kind, b, filepath, lyrics, force) == Ogg::edited(b, lyrics, force)
        }),
{
    lemma_names(extension);
}

/// A reading or a sync that agrees with what it should give gives exactly that: the same track, the
/// same bytes, or the same error.
pub proof fn law_agreement(
    read: Result<TrackMeta, MetaError>,
    track: Result<Track, Seq<char>>,
    sync: Result<Edit, MetaError>,
    content: Result<Option<Seq<u8>>, Seq<char>>,
)
    ensures
        read_agrees(read, track) ==> match read {
            Ok(t) => track matches Ok(m) && m.title == text_view(t.title) && m.artist == text_view(
                t.artist,
            ) && m.album == text_view(t.album) && m.track_number == t.track_number && m.duration
                == t.duration && m.filepath == t.filepath@,
            Err(e) => track matches Err(m) && m == e.0@,
        },
        edit_agrees(sync, content) ==> match sync {
            Ok(Edit::Rewritten(bytes)) => content matches Ok(Some(b)) && b == bytes@,
            Ok(Edit::Unchanged) => content matches Ok(None),
            Err(e) => content matches Err(m) && m == e.0@,
        },
{
}

/// Any bytes can be searched for FLAC metadata, and lyrics can be put into any FLAC or MP3 file.
pub proof fn law_always_possible(b: Seq<u8>, lyrics: Seq<char>, force: bool)
    ensures
        Flac::readable(b),
        Flac::editable(b, lyrics, force),
        Mp3::editable(b, lyrics, force),
{
}

/// A file with another extension, or with none, is refused by name and never changed.
pub proof fn law_other_files(
    extension: Option<Seq<char>>,
    b: Seq<u8>,
    filepath: Seq<char>,
    lyrics: Seq<char>,
    force: bool,
)
    requires
        extension matches Some(e) ==> {
            &&& !spells(e, seq!['f', 'l', 'a', 'c'])
            &&& !spells(e, seq!['m', 'p', '3'])
            &&& !spells(e, seq!['o', 'g', 'g'])
            &&& !spells(e, seq!['o', 'p', 'u', 's'])
            &&& !spells(e, seq!['m', '4', 'a'])
            &&& !spells(e, seq!['m', 'p', '4'])
            &&& !spells(e, seq!['m', '4', 'b'])
            &&& !spells(e, seq!['m', '4', 'p'])
            &&& !spells(e, seq!['a', 'a', 'c'])
        },
    ensures
        kind_of(extension) == None::<AudioKind>,
        readable(kind_of(extension), b),
        editable(kind_of(extension), b, lyrics, force),
        metadata_of(kind_of(extension), b, filepath) matches Err(m) && m
            == "unsupported audio format: "@ + filepath,
        edited(kind_of(extension), b, filepath, lyrics, force) matches Err(m) && m
            == "unsupported audio format: "@ + filepath,
{
    if let Some(e) = extension {
        lemma_names(e);
    }
}

} // verus!
