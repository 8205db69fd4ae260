//! MP3 metadata reader/writer via ID3v2 tags.
//!
//! MP3 files optionally begin with an ID3v2 tag (versions 2.3 and 2.4 are
//! supported; 2.2 is detected but rare). The tag is a sequence of frames,
//! each identified by a 4-character ID:
//!
//! * `TIT2` — title
//! * `TPE1` — artist
//! * `TALB` — album
//! * `TRCK` — track number (may be `"5"` or `"5/12"`)
//! * `USLT` — unsynchronised lyrics (the standard ID3 lyrics frame)
//! * `TXXX` — user-defined text; TagLib stores a `LYRICS` property here
//!   when the generic property interface is used, so it is honoured on
//!   read, but `USLT` is what is written.
//!
//! Duration is estimated by parsing the first MPEG audio frame header and
//! looking for a `Xing`/`Info` VBR header. For CBR files this is exact;
//! for VBR files with a Xing header it is also exact; otherwise it falls
//! back to a bitrate estimate.

use vstd::prelude::*;
use vstd::slice::slice_subrange;
use vstd::utf8::{decode_utf8, encode_utf8, valid_utf8};

use crate::bytes::{
    append_bytes, be16, be32, be32_bytes, copy_range, find_byte, first_index, is_at, push_be32,
    read_be32, stands_at,
};
use crate::metadata::vorbis::{parse_track_number, track_number_of};
use crate::metadata::{
    blank_track, push_synchsafe, synchsafe, synchsafe_bytes, synchsafe_u32, AudioFormat, Edit,
    MetaError,
};
use crate::text::{
    as_text, decode_utf16, lossy_text, lowered, same_letters, utf16_text, utf8_text,
};
use crate::types::{text_view, Track, TrackMeta};

verus! {

/// The MP3 format.
pub struct Mp3;

/// Title frame.
pub const TIT2: u32 = 0x5449_5432;

/// Artist frame.
pub const TPE1: u32 = 0x5450_4531;

/// Album frame.
pub const TALB: u32 = 0x5441_4c42;

/// Track number frame.
pub const TRCK: u32 = 0x5452_434b;

/// Lyrics frame.
pub const USLT: u32 = 0x5553_4c54;

/// Frame for user-defined text.
pub const TXXX: u32 = 0x5458_5858;

/// The three bytes at the start of an ID3v2 tag: `ID3`.
pub open spec fn id3_marker() -> Seq<u8> {
    seq![0x49u8, 0x44, 0x33]
}

/// A single ID3v2 frame: 4-byte ID + raw payload (no header).
pub struct Frame {
    pub id: u32,
    pub data: Vec<u8>,
}

/// What a [`Frame`] holds.
pub struct FrameContent {
    pub id: u32,
    pub data: Seq<u8>,
}

impl View for Frame {
    type V = FrameContent;

    open spec fn view(&self) -> FrameContent {
        FrameContent { id: self.id, data: self.data@ }
    }
}

/// The contents of a list of frames.
pub open spec fn frame_views(frames: Seq<Frame>) -> Seq<FrameContent> {
    frames.map_values(|f: Frame| f@)
}

/// What the header of an ID3v2 tag says.
#[derive(Clone, Copy)]
pub struct Id3Header {
    /// Major version (3 = v2.3, 4 = v2.4).
    pub version: u8,
    /// Byte offset of the first byte after the ID3v2 tag.
    pub end: usize,
}

/// Where the ID3v2 tag at the start of `b` ends; a tag that claims more bytes than there are ends
/// with them.
pub open spec fn tag_end(b: Seq<u8>) -> Option<int> {
    if b.len() < 10 || !stands_at(b, 0, id3_marker()) {
        None
    } else if 10 + synchsafe(b, 6) > b.len() {
        Some(b.len() as int)
    } else {
        Some(10 + synchsafe(b, 6))
    }
}

/// Finds and parses an ID3v2 header at the start of `bytes`.
pub fn parse_id3_header(bytes: &[u8]) -> (r: Option<Id3Header>)
    ensures
        match r {
            Some(h) => tag_end(bytes@) == Some(h.end as int) && 10 <= h.end <= bytes.len()
                && h.version == bytes@[3],
            None => tag_end(bytes@) is None,
        },
{
    let marker: Vec<u8> = vec![0x49, 0x44, 0x33];
    assert(marker@ =~= id3_marker());
    if bytes.len() < 10 || !is_at(bytes, 0, &marker) {
        return None;
    }
    let size: usize = synchsafe_u32(slice_subrange(bytes, 6, 10)) as usize;
    let end: usize = if size > bytes.len() - 10 {
        bytes.len()
    } else {
        10 + size
    };
    Some(Id3Header { version: bytes[3], end })
}

/// The payload size that the frame header at `pos` gives: synchsafe since version 2.4.
pub open spec fn frame_size(version: u8, body: Seq<u8>, pos: int) -> int {
    if version >= 4 {
        synchsafe(body, pos + 4)
    } else {
        be32(body, pos + 4)
    }
}

/// The frames in a tag body from `pos` on. They end where no header fits, at an ID that starts
/// with a zero byte, and at a frame that runs past the end of the body.
pub open spec fn frames_at(version: u8, body: Seq<u8>, pos: int) -> Seq<FrameContent>
    decreases body.len() - pos,
{
    let from = pos + 10;
    let end = from + frame_size(version, body, pos);
    if pos < 0 || from > body.len() || body[pos] == 0 || end > body.len() || end < from {
        seq![]
    } else {
        seq![FrameContent { id: be32(body, pos) as u32, data: body.subrange(from, end) }]
            + frames_at(version, body, end)
    }
}

/// Lists the frames inside an ID3v2 tag body.
pub fn iter_frames(version: u8, body: &[u8]) -> (r: Vec<Frame>)
    ensures
        frame_views(r@) == frames_at(version, body@, 0),
{
    let mut frames: Vec<Frame> = Vec::new();
    let mut pos: usize = 0;
    let n: usize = body.len();
    assert(frame_views(frames@) + frames_at(version, body@, 0) =~= frames_at(version, body@, 0));
    while pos <= n && n - pos >= 10
        invariant
            pos <= n,
            n == body.len(),
            frame_views(frames@) + frames_at(version, body@, pos as int) == frames_at(
                version,
                body@,
                0,
            ),
        decreases n - pos,
    {
        let ghost done = frame_views(frames@);
        assert(done + Seq::<FrameContent>::empty() =~= done);
        let size_field = slice_subrange(body, pos + 4, pos + 8);
        let size: u32 = if version >= 4 {
            synchsafe_u32(size_field)
        } else {
            read_be32(size_field, 0)
        };
        assert(size == frame_size(version, body@, pos as int));
        if body[pos] == 0 || size as u64 > (n - pos - 10) as u64 {
            return frames;
        }
        let from: usize = pos + 10;
        let end: usize = from + size as usize;
        let frame = Frame { id: read_be32(body, pos), data: copy_range(body, from, end) };
        let ghost content = frame@;
        frames.push(frame);
        assert(frame_views(frames@) =~= done.push(content));
        assert(done + (seq![content] + frames_at(version, body@, end as int)) =~= done.push(content)
            + frames_at(version, body@, end as int));
        pos = end;
    }
    assert(frame_views(frames@) + Seq::<FrameContent>::empty() =~= frame_views(frames@));
    frames
}

/// A text without the NUL terminator that its encoding has.
pub open spec fn stripped(text: Seq<u8>, enc: u8) -> Seq<u8> {
    let n = text.len() as int;
    if enc == 1 || enc == 2 {
        if n >= 2 && text[n - 2] == 0 && text[n - 1] == 0 {
            text.subrange(0, n - 2)
        } else {
            text
        }
    } else if n >= 1 && text[n - 1] == 0 {
        text.subrange(0, n - 1)
    } else {
        text
    }
}

/// Removes a single trailing NUL terminator appropriate for the encoding.
pub fn strip_trailing_nul(text: &[u8], enc: u8) -> (r: &[u8])
    ensures
        r@ == stripped(text@, enc),
{
    let n: usize = text.len();
    if enc == 1 || enc == 2 {
        if n >= 2 && text[n - 2] == 0 && text[n - 1] == 0 {
            return slice_subrange(text, 0, n - 2);
        }
    } else if n >= 1 && text[n - 1] == 0 {
        return slice_subrange(text, 0, n - 1);
    }
    text
}

/// The 16-bit units that bytes in pairs stand for, little- or big-endian.
pub open spec fn units_of(b: Seq<u8>, le: bool) -> Seq<u16> {
    Seq::new(
        b.len() / 2,
        |i: int|
            if le {
                (b[2 * i] + b[2 * i + 1] * 0x100) as u16
            } else {
                be16(b, 2 * i) as u16
            },
    )
}

/// The text in a UTF-16 byte sequence.
pub open spec fn utf16_of(b: Seq<u8>, le: bool) -> Option<Seq<char>> {
    if b.len() % 2 != 0 {
        None
    } else {
        utf16_text(units_of(b, le))
    }
}

/// Decodes a UTF-16 byte sequence (little- or big-endian).
pub fn utf16_decode(bytes: &[u8], le: bool) -> (r: Option<String>)
    ensures
        text_view(r) == utf16_of(bytes@, le),
{
    if bytes.len() % 2 != 0 {
        return None;
    }
    let mut units: Vec<u16> = Vec::new();
    let half: usize = bytes.len() / 2;
    let mut i: usize = 0;
    while i < half
        invariant
            i <= half,
            half == bytes.len() / 2,
            units@ =~= units_of(bytes@, le).take(i as int),
        decreases half - i,
    {
        let a: u16 = bytes[2 * i] as u16;
        let b: u16 = bytes[2 * i + 1] as u16;
        let u: u16 = if le {
            a + b * 0x100
        } else {
            a * 0x100 + b
        };
        assert(u == units_of(bytes@, le)[i as int]);
        units.push(u);
        i = i + 1;
    }
    assert(units@ =~= units_of(bytes@, le));
    decode_utf16(&units)
}

/// The text of ISO-8859-1 bytes: each byte is the code of its character.
pub open spec fn latin1(b: Seq<u8>) -> Seq<char> {
    Seq::new(b.len(), |i: int| b[i] as char)
}

/// Decodes ISO-8859-1 bytes.
pub fn latin1_text(b: &[u8]) -> (r: String)
    ensures
        r@ == latin1(b@),
{
    let mut r = String::new();
    let mut i: usize = 0;
    while i < b.len()
        invariant
            i <= b@.len(),
            r@ =~= latin1(b@).take(i as int),
        decreases b@.len() - i,
    {
        r.push(b[i] as char);
        i = i + 1;
    }
    assert(r@ =~= latin1(b@));
    r
}

/// The text in a text frame payload. The first byte selects the encoding:
///   0 = ISO-8859-1, 1 = UTF-16 with BOM, 2 = UTF-16BE, 3 = UTF-8.
///
/// UTF-16 without a BOM is taken to be little-endian; an unknown encoding is read as UTF-8 with
/// replacement characters.
#[verifier::opaque]
pub open spec fn frame_text(data: Seq<u8>) -> Option<Seq<char>> {
    if data.len() == 0 {
        None
    } else {
        let enc = data[0];
        let text = stripped(data.subrange(1, data.len() as int), enc);
        let n = text.len() as int;
        if enc == 0 {
            Some(latin1(text))
        } else if enc == 1 {
            if n < 2 {
                None
            } else if text[0] == 0xFF && text[1] == 0xFE {
                utf16_of(text.subrange(2, n), true)
            } else if text[0] == 0xFE && text[1] == 0xFF {
                utf16_of(text.subrange(2, n), false)
            } else {
                utf16_of(text, true)
            }
        } else if enc == 2 {
            utf16_of(text, false)
        } else if enc == 3 {
            if valid_utf8(text) {
                Some(decode_utf8(text))
            } else {
                None
            }
        } else {
            Some(as_text(text))
        }
    }
}

/// Decodes an ID3 text frame payload.
pub fn decode_text(data: &[u8]) -> (r: Option<String>)
    ensures
        text_view(r) == frame_text(data@),
{
    proof {
        reveal(frame_text);
    }
    if data.len() == 0 {
        return None;
    }
    let enc: u8 = data[0];
    let text = strip_trailing_nul(slice_subrange(data, 1, data.len()), enc);
    if enc == 0 {
        Some(latin1_text(text))
    } else if enc == 1 {
        if text.len() < 2 {
            None
        } else if text[0] == 0xFF && text[1] == 0xFE {
            utf16_decode(slice_subrange(text, 2, text.len()), true)
        } else if text[0] == 0xFE && text[1] == 0xFF {
            utf16_decode(slice_subrange(text, 2, text.len()), false)
        } else {
            utf16_decode(text, true)
        }
    } else if enc == 2 {
        utf16_decode(text, false)
    } else if enc == 3 {
        utf8_text(text)
    } else {
        Some(lossy_text(text))
    }
}

/// The text of the first frame with an ID whose payload decodes to something not empty.
pub open spec fn text_in(frames: Seq<FrameContent>, id: u32) -> Option<Seq<char>>
    decreases frames.len(),
{
    if frames.len() == 0 {
        None
    } else {
        let rest = text_in(frames.drop_first(), id);
        if frames[0].id == id {
            match frame_text(frames[0].data) {
                Some(s) => if s.len() > 0 {
                    Some(s)
                } else {
                    rest
                },
                None => rest,
            }
        } else {
            rest
        }
    }
}

/// Finds the text of the frame with the given ID.
pub fn find_text(frames: &Vec<Frame>, id: u32) -> (r: Option<String>)
    ensures
        text_view(r) == text_in(frame_views(frames@), id),
{
    let ghost all = frame_views(frames@);
    let mut i: usize = 0;
    assert(all.skip(0) =~= all);
    while i < frames.len()
        invariant
            i <= frames@.len(),
            all == frame_views(frames@),
            text_in(all, id) == text_in(all.skip(i as int), id),
        decreases frames@.len() - i,
    {
        assert(all.skip(i as int)[0] == frames@[i as int]@);
        assert(all.skip(i as int).drop_first() =~= all.skip(i + 1));
        if frames[i].id == id {
            if let Some(s) = decode_text(&frames[i].data) {
                if crate::text::chars_of(&s).len() > 0 {
                    return Some(s);
                }
            }
        }
        i = i + 1;
    }
    assert(all.skip(i as int) =~= Seq::<FrameContent>::empty());
    None
}

/// The place of the first pair of NUL bytes at an even distance from `i`, or the length.
pub open spec fn double_nul(d: Seq<u8>, i: int) -> int
    decreases d.len() - i,
{
    if i + 1 >= d.len() {
        d.len() as int
    } else if d[i] == 0 && d[i + 1] == 0 {
        i
    } else {
        double_nul(d, i + 2)
    }
}

/// The byte length of a NUL-terminated string: UTF-16 uses a double-NUL terminator.
pub open spec fn terminator(d: Seq<u8>, enc: u8) -> int {
    if enc == 1 || enc == 2 {
        double_nul(d, 0)
    } else {
        match first_index(d, 0) {
            Some(i) => i,
            None => d.len() as int,
        }
    }
}

/// Finds the byte length of a NUL-terminated ID3 string, honouring the encoding.
pub fn find_string_terminator(data: &[u8], enc: u8) -> (r: usize)
    ensures
        r == terminator(data@, enc),
        r <= data@.len(),
{
    let n: usize = data.len();
    if enc == 1 || enc == 2 {
        let mut i: usize = 0;
        while i < n && n - i > 1
            invariant
                i <= n,
                n == data.len(),
                enc == 1 || enc == 2,
                double_nul(data@, 0) == double_nul(data@, i as int),
            decreases n - i,
        {
            if data[i] == 0 && data[i + 1] == 0 {
                return i;
            }
            i = i + 2;
        }
        n
    } else {
        match find_byte(data, 0) {
            Some(i) => i,
            None => n,
        }
    }
}

/// The description of a `TXXX` frame, whose payload is an encoding byte, the NUL-terminated
/// description and the value. Like every text it is read in the encoding that the first byte
/// selects.
pub open spec fn description(data: Seq<u8>) -> Option<Seq<char>> {
    if data.len() == 0 {
        None
    } else {
        let rest = data.subrange(1, data.len() as int);
        frame_text(data.subrange(0, 1 + terminator(rest, data[0])))
    }
}

/// Reads the description of a `TXXX` frame.
pub fn read_description(data: &[u8]) -> (r: Option<String>)
    ensures
        text_view(r) == description(data@),
{
    if data.len() == 0 {
        return None;
    }
    let term: usize = find_string_terminator(slice_subrange(data, 1, data.len()), data[0]);
    decode_text(slice_subrange(data, 0, 1 + term))
}

/// Whether a frame holds lyrics: a `USLT` frame, or a `TXXX` frame whose description is `LYRICS`,
/// whatever its encoding and the case of its letters.
pub open spec fn lyrics_frame(f: FrameContent) -> bool {
    ||| f.id == USLT
    ||| f.id == TXXX && (description(f.data) matches Some(s) && lowered(s) == lowered("LYRICS"@))
}

/// Tells whether a frame holds lyrics.
pub fn is_lyrics(f: &Frame) -> (r: bool)
    ensures
        r == lyrics_frame(f@),
{
    if f.id == USLT {
        return true;
    }
    if f.id != TXXX {
        return false;
    }
    match read_description(&f.data) {
        Some(s) => same_letters(&s, "LYRICS"),
        None => false,
    }
}

/// Whether any of the frames holds lyrics.
pub open spec fn any_lyrics(frames: Seq<FrameContent>) -> bool {
    exists|i: int| 0 <= i < frames.len() && lyrics_frame(#[trigger] frames[i])
}

/// Tells whether any frame contains embedded lyrics.
pub fn has_lyrics(frames: &Vec<Frame>) -> (r: bool)
    ensures
        r == any_lyrics(frame_views(frames@)),
{
    let ghost all = frame_views(frames@);
    let mut i: usize = 0;
    while i < frames.len()
        invariant
            i <= frames@.len(),
            all == frame_views(frames@),
            forall|j: int| 0 <= j < i ==> !lyrics_frame(#[trigger] all[j]),
        decreases frames@.len() - i,
    {
        assert(all[i as int] == frames@[i as int]@);
        if is_lyrics(&frames[i]) {
            return true;
        }
        i = i + 1;
    }
    false
}

/// The `USLT` frame with `lyrics`: UTF-8, language `eng`, an empty content descriptor.
pub open spec fn uslt(lyrics: Seq<char>) -> FrameContent {
    FrameContent {
        id: USLT,
        data: seq![3u8, 0x65, 0x6e, 0x67, 0] + encode_utf8(lyrics),
    }
}

/// Builds a `USLT` frame containing `lyrics`.
pub fn build_uslt(lyrics: &str) -> (r: Frame)
    ensures
        r@ == uslt(lyrics@),
{
    let mut data: Vec<u8> = vec![3, 0x65, 0x6e, 0x67, 0];
    assert(data@ =~= seq![3u8, 0x65, 0x6e, 0x67, 0]);
    append_bytes(&mut data, lyrics.as_bytes());
    Frame { id: USLT, data }
}

/// The frames with `lyrics` in place of any lyrics they held.
pub open spec fn with_uslt(frames: Seq<FrameContent>, lyrics: Seq<char>) -> Seq<FrameContent> {
    frames.filter(|f: FrameContent| !lyrics_frame(f)).push(uslt(lyrics))
}

/// Puts `lyrics` in place of any lyrics that the frames hold.
pub fn replace_lyrics(frames: Vec<Frame>, lyrics: &str) -> (r: Vec<Frame>)
    ensures
        frame_views(r@) == with_uslt(frame_views(frames@), lyrics@),
{
    let mut kept: Vec<Frame> = Vec::new();
    let ghost all = frame_views(frames@);
    let ghost stays = |f: FrameContent| !lyrics_frame(f);
    let mut i: usize = 0;
    assert(all.take(0).filter(stays) =~= Seq::<FrameContent>::empty()) by {
        reveal(Seq::filter);
    }
    while i < frames.len()
        invariant
            i <= frames@.len(),
            all == frame_views(frames@),
            stays == (|f: FrameContent| !lyrics_frame(f)),
            frame_views(kept@) =~= all.take(i as int).filter(stays),
        decreases frames@.len() - i,
    {
        let f = &frames[i];
        assert(all[i as int] == f@);
        assert(all.take(i + 1) =~= all.take(i as int).push(f@));
        proof {
            all.take(i as int).lemma_filter_push(f@, stays);
        }
        let ghost done = frame_views(kept@);
        if !is_lyrics(f) {
            let copy = Frame { id: f.id, data: copy_range(&f.data, 0, f.data.len()) };
            assert(copy.data@ =~= f.data@);
            kept.push(copy);
            assert(frame_views(kept@) =~= done.push(f@));
        }
        i = i + 1;
    }
    assert(all.take(i as int) =~= all);
    let ghost done = frame_views(kept@);
    kept.push(build_uslt(lyrics));
    assert(frame_views(kept@) =~= done.push(uslt(lyrics@)));
    kept
}

/// Frames one after the other, with synchsafe sizes and no flags.
pub open spec fn frame_bytes(frames: Seq<FrameContent>) -> Seq<u8>
    decreases frames.len(),
{
    if frames.len() == 0 {
        seq![]
    } else {
        be32_bytes(frames[0].id as int) + synchsafe_bytes(frames[0].data.len() as int) + seq![0u8, 0]
            + frames[0].data + frame_bytes(frames.drop_first())
    }
}

/// A whole tag, version 2.4.
pub open spec fn tag_bytes(frames: Seq<FrameContent>) -> Seq<u8> {
    id3_marker() + seq![4u8, 0, 0] + synchsafe_bytes(frame_bytes(frames).len() as int) + frame_bytes(
        frames,
    )
}

/// Serialises frames into an ID3v2 tag (v2.4, synchsafe sizes).
pub fn serialize_tag(frames: &Vec<Frame>) -> (r: Vec<u8>)
    ensures
        r@ == tag_bytes(frame_views(frames@)),
{
    let mut body: Vec<u8> = Vec::new();
    let ghost all = frame_views(frames@);
    let mut i: usize = 0;
    assert(all.skip(0) =~= all);
    assert(body@ + frame_bytes(all) =~= frame_bytes(all));
    while i < frames.len()
        invariant
            i <= frames@.len(),
            all == frame_views(frames@),
            body@ + frame_bytes(all.skip(i as int)) == frame_bytes(all),
        decreases frames@.len() - i,
    {
        let f = &frames[i];
        let ghost rest = all.skip(i as int);
        let ghost done = body@;
        assert(rest[0] == f@);
        assert(rest.drop_first() =~= all.skip(i + 1));
        push_be32(&mut body, f.id as u64);
        push_synchsafe(&mut body, f.data.len() as u64);
        body.push(0);
        body.push(0);
        append_bytes(&mut body, &f.data);
        assert(body@ + frame_bytes(all.skip(i + 1)) =~= done + frame_bytes(rest));
        i = i + 1;
    }
    assert(all.skip(i as int) =~= Seq::<FrameContent>::empty());
    assert(body@ =~= frame_bytes(all));
    let mut tag: Vec<u8> = vec![0x49, 0x44, 0x33, 4, 0, 0];
    assert(tag@ =~= id3_marker() + seq![4u8, 0, 0]);
    push_synchsafe(&mut tag, body.len() as u64);
    append_bytes(&mut tag, &body);
    tag
}

/// Bitrates (kbps) by bitrate index, for an MPEG version and a layer (3 = I, 2 = II, 1 = III).
pub open spec fn bitrates(version_mpeg1: bool, layer: int) -> Seq<u32> {
    if version_mpeg1 {
        if layer == 3 {
            seq![0u32, 32, 64, 96, 128, 160, 192, 224, 256, 288, 320, 352, 384, 416, 448, 0]
        } else if layer == 2 {
            seq![0u32, 32, 48, 56, 64, 80, 96, 112, 128, 160, 192, 224, 256, 320, 384, 0]
        } else {
            seq![0u32, 32, 40, 48, 56, 64, 80, 96, 112, 128, 160, 192, 224, 256, 320, 0]
        }
    } else if layer == 3 {
        seq![0u32, 32, 48, 56, 64, 80, 96, 112, 128, 144, 160, 176, 192, 224, 256, 0]
    } else {
        seq![0u32, 8, 16, 24, 32, 40, 48, 56, 64, 80, 96, 112, 128, 144, 160, 0]
    }
}

/// Sample rates (Hz) by sample-rate index, for the version bits of a frame header
/// (3 = MPEG 1, 2 = MPEG 2, 0 = MPEG 2.5).
pub open spec fn sample_rates(version_bits: int) -> Seq<u32> {
    if version_bits == 3 {
        seq![44100u32, 48000, 32000, 0]
    } else if version_bits == 2 {
        seq![22050u32, 24000, 16000, 0]
    } else {
        seq![11025u32, 12000, 8000, 0]
    }
}

/// Looks up a bitrate (kbps).
pub fn bitrate_of(version_mpeg1: bool, layer: u8, index: usize) -> (r: u32)
    requires
        index < 16,
    ensures
        r == bitrates(version_mpeg1, layer as int)[index as int],
        r <= 448,
        r % 8 == 0,
{
    let row: [u32; 16] = if version_mpeg1 {
        if layer == 3 {
            [0, 32, 64, 96, 128, 160, 192, 224, 256, 288, 320, 352, 384, 416, 448, 0]
        } else if layer == 2 {
            [0, 32, 48, 56, 64, 80, 96, 112, 128, 160, 192, 224, 256, 320, 384, 0]
        } else {
            [0, 32, 40, 48, 56, 64, 80, 96, 112, 128, 160, 192, 224, 256, 320, 0]
        }
    } else if layer == 3 {
        [0, 32, 48, 56, 64, 80, 96, 112, 128, 144, 160, 176, 192, 224, 256, 0]
    } else {
        [0, 8, 16, 24, 32, 40, 48, 56, 64, 80, 96, 112, 128, 144, 160, 0]
    };
    assert(row@ =~= bitrates(version_mpeg1, layer as int));
    row[index]
}

/// Looks up a sample rate (Hz).
pub fn sample_rate_of(version_bits: u8, index: usize) -> (r: u32)
    requires
        index < 4,
    ensures
        r == sample_rates(version_bits as int)[index as int],
        r == 0 || 8000 <= r <= 48000,
{
    let row: [u32; 4] = if version_bits == 3 {
        [44100, 48000, 32000, 0]
    } else if version_bits == 2 {
        [22050, 24000, 16000, 0]
    } else {
        [11025, 12000, 8000, 0]
    };
    assert(row@ =~= sample_rates(version_bits as int));
    row[index]
}

/// Samples per frame, by version and layer (3 = I, 2 = II, 1 = III).
pub open spec fn frame_samples(version_mpeg1: bool, layer: int) -> int {
    if layer == 3 {
        384
    } else if layer == 2 {
        1152
    } else if layer == 1 {
        if version_mpeg1 {
            1152
        } else {
            576
        }
    } else {
        0
    }
}

/// Samples per frame per (version, layer) combination.
pub fn samples_per_frame(version_mpeg1: bool, layer: u8) -> (r: u32)
    ensures
        r == frame_samples(version_mpeg1, layer as int),
{
    if layer == 3 {
        384
    } else if layer == 2 {
        1152
    } else if layer == 1 {
        if version_mpeg1 {
            1152
        } else {
            576
        }
    } else {
        0
    }
}

/// Side-info size (bytes) for the first frame: MPEG 1 = 32 (mono 17); MPEG 2/2.5 = 17 (mono 9).
pub open spec fn side_info(version_mpeg1: bool, mono: bool) -> int {
    if version_mpeg1 {
        if mono {
            17
        } else {
            32
        }
    } else if mono {
        9
    } else {
        17
    }
}

/// Side-info size (bytes) for the first frame, used to locate the Xing header.
pub fn sideinfo_size(version_mpeg1: bool, mono: bool) -> (r: usize)
    ensures
        r == side_info(version_mpeg1, mono),
{
    if version_mpeg1 {
        if mono {
            17
        } else {
            32
        }
    } else if mono {
        9
    } else {
        17
    }
}

/// What an MPEG frame header says, as far as it matters for the duration.
pub struct MpegInfo {
    /// Bits per second.
    pub bitrate: u32,
    /// Hz.
    pub sample_rate: u32,
    pub samples_per_frame: u32,
    /// Bytes.
    pub frame_length: u32,
    pub version_mpeg1: bool,
}

/// The MPEG frame header that stands in the four bytes of `h`, unless they hold none: no sync
/// word, reserved bits, or an index that gives no rate.
///
/// A Layer I frame is measured in slots of four bytes, the others in single bytes.
pub open spec fn mpeg_header(h: Seq<u8>) -> Option<MpegInfo> {
    let version_bits = h[1] / 8 % 4;
    let layer = (h[1] / 2 % 4) as int;
    let version_mpeg1 = version_bits == 3;
    let bitrate = bitrates(version_mpeg1, layer)[(h[2] / 16) as int] * 1000;
    let sample_rate = sample_rates(version_bits as int)[(h[2] / 4 % 4) as int];
    let padding = h[2] / 2 % 2;
    if h.len() < 4 || h[0] != 0xFF || h[1] < 0xE0 || version_bits == 1 || layer == 0 || bitrate == 0
        || sample_rate == 0 {
        None
    } else {
        Some(
            MpegInfo {
                bitrate: bitrate as u32,
                sample_rate,
                samples_per_frame: frame_samples(version_mpeg1, layer) as u32,
                frame_length: (if layer == 3 {
                    (12 * bitrate / (sample_rate as int) + padding) * 4
                } else {
                    144 * bitrate / (sample_rate as int) + padding
                }) as u32,
                version_mpeg1,
            },
        )
    }
}

/// Decodes a 4-byte MPEG frame header.
pub fn parse_mpeg_header(h: &[u8]) -> (r: Option<MpegInfo>)
    ensures
        r == mpeg_header(h@),
        r matches Some(info) ==> 8000 <= info.bitrate && 8000 <= info.sample_rate
            && info.samples_per_frame <= 1152,
{
    if h.len() < 4 || h[0] != 0xFF || h[1] < 0xE0 {
        return None;
    }
    let version_bits: u8 = h[1] / 8 % 4;
    let layer: u8 = h[1] / 2 % 4;
    if version_bits == 1 || layer == 0 {
        return None;
    }
    let version_mpeg1 = version_bits == 3;
    let bitrate: u32 = bitrate_of(version_mpeg1, layer, (h[2] / 16) as usize) * 1000;
    let sample_rate: u32 = sample_rate_of(version_bits, (h[2] / 4 % 4) as usize);
    if bitrate == 0 || sample_rate == 0 {
        return None;
    }
    let padding: u32 = (h[2] / 2 % 2) as u32;
    let frame_length: u32 = if layer == 3 {
        assert(12 * bitrate / (sample_rate as int) <= 12 * bitrate) by (nonlinear_arith)
            requires
                0 <= bitrate,
                1 <= sample_rate,
        ;
        (12 * bitrate / sample_rate + padding) * 4
    } else {
        assert(144 * bitrate / (sample_rate as int) <= 144 * bitrate) by (nonlinear_arith)
            requires
                0 <= bitrate,
                1 <= sample_rate,
        ;
        144 * bitrate / sample_rate + padding
    };
    Some(
        MpegInfo {
            bitrate,
            sample_rate,
            samples_per_frame: samples_per_frame(version_mpeg1, layer),
            frame_length,
            version_mpeg1,
        },
    )
}

/// How far into the audio the first frame is looked for.
pub const SCAN_WINDOW: usize = 1_000_000;

/// The place of the first MPEG frame header at or after `pos`, within the search window.
pub open spec fn first_frame(audio: Seq<u8>, pos: int) -> Option<int>
    decreases audio.len() - pos,
{
    if pos + 4 >= audio.len() || pos + 4 >= SCAN_WINDOW {
        None
    } else if mpeg_header(audio.subrange(pos, pos + 4)) is Some {
        Some(pos)
    } else {
        first_frame(audio, pos + 1)
    }
}

/// Where a Xing/Info header stands if the frame at `pos` has one.
pub open spec fn xing_place(audio: Seq<u8>, pos: int) -> int {
    pos + 4 + side_info(
        mpeg_header(audio.subrange(pos, pos + 4))->0.version_mpeg1,
        audio[pos + 3] / 64 == 3,
    )
}

/// Whether a Xing/Info header that announces a frame count stands at `at`.
pub open spec fn counts_frames(audio: Seq<u8>, at: int) -> bool {
    &&& at + 8 <= audio.len()
    &&& stands_at(audio, at, seq![0x58u8, 0x69, 0x6e, 0x67]) || stands_at(
        audio,
        at,
        seq![0x49u8, 0x6e, 0x66, 0x6f],
    )
    &&& audio[at + 7] % 2 == 1
}

/// Whether the frame count that the first frame announces is there.
pub open spec fn measurable(audio: Seq<u8>) -> bool {
    match first_frame(audio, 0) {
        Some(pos) => {
            let at = xing_place(audio, pos);
            counts_frames(audio, at) ==> at + 12 <= audio.len()
        },
        None => true,
    }
}

/// The duration of `audio` in seconds: by the frame count of its first frame, or else by its
/// bitrate.
pub open spec fn duration_of(audio: Seq<u8>) -> int {
    match first_frame(audio, 0) {
        Some(pos) => {
            let info = mpeg_header(audio.subrange(pos, pos + 4))->0;
            let at = xing_place(audio, pos);
            if counts_frames(audio, at) {
                be32(audio, at + 8) * info.samples_per_frame / (info.sample_rate as int)
            } else {
                (audio.len() - pos) * 8 / (info.bitrate as int) % 0x1_0000_0000
            }
        },
        None => 0,
    }
}

/// Finds the first MPEG frame header.
pub fn find_frame(audio: &[u8]) -> (r: Option<(usize, MpegInfo)>)
    ensures
        match r {
            Some((pos, info)) => first_frame(audio@, 0) == Some(pos as int) && mpeg_header(
                audio@.subrange(pos as int, pos + 4),
            ) == Some(info) && pos + 4 < audio.len() && pos + 4 < SCAN_WINDOW && 8000
                <= info.bitrate && 8000 <= info.sample_rate && info.samples_per_frame <= 1152,
            None => first_frame(audio@, 0) is None,
        },
{
    let limit: usize = if audio.len() < SCAN_WINDOW {
        audio.len()
    } else {
        SCAN_WINDOW
    };
    let mut pos: usize = 0;
    while pos < limit && limit - pos > 4
        invariant
            pos <= limit,
            limit <= audio.len(),
            limit <= SCAN_WINDOW,
            limit == audio.len() || limit == SCAN_WINDOW,
            first_frame(audio@, 0) == first_frame(audio@, pos as int),
        decreases limit - pos,
    {
        if let Some(info) = parse_mpeg_header(slice_subrange(audio, pos, pos + 4)) {
            return Some((pos, info));
        }
        pos = pos + 1;
    }
    None
}

/// Tells whether a Xing/Info header that announces a frame count stands at `at`.
pub fn has_frame_count(audio: &[u8], at: usize) -> (r: bool)
    ensures
        r == counts_frames(audio@, at as int),
{
    let xing: Vec<u8> = vec![0x58, 0x69, 0x6e, 0x67];
    let info: Vec<u8> = vec![0x49, 0x6e, 0x66, 0x6f];
    assert(xing@ =~= seq![0x58u8, 0x69, 0x6e, 0x67]);
    assert(info@ =~= seq![0x49u8, 0x6e, 0x66, 0x6f]);
    audio.len() >= 8 && at <= audio.len() - 8 && (is_at(audio, at, &xing) || is_at(audio, at, &info))
        && audio[at + 7] % 2 == 1
}

/// Tells whether [`estimate_duration`] may be called.
pub fn can_estimate(audio: &[u8]) -> (r: bool)
    ensures
        r == measurable(audio@),
{
    match find_frame(audio) {
        Some((pos, info)) => {
            let mono = audio[pos + 3] / 64 == 3;
            let at: usize = pos + 4 + sideinfo_size(info.version_mpeg1, mono);
            !has_frame_count(audio, at) || (audio.len() >= 12 && at <= audio.len() - 12)
        },
        None => true,
    }
}

/// Scans for the first valid MPEG frame and uses it (plus any Xing/Info VBR header) to estimate
/// the duration in seconds.
pub fn estimate_duration(audio: &[u8]) -> (r: u32)
    requires
        measurable(audio@),
    ensures
        r == duration_of(audio@),
{
    let (pos, info) = match find_frame(audio) {
        Some(found) => found,
        None => return 0,
    };
    let mono = audio[pos + 3] / 64 == 3;
    let at: usize = pos + 4 + sideinfo_size(info.version_mpeg1, mono);
    if has_frame_count(audio, at) {
        let frames: u64 = read_be32(audio, at + 8) as u64;
        let per_frame: u64 = info.samples_per_frame as u64;
        assert(frames * per_frame <= 0xFFFF_FFFF * 1152) by (nonlinear_arith)
            requires
                frames <= 0xFFFF_FFFF,
                per_frame <= 1152,
        ;
        let total: u64 = frames * per_frame;
        let rate: u64 = info.sample_rate as u64;
        assert(total / rate <= 0xFFFF_FFFF) by (nonlinear_arith)
            requires
                total <= 0xFFFF_FFFF * 1152,
                8000 <= rate,
        ;
        (total / rate) as u32
    } else {
        let audio_bytes: usize = audio.len() - pos;
        ((audio_bytes as u128) * 8 / (info.bitrate as u128) % 0x1_0000_0000) as u32
    }
}

/// The frames of the tag at the start of `b`.
pub open spec fn frames_of(b: Seq<u8>) -> Seq<FrameContent> {
    match tag_end(b) {
        Some(end) => frames_at(b[3], b.subrange(10, end), 0),
        None => seq![],
    }
}

/// What follows the tag at the start of `b`.
pub open spec fn audio_of(b: Seq<u8>) -> Seq<u8> {
    match tag_end(b) {
        Some(end) => b.subrange(end, b.len() as int),
        None => b,
    }
}

/// Splits a file into the frames of its tag and the audio after it.
pub fn split_tag(bytes: &[u8]) -> (r: (Vec<Frame>, &[u8]))
    ensures
        frame_views(r.0@) == frames_of(bytes@),
        r.1@ == audio_of(bytes@),
{
    match parse_id3_header(bytes) {
        Some(h) => (
            iter_frames(h.version, slice_subrange(bytes, 10, h.end)),
            slice_subrange(bytes, h.end, bytes.len()),
        ),
        None => {
            let none: Vec<Frame> = Vec::new();
            assert(frame_views(none@) =~= seq![]);
            (none, bytes)
        },
    }
}

impl AudioFormat for Mp3 {
    open spec fn readable(b: Seq<u8>) -> bool {
        measurable(audio_of(b))
    }

    open spec fn metadata(b: Seq<u8>, filepath: Seq<char>) -> Result<Track, Seq<char>> {
        let frames = frames_of(b);
        Ok(
            Track {
                title: text_in(frames, TIT2),
                artist: text_in(frames, TPE1),
                album: text_in(frames, TALB),
                track_number: match text_in(frames, TRCK) {
                    Some(text) => track_number_of(text) as u32,
                    None => 0,
                },
                duration: duration_of(audio_of(b)) as u32,
                filepath,
            },
        )
    }

    open spec fn editable(b: Seq<u8>, lyrics: Seq<char>, force: bool) -> bool {
        true
    }

    open spec fn edited(b: Seq<u8>, lyrics: Seq<char>, force: bool) -> Result<
        Option<Seq<u8>>,
        Seq<char>,
    > {
        if !force && any_lyrics(frames_of(b)) {
            Ok(None)
        } else {
            Ok(Some(tag_bytes(with_uslt(frames_of(b), lyrics)) + audio_of(b)))
        }
    }

    fn can_read(bytes: &[u8]) -> (r: bool) {
        let (_, audio) = split_tag(bytes);
        can_estimate(audio)
    }

    fn can_sync(bytes: &[u8], lyrics: &str, force: bool) -> (r: bool) {
        true
    }

    fn read_metadata(bytes: &[u8], filepath: &str) -> (r: Result<TrackMeta, MetaError>) {
        let (frames, audio) = split_tag(bytes);
        let mut track = blank_track(filepath);
        track.title = find_text(&frames, TIT2);
        track.artist = find_text(&frames, TPE1);
        track.album = find_text(&frames, TALB);
        if let Some(text) = find_text(&frames, TRCK) {
            track.track_number = parse_track_number(&text);
        }
        track.duration = estimate_duration(audio);
        Ok(track)
    }

    fn sync_lyrics(bytes: &[u8], lyrics: &str, force: bool) -> (r: Result<Edit, MetaError>) {
        let (frames, audio) = split_tag(bytes);
        if !force && has_lyrics(&frames) {
            return Ok(Edit::Unchanged);
        }
        let frames = replace_lyrics(frames, lyrics);
        let mut out = serialize_tag(&frames);
        append_bytes(&mut out, audio);
        Ok(Edit::Rewritten(out))
    }
}

/// Whether a frame can be written down: an ID that does not look like padding, and a length that
/// fits in 28 bits.
pub open spec fn fits(f: FrameContent) -> bool {
    f.id >= 0x100_0000 && f.data.len() < 0x1000_0000
}

/// Frames are read back from the bytes they were written as.
#[verifier::spinoff_prover]
#[verifier::rlimit(40)]
pub proof fn law_frames_round_trip(before: Seq<u8>, frames: Seq<FrameContent>)
    requires
        forall|i: int| 0 <= i < frames.len() ==> fits(#[trigger] frames[i]),
    ensures
        frames_at(4, before + frame_bytes(frames), before.len() as int) == frames,
    decreases frames.len(),
{
    let body = before + frame_bytes(frames);
    let pos = before.len() as int;
    if frames.len() == 0 {
        assert(frames =~= seq![]);
        assert(body.len() == pos);
    } else {
        let f = frames[0];
        let rest = frames.drop_first();
        let n = f.data.len() as int;
        let id = be32_bytes(f.id as int);
        let size = synchsafe_bytes(n);
        let next = before + id + size + seq![0u8, 0] + f.data;
        assert(fits(f));
        assert(body =~= next + frame_bytes(rest));
        assert(body.subrange(pos, pos + 4) =~= id);
        assert(body.subrange(pos + 4, pos + 8) =~= size);
        assert(be32(body, pos) == f.id) by {
            crate::bytes::lemma_be32_round_trip(f.id as int);
            assert(body[pos] == id[0] && body[pos + 1] == id[1] && body[pos + 2] == id[2] && body[pos
                + 3] == id[3]);
        }
        assert(body[pos] != 0) by {
            assert(body[pos] == id[0]);
        }
        assert(synchsafe(body, pos + 4) == n) by {
            crate::metadata::lemma_synchsafe_round_trip(n);
            assert(body[pos + 4] == size[0] && body[pos + 5] == size[1] && body[pos + 6] == size[2]
                && body[pos + 7] == size[3]);
        }
        assert(next.len() == pos + 10 + n);
        assert(body.subrange(pos + 10, pos + 10 + n) =~= f.data);
        assert forall|i: int| 0 <= i < rest.len() implies fits(#[trigger] rest[i]) by {
            assert(rest[i] == frames[i + 1]);
        }
        law_frames_round_trip(next, rest);
        assert(seq![f] + rest =~= frames);
    }
}

/// Every frame that was found has an ID that starts with no zero byte.
proof fn lemma_frame_ids(version: u8, body: Seq<u8>, pos: int)
    ensures
        forall|i: int|
            0 <= i < frames_at(version, body, pos).len() ==> (#[trigger] frames_at(
                version,
                body,
                pos,
            )[i]).id >= 0x100_0000,
    decreases body.len() - pos,
{
    let from = pos + 10;
    let end = from + frame_size(version, body, pos);
    let all = frames_at(version, body, pos);
    if pos < 0 || from > body.len() || body[pos] == 0 || end > body.len() || end < from {
    } else {
        lemma_frame_ids(version, body, end);
        let rest = frames_at(version, body, end);
        assert(all[0].id == be32(body, pos));
        assert forall|i: int| 0 <= i < all.len() implies (#[trigger] all[i]).id >= 0x100_0000 by {
            if i > 0 {
                assert(all[i] == rest[i - 1]);
            }
        }
    }
}

/// A tag body is at least as long as any of its frames.
proof fn lemma_frame_len(frames: Seq<FrameContent>)
    ensures
        forall|i: int|
            0 <= i < frames.len() ==> (#[trigger] frames[i]).data.len() <= frame_bytes(frames).len(),
    decreases frames.len(),
{
    if frames.len() > 0 {
        let rest = frames.drop_first();
        lemma_frame_len(rest);
        assert forall|i: int| 0 <= i < frames.len() implies (#[trigger] frames[i]).data.len()
            <= frame_bytes(frames).len() by {
            if i > 0 {
                assert(rest[i - 1] == frames[i]);
            }
        }
    }
}

proof fn lemma_text_push(frames: Seq<FrameContent>, f: FrameContent, id: u32)
    ensures
        text_in(frames.push(f), id) == (match text_in(frames, id) {
            Some(text) => Some(text),
            None => text_in(seq![f], id),
        }),
    decreases frames.len(),
{
    if frames.len() == 0 {
        assert(frames.push(f) =~= seq![f]);
    } else {
        assert(frames.push(f).drop_first() =~= frames.drop_first().push(f));
        lemma_text_push(frames.drop_first(), f, id);
    }
}

proof fn lemma_text_other(f: FrameContent, id: u32)
    requires
        f.id != id,
    ensures
        text_in(seq![f], id) is None,
{
    assert(seq![f].drop_first() =~= seq![]);
    assert(text_in(seq![f].drop_first(), id) is None);
}

proof fn lemma_text_filtered(
    frames: Seq<FrameContent>,
    stays: spec_fn(FrameContent) -> bool,
    id: u32,
)
    requires
        forall|f: FrameContent| f.id == id ==> #[trigger] stays(f),
    ensures
        text_in(frames.filter(stays), id) == text_in(frames, id),
    decreases frames.len(),
{
    reveal(Seq::filter);
    if frames.len() > 0 {
        let last = frames.last();
        lemma_text_filtered(frames.drop_last(), stays, id);
        lemma_text_push(frames.drop_last(), last, id);
        assert(frames.drop_last().push(last) =~= frames);
        lemma_text_push(frames.drop_last().filter(stays), last, id);
        if last.id != id {
            lemma_text_other(last, id);
        }
    }
}

/// Frames that stay, followed by the lyrics frame, give the same texts.
proof fn lemma_text_kept(frames: Seq<FrameContent>, lyrics: Seq<char>, id: u32)
    requires
        id != USLT,
        id != TXXX,
    ensures
        text_in(with_uslt(frames, lyrics), id) == text_in(frames, id),
{
    let stays = |f: FrameContent| !lyrics_frame(f);
    lemma_text_filtered(frames, stays, id);
    lemma_text_push(frames.filter(stays), uslt(lyrics), id);
    lemma_text_other(uslt(lyrics), id);
}

/// Lyrics put in twice are those of the second time.
pub proof fn law_last_uslt_stays(frames: Seq<FrameContent>, first: Seq<char>, second: Seq<char>)
    ensures
        with_uslt(with_uslt(frames, first), second) == with_uslt(frames, second),
{
    let stays = |f: FrameContent| !lyrics_frame(f);
    let kept = frames.filter(stays);
    kept.lemma_filter_push(uslt(first), stays);
    assert(kept.filter(stays) == kept) by {
        broadcast use vstd::seq_lib::group_filter_ensures;

        lemma_filter_all(kept);
    }
}

proof fn lemma_filter_all(frames: Seq<FrameContent>)
    requires
        forall|i: int| 0 <= i < frames.len() ==> !lyrics_frame(#[trigger] frames[i]),
    ensures
        frames.filter(|f: FrameContent| !lyrics_frame(f)) == frames,
    decreases frames.len(),
{
    reveal(Seq::filter);
    if frames.len() > 0 {
        lemma_filter_all(frames.drop_last());
        assert(frames.drop_last().push(frames.last()) =~= frames);
    }
}

proof fn lemma_filter_ids(frames: Seq<FrameContent>, stays: spec_fn(FrameContent) -> bool)
    requires
        forall|i: int| 0 <= i < frames.len() ==> (#[trigger] frames[i]).id >= 0x100_0000,
    ensures
        forall|i: int|
            0 <= i < frames.filter(stays).len() ==> (#[trigger] frames.filter(stays)[i]).id
                >= 0x100_0000,
    decreases frames.len(),
{
    reveal(Seq::filter);
    if frames.len() > 0 {
        lemma_filter_ids(frames.drop_last(), stays);
        let part = frames.drop_last().filter(stays);
        let all = frames.filter(stays);
        assert forall|i: int| 0 <= i < all.len() implies (#[trigger] all[i]).id >= 0x100_0000 by {
            if i < part.len() {
                assert(all[i] == part[i]);
            } else {
                assert(all[i] == frames[frames.len() - 1]);
            }
        }
    }
}

/// The tag that is written is found again, with its frames, and what follows it is the audio.
#[verifier::spinoff_prover]
#[verifier::rlimit(60)]
proof fn lemma_tag_read_back(frames: Seq<FrameContent>, audio: Seq<u8>)
    requires
        forall|i: int| 0 <= i < frames.len() ==> (#[trigger] frames[i]).id >= 0x100_0000,
        frame_bytes(frames).len() < 0x1000_0000,
    ensures
        frames_of(tag_bytes(frames) + audio) == frames,
        audio_of(tag_bytes(frames) + audio) == audio,
{
    let body = frame_bytes(frames);
    let n = body.len() as int;
    let out = tag_bytes(frames) + audio;
    let size = synchsafe_bytes(n);
    assert(out =~= id3_marker() + seq![4u8, 0, 0] + size + body + audio);
    assert(out.subrange(0, 3) =~= id3_marker());
    assert(out[3] == 4);
    assert(synchsafe(out, 6) == n) by {
        crate::metadata::lemma_synchsafe_round_trip(n);
        assert(out[6] == size[0] && out[7] == size[1] && out[8] == size[2] && out[9] == size[3]);
    }
    assert(tag_end(out) == Some(10 + n));
    assert(out.subrange(10, 10 + n) =~= Seq::<u8>::empty() + body);
    lemma_frame_len(frames);
    law_frames_round_trip(Seq::empty(), frames);
    assert(audio_of(out) =~= audio);
}

/// Whether a file holds exactly these lyrics: one lyrics frame, as [`build_uslt`] makes it.
pub open spec fn holds_exactly(b: Seq<u8>, lyrics: Seq<char>) -> bool {
    let frames = frames_of(b);
    &&& frames.len() > 0
    &&& frames.last() == uslt(lyrics)
    &&& forall|i: int| 0 <= i < frames.len() - 1 ==> !lyrics_frame(#[trigger] frames[i])
}

/// A file into which lyrics were written holds them and no others, keeps its audio and its
/// metadata, and is left alone by a further sync without `force`; a further sync with `force`
/// gives what it would have given on the file as it was before. This holds as long as the tag
/// stays below 256 MiB, the largest that its length field can tell.
#[verifier::spinoff_prover]
#[verifier::rlimit(40)]
pub proof fn law_mp3_read_back(
    b: Seq<u8>,
    lyrics: Seq<char>,
    force: bool,
    later: Seq<char>,
    filepath: Seq<char>,
)
    requires
        Mp3::edited(b, lyrics, force) matches Ok(Some(_)),
        frame_bytes(with_uslt(frames_of(b), lyrics)).len() < 0x1000_0000,
    ensures
        ({
            let out = Mp3::edited(b, lyrics, force)->Ok_0->0;
            &&& frames_of(out) == with_uslt(frames_of(b), lyrics)
            &&& holds_exactly(out, lyrics)
            &&& audio_of(out) == audio_of(b)
            &&& Mp3::readable(out) == Mp3::readable(b)
            &&& Mp3::metadata(out, filepath) == Mp3::metadata(b, filepath)
            &&& Mp3::edited(out, later, false) == Ok::<Option<Seq<u8>>, Seq<char>>(None)
            &&& Mp3::edited(out, later, true) == Mp3::edited(b, later, true)
        }),
{
    broadcast use vstd::seq_lib::group_filter_ensures;

    let old_frames = frames_of(b);
    let frames = with_uslt(old_frames, lyrics);
    let out = Mp3::edited(b, lyrics, force)->Ok_0->0;
    let stays = |f: FrameContent| !lyrics_frame(f);
    let kept = old_frames.filter(stays);
    if let Some(end) = tag_end(b) {
        lemma_frame_ids(b[3], b.subrange(10, end), 0);
    }
    lemma_filter_ids(old_frames, stays);
    assert forall|i: int| 0 <= i < frames.len() implies (#[trigger] frames[i]).id >= 0x100_0000 by {
        if i < frames.len() - 1 {
            assert(frames[i] == kept[i]);
        }
    }
    lemma_tag_read_back(frames, audio_of(b));
    assert forall|i: int| 0 <= i < frames.len() - 1 implies !lyrics_frame(#[trigger] frames[i]) by {
        assert(frames[i] == kept[i]);
        assert(stays(kept[i]));
    }
    assert(any_lyrics(frames)) by {
        assert(lyrics_frame(frames[frames.len() - 1]));
    }
    lemma_text_kept(old_frames, lyrics, TIT2);
    lemma_text_kept(old_frames, lyrics, TPE1);
    lemma_text_kept(old_frames, lyrics, TALB);
    lemma_text_kept(old_frames, lyrics, TRCK);
    law_last_uslt_stays(old_frames, lyrics, later);
}

} // verus!
