//! What is read from an MP3 file and written to it.

use vstd::prelude::*;
use vstd::utf8::{decode_utf8, encode_utf8};

use crate::bytes::{be32_bytes, stands_at};
use crate::laws::formats::{lemma_spelled, spells};
use crate::laws::text::{law_first_index, law_track_number, law_utf16_read_back, utf16_units};
use crate::metadata::id3v2::{
    audio_of, description, double_nul, duration_of, fits, frame_bytes, frame_text, frames_at,
    frames_of, latin1, lyrics_frame, stripped, tag_bytes, text_in, units_of, uslt, utf16_of,
    with_uslt, FrameContent, Mp3,
};
use crate::metadata::{synchsafe, synchsafe_bytes, AudioFormat};
use crate::text::{decimal, lowered};

verus! {

/// The number in four bytes of seven bits each.
pub open spec fn seven_bits(b: Seq<u8>, at: int) -> int {
    ((b[at] * 128 + b[at + 1]) * 128 + b[at + 2]) * 128 + b[at + 3]
}

proof fn lemma_frame_bytes_push(frames: Seq<FrameContent>, f: FrameContent)
    ensures
        frame_bytes(frames.push(f)) == frame_bytes(frames) + be32_bytes(f.id as int)
            + synchsafe_bytes(f.data.len() as int) + seq![0u8, 0] + f.data,
    decreases frames.len(),
{
    let all = frames.push(f);
    let last = be32_bytes(f.id as int) + synchsafe_bytes(f.data.len() as int) + seq![0u8, 0]
        + f.data;
    if frames.len() == 0 {
        assert(all.drop_first() =~= frames);
        assert(all[0] == f);
        assert(frame_bytes(frames) =~= Seq::<u8>::empty());
        assert(frame_bytes(all) =~= frame_bytes(frames) + be32_bytes(f.id as int)
            + synchsafe_bytes(f.data.len() as int) + seq![0u8, 0] + f.data);
    } else {
        assert(all[0] == frames[0]);
        assert(all.drop_first() =~= frames.drop_first().push(f));
        lemma_frame_bytes_push(frames.drop_first(), f);
        assert(frame_bytes(all) =~= frame_bytes(frames) + be32_bytes(f.id as int)
            + synchsafe_bytes(f.data.len() as int) + seq![0u8, 0] + f.data);
    }
}

/// The lyrics stand in the written file as they were given, to the last byte: it starts with an
/// ID3v2.4 tag, whose last frame is a `USLT` frame in UTF-8, in English and without a descriptor,
/// that holds the whole text and nothing else, and the audio follows.
#[verifier::spinoff_prover]
#[verifier::rlimit(40)]
pub proof fn law_mp3_written(b: Seq<u8>, lyrics: Seq<char>, force: bool)
    requires
        Mp3::edited(b, lyrics, force) matches Ok(Some(_)),
    ensures
        ({
            let out = Mp3::edited(b, lyrics, force)->Ok_0->0;
            let text = encode_utf8(lyrics);
            let n = (5 + text.len()) as int;
            let end = out.len() - audio_of(b).len();
            &&& end >= 20 + n
            &&& out.subrange(0, 6) == seq![0x49u8, 0x44, 0x33, 4, 0, 0]
            &&& out.subrange(end - n - 10, end - n - 6) == seq![0x55u8, 0x53, 0x4c, 0x54]
            &&& out.subrange(end - n, end - n + 5) == seq![3u8, 0x65, 0x6e, 0x67, 0]
            &&& out.subrange(end - text.len(), end) == text
            &&& decode_utf8(out.subrange(end - text.len(), end)) == lyrics
            &&& out.subrange(end, out.len() as int) == audio_of(b)
            &&& end - 10 < 0x1000_0000 ==> seven_bits(out, 6) == end - 10 && seven_bits(
                out,
                end - n - 6,
            ) == n
        }),
{
    lemma_edited(b, lyrics, force);
    lemma_written_tag(kept_frames(b), lyrics, audio_of(b));
}

/// The frames of a file that hold no lyrics.
pub open spec fn kept_frames(b: Seq<u8>) -> Seq<FrameContent> {
    frames_of(b).filter(|f: FrameContent| !lyrics_frame(f))
}

proof fn lemma_edited(b: Seq<u8>, lyrics: Seq<char>, force: bool)
    requires
        Mp3::edited(b, lyrics, force) matches Ok(Some(_)),
    ensures
        Mp3::edited(b, lyrics, force)->Ok_0->0 == tag_bytes(kept_frames(b).push(uslt(lyrics)))
            + audio_of(b),
{
}

#[verifier::spinoff_prover]
#[verifier::rlimit(40)]
proof fn lemma_written_tag(kept: Seq<FrameContent>, lyrics: Seq<char>, audio: Seq<u8>)
    ensures
        ({
            let out = tag_bytes(kept.push(uslt(lyrics))) + audio;
            let text = encode_utf8(lyrics);
            let n = (5 + text.len()) as int;
            let end = out.len() - audio.len();
            &&& end == 20 + frame_bytes(kept).len() + n
            &&& out.subrange(0, 6) == seq![0x49u8, 0x44, 0x33, 4, 0, 0]
            &&& out.subrange(end - n - 10, end - n - 6) == seq![0x55u8, 0x53, 0x4c, 0x54]
            &&& out.subrange(end - n, end - n + 5) == seq![3u8, 0x65, 0x6e, 0x67, 0]
            &&& out.subrange(end - text.len(), end) == text
            &&& decode_utf8(out.subrange(end - text.len(), end)) == lyrics
            &&& out.subrange(end, out.len() as int) == audio
            &&& end - 10 < 0x1000_0000 ==> seven_bits(out, 6) == end - 10 && seven_bits(
                out,
                end - n - 6,
            ) == n
        }),
{
    let out = tag_bytes(kept.push(uslt(lyrics))) + audio;
    let text = encode_utf8(lyrics);
    let n = (5 + text.len()) as int;
    let f = uslt(lyrics);
    lemma_frame_bytes_push(kept, f);
    let head = frame_bytes(kept);
    let body = frame_bytes(kept.push(f));
    let id = be32_bytes(0x5553_4c54);
    let size = synchsafe_bytes(n);
    let five = seq![3u8, 0x65, 0x6e, 0x67, 0];
    let all = synchsafe_bytes(body.len() as int);
    let marker = seq![0x49u8, 0x44, 0x33] + seq![4u8, 0, 0];
    assert(body == head + id + size + seq![0u8, 0] + (five + text));
    assert(id =~= seq![0x55u8, 0x53, 0x4c, 0x54]);
    assert(marker =~= seq![0x49u8, 0x44, 0x33, 4, 0, 0]);
    lemma_tag_placed(marker, all, head, id, size, five, text, audio);
    assert(out == marker + all + body + audio);
    crate::text::lemma_as_text(lyrics);
    if body.len() < 0x1000_0000 {
        crate::laws::text::law_synchsafe(all, 0, body.len() as int);
        crate::laws::text::law_synchsafe(size, 0, n);
    }
}

/// Where the parts of a tag stand.
#[verifier::spinoff_prover]
#[verifier::rlimit(40)]
proof fn lemma_tag_placed(
    marker: Seq<u8>,
    all: Seq<u8>,
    head: Seq<u8>,
    id: Seq<u8>,
    size: Seq<u8>,
    five: Seq<u8>,
    text: Seq<u8>,
    audio: Seq<u8>,
)
    requires
        marker.len() == 6,
        all.len() == 4,
        id.len() == 4,
        size.len() == 4,
        five.len() == 5,
    ensures
        ({
            let out = marker + all + (head + id + size + seq![0u8, 0] + (five + text)) + audio;
            let end = out.len() - audio.len();
            let n = 5 + text.len();
            &&& end == 10 + head.len() + 10 + n
            &&& out.subrange(0, 6) == marker
            &&& out.subrange(end - n - 10, end - n - 6) == id
            &&& out.subrange(end - n, end - n + 5) == five
            &&& out.subrange(end - text.len(), end) == text
            &&& out.subrange(end, out.len() as int) == audio
            &&& out[6] == all[0] && out[7] == all[1] && out[8] == all[2] && out[9] == all[3]
            &&& out[end - n - 6] == size[0] && out[end - n - 5] == size[1] && out[end - n - 4]
                == size[2] && out[end - n - 3] == size[3]
        }),
{
    let out = marker + all + (head + id + size + seq![0u8, 0] + (five + text)) + audio;
    let end = out.len() - audio.len();
    let n = 5 + text.len();
    assert(out.subrange(0, 6) =~= marker);
    assert(out.subrange(end - n - 10, end - n - 6) =~= id);
    assert(out.subrange(end - n, end - n + 5) =~= five);
    assert(out.subrange(end - text.len(), end) =~= text);
    assert(out.subrange(end, out.len() as int) =~= audio);
}

/// Different lyrics make different files.
pub proof fn law_mp3_lyrics_told_apart(b: Seq<u8>, one: Seq<char>, other: Seq<char>)
    requires
        Mp3::edited(b, one, true) == Mp3::edited(b, other, true),
    ensures
        one == other,
{
    lemma_edited(b, one, true);
    lemma_edited(b, other, true);
    lemma_written_tag(kept_frames(b), one, audio_of(b));
    lemma_written_tag(kept_frames(b), other, audio_of(b));
}

/// A sync with `force` always writes; one without writes exactly where no frame holds lyrics, and
/// never changes a file otherwise.
pub proof fn law_mp3_overwrites(b: Seq<u8>, lyrics: Seq<char>)
    ensures
        Mp3::edited(b, lyrics, true) matches Ok(Some(_)),
        Mp3::edited(b, lyrics, false) == (if exists|i: int|
            0 <= i < frames_of(b).len() && lyrics_frame(#[trigger] frames_of(b)[i]) {
            Ok::<Option<Seq<u8>>, Seq<char>>(None)
        } else {
            Mp3::edited(b, lyrics, true)
        }),
{
}

/// The frames of the written file are those of the old one that hold no lyrics, in their order,
/// and one frame more.
#[verifier::spinoff_prover]
#[verifier::rlimit(40)]
pub proof fn law_mp3_frames_kept(b: Seq<u8>, lyrics: Seq<char>, force: bool)
    requires
        Mp3::edited(b, lyrics, force) matches Ok(Some(_)),
        frame_bytes(with_uslt(frames_of(b), lyrics)).len() < 0x1000_0000,
    ensures
        ({
            let out = Mp3::edited(b, lyrics, force)->Ok_0->0;
            let frames = frames_of(out);
            &&& frames.len() > 0
            &&& frames.drop_last() == kept_frames(b)
            &&& frames.last().id == 0x5553_4c54
            &&& frames.last().data == seq![3u8, 0x65, 0x6e, 0x67, 0] + encode_utf8(lyrics)
        }),
{
    let out = Mp3::edited(b, lyrics, force)->Ok_0->0;
    lemma_frames_written(b, lyrics, force);
    assert(frames_of(out).drop_last() =~= kept_frames(b));
}

proof fn lemma_frames_written(b: Seq<u8>, lyrics: Seq<char>, force: bool)
    requires
        Mp3::edited(b, lyrics, force) matches Ok(Some(_)),
        frame_bytes(with_uslt(frames_of(b), lyrics)).len() < 0x1000_0000,
    ensures
        frames_of(Mp3::edited(b, lyrics, force)->Ok_0->0) == kept_frames(b).push(uslt(lyrics)),
{
    crate::metadata::id3v2::law_mp3_read_back(b, lyrics, force, lyrics, seq![]);
}

/// Every `USLT` frame holds lyrics, and no frame does but these and `TXXX` frames that are
/// described as lyrics, in any case of letters.
pub proof fn law_lyrics_frames(f: FrameContent)
    ensures
        f.id == 0x5553_4c54 ==> lyrics_frame(f),
        f.id != 0x5553_4c54 && f.id != 0x5458_5858 ==> !lyrics_frame(f),
        f.id == 0x5458_5858 ==> (lyrics_frame(f) <==> (description(f.data) matches Some(s) && spells(
            s,
            seq!['l', 'y', 'r', 'i', 'c', 's'],
        ))),
{
    reveal_strlit("LYRICS");
    assert(lowered("LYRICS"@) =~= seq!['l', 'y', 'r', 'i', 'c', 's']);
    if let Some(s) = description(f.data) {
        lemma_spelled(s, seq!['l', 'y', 'r', 'i', 'c', 's']);
    }
}

/// The description of a `TXXX` frame in UTF-8 or in Latin-1 reaches to the first zero byte.
#[verifier::spinoff_prover]
#[verifier::rlimit(40)]
pub proof fn law_description(name: Seq<char>, value: Seq<u8>)
    requires
        forall|i: int| 0 <= i < name.len() ==> 0 < (#[trigger] name[i]) as u32,
    ensures
        description(seq![3u8] + encode_utf8(name) + seq![0u8] + value) == Some(name),
        (forall|i: int| 0 <= i < name.len() ==> ((#[trigger] name[i]) as u32) < 256) ==> description(
            seq![0u8] + latin1_bytes(name) + seq![0u8] + value,
        ) == Some(name),
{
    let text = encode_utf8(name);
    let data = seq![3u8] + text + seq![0u8] + value;
    assert forall|i: int| 0 <= i < name.len() implies #[trigger] name[i] != '\0' by {
        assert(0 < name[i] as u32);
    }
    crate::text::lemma_utf8_lacks(name, '\0');
    crate::text::lemma_as_text(name);
    let rest = data.subrange(1, data.len() as int);
    assert(rest =~= text + seq![0u8] + value);
    law_first_index(text, 0, value);
    let part = data.subrange(0, (1 + text.len()) as int);
    assert(part =~= seq![3u8] + text);
    lemma_utf8_frame(name);
    if forall|i: int| 0 <= i < name.len() ==> ((#[trigger] name[i]) as u32) < 256 {
        let bytes = latin1_bytes(name);
        let frame = seq![0u8] + bytes + seq![0u8] + value;
        let after = frame.subrange(1, frame.len() as int);
        assert(after =~= bytes + seq![0u8] + value);
        assert forall|i: int| 0 <= i < bytes.len() implies #[trigger] bytes[i] != 0 by {
            assert(0 < name[i] as u32 && (name[i] as u32) < 256);
            vstd::utf8::char_u32_cast(name[i], name[i] as u32);
            assert(bytes[i] == name[i] as u8);
            assert((name[i] as u8) as char == name[i]);
        }
        law_first_index(bytes, 0, value);
        assert(frame.subrange(0, (1 + bytes.len()) as int) =~= seq![0u8] + bytes);
        lemma_latin1_frame(name);
    }
}

/// A text of characters below 256, one byte for each.
pub open spec fn latin1_bytes(s: Seq<char>) -> Seq<u8> {
    Seq::new(s.len(), |i: int| s[i] as u8)
}

proof fn lemma_utf8_frame(s: Seq<char>)
    requires
        forall|i: int| 0 <= i < s.len() ==> 0 < (#[trigger] s[i]) as u32,
    ensures
        frame_text(seq![3u8] + encode_utf8(s)) == Some(s),
        frame_text(seq![3u8] + encode_utf8(s) + seq![0u8]) == Some(s),
{
    reveal(frame_text);
    let text = encode_utf8(s);
    assert forall|i: int| 0 <= i < s.len() implies #[trigger] s[i] != '\0' by {
        assert(0 < s[i] as u32);
    }
    crate::text::lemma_utf8_lacks(s, '\0');
    crate::text::lemma_as_text(s);
    let one = seq![3u8] + text;
    let two = seq![3u8] + text + seq![0u8];
    assert('\0' as u8 == 0u8);
    assert(one.subrange(1, one.len() as int) =~= text);
    assert(stripped(text, 3) == text) by {
        if text.len() > 0 {
            assert(encode_utf8(s)[text.len() - 1] != 0);
        }
    }
    assert(stripped(text.push(0), 3) =~= text);
    assert(two.subrange(1, two.len() as int) =~= text.push(0));
    assert(text.push(0).subrange(0, text.len() as int) =~= text);
}

proof fn lemma_latin1_frame(s: Seq<char>)
    requires
        forall|i: int| 0 <= i < s.len() ==> 0 < (#[trigger] s[i]) as u32 && (s[i] as u32) < 256,
    ensures
        frame_text(seq![0u8] + latin1_bytes(s)) == Some(s),
        frame_text(seq![0u8] + latin1_bytes(s) + seq![0u8]) == Some(s),
{
    reveal(frame_text);
    let text = latin1_bytes(s);
    let one = seq![0u8] + text;
    let two = seq![0u8] + text + seq![0u8];
    assert forall|i: int| 0 <= i < s.len() implies #[trigger] text[i] != 0 && text[i] as char
        == s[i] by {
        assert(0 < s[i] as u32);
        vstd::utf8::char_u32_cast(s[i], s[i] as u32);
    }
    assert(latin1(text) =~= s);
    assert(stripped(text, 0) == text) by {
        if text.len() > 0 {
            assert(text[text.len() - 1] != 0);
        }
    }
    assert(stripped(text.push(0), 0) =~= text);
    assert(one.subrange(1, one.len() as int) =~= text);
    assert(two.subrange(1, two.len() as int) =~= text.push(0));
    assert(text.push(0).subrange(0, text.len() as int) =~= text);
}

/// The bytes of UTF-16 code units, the low byte of each first.
pub open spec fn low_first(units: Seq<u16>) -> Seq<u8> {
    Seq::new(
        units.len() * 2,
        |i: int|
            if i % 2 == 0 {
                (units[i / 2] % 256) as u8
            } else {
                (units[i / 2] / 256) as u8
            },
    )
}

/// The bytes of UTF-16 code units, the high byte of each first.
pub open spec fn high_first(units: Seq<u16>) -> Seq<u8> {
    Seq::new(
        units.len() * 2,
        |i: int|
            if i % 2 == 0 {
                (units[i / 2] / 256) as u8
            } else {
                (units[i / 2] % 256) as u8
            },
    )
}

proof fn lemma_units_back(units: Seq<u16>)
    ensures
        units_of(low_first(units), true) == units,
        units_of(high_first(units), false) == units,
{
    let low = low_first(units);
    let high = high_first(units);
    assert forall|i: int| 0 <= i < units.len() implies units_of(low, true)[i] == units[i]
        && units_of(high, false)[i] == units[i] by {
        assert((2 * i) / 2 == i && (2 * i + 1) / 2 == i);
        assert((2 * i) % 2 == 0 && (2 * i + 1) % 2 == 1);
        assert(low[2 * i] == units[i] % 256 && low[2 * i + 1] == units[i] / 256);
        assert(high[2 * i] == units[i] / 256 && high[2 * i + 1] == units[i] % 256);
    }
    assert(units_of(low, true) =~= units);
    assert(units_of(high, false) =~= units);
}

proof fn lemma_last_unit(s: Seq<char>)
    requires
        forall|i: int| 0 <= i < s.len() ==> 0 < (#[trigger] s[i]) as u32,
    ensures
        utf16_units(s).len() > 0 ==> utf16_units(s).last() != 0,
        utf16_units(s).len() >= s.len(),
    decreases s.len(),
{
    if s.len() > 0 {
        let rest = s.drop_first();
        assert forall|i: int| 0 <= i < rest.len() implies 0 < (#[trigger] rest[i]) as u32 by {
            assert(rest[i] == s[i + 1]);
        }
        lemma_last_unit(rest);
        vstd::utf8::char_is_scalar(s[0]);
        let u = utf16_units(s);
        if utf16_units(rest).len() > 0 {
            assert(u.last() == utf16_units(rest).last());
        } else {
            assert(0 < s[0] as u32);
        }
    }
}

/// The text of a frame is read in each of the four encodings, with the zero that may end it or
/// without: 3 is UTF-8, 0 is Latin-1, 1 is UTF-16 with a byte order mark, 2 is UTF-16 with the high
/// byte first.
#[verifier::spinoff_prover]
#[verifier::rlimit(40)]
pub proof fn law_frame_text(s: Seq<char>)
    requires
        forall|i: int| 0 <= i < s.len() ==> 0 < (#[trigger] s[i]) as u32,
    ensures
        frame_text(seq![3u8] + encode_utf8(s)) == Some(s),
        frame_text(seq![3u8] + encode_utf8(s) + seq![0u8]) == Some(s),
        (forall|i: int| 0 <= i < s.len() ==> ((#[trigger] s[i]) as u32) < 256) ==> frame_text(
            seq![0u8] + latin1_bytes(s),
        ) == Some(s) && frame_text(seq![0u8] + latin1_bytes(s) + seq![0u8]) == Some(s),
        frame_text(seq![1u8, 0xFF, 0xFE] + low_first(utf16_units(s))) == Some(s),
        frame_text(seq![1u8, 0xFE, 0xFF] + high_first(utf16_units(s))) == Some(s),
        frame_text(seq![2u8] + high_first(utf16_units(s))) == Some(s),
        frame_text(seq![1u8, 0xFF, 0xFE] + low_first(utf16_units(s)) + seq![0u8, 0]) == Some(s),
        frame_text(seq![1u8, 0xFE, 0xFF] + high_first(utf16_units(s)) + seq![0u8, 0]) == Some(s),
        frame_text(seq![2u8] + high_first(utf16_units(s)) + seq![0u8, 0]) == Some(s),
        frame_text(Seq::empty()) is None,
{
    lemma_no_text();
    lemma_utf8_frame(s);
    if forall|i: int| 0 <= i < s.len() ==> ((#[trigger] s[i]) as u32) < 256 {
        lemma_latin1_frame(s);
    }
    let units = utf16_units(s);
    let low = low_first(units);
    let high = high_first(units);
    let m = units.len() as int;
    let none = Seq::<u8>::empty();
    law_utf16_read_back(s);
    lemma_units_back(units);
    lemma_last_unit(s);
    if m > 0 {
        assert((2 * m - 1) / 2 == m - 1 && (2 * m - 2) / 2 == m - 1);
        assert(low[2 * m - 2] == units[m - 1] % 256 && low[2 * m - 1] == units[m - 1] / 256);
        assert(high[2 * m - 2] == units[m - 1] / 256 && high[2 * m - 1] == units[m - 1] % 256);
    }
    lemma_utf16_frame(1, seq![0xFFu8, 0xFE], low);
    lemma_utf16_frame(1, seq![0xFEu8, 0xFF], high);
    lemma_utf16_frame(2, none, high);
    assert(seq![1u8] + seq![0xFFu8, 0xFE] + low =~= seq![1u8, 0xFF, 0xFE] + low);
    assert(seq![1u8] + seq![0xFEu8, 0xFF] + high =~= seq![1u8, 0xFE, 0xFF] + high);
    assert(seq![2u8] + none + high =~= seq![2u8] + high);
}

proof fn lemma_no_text()
    ensures
        frame_text(Seq::empty()) is None,
{
    reveal(frame_text);
}

proof fn lemma_utf16_text(data: Seq<u8>, enc: u8, mark: Seq<u8>, body: Seq<u8>)
    requires
        enc == 1 && (mark == seq![0xFFu8, 0xFE] || mark == seq![0xFEu8, 0xFF]) || enc == 2
            && mark.len() == 0,
        data.len() > 0,
        data[0] == enc,
        stripped(data.subrange(1, data.len() as int), enc) == mark + body,
    ensures
        frame_text(data) == utf16_of(body, mark.len() > 0 && mark[0] == 0xFF),
{
    reveal(frame_text);
    let whole = mark + body;
    if enc == 1 {
        assert(whole[0] == mark[0] && whole[1] == mark[1]);
        assert(whole.subrange(2, whole.len() as int) =~= body);
    } else {
        assert(whole =~= body);
    }
}

/// A frame in UTF-16 is read from behind its mark, up to a double zero at its end.
#[verifier::spinoff_prover]
#[verifier::rlimit(40)]
proof fn lemma_utf16_frame(enc: u8, mark: Seq<u8>, body: Seq<u8>)
    requires
        enc == 1 && (mark == seq![0xFFu8, 0xFE] || mark == seq![0xFEu8, 0xFF]) || enc == 2
            && mark.len() == 0,
        body.len() % 2 == 0,
        body.len() >= 2 ==> !(body[body.len() - 2] == 0 && body[body.len() - 1] == 0),
    ensures
        ({
            let le = mark.len() > 0 && mark[0] == 0xFF;
            &&& frame_text(seq![enc] + mark + body) == utf16_of(body, le)
            &&& frame_text(seq![enc] + mark + body + seq![0u8, 0]) == utf16_of(body, le)
        }),
{
    let one = seq![enc] + mark + body;
    let two = seq![enc] + mark + body + seq![0u8, 0];
    let whole = mark + body;
    let ended = whole + seq![0u8, 0];
    let n = whole.len() as int;
    assert(one.subrange(1, one.len() as int) =~= whole);
    assert(two.subrange(1, two.len() as int) =~= ended);
    assert(stripped(whole, enc) == whole) by {
        if body.len() >= 2 {
            assert(whole[n - 1] == body[body.len() - 1]);
            assert(whole[n - 2] == body[body.len() - 2]);
        } else {
            assert(body.len() == 0);
            assert(whole =~= mark);
        }
    }
    assert(stripped(ended, enc) == whole) by {
        assert(ended[n] == 0 && ended[n + 1] == 0);
        assert(ended.subrange(0, n) =~= whole);
    }
    assert(one[0] == enc && two[0] == enc);
    lemma_utf16_text(one, enc, mark, body);
    lemma_utf16_text(two, enc, mark, body);
}

proof fn lemma_double_nul(d: Seq<u8>, i: int, end: int)
    requires
        0 <= i <= end,
        end + 1 < d.len(),
        (end - i) % 2 == 0,
        d[end] == 0 && d[end + 1] == 0,
        forall|k: int| i <= k < end && (end - k) % 2 == 0 ==> #[trigger] d[k] != 0 || d[k + 1] != 0,
    ensures
        double_nul(d, i) == end,
    decreases end - i,
{
    if i < end {
        assert(d[i] != 0 || d[i + 1] != 0);
        lemma_double_nul(d, i + 2, end);
    }
}

proof fn lemma_units_filled(s: Seq<char>)
    requires
        forall|i: int| 0 <= i < s.len() ==> 0 < (#[trigger] s[i]) as u32,
    ensures
        forall|i: int| 0 <= i < utf16_units(s).len() ==> #[trigger] utf16_units(s)[i] != 0,
    decreases s.len(),
{
    if s.len() > 0 {
        let rest = s.drop_first();
        assert forall|i: int| 0 <= i < rest.len() implies 0 < (#[trigger] rest[i]) as u32 by {
            assert(rest[i] == s[i + 1]);
        }
        lemma_units_filled(rest);
        vstd::utf8::char_is_scalar(s[0]);
        assert(0 < s[0] as u32);
        let u = utf16_units(s);
        let n = u.len() - utf16_units(rest).len();
        assert forall|i: int| 0 <= i < u.len() implies #[trigger] u[i] != 0 by {
            if i >= n {
                assert(u[i] == utf16_units(rest)[i - n]);
            }
        }
    }
}

/// The description of a `TXXX` frame in UTF-16 reaches to the first double zero that stands in place
/// of a character.
#[verifier::spinoff_prover]
#[verifier::rlimit(40)]
pub proof fn law_description_utf16(name: Seq<char>, value: Seq<u8>)
    requires
        forall|i: int| 0 <= i < name.len() ==> 0 < (#[trigger] name[i]) as u32,
    ensures
        description(
            seq![1u8, 0xFF, 0xFE] + low_first(utf16_units(name)) + seq![0u8, 0] + value,
        ) == Some(name),
        description(
            seq![1u8, 0xFE, 0xFF] + high_first(utf16_units(name)) + seq![0u8, 0] + value,
        ) == Some(name),
        description(seq![2u8] + high_first(utf16_units(name)) + seq![0u8, 0] + value) == Some(name),
{
    let units = utf16_units(name);
    let none = Seq::<u8>::empty();
    law_frame_text(name);
    lemma_units_filled(name);
    lemma_described(1, seq![0xFFu8, 0xFE], units, low_first(units), value);
    lemma_described(1, seq![0xFEu8, 0xFF], units, high_first(units), value);
    lemma_described(2, none, units, high_first(units), value);
    assert(seq![1u8] + seq![0xFFu8, 0xFE] =~= seq![1u8, 0xFF, 0xFE]);
    assert(seq![1u8] + seq![0xFEu8, 0xFF] =~= seq![1u8, 0xFE, 0xFF]);
    assert(seq![2u8] + none =~= seq![2u8]);
}

proof fn lemma_described(enc: u8, mark: Seq<u8>, units: Seq<u16>, body: Seq<u8>, value: Seq<u8>)
    requires
        enc == 1 || enc == 2,
        mark.len() == 0 || mark.len() == 2 && mark[0] != 0,
        body == low_first(units) || body == high_first(units),
        forall|i: int| 0 <= i < units.len() ==> #[trigger] units[i] != 0,
    ensures
        description(seq![enc] + mark + body + seq![0u8, 0] + value) == frame_text(
            seq![enc] + mark + body,
        ),
{
    let data = seq![enc] + mark + body + seq![0u8, 0] + value;
    let rest = data.subrange(1, data.len() as int);
    let end = (mark.len() + body.len()) as int;
    assert(rest =~= mark + body + seq![0u8, 0] + value);
    assert forall|k: int| 0 <= k < end && (end - k) % 2 == 0 implies #[trigger] rest[k] != 0
        || rest[k + 1] != 0 by {
        if k < mark.len() {
            assert(k == 0);
            assert(rest[0] == mark[0]);
        } else {
            let i = (k - mark.len()) / 2;
            assert(rest[k] == body[k - mark.len()]);
            assert(rest[k + 1] == body[k - mark.len() + 1]);
            assert(k - mark.len() == 2 * i);
            assert((2 * i) / 2 == i && (2 * i + 1) / 2 == i);
            assert(units[i] != 0);
            assert(units[i] == units[i] / 256 * 256 + units[i] % 256);
        }
    }
    lemma_double_nul(rest, 0, end);
    assert(data.subrange(0, 1 + end) =~= seq![enc] + mark + body);
}

/// UTF-16 without a byte order mark has the low byte first, a byte that is left over makes it
/// invalid, and a text with an unknown encoding is read as UTF-8.
pub proof fn law_frame_text_otherwise(s: Seq<char>, enc: u8, odd: Seq<u8>)
    requires
        forall|i: int| 0 <= i < s.len() ==> 0 < (#[trigger] s[i]) as u32,
        s.len() > 0,
        s[0] as u32 != 0xFEFF && s[0] as u32 != 0xFFFE,
        odd.len() % 2 == 1,
        odd[odd.len() - 1] != 0,
    ensures
        frame_text(seq![1u8] + low_first(utf16_units(s))) == Some(s),
        frame_text(seq![2u8] + odd) is None,
        enc >= 4 ==> frame_text(seq![enc] + encode_utf8(s)) == Some(s),
{
    lemma_unmarked_frame(s);
    lemma_odd_frame(odd);
    if enc >= 4 {
        lemma_unknown_frame(s, enc);
    }
}

proof fn lemma_unmarked_frame(s: Seq<char>)
    requires
        forall|i: int| 0 <= i < s.len() ==> 0 < (#[trigger] s[i]) as u32,
        s.len() > 0,
        s[0] as u32 != 0xFEFF && s[0] as u32 != 0xFFFE,
    ensures
        frame_text(seq![1u8] + low_first(utf16_units(s))) == Some(s),
{
    let units = utf16_units(s);
    let low = low_first(units);
    let one = seq![1u8] + low;
    law_utf16_read_back(s);
    lemma_units_back(units);
    lemma_last_unit(s);
    assert(units[0] != 0xFEFF && units[0] != 0xFFFE) by {
        vstd::utf8::char_is_scalar(s[0]);
    }
    lemma_low_first_ends(units);
    assert(one.subrange(1, one.len() as int) =~= low);
    assert(stripped(low, 1) == low);
    assert(one[0] == 1);
    lemma_unmarked_text(one, low);
    assert(low.len() % 2 == 0);
}

/// The first and the last bytes of code units.
#[verifier::spinoff_prover]
proof fn lemma_low_first_ends(units: Seq<u16>)
    requires
        units.len() > 0,
        units[0] != 0xFEFF && units[0] != 0xFFFE,
        units[units.len() - 1] != 0,
    ensures
        ({
            let low = low_first(units);
            let n = low.len() as int;
            &&& n == 2 * units.len()
            &&& !(low[0] == 0xFF && low[1] == 0xFE) && !(low[0] == 0xFE && low[1] == 0xFF)
            &&& !(low[n - 2] == 0 && low[n - 1] == 0)
        }),
{
    let low = low_first(units);
    let m = units.len() as int;
    let first = units[0];
    let last = units[m - 1];
    assert(low[0] == first % 256 && low[1] == first / 256);
    assert((2 * m - 1) / 2 == m - 1 && (2 * m - 2) / 2 == m - 1);
    assert(low[2 * m - 2] == last % 256 && low[2 * m - 1] == last / 256);
    assert(first == first / 256 * 256 + first % 256);
    assert(last == last / 256 * 256 + last % 256);
}

proof fn lemma_unmarked_text(data: Seq<u8>, text: Seq<u8>)
    requires
        data.len() > 0,
        data[0] == 1,
        stripped(data.subrange(1, data.len() as int), 1) == text,
        text.len() >= 2,
        !(text[0] == 0xFF && text[1] == 0xFE) && !(text[0] == 0xFE && text[1] == 0xFF),
    ensures
        frame_text(data) == utf16_of(text, true),
{
    reveal(frame_text);
}

proof fn lemma_odd_frame(odd: Seq<u8>)
    requires
        odd.len() % 2 == 1,
        odd[odd.len() - 1] != 0,
    ensures
        frame_text(seq![2u8] + odd) is None,
{
    let two = seq![2u8] + odd;
    assert(two.subrange(1, two.len() as int) =~= odd);
    assert(stripped(odd, 2) == odd);
    assert(two[0] == 2);
    reveal(frame_text);
}

proof fn lemma_unknown_frame(s: Seq<char>, enc: u8)
    requires
        forall|i: int| 0 <= i < s.len() ==> 0 < (#[trigger] s[i]) as u32,
        enc >= 4,
    ensures
        frame_text(seq![enc] + encode_utf8(s)) == Some(s),
{
    let text = encode_utf8(s);
    let three = seq![enc] + text;
    assert forall|i: int| 0 <= i < s.len() implies #[trigger] s[i] != '\0' by {
        assert(0 < s[i] as u32);
    }
    crate::text::lemma_utf8_lacks(s, '\0');
    assert('\0' as u8 == 0u8);
    crate::text::lemma_as_text(s);
    assert(three.subrange(1, three.len() as int) =~= text);
    assert(stripped(text, enc) == text) by {
        if text.len() > 0 {
            assert(encode_utf8(s)[text.len() - 1] != 0);
        }
    }
    assert(three[0] == enc);
    reveal(frame_text);
}

/// A frame as it stands in a tag, with its two bytes of flags.
pub struct RawFrame {
    pub content: FrameContent,
    pub flags: Seq<u8>,
}

/// Frames as they stand in a tag of a version: the size has seven bits in each byte from version 4
/// on, and eight before.
pub open spec fn raw_frames(version: u8, frames: Seq<RawFrame>) -> Seq<u8>
    decreases frames.len(),
{
    if frames.len() == 0 {
        seq![]
    } else {
        let f = frames[0];
        be32_bytes(f.content.id as int) + (if version >= 4 {
            synchsafe_bytes(f.content.data.len() as int)
        } else {
            be32_bytes(f.content.data.len() as int)
        }) + f.flags + f.content.data + raw_frames(version, frames.drop_first())
    }
}

/// The contents of frames.
pub open spec fn contents(frames: Seq<RawFrame>) -> Seq<FrameContent> {
    frames.map_values(|f: RawFrame| f.content)
}

/// Whether no frame starts here: too few bytes are left for a frame header, a zero stands in place of
/// an ID, or the frame reaches past the end.
pub open spec fn stops(version: u8, b: Seq<u8>) -> bool {
    ||| b.len() < 10
    ||| b[0] == 0
    ||| version >= 4 && b[4] < 128 && b[5] < 128 && b[6] < 128 && b[7] < 128 && 10 + seven_bits(b, 4)
        > b.len()
    ||| version < 4 && 10 + ((b[4] * 256 + b[5]) * 256 + b[6]) * 256 + b[7] > b.len()
}

/// The frames of a tag are read one after the other, whatever their flags, in ID3v2.3 as in ID3v2.4,
/// up to where no frame starts.
#[verifier::spinoff_prover]
#[verifier::rlimit(40)]
pub proof fn law_frames_read(version: u8, ahead: Seq<u8>, frames: Seq<RawFrame>, padding: Seq<u8>)
    requires
        forall|i: int|
            0 <= i < frames.len() ==> fits((#[trigger] frames[i]).content)
                && frames[i].flags.len() == 2,
        stops(version, padding),
    ensures
        frames_at(
            version,
            ahead + raw_frames(version, frames) + padding,
            ahead.len() as int,
        ) == contents(frames),
    decreases frames.len(),
{
    let body = ahead + raw_frames(version, frames) + padding;
    let pos = ahead.len() as int;
    if frames.len() == 0 {
        assert(contents(frames) =~= seq![]);
        assert(body =~= ahead + padding);
        if padding.len() >= 10 {
            assert(body[pos] == padding[0]);
            assert(body[pos + 4] == padding[4] && body[pos + 5] == padding[5] && body[pos + 6]
                == padding[6] && body[pos + 7] == padding[7]);
        }
    } else {
        let f = frames[0].content;
        let rest = frames.drop_first();
        let n = f.data.len() as int;
        let id = be32_bytes(f.id as int);
        let size = if version >= 4 {
            synchsafe_bytes(n)
        } else {
            be32_bytes(n)
        };
        let next = ahead + id + size + frames[0].flags + f.data;
        assert(fits(frames[0].content));
        assert(frames[0].flags.len() == 2);
        assert(body =~= next + raw_frames(version, rest) + padding);
        assert(crate::bytes::be32(body, pos) == f.id) by {
            crate::bytes::lemma_be32_round_trip(f.id as int);
            assert(body[pos] == id[0] && body[pos + 1] == id[1] && body[pos + 2] == id[2] && body[pos
                + 3] == id[3]);
        }
        assert(body[pos] != 0) by {
            assert(body[pos] == id[0]);
        }
        assert(crate::metadata::id3v2::frame_size(version, body, pos) == n) by {
            crate::metadata::lemma_synchsafe_round_trip(n);
            crate::bytes::lemma_be32_round_trip(n);
            assert(body[pos + 4] == size[0] && body[pos + 5] == size[1] && body[pos + 6] == size[2]
                && body[pos + 7] == size[3]);
        }
        assert(next.len() == pos + 10 + n);
        assert(body.subrange(pos + 10, pos + 10 + n) =~= f.data);
        assert forall|i: int| 0 <= i < rest.len() implies fits((#[trigger] rest[i]).content)
            && rest[i].flags.len() == 2 by {
            assert(rest[i] == frames[i + 1]);
        }
        law_frames_read(version, next, rest, padding);
        assert(contents(frames) =~= seq![f] + contents(rest));
    }
}

/// A file that starts with an ID3v2 tag is parted behind it: the tag takes as many bytes as its
/// header says, and the rest is audio. Where there is no tag, all of it is audio.
pub proof fn law_mp3_parted(version: u8, revision: u8, flags: u8, body: Seq<u8>, audio: Seq<u8>)
    requires
        body.len() < 0x1000_0000,
    ensures
        ({
            let b = seq![0x49u8, 0x44, 0x33, version, revision, flags] + synchsafe_bytes(
                body.len() as int,
            ) + body + audio;
            &&& frames_of(b) == frames_at(version, body, 0)
            &&& audio_of(b) == audio
        }),
        audio.len() < 3 || audio.subrange(0, 3) != seq![0x49u8, 0x44, 0x33] ==> frames_of(audio)
            == Seq::<FrameContent>::empty() && audio_of(audio) == audio,
{
    let n = body.len() as int;
    let size = synchsafe_bytes(n);
    let b = seq![0x49u8, 0x44, 0x33, version, revision, flags] + size + body + audio;
    crate::metadata::lemma_synchsafe_round_trip(n);
    assert(b[6] == size[0] && b[7] == size[1] && b[8] == size[2] && b[9] == size[3]);
    assert(b.subrange(0, 3) =~= seq![0x49u8, 0x44, 0x33]);
    assert(synchsafe(b, 6) == n);
    assert(b.subrange(10, 10 + n) =~= body);
    assert(b.subrange(10 + n, b.len() as int) =~= audio);
    assert(stands_at(b, 0, seq![0x49u8, 0x44, 0x33]));
    if audio.len() >= 3 && stands_at(audio, 0, seq![0x49u8, 0x44, 0x33]) {
        assert(audio.subrange(0, 3) == seq![0x49u8, 0x44, 0x33]);
    }
}

/// A tag that announces more bytes than there are takes all of them.
pub proof fn law_mp3_cut_short(version: u8, revision: u8, flags: u8, n: int, body: Seq<u8>)
    requires
        body.len() < n < 0x1000_0000,
    ensures
        ({
            let b = seq![0x49u8, 0x44, 0x33, version, revision, flags] + synchsafe_bytes(n) + body;
            &&& frames_of(b) == frames_at(version, body, 0)
            &&& audio_of(b) == Seq::<u8>::empty()
        }),
{
    let size = synchsafe_bytes(n);
    let b = seq![0x49u8, 0x44, 0x33, version, revision, flags] + size + body;
    crate::metadata::lemma_synchsafe_round_trip(n);
    assert(b[6] == size[0] && b[7] == size[1] && b[8] == size[2] && b[9] == size[3]);
    assert(b.subrange(0, 3) =~= seq![0x49u8, 0x44, 0x33]);
    assert(stands_at(b, 0, seq![0x49u8, 0x44, 0x33]));
    assert(b.subrange(10, b.len() as int) =~= body);
    assert(audio_of(b) =~= Seq::<u8>::empty());
}

/// Whether frame `i` is the first one with its ID that holds a text, and this is the text.
pub open spec fn first_told(frames: Seq<FrameContent>, i: int, text: Seq<char>) -> bool {
    &&& 0 <= i < frames.len()
    &&& frame_text(frames[i].data) == Some(text)
    &&& text.len() > 0
    &&& forall|j: int|
        0 <= j < i ==> (#[trigger] frames[j]).id != frames[i].id || frame_text(frames[j].data) is None
            || frame_text(frames[j].data)->0.len() == 0
}

proof fn lemma_first_told(frames: Seq<FrameContent>, i: int, text: Seq<char>)
    requires
        first_told(frames, i, text),
    ensures
        text_in(frames, frames[i].id) == Some(text),
    decreases i,
{
    if i > 0 {
        let rest = frames.drop_first();
        assert(frames[0].id != frames[i].id || frame_text(frames[0].data) is None || frame_text(
            frames[0].data,
        )->0.len() == 0);
        assert forall|j: int| 0 <= j < i - 1 implies (#[trigger] rest[j]).id != rest[i - 1].id
            || frame_text(rest[j].data) is None || frame_text(rest[j].data)->0.len() == 0 by {
            assert(rest[j] == frames[j + 1]);
        }
        lemma_first_told(rest, i - 1, text);
    }
}

proof fn lemma_not_told(frames: Seq<FrameContent>, id: u32)
    requires
        forall|j: int| 0 <= j < frames.len() ==> (#[trigger] frames[j]).id != id,
    ensures
        text_in(frames, id) is None,
    decreases frames.len(),
{
    if frames.len() > 0 {
        let rest = frames.drop_first();
        assert(frames[0].id != id);
        assert forall|j: int| 0 <= j < rest.len() implies (#[trigger] rest[j]).id != id by {
            assert(rest[j] == frames[j + 1]);
        }
        lemma_not_told(rest, id);
    }
}

/// Title, artist and album of an MP3 file are the texts of its first `TIT2`, `TPE1` and `TALB`
/// frames, and it plays as long as its audio.
pub proof fn law_mp3_tags(b: Seq<u8>, filepath: Seq<char>, i: int, text: Seq<char>)
    requires
        first_told(frames_of(b), i, text),
    ensures
        Mp3::metadata(b, filepath) matches Ok(t) && {
            let id = frames_of(b)[i].id;
            &&& t.filepath == filepath
            &&& t.duration == duration_of(audio_of(b)) as u32
            &&& id == 0x5449_5432 ==> t.title == Some(text)
            &&& id == 0x5450_4531 ==> t.artist == Some(text)
            &&& id == 0x5441_4c42 ==> t.album == Some(text)
        },
{
    lemma_first_told(frames_of(b), i, text);
}

/// The track number of an MP3 file is the number in its first `TRCK` frame, which may be followed
/// by a slash and the number of tracks.
pub proof fn law_mp3_track_number(
    b: Seq<u8>,
    filepath: Seq<char>,
    i: int,
    n: u32,
    rest: Seq<char>,
)
    requires
        first_told(frames_of(b), i, decimal(n as nat)) || first_told(
            frames_of(b),
            i,
            decimal(n as nat) + seq!['/'] + rest,
        ),
        frames_of(b)[i].id == 0x5452_434b,
    ensures
        Mp3::metadata(b, filepath) matches Ok(t) && t.track_number == n,
{
    let none = Seq::<char>::empty();
    law_track_number(none, n as nat, none, rest);
    assert(none + decimal(n as nat) + none =~= decimal(n as nat));
    if first_told(frames_of(b), i, decimal(n as nat)) {
        lemma_first_told(frames_of(b), i, decimal(n as nat));
    } else {
        lemma_first_told(frames_of(b), i, decimal(n as nat) + seq!['/'] + rest);
    }
}

/// What no frame tells is not known.
pub proof fn law_mp3_untold(b: Seq<u8>, filepath: Seq<char>, id: u32)
    requires
        forall|j: int| 0 <= j < frames_of(b).len() ==> (#[trigger] frames_of(b)[j]).id != id,
    ensures
        Mp3::metadata(b, filepath) matches Ok(t) && {
            &&& id == 0x5449_5432 ==> t.title is None
            &&& id == 0x5450_4531 ==> t.artist is None
            &&& id == 0x5441_4c42 ==> t.album is None
            &&& id == 0x5452_434b ==> t.track_number == 0
        },
{
    lemma_not_told(frames_of(b), id);
}

} // verus!
