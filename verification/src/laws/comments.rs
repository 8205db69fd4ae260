//! What is read from Vorbis comments and FLAC files, and written to them.

use vstd::prelude::*;
use vstd::utf8::{encode_utf8, valid_utf8};

use crate::bytes::{be24_bytes, be32, be64, le32, le32_bytes, lower, same_ignoring_case};
use crate::laws::text::{law_first_index, law_track_number};
use crate::metadata::flac::{
    all_informed, audio_of, block_bytes, blocks_at, first_of, fits, informed, new_block, new_blocks,
    old_comments, split_of, stream_info, Block, Flac,
};
use crate::metadata::vorbis::{
    comment_bytes, comments_of, entries_at, find_value, has_key, lyrics_key, packed, tagged,
    value_of, with_lyrics, Comments, Fault,
};
use crate::metadata::AudioFormat;
use crate::text::decimal;
use crate::types::Track;

verus! {

/// Whether two keys are the same but for the case of ASCII letters.
pub open spec fn same_key(a: Seq<u8>, b: Seq<u8>) -> bool {
    &&& a.len() == b.len()
    &&& forall|i: int|
        0 <= i < a.len() ==> (#[trigger] a[i] == b[i] || (0x41 <= a[i] <= 0x5a && b[i] == a[i] + 32)
            || (0x41 <= b[i] <= 0x5a && a[i] == b[i] + 32))
}

/// A comment is a key, an equals sign and a value. Its key is compared without regard to case, and
/// its value is everything behind the first equals sign.
pub proof fn law_comment(key: Seq<u8>, value: Seq<u8>, wanted: Seq<u8>)
    requires
        forall|i: int| 0 <= i < key.len() ==> #[trigger] key[i] != 0x3d,
    ensures
        has_key(key + seq![0x3du8] + value, wanted) <==> same_key(key, wanted),
        value_of(key + seq![0x3du8] + value) == value,
        !has_key(key, wanted),
{
    let entry = key + seq![0x3du8] + value;
    law_first_index(key, 0x3d, value);
    assert(entry.subrange(0, key.len() as int) =~= key);
    assert(entry.subrange((key.len() + 1) as int, entry.len() as int) =~= value);
    if same_key(key, wanted) {
        assert forall|i: int| 0 <= i < key.len() implies lower(#[trigger] key[i]) == lower(
            wanted[i],
        ) by {}
        assert(same_ignoring_case(key, wanted));
    }
    if same_ignoring_case(key, wanted) {
        assert forall|i: int| 0 <= i < key.len() implies (#[trigger] key[i] == wanted[i] || (0x41
            <= key[i] <= 0x5a && wanted[i] == key[i] + 32) || (0x41 <= wanted[i] <= 0x5a && key[i]
            == wanted[i] + 32)) by {
            assert(lower(key[i]) == lower(wanted[i]));
        }
    }
}

/// Whether comment `i` is the first one with a key, and has this value.
pub open spec fn first_comment(entries: Seq<Seq<u8>>, i: int, key: Seq<u8>, value: Seq<u8>) -> bool {
    &&& 0 <= i < entries.len()
    &&& has_key(entries[i], key)
    &&& value_of(entries[i]) == value
    &&& forall|j: int| 0 <= j < i ==> !has_key(#[trigger] entries[j], key)
}

proof fn lemma_first_comment(entries: Seq<Seq<u8>>, i: int, key: Seq<u8>, value: Seq<u8>)
    requires
        first_comment(entries, i, key, value),
    ensures
        find_value(entries, key) == Some(value),
    decreases i,
{
    if i > 0 {
        let rest = entries.drop_first();
        assert(!has_key(entries[0], key));
        assert forall|j: int| 0 <= j < i - 1 implies !has_key(#[trigger] rest[j], key) by {
            assert(rest[j] == entries[j + 1]);
        }
        lemma_first_comment(rest, i - 1, key, value);
    }
}

/// What no comment tells is not found.
pub proof fn law_no_comment(entries: Seq<Seq<u8>>, key: Seq<u8>)
    requires
        forall|j: int| 0 <= j < entries.len() ==> !has_key(#[trigger] entries[j], key),
    ensures
        find_value(entries, key) is None,
    decreases entries.len(),
{
    if entries.len() > 0 {
        let rest = entries.drop_first();
        assert(!has_key(entries[0], key));
        assert forall|j: int| 0 <= j < rest.len() implies !has_key(#[trigger] rest[j], key) by {
            assert(rest[j] == entries[j + 1]);
        }
        law_no_comment(rest, key);
    }
}

/// The keys of the tags that are read.
#[verifier::spinoff_prover]
#[verifier::rlimit(40)]
pub proof fn lemma_keys()
    ensures
        encode_utf8("TITLE"@) == seq![0x54u8, 0x49, 0x54, 0x4c, 0x45],
        encode_utf8("ARTIST"@) == seq![0x41u8, 0x52, 0x54, 0x49, 0x53, 0x54],
        encode_utf8("ALBUM"@) == seq![0x41u8, 0x4c, 0x42, 0x55, 0x4d],
        encode_utf8("TRACKNUMBER"@) == seq![
            0x54u8,
            0x52,
            0x41,
            0x43,
            0x4b,
            0x4e,
            0x55,
            0x4d,
            0x42,
            0x45,
            0x52,
        ],
        lyrics_key() == seq![0x4cu8, 0x59, 0x52, 0x49, 0x43, 0x53],
{
    reveal_strlit("TITLE");
    reveal_strlit("ARTIST");
    reveal_strlit("ALBUM");
    reveal_strlit("TRACKNUMBER");
    reveal_strlit("LYRICS");
    vstd::utf8::is_ascii_chars_encode_utf8("TITLE"@);
    vstd::utf8::is_ascii_chars_encode_utf8("ARTIST"@);
    vstd::utf8::is_ascii_chars_encode_utf8("ALBUM"@);
    vstd::utf8::is_ascii_chars_encode_utf8("TRACKNUMBER"@);
    vstd::utf8::is_ascii_chars_encode_utf8("LYRICS"@);
    assert(encode_utf8("TITLE"@) =~= seq![0x54u8, 0x49, 0x54, 0x4c, 0x45]);
    assert(encode_utf8("ARTIST"@) =~= seq![0x41u8, 0x52, 0x54, 0x49, 0x53, 0x54]);
    assert(encode_utf8("ALBUM"@) =~= seq![0x41u8, 0x4c, 0x42, 0x55, 0x4d]);
    assert(encode_utf8("TRACKNUMBER"@) =~= seq![
        0x54u8,
        0x52,
        0x41,
        0x43,
        0x4b,
        0x4e,
        0x55,
        0x4d,
        0x42,
        0x45,
        0x52,
    ]);
    assert(lyrics_key() =~= seq![0x4cu8, 0x59, 0x52, 0x49, 0x43, 0x53]);
}

/// The first `TITLE`, `ARTIST` and `ALBUM` comments are the tags of the track, where they are not
/// empty, and the rest of the track stays.
pub proof fn law_comment_tags(track: Track, entries: Seq<Seq<u8>>, i: int, text: Seq<char>)
    requires
        text.len() > 0,
    ensures
        ({
            let t = tagged(track, entries);
            let value = encode_utf8(text);
            &&& t.duration == track.duration && t.filepath == track.filepath
            &&& first_comment(entries, i, seq![0x54u8, 0x49, 0x54, 0x4c, 0x45], value) ==> t.title
                == Some(text)
            &&& first_comment(entries, i, seq![0x41u8, 0x52, 0x54, 0x49, 0x53, 0x54], value)
                ==> t.artist == Some(text)
            &&& first_comment(entries, i, seq![0x41u8, 0x4c, 0x42, 0x55, 0x4d], value) ==> t.album
                == Some(text)
        }),
{
    let value = encode_utf8(text);
    lemma_keys();
    crate::text::lemma_as_text(text);
    crate::laws::http::lemma_encode_filled(text);
    if first_comment(entries, i, seq![0x54u8, 0x49, 0x54, 0x4c, 0x45], value) {
        lemma_first_comment(entries, i, seq![0x54u8, 0x49, 0x54, 0x4c, 0x45], value);
    }
    if first_comment(entries, i, seq![0x41u8, 0x52, 0x54, 0x49, 0x53, 0x54], value) {
        lemma_first_comment(entries, i, seq![0x41u8, 0x52, 0x54, 0x49, 0x53, 0x54], value);
    }
    if first_comment(entries, i, seq![0x41u8, 0x4c, 0x42, 0x55, 0x4d], value) {
        lemma_first_comment(entries, i, seq![0x41u8, 0x4c, 0x42, 0x55, 0x4d], value);
    }
}

/// The track number is the number in the first `TRACKNUMBER` comment, which may be followed by a
/// slash and the number of tracks.
pub proof fn law_comment_track_number(
    track: Track,
    entries: Seq<Seq<u8>>,
    i: int,
    n: u32,
    rest: Seq<char>,
)
    requires
        ({
            let key = seq![
                0x54u8, 0x52, 0x41, 0x43, 0x4b, 0x4e, 0x55, 0x4d, 0x42, 0x45, 0x52,
            ];
            ||| first_comment(entries, i, key, encode_utf8(decimal(n as nat)))
            ||| first_comment(
                entries,
                i,
                key,
                encode_utf8(decimal(n as nat) + seq!['/'] + rest),
            )
        }),
    ensures
        tagged(track, entries).track_number == n,
{
    let key = seq![0x54u8, 0x52, 0x41, 0x43, 0x4b, 0x4e, 0x55, 0x4d, 0x42, 0x45, 0x52];
    let none = Seq::<char>::empty();
    let short = decimal(n as nat);
    let long = decimal(n as nat) + seq!['/'] + rest;
    lemma_keys();
    law_track_number(none, n as nat, none, rest);
    assert(none + short + none =~= short);
    crate::text::lemma_as_text(short);
    crate::text::lemma_as_text(long);
    if first_comment(entries, i, key, encode_utf8(short)) {
        lemma_first_comment(entries, i, key, encode_utf8(short));
    } else {
        lemma_first_comment(entries, i, key, encode_utf8(long));
    }
}

/// What no comment tells is not known.
pub proof fn law_comments_untold(track: Track, entries: Seq<Seq<u8>>, key: Seq<u8>)
    requires
        forall|j: int| 0 <= j < entries.len() ==> !has_key(#[trigger] entries[j], key),
    ensures
        ({
            let t = tagged(track, entries);
            &&& key == seq![0x54u8, 0x49, 0x54, 0x4c, 0x45] ==> t.title is None
            &&& key == seq![0x41u8, 0x52, 0x54, 0x49, 0x53, 0x54] ==> t.artist is None
            &&& key == seq![0x41u8, 0x4c, 0x42, 0x55, 0x4d] ==> t.album is None
        }),
{
    lemma_keys();
    law_no_comment(entries, key);
}

/// A tag that is empty or no UTF-8 is not known.
pub proof fn law_comment_unread(track: Track, entries: Seq<Seq<u8>>, i: int, value: Seq<u8>)
    requires
        value.len() == 0 || !valid_utf8(value),
    ensures
        ({
            let t = tagged(track, entries);
            &&& first_comment(entries, i, seq![0x54u8, 0x49, 0x54, 0x4c, 0x45], value)
                ==> t.title is None
            &&& first_comment(entries, i, seq![0x41u8, 0x52, 0x54, 0x49, 0x53, 0x54], value)
                ==> t.artist is None
            &&& first_comment(entries, i, seq![0x41u8, 0x4c, 0x42, 0x55, 0x4d], value)
                ==> t.album is None
        }),
{
    lemma_keys();
    if first_comment(entries, i, seq![0x54u8, 0x49, 0x54, 0x4c, 0x45], value) {
        lemma_first_comment(entries, i, seq![0x54u8, 0x49, 0x54, 0x4c, 0x45], value);
    }
    if first_comment(entries, i, seq![0x41u8, 0x52, 0x54, 0x49, 0x53, 0x54], value) {
        lemma_first_comment(entries, i, seq![0x41u8, 0x52, 0x54, 0x49, 0x53, 0x54], value);
    }
    if first_comment(entries, i, seq![0x41u8, 0x4c, 0x42, 0x55, 0x4d], value) {
        lemma_first_comment(entries, i, seq![0x41u8, 0x4c, 0x42, 0x55, 0x4d], value);
    }
}

/// Lyrics are written as one last comment: `LYRICS=` and the whole text. Comments with that key, in
/// any case of letters, go away, and all others stay in their order.
pub proof fn law_lyrics_comment(entries: Seq<Seq<u8>>, lyrics: Seq<char>)
    ensures
        ({
            let key = seq![0x4cu8, 0x59, 0x52, 0x49, 0x43, 0x53];
            let new = with_lyrics(entries, lyrics);
            &&& new.len() > 0
            &&& new.last() == key + seq![0x3du8] + encode_utf8(lyrics)
            &&& new.drop_last() == entries.filter(|e: Seq<u8>| !has_key(e, key))
            &&& find_value(new, key) == Some(encode_utf8(lyrics))
        }),
{
    lemma_keys();
    crate::metadata::vorbis::law_lyrics_replaced(entries, lyrics, lyrics_key());
    let new = with_lyrics(entries, lyrics);
    assert(new.drop_last() =~= entries.filter(|e: Seq<u8>| !has_key(e, lyrics_key())));
}

/// A comment block is the vendor string, the number of comments and each comment, with the length
/// of each text before it in four bytes.
pub proof fn law_comment_block(vendor: Seq<u8>, entries: Seq<Seq<u8>>, entry: Seq<u8>)
    ensures
        comment_bytes(Comments { vendor, entries }) == le32_bytes(vendor.len() as int) + vendor
            + le32_bytes(entries.len() as int) + packed(entries),
        packed(entries.push(entry)) == packed(entries) + le32_bytes(entry.len() as int) + entry,
        packed(Seq::empty()) == Seq::<u8>::empty(),
    decreases entries.len(),
{
    let all = entries.push(entry);
    if entries.len() == 0 {
        assert(all.drop_first() =~= entries);
        assert(packed(all) =~= packed(entries) + le32_bytes(entry.len() as int) + entry);
    } else {
        law_comment_block(vendor, entries.drop_first(), entry);
        assert(all.drop_first() =~= entries.drop_first().push(entry));
        assert(packed(all) =~= packed(entries) + le32_bytes(entry.len() as int) + entry);
    }
}

/// What is read from a comment block is what stands there: written again it gives the same bytes.
pub proof fn law_comments_stand_there(d: Seq<u8>, c: Comments)
    requires
        comments_of(d) == Ok::<Comments, Fault>(c),
    ensures
        comment_bytes(c).len() <= d.len(),
        d.take(comment_bytes(c).len() as int) == comment_bytes(c),
{
    let n = le32(d, 0);
    let at = 4 + n;
    let count = le32(d, at);
    lemma_le32_stands(d, 0);
    lemma_le32_stands(d, at);
    lemma_entries_stand(d, at + 4, count);
    let out = comment_bytes(c);
    assert(c.entries.len() == count);
    assert(out =~= d.subrange(0, 4) + d.subrange(4, at) + d.subrange(at, at + 4) + d.subrange(
        at + 4,
        at + 4 + packed(c.entries).len(),
    ));
    assert(d.take(out.len() as int) =~= out);
}

proof fn lemma_le32_stands(d: Seq<u8>, at: int)
    requires
        0 <= at,
        at + 4 <= d.len(),
    ensures
        0 <= le32(d, at) < 0x1_0000_0000,
        le32_bytes(le32(d, at)) == d.subrange(at, at + 4),
{
    let n = le32(d, at);
    let a = d[at] as int;
    let b = d[at + 1] as int;
    let c = d[at + 2] as int;
    let e = d[at + 3] as int;
    assert(n == a + 0x100 * (b + 0x100 * (c + 0x100 * e)));
    assert(n % 0x100 == a);
    assert(n / 0x100 == b + 0x100 * (c + 0x100 * e));
    assert(n / 0x100 % 0x100 == b);
    assert(n / 0x1_0000 == c + 0x100 * e);
    assert(n / 0x1_0000 % 0x100 == c);
    assert(n / 0x100_0000 == e);
    assert(n / 0x100_0000 % 0x100 == e);
    assert(le32_bytes(n) =~= d.subrange(at, at + 4));
}

proof fn lemma_entries_stand(d: Seq<u8>, pos: int, count: int)
    requires
        0 <= pos,
        0 <= count,
        pos <= d.len(),
        entries_at(d, pos, count) is Ok,
    ensures
        entries_at(d, pos, count)->Ok_0.len() == count,
        pos + packed(entries_at(d, pos, count)->Ok_0).len() <= d.len(),
        d.subrange(pos, pos + packed(entries_at(d, pos, count)->Ok_0).len()) == packed(
            entries_at(d, pos, count)->Ok_0,
        ),
    decreases count,
{
    let all = entries_at(d, pos, count)->Ok_0;
    if count > 0 {
        let end = pos + 4 + le32(d, pos);
        lemma_le32_stands(d, pos);
        lemma_entries_stand(d, end, count - 1);
        let rest = entries_at(d, end, count - 1)->Ok_0;
        let first = d.subrange(pos + 4, end);
        assert(all == seq![first] + rest);
        assert(all.drop_first() =~= rest);
        assert(packed(all) =~= d.subrange(pos, pos + packed(all).len()));
    } else {
        assert(packed(all) =~= d.subrange(pos, pos));
    }
}

/// A sync with `force` writes every FLAC file that can be read, and one without writes exactly those
/// whose first comment block has no `LYRICS` comment; a file that cannot be read is refused.
pub proof fn law_flac_overwrites(b: Seq<u8>, lyrics: Seq<char>)
    ensures
        split_of(b) matches Err(m) ==> Flac::edited(b, lyrics, true) == Err::<
            Option<Seq<u8>>,
            Seq<char>,
        >(m) && Flac::edited(b, lyrics, false) == Err::<Option<Seq<u8>>, Seq<char>>(m),
        split_of(b) is Ok ==> (Flac::edited(b, lyrics, true) matches Ok(Some(_))),
        split_of(b) matches Ok(s) ==> {
            let key = seq![0x4cu8, 0x59, 0x52, 0x49, 0x43, 0x53];
            let has = first_of(s.blocks, 4) matches Some(i) && (comments_of(
                s.blocks[i].data,
            ) matches Ok(c) && find_value(c.entries, key) is Some);
            Flac::edited(b, lyrics, false) == (if has {
                Ok::<Option<Seq<u8>>, Seq<char>>(None)
            } else {
                Flac::edited(b, lyrics, true)
            })
        },
{
    lemma_keys();
}

/// Where the comment block is: the first block of type 4; where there is none, it goes behind the
/// first block of type 0, or to the front.
pub open spec fn comment_place(blocks: Seq<Block>) -> int {
    match first_of(blocks, 4) {
        Some(i) => i,
        None => match first_of(blocks, 0) {
            Some(i) => i + 1,
            None => 0,
        },
    }
}

/// The comments of the block that is written are the old ones without lyrics and then the new
/// lyrics, with the vendor string of the old block. This holds as long as it stays below 4 GiB.
pub proof fn law_flac_comments(blocks: Seq<Block>, lyrics: Seq<char>, i: int, c: Comments)
    requires
        new_block(blocks, lyrics).data.len() < 0x1_0000_0000,
    ensures
        ({
            let key = seq![0x4cu8, 0x59, 0x52, 0x49, 0x43, 0x53];
            let new = comments_of(new_block(blocks, lyrics).data)->Ok_0;
            &&& new_block(blocks, lyrics).kind == 4
            &&& comments_of(new_block(blocks, lyrics).data) is Ok
            &&& new.entries.len() > 0
            &&& new.entries.last() == key + seq![0x3du8] + encode_utf8(lyrics)
            &&& first_of(blocks, 4) == Some(i) && comments_of(blocks[i].data) == Ok::<
                Comments,
                Fault,
            >(c) ==> new.entries.drop_last() == c.entries.filter(|e: Seq<u8>| !has_key(e, key))
            &&& first_of(blocks, 4) == Some(i) && comments_of(blocks[i].data) == Ok::<
                Comments,
                Fault,
            >(c) && valid_utf8(c.vendor) ==> new.vendor == c.vendor
            &&& first_of(blocks, 4) is None ==> new.entries.len() == 1
            &&& first_of(blocks, 4) == Some(i) && comments_of(blocks[i].data) is Err
                ==> new.entries.len() == 1
        }),
{
    crate::metadata::flac::lemma_new_comments(blocks, lyrics);
    law_lyrics_comment(old_comments(blocks).entries, lyrics);
    if valid_utf8(c.vendor) {
        broadcast use vstd::utf8::decode_utf8_encode_utf8;

        assert(encode_utf8(vstd::utf8::decode_utf8(c.vendor)) == c.vendor);
    }
    lemma_filter_none();
}

proof fn lemma_filter_none()
    ensures
        forall|lyrics: Seq<char>| (#[trigger] with_lyrics(Seq::empty(), lyrics)).len() == 1,
{
    reveal(Seq::filter);
    assert(Seq::<Seq<u8>>::empty().filter(|e: Seq<u8>| !has_key(e, lyrics_key())) =~= Seq::<
        Seq<u8>,
    >::empty());
}

/// A written FLAC file starts with `fLaC`, has the same blocks in the same order but for the comment
/// block, and the same audio. This holds as long as the comment block stays below 16 MiB.
pub proof fn law_flac_written(b: Seq<u8>, lyrics: Seq<char>, force: bool)
    requires
        Flac::edited(b, lyrics, force) matches Ok(Some(_)),
        new_block(split_of(b)->Ok_0.blocks, lyrics).data.len() < 0x100_0000,
    ensures
        ({
            let out = Flac::edited(b, lyrics, force)->Ok_0->0;
            let old_blocks = split_of(b)->Ok_0.blocks;
            let new = split_of(out)->Ok_0.blocks;
            let at = comment_place(old_blocks);
            &&& split_of(out) is Ok
            &&& out.subrange(0, 4) == seq![0x66u8, 0x4c, 0x61, 0x43]
            &&& audio_of(out) == audio_of(b)
            &&& 0 <= at < new.len()
            &&& new[at] == new_block(old_blocks, lyrics)
            &&& first_of(old_blocks, 4) is Some ==> new == old_blocks.update(at, new[at])
            &&& first_of(old_blocks, 4) is None ==> new == old_blocks.insert(at, new[at])
        }),
{
    let out = Flac::edited(b, lyrics, force)->Ok_0->0;
    let blocks = split_of(b)->Ok_0.blocks;
    let at = comment_place(blocks);
    crate::metadata::flac::law_flac_read_back(b, lyrics, force, lyrics, seq![]);
    crate::metadata::flac::lemma_first_of(blocks, 4);
    crate::metadata::flac::lemma_first_of(blocks, 0);
    lemma_marked(block_bytes(new_blocks(blocks, lyrics)), audio_of(b));
}

proof fn lemma_marked(middle: Seq<u8>, audio: Seq<u8>)
    ensures
        (crate::metadata::flac::marker() + middle + audio).subrange(0, 4) == seq![
            0x66u8,
            0x4c,
            0x61,
            0x43,
        ],
{
    assert((crate::metadata::flac::marker() + middle + audio).subrange(0, 4) =~= seq![
        0x66u8,
        0x4c,
        0x61,
        0x43,
    ]);
}

/// The blocks of a FLAC file are written with a type and a length of three bytes before each, and
/// the highest bit set in the type of the last one.
pub proof fn law_flac_blocks(blocks: Seq<Block>, last: Block)
    requires
        last.kind < 0x80,
        forall|i: int| 0 <= i < blocks.len() ==> (#[trigger] blocks[i]).kind < 0x80,
    ensures
        block_bytes(seq![last]) == seq![(0x80 + last.kind) as u8] + be24_bytes(
            last.data.len() as int,
        ) + last.data,
        blocks.len() >= 2 ==> block_bytes(blocks) == seq![blocks[0].kind] + be24_bytes(
            blocks[0].data.len() as int,
        ) + blocks[0].data + block_bytes(blocks.drop_first()),
{
    let one = seq![last];
    assert(one.drop_first() =~= Seq::<Block>::empty());
    assert(block_bytes(one.drop_first()) =~= Seq::<u8>::empty());
    assert(block_bytes(one) =~= seq![(0x80 + last.kind) as u8] + be24_bytes(last.data.len() as int)
        + last.data);
    if blocks.len() >= 2 {
        assert(blocks[0].kind < 0x80);
    }
}

/// A FLAC file starts with `fLaC`, its blocks follow, and behind the last of them comes the audio.
/// Bytes that start otherwise are no FLAC file.
pub proof fn law_flac_parted(blocks: Seq<Block>, audio: Seq<u8>, b: Seq<u8>)
    requires
        blocks.len() > 0,
        forall|i: int| 0 <= i < blocks.len() ==> fits(#[trigger] blocks[i]),
    ensures
        ({
            let file = seq![0x66u8, 0x4c, 0x61, 0x43] + block_bytes(blocks) + audio;
            &&& split_of(file) matches Ok(s) && s.blocks == blocks
            &&& audio_of(file) == audio
        }),
        b.len() < 4 || b.subrange(0, 4) != seq![0x66u8, 0x4c, 0x61, 0x43] ==> split_of(b) is Err,
{
    let mark = seq![0x66u8, 0x4c, 0x61, 0x43];
    let file = mark + block_bytes(blocks) + audio;
    crate::metadata::flac::law_blocks_round_trip(mark, blocks, audio);
    assert(file.subrange(0, 4) =~= mark);
    assert(crate::metadata::flac::marker() =~= mark);
    assert(crate::bytes::stands_at(file, 0, mark));
    assert(audio_of(file) =~= audio);
}

/// What is read from the blocks of a FLAC file is what stands there: written again they give the same
/// bytes, up to where the audio starts.
pub proof fn law_blocks_stand_there(b: Seq<u8>, pos: int)
    requires
        0 <= pos,
        blocks_at(b, pos) is Ok,
    ensures
        ({
            let s = blocks_at(b, pos)->Ok_0;
            &&& s.blocks.len() > 0
            &&& pos <= s.audio <= b.len()
            &&& block_bytes(s.blocks) == b.subrange(pos, s.audio)
        }),
    decreases b.len() - pos,
{
    let s = blocks_at(b, pos)->Ok_0;
    let n = crate::bytes::be24(b, pos + 1);
    let end = pos + 4 + n;
    let block = Block { kind: (b[pos] % 0x80) as u8, data: b.subrange(pos + 4, end) };
    lemma_be24_stands(b, pos + 1);
    if b[pos] >= 0x80 {
        let one = seq![block];
        assert(one.drop_first() =~= Seq::<Block>::empty());
        assert(block_bytes(one.drop_first()) =~= Seq::<u8>::empty());
        assert(block_bytes(one) =~= b.subrange(pos, end));
    } else {
        law_blocks_stand_there(b, end);
        let rest = blocks_at(b, end)->Ok_0.blocks;
        assert(s.blocks == seq![block] + rest);
        assert(s.blocks.drop_first() =~= rest);
        assert(block_bytes(s.blocks) =~= b.subrange(pos, s.audio));
    }
}

proof fn lemma_be24_stands(b: Seq<u8>, at: int)
    requires
        0 <= at,
        at + 3 <= b.len(),
    ensures
        0 <= crate::bytes::be24(b, at) < 0x100_0000,
        be24_bytes(crate::bytes::be24(b, at)) == b.subrange(at, at + 3),
{
    let n = crate::bytes::be24(b, at);
    let x = b[at] as int;
    let y = b[at + 1] as int;
    let z = b[at + 2] as int;
    assert(n == (x * 0x100 + y) * 0x100 + z);
    assert(n % 0x100 == z);
    assert(n / 0x100 == x * 0x100 + y);
    assert(n / 0x100 % 0x100 == y);
    assert(n / 0x1_0000 == x);
    assert(n / 0x1_0000 % 0x100 == x);
    assert(be24_bytes(n) =~= b.subrange(at, at + 3));
}

/// The stream information packs the sample rate into the 20 highest of 64 bits and the number of
/// samples into the 36 lowest.
#[verifier::spinoff_prover]
#[verifier::rlimit(40)]
pub proof fn law_stream_info(d: Seq<u8>)
    ensures
        d.len() >= 18 ==> (stream_info(d) matches Some((rate, total)) && rate == be64(d, 10)
            / 0x1000_0000_0000 && total == be64(d, 10) % 0x10_0000_0000),
        d.len() < 18 ==> stream_info(d) is None,
{
    if d.len() >= 18 {
        let high = be32(d, 10);
        let low = be32(d, 14);
        let v = be64(d, 10);
        let (rate, total) = stream_info(d)->0;
        let mid = (d[12] % 0x10) as int;
        let part = (d[13] % 0x10) as int;
        assert(v == high * 0x1_0000_0000 + low);
        assert(high == d[10] * 0x100_0000 + d[11] * 0x1_0000 + d[12] * 0x100 + d[13]);
        assert(d[12] == d[12] / 0x10 * 0x10 + mid);
        assert(d[13] == d[13] / 0x10 * 0x10 + part);
        assert(0 <= low < 0x1_0000_0000);
        let upper = (d[13] / 0x10) as int;
        assert(v == rate * 0x1000_0000_0000 + (mid * 0x100 + upper * 0x10 + part) * 0x1_0000_0000
            + low);
        let rest = (mid * 0x100 + upper * 0x10 + part) * 0x1_0000_0000 + low;
        assert(0 <= rest < 0x1000_0000_0000);
        vstd::arithmetic::div_mod::lemma_fundamental_div_mod_converse(
            v,
            0x1000_0000_0000,
            rate,
            rest,
        );
        let q = rate * 0x100 + mid * 0x10 + upper;
        assert(v == q * 0x10_0000_0000 + total);
        assert(0 <= total < 0x10_0000_0000);
        vstd::arithmetic::div_mod::lemma_fundamental_div_mod_converse(
            v,
            0x10_0000_0000,
            q,
            total,
        );
    }
}

proof fn lemma_other_blocks(track: Track, blocks: Seq<Block>)
    ensures
        (forall|j: int| 0 <= j < blocks.len() ==> (#[trigger] blocks[j]).kind != 0) ==> all_informed(
            track,
            blocks,
        ).duration == track.duration,
        (forall|j: int| 0 <= j < blocks.len() ==> (#[trigger] blocks[j]).kind != 4) ==> ({
            let t = all_informed(track, blocks);
            &&& t.title == track.title && t.artist == track.artist && t.album == track.album
            &&& t.track_number == track.track_number
        }),
        all_informed(track, blocks).filepath == track.filepath,
    decreases blocks.len(),
{
    if blocks.len() > 0 {
        let rest = blocks.drop_first();
        lemma_other_blocks(informed(track, blocks[0]), rest);
        if forall|j: int| 0 <= j < blocks.len() ==> (#[trigger] blocks[j]).kind != 0 {
            assert(blocks[0].kind != 0);
            assert forall|j: int| 0 <= j < rest.len() implies (#[trigger] rest[j]).kind != 0 by {
                assert(rest[j] == blocks[j + 1]);
            }
        }
        if forall|j: int| 0 <= j < blocks.len() ==> (#[trigger] blocks[j]).kind != 4 {
            assert(blocks[0].kind != 4);
            assert forall|j: int| 0 <= j < rest.len() implies (#[trigger] rest[j]).kind != 4 by {
                assert(rest[j] == blocks[j + 1]);
            }
        }
    }
}

/// A FLAC file with one block of stream information plays as many seconds as its samples take at
/// its sample rate.
pub proof fn law_flac_duration(track: Track, blocks: Seq<Block>, i: int, rate: int, total: int)
    requires
        0 <= i < blocks.len(),
        blocks[i].kind == 0,
        forall|j: int| 0 <= j < blocks.len() && j != i ==> (#[trigger] blocks[j]).kind != 0,
        stream_info(blocks[i].data) == Some((rate, total)),
        rate > 0,
        0 <= total < 0x1_0000_0000 * rate,
    ensures
        all_informed(track, blocks).duration == total / rate,
    decreases blocks.len(),
{
    let rest = blocks.drop_first();
    if i == 0 {
        let next = informed(track, blocks[0]);
        assert forall|j: int| 0 <= j < rest.len() implies (#[trigger] rest[j]).kind != 0 by {
            assert(rest[j] == blocks[j + 1]);
        }
        lemma_other_blocks(next, rest);
        assert(0 <= total / rate < 0x1_0000_0000) by {
            vstd::arithmetic::div_mod::lemma_multiply_divide_lt(total, rate, 0x1_0000_0000);
            vstd::arithmetic::div_mod::lemma_div_pos_is_pos(total, rate);
        }
        assert(next.duration == total / rate);
    } else {
        assert(rest[i - 1] == blocks[i]);
        assert forall|j: int| 0 <= j < rest.len() && j != i - 1 implies (#[trigger] rest[j]).kind
            != 0 by {
            assert(rest[j] == blocks[j + 1]);
        }
        law_flac_duration(informed(track, blocks[0]), rest, i - 1, rate, total);
    }
}

/// Stream information that is cut short, or tells a sample rate of zero, tells no duration.
pub proof fn law_flac_no_duration(track: Track, blocks: Seq<Block>)
    requires
        forall|j: int|
            0 <= j < blocks.len() && (#[trigger] blocks[j]).kind == 0 ==> (match stream_info(
                blocks[j].data,
            ) {
                Some((rate, _)) => rate == 0,
                None => true,
            }),
    ensures
        all_informed(track, blocks).duration == track.duration,
    decreases blocks.len(),
{
    if blocks.len() > 0 {
        let rest = blocks.drop_first();
        let first = blocks[0];
        assert(first.kind == 0 ==> (match stream_info(first.data) {
            Some((rate, _)) => rate == 0,
            None => true,
        }));
        assert forall|j: int|
            0 <= j < rest.len() && (#[trigger] rest[j]).kind == 0 implies (match stream_info(
            rest[j].data,
        ) {
            Some((rate, _)) => rate == 0,
            None => true,
        }) by {
            assert(rest[j] == blocks[j + 1]);
        }
        law_flac_no_duration(informed(track, first), rest);
    }
}

/// The tags of a FLAC file with one comment block are those that its comments tell.
pub proof fn law_flac_tags(track: Track, blocks: Seq<Block>, i: int, c: Comments)
    requires
        0 <= i < blocks.len(),
        blocks[i].kind == 4,
        forall|j: int| 0 <= j < blocks.len() && j != i ==> (#[trigger] blocks[j]).kind != 4,
        comments_of(blocks[i].data) == Ok::<Comments, Fault>(c),
    ensures
        ({
            let t = all_informed(track, blocks);
            let told = tagged(track, c.entries);
            &&& t.title == told.title && t.artist == told.artist && t.album == told.album
            &&& t.track_number == told.track_number
            &&& t.filepath == track.filepath
        }),
    decreases blocks.len(),
{
    let rest = blocks.drop_first();
    if i == 0 {
        assert forall|j: int| 0 <= j < rest.len() implies (#[trigger] rest[j]).kind != 4 by {
            assert(rest[j] == blocks[j + 1]);
        }
        lemma_other_blocks(informed(track, blocks[0]), rest);
    } else {
        assert(rest[i - 1] == blocks[i]);
        assert forall|j: int| 0 <= j < rest.len() && j != i - 1 implies (#[trigger] rest[j]).kind
            != 4 by {
            assert(rest[j] == blocks[j + 1]);
        }
        assert(blocks[0].kind != 4);
        law_flac_tags(informed(track, blocks[0]), rest, i - 1, c);
    }
}

/// The metadata of a FLAC file are what its blocks tell of a track of which only the place is known.
pub proof fn law_flac_metadata(b: Seq<u8>, filepath: Seq<char>)
    requires
        split_of(b) is Ok,
    ensures
        Flac::metadata(b, filepath) matches Ok(t) && t == all_informed(
            Track {
                title: None,
                artist: None,
                album: None,
                track_number: 0,
                duration: 0,
                filepath,
            },
            split_of(b)->Ok_0.blocks,
        ),
{
}

} // verus!
