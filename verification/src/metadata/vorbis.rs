//! Vorbis comments: the `KEY=VALUE` lists in which FLAC and OGG files keep their tags.
//!
//! ```text
//!  u32 LE   : length of the vendor string
//!  bytes    : vendor string
//!  u32 LE   : number of comments
//!  then for each comment
//!  u32 LE   : length of the comment
//!  bytes    : KEY=VALUE
//! ```

use vstd::prelude::*;
use vstd::utf8::{decode_utf8, encode_utf8, valid_utf8};

use crate::bytes::{
    append_bytes, copy_range, eq_ignoring_case, find_byte, first_index, le32, le32_bytes, push_le32,
    read_le32, same_ignoring_case, views,
};
use crate::text::{as_text, chars_of, lossy_text, parse_number, part_before, trim, utf8_text};
use crate::text::{before, parsed, trimmed};
use crate::types::{text_view, Track, TrackMeta};

verus! {

/// Why a comment block cannot be read.
#[derive(Debug, Clone, Copy, PartialEq, Eq, Structural)]
pub enum Fault {
    /// The block is too short for the length of the vendor string.
    NoVendorLength,
    /// The vendor string runs past the end of the block.
    VendorOverrun,
    /// The block ends before the number of comments.
    NoCount,
    /// The block ends before the length of a comment.
    EntryTruncated,
    /// A comment runs past the end of the block.
    ValueOverrun,
}

/// What a comment block holds.
pub struct Comments {
    pub vendor: Seq<u8>,
    pub entries: Seq<Seq<u8>>,
}

/// The `count` comments that stand in `d` from `pos` on.
pub open spec fn entries_at(d: Seq<u8>, pos: int, count: int) -> Result<Seq<Seq<u8>>, Fault>
    decreases count,
{
    if count <= 0 {
        Ok(seq![])
    } else if pos + 4 > d.len() {
        Err(Fault::EntryTruncated)
    } else if pos + 4 + le32(d, pos) > d.len() {
        Err(Fault::ValueOverrun)
    } else {
        let end = pos + 4 + le32(d, pos);
        match entries_at(d, end, count - 1) {
            Ok(rest) => Ok(seq![d.subrange(pos + 4, end)] + rest),
            Err(fault) => Err(fault),
        }
    }
}

/// The comment block that `d` writes down.
pub open spec fn comments_of(d: Seq<u8>) -> Result<Comments, Fault> {
    if d.len() < 4 {
        Err(Fault::NoVendorLength)
    } else if 4 + le32(d, 0) > d.len() {
        Err(Fault::VendorOverrun)
    } else {
        let at = 4 + le32(d, 0);
        if at + 4 > d.len() {
            Err(Fault::NoCount)
        } else {
            match entries_at(d, at + 4, le32(d, at)) {
                Ok(entries) => Ok(Comments { vendor: d.subrange(4, at), entries }),
                Err(fault) => Err(fault),
            }
        }
    }
}

/// Comments before those of `rest`.
pub open spec fn prefixed(first: Seq<Seq<u8>>, rest: Result<Seq<Seq<u8>>, Fault>) -> Result<
    Seq<Seq<u8>>,
    Fault,
> {
    match rest {
        Ok(entries) => Ok(first + entries),
        Err(fault) => Err(fault),
    }
}

/// Parse a Vorbis comment block into `(vendor, comments)`. Each comment is a
/// raw `KEY=VALUE` byte string.
pub fn parse_vorbis_comment(data: &[u8]) -> (r: Result<(String, Vec<Vec<u8>>), Fault>)
    ensures
        match (r, comments_of(data@)) {
            (Ok((vendor, comments)), Ok(c)) => vendor@ == as_text(c.vendor) && (valid_utf8(
                c.vendor,
            ) ==> vendor@ == decode_utf8(c.vendor)) && views(comments@) == c.entries,
            (Err(f), Err(g)) => f == g,
            _ => false,
        },
{
    if data.len() < 4 {
        return Err(Fault::NoVendorLength);
    }
    let vlen: usize = read_le32(data, 0) as usize;
    if vlen > data.len() - 4 {
        return Err(Fault::VendorOverrun);
    }
    let vendor = lossy_text(vstd::slice::slice_subrange(data, 4, 4 + vlen));
    let mut pos: usize = 4 + vlen;
    if data.len() - pos < 4 {
        return Err(Fault::NoCount);
    }
    let count: u32 = read_le32(data, pos);
    pos = pos + 4;
    let mut comments: Vec<Vec<u8>> = Vec::new();
    let mut i: u32 = 0;
    let ghost goal = entries_at(data@, pos as int, count as int);
    assert(prefixed(views(comments@), goal) == goal) by {
        assert(views(comments@) =~= seq![]);
        if let Ok(rest) = goal {
            assert(views(comments@) + rest =~= rest);
        }
    }
    while i < count
        invariant
            i <= count,
            pos <= data@.len(),
            goal == prefixed(views(comments@), entries_at(data@, pos as int, count - i)),
            comments_of(data@) is Err <==> goal is Err,
            comments_of(data@) is Err ==> comments_of(data@)->Err_0 == goal->Err_0,
        decreases count - i,
    {
        if data.len() - pos < 4 {
            return Err(Fault::EntryTruncated);
        }
        let clen: usize = read_le32(data, pos) as usize;
        if clen > data.len() - pos - 4 {
            return Err(Fault::ValueOverrun);
        }
        let ghost before = views(comments@);
        let ghost rest = entries_at(data@, pos + 4 + clen, count - i - 1);
        let comment = copy_range(data, pos + 4, pos + 4 + clen);
        comments.push(comment);
        assert(views(comments@) =~= before.push(comment@));
        assert(prefixed(before, prefixed(seq![comment@], rest)) == prefixed(views(comments@), rest))
            by {
            if let Ok(entries) = rest {
                assert(before + (seq![comment@] + entries) =~= views(comments@) + entries);
            }
        }
        pos = pos + 4 + clen;
        i = i + 1;
    }
    assert(views(comments@) + Seq::<Seq<u8>>::empty() =~= views(comments@));
    Ok((vendor, comments))
}

/// Comments, each behind its length.
pub open spec fn packed(entries: Seq<Seq<u8>>) -> Seq<u8>
    decreases entries.len(),
{
    if entries.len() == 0 {
        seq![]
    } else {
        le32_bytes(entries[0].len() as int) + entries[0] + packed(entries.drop_first())
    }
}

/// The bytes of a comment block.
pub open spec fn comment_bytes(c: Comments) -> Seq<u8> {
    le32_bytes(c.vendor.len() as int) + c.vendor + le32_bytes(c.entries.len() as int) + packed(
        c.entries,
    )
}

/// Serialise a vendor string and a comment list back into a Vorbis comment
/// block.
pub fn build_vorbis_comment(vendor: &str, comments: &Vec<Vec<u8>>) -> (r: Vec<u8>)
    ensures
        r@ == comment_bytes(
            Comments { vendor: encode_utf8(vendor@), entries: views(comments@) },
        ),
{
    let mut out: Vec<u8> = Vec::new();
    let name = vendor.as_bytes();
    push_le32(&mut out, name.len() as u64);
    append_bytes(&mut out, name);
    push_le32(&mut out, comments.len() as u64);
    let ghost all = views(comments@);
    let ghost goal = out@ + packed(all);
    let mut i: usize = 0;
    assert(all.skip(0) =~= all);
    while i < comments.len()
        invariant
            i <= comments@.len(),
            all == views(comments@),
            goal == out@ + packed(all.skip(i as int)),
        decreases comments@.len() - i,
    {
        let ghost before = out@;
        let comment = &comments[i];
        push_le32(&mut out, comment.len() as u64);
        append_bytes(&mut out, comment);
        proof {
            let rest = all.skip(i as int);
            assert(rest[0] == comment@);
            assert(rest.drop_first() =~= all.skip(i + 1));
            assert(before + packed(rest) =~= out@ + packed(all.skip(i + 1)));
        }
        i = i + 1;
    }
    assert(all.skip(i as int) =~= Seq::<Seq<u8>>::empty());
    assert(goal =~= out@);
    assert(goal =~= comment_bytes(Comments { vendor: encode_utf8(vendor@), entries: all }));
    out
}

/// Whether a comment has the key `key`, whatever the case of its letters.
pub open spec fn has_key(entry: Seq<u8>, key: Seq<u8>) -> bool {
    match first_index(entry, 0x3d) {
        Some(i) => same_ignoring_case(entry.subrange(0, i), key),
        None => false,
    }
}

/// What follows the first `=` of a comment.
pub open spec fn value_of(entry: Seq<u8>) -> Seq<u8> {
    entry.subrange(first_index(entry, 0x3d)->0 + 1, entry.len() as int)
}

/// The value of the first comment with the key `key`.
pub open spec fn find_value(entries: Seq<Seq<u8>>, key: Seq<u8>) -> Option<Seq<u8>>
    decreases entries.len(),
{
    if entries.len() == 0 {
        None
    } else if has_key(entries[0], key) {
        Some(value_of(entries[0]))
    } else {
        find_value(entries.drop_first(), key)
    }
}

/// Find the byte index of the first `=` in a comment, if any.
pub fn find_eq(c: &[u8]) -> (r: Option<usize>)
    ensures
        match r {
            Some(i) => first_index(c@, 0x3d) == Some(i as int) && i < c@.len(),
            None => first_index(c@, 0x3d) is None,
        },
{
    find_byte(c, 0x3d)
}

/// Tells whether a comment has the key `key`, whatever the case of its letters.
pub fn is_keyed(c: &[u8], key: &str) -> (r: bool)
    ensures
        r == has_key(c@, encode_utf8(key@)),
{
    match find_eq(c) {
        Some(i) => eq_ignoring_case(vstd::slice::slice_subrange(c, 0, i), key.as_bytes()),
        None => false,
    }
}

/// Case-insensitive lookup of `KEY=VALUE` in a comment list. Returns the
/// value part if found.
pub fn find_comment(comments: &Vec<Vec<u8>>, key: &str) -> (r: Option<Vec<u8>>)
    ensures
        match r {
            Some(v) => find_value(views(comments@), encode_utf8(key@)) == Some(v@),
            None => find_value(views(comments@), encode_utf8(key@)) is None,
        },
{
    let ghost all = views(comments@);
    let mut i: usize = 0;
    assert(all.skip(0) =~= all);
    while i < comments.len()
        invariant
            i <= comments@.len(),
            all == views(comments@),
            find_value(all, encode_utf8(key@)) == find_value(all.skip(i as int), encode_utf8(key@)),
        decreases comments@.len() - i,
    {
        let c = &comments[i];
        assert(all.skip(i as int)[0] == c@);
        if let Some(at) = find_eq(c) {
            let n: usize = c.len();
            if eq_ignoring_case(vstd::slice::slice_subrange(c, 0, at), key.as_bytes()) {
                return Some(copy_range(c, at + 1, n));
            }
        }
        assert(all.skip(i as int).drop_first() =~= all.skip(i + 1));
        i = i + 1;
    }
    assert(all.skip(i as int) =~= Seq::<Seq<u8>>::empty());
    None
}

/// The key under which lyrics stand.
pub open spec fn lyrics_key() -> Seq<u8> {
    encode_utf8("LYRICS"@)
}

/// The comment that holds `lyrics`.
pub open spec fn lyrics_entry(lyrics: Seq<char>) -> Seq<u8> {
    lyrics_key() + seq![0x3du8] + encode_utf8(lyrics)
}

/// The comments with `lyrics` in place of any lyrics they held.
pub open spec fn with_lyrics(entries: Seq<Seq<u8>>, lyrics: Seq<char>) -> Seq<Seq<u8>> {
    entries.filter(|e: Seq<u8>| !has_key(e, lyrics_key())).push(lyrics_entry(lyrics))
}

/// Puts `lyrics` in place of any lyrics that the comments hold.
pub fn replace_lyrics(comments: &Vec<Vec<u8>>, lyrics: &str) -> (r: Vec<Vec<u8>>)
    ensures
        views(r@) == with_lyrics(views(comments@), lyrics@),
{
    let mut kept: Vec<Vec<u8>> = Vec::new();
    let ghost all = views(comments@);
    let ghost stays = |e: Seq<u8>| !has_key(e, lyrics_key());
    let mut i: usize = 0;
    assert(all.take(0).filter(stays) =~= Seq::<Seq<u8>>::empty()) by {
        reveal(Seq::filter);
    }
    while i < comments.len()
        invariant
            i <= comments@.len(),
            all == views(comments@),
            stays == (|e: Seq<u8>| !has_key(e, lyrics_key())),
            views(kept@) =~= all.take(i as int).filter(stays),
        decreases comments@.len() - i,
    {
        let c = &comments[i];
        let ghost before = views(kept@);
        assert(all.take(i + 1) =~= all.take(i as int).push(c@));
        proof {
            all.take(i as int).lemma_filter_push(c@, stays);
        }
        if !is_keyed(c, "LYRICS") {
            let copy = copy_range(c, 0, c.len());
            assert(copy@ =~= c@);
            kept.push(copy);
            assert(views(kept@) =~= before.push(c@));
        }
        i = i + 1;
    }
    assert(all.take(i as int) =~= all);
    let ghost before = views(kept@);
    let mut entry: Vec<u8> = Vec::new();
    append_bytes(&mut entry, "LYRICS".as_bytes());
    entry.push(0x3d);
    append_bytes(&mut entry, lyrics.as_bytes());
    assert(entry@ =~= lyrics_entry(lyrics@));
    kept.push(entry);
    assert(views(kept@) =~= before.push(entry@));
    kept
}

/// The text of a tag value; an empty value, or one that is not UTF-8, counts as none.
pub open spec fn text_of(value: Option<Seq<u8>>) -> Option<Seq<char>> {
    match value {
        Some(v) => if v.len() > 0 && valid_utf8(v) {
            Some(decode_utf8(v))
        } else {
            None
        },
        None => None,
    }
}

/// The number before the first `/` of a track-number tag, 0 where there is none.
pub open spec fn track_number_of(text: Seq<char>) -> int {
    match parsed(trimmed(before(text, '/')), 10, u32::MAX as int) {
        Some(n) => n,
        None => 0,
    }
}

/// Reads the number before the first `/` of a track-number tag.
pub fn parse_track_number(text: &str) -> (n: u32)
    ensures
        n == track_number_of(text@),
{
    let chars = chars_of(text);
    match parse_number(trim(part_before(&chars, '/')), 10, u32::MAX as u64) {
        Some(n) => n as u32,
        None => 0,
    }
}

/// `track` with the tags that a comment list gives it.
pub open spec fn tagged(track: Track, entries: Seq<Seq<u8>>) -> Track {
    Track {
        title: text_of(find_value(entries, encode_utf8("TITLE"@))),
        artist: text_of(find_value(entries, encode_utf8("ARTIST"@))),
        album: text_of(find_value(entries, encode_utf8("ALBUM"@))),
        track_number: match find_value(entries, encode_utf8("TRACKNUMBER"@)) {
            Some(v) => if valid_utf8(v) {
                track_number_of(decode_utf8(v)) as u32
            } else {
                track.track_number
            },
            None => track.track_number,
        },
        ..track
    }
}

/// Looks up the text of a tag.
pub fn find_tag(comments: &Vec<Vec<u8>>, key: &str) -> (r: Option<String>)
    ensures
        text_view(r) == text_of(find_value(views(comments@), encode_utf8(key@))),
{
    match find_comment(comments, key) {
        Some(v) => if v.len() > 0 {
            utf8_text(&v)
        } else {
            None
        },
        None => None,
    }
}

/// Sets the tags of a track from a comment list.
pub fn apply_tags(track: &mut TrackMeta, comments: &Vec<Vec<u8>>)
    ensures
        final(track)@ == tagged(old(track)@, views(comments@)),
{
    track.title = find_tag(comments, "TITLE");
    track.artist = find_tag(comments, "ARTIST");
    track.album = find_tag(comments, "ALBUM");
    if let Some(v) = find_comment(comments, "TRACKNUMBER") {
        if let Some(text) = utf8_text(&v) {
            track.track_number = parse_track_number(&text);
        }
    }
}

/// Whether every length in a comment block can be written in 32 bits.
pub open spec fn fits(c: Comments) -> bool {
    &&& c.vendor.len() < 0x1_0000_0000
    &&& c.entries.len() < 0x1_0000_0000
    &&& forall|i: int| 0 <= i < c.entries.len() ==> (#[trigger] c.entries[i]).len() < 0x1_0000_0000
}

proof fn lemma_le32_in(before: Seq<u8>, n: int, after: Seq<u8>)
    requires
        0 <= n < 0x1_0000_0000,
    ensures
        le32(before + le32_bytes(n) + after, before.len() as int) == n,
{
    let all = before + le32_bytes(n) + after;
    let at = before.len() as int;
    assert(all[at] == le32_bytes(n)[0]);
    assert(all[at + 1] == le32_bytes(n)[1]);
    assert(all[at + 2] == le32_bytes(n)[2]);
    assert(all[at + 3] == le32_bytes(n)[3]);
    crate::bytes::lemma_le32_round_trip(n);
}

#[verifier::spinoff_prover]
#[verifier::rlimit(40)]
proof fn lemma_packed_entries(before: Seq<u8>, entries: Seq<Seq<u8>>, after: Seq<u8>)
    requires
        forall|i: int| 0 <= i < entries.len() ==> (#[trigger] entries[i]).len() < 0x1_0000_0000,
    ensures
        entries_at(
            before + packed(entries) + after,
            before.len() as int,
            entries.len() as int,
        ) == Ok::<Seq<Seq<u8>>, Fault>(entries),
    decreases entries.len(),
{
    let d = before + packed(entries) + after;
    if entries.len() > 0 {
        let n = entries[0].len() as int;
        let rest = entries.drop_first();
        let next = before + le32_bytes(n) + entries[0];
        assert(d =~= before + le32_bytes(n) + (entries[0] + packed(rest) + after));
        lemma_le32_in(before, n, entries[0] + packed(rest) + after);
        assert(d =~= next + packed(rest) + after);
        lemma_packed_entries(next, rest, after);
        let pos = before.len() as int;
        assert(d.subrange(pos + 4, pos + 4 + n) =~= entries[0]);
        assert(seq![entries[0]] + rest =~= entries);
    } else {
        assert(entries =~= seq![]);
    }
}

/// A comment block is read back from the bytes it was written as, whatever follows them.
pub proof fn law_comments_round_trip(c: Comments, after: Seq<u8>)
    requires
        fits(c),
    ensures
        comments_of(comment_bytes(c) + after) == Ok::<Comments, Fault>(c),
        comments_of(comment_bytes(c)) == Ok::<Comments, Fault>(c),
{
    lemma_comments_before(c, after);
    lemma_comments_before(c, Seq::empty());
    assert(comment_bytes(c) + Seq::<u8>::empty() =~= comment_bytes(c));
}

#[verifier::spinoff_prover]
#[verifier::rlimit(40)]
proof fn lemma_comments_before(c: Comments, after: Seq<u8>)
    requires
        fits(c),
    ensures
        comments_of(comment_bytes(c) + after) == Ok::<Comments, Fault>(c),
{
    let d = comment_bytes(c) + after;
    let n = c.vendor.len() as int;
    let count = c.entries.len() as int;
    let none = Seq::<u8>::empty();
    let head = le32_bytes(n) + c.vendor;
    let last = packed(c.entries) + after;
    assert(le32(d, 0) == n) by {
        assert(d =~= none + le32_bytes(n) + (c.vendor + le32_bytes(count) + last));
        lemma_le32_in(none, n, c.vendor + le32_bytes(count) + last);
    }
    assert(le32(d, 4 + n) == count) by {
        assert(head.len() == 4 + n);
        assert(d =~= head + le32_bytes(count) + last);
        lemma_le32_in(head, count, last);
    }
    assert(entries_at(d, 8 + n, count) == Ok::<Seq<Seq<u8>>, Fault>(c.entries)) by {
        let before = head + le32_bytes(count);
        assert(before.len() == 8 + n);
        lemma_packed_entries(before, c.entries, after);
        assert(d =~= before + packed(c.entries) + after);
    }
    assert(d.subrange(4, 4 + n) =~= c.vendor);
    assert(d.len() >= 8 + n);
}

proof fn lemma_find_push(entries: Seq<Seq<u8>>, entry: Seq<u8>, key: Seq<u8>)
    ensures
        find_value(entries.push(entry), key) == (match find_value(entries, key) {
            Some(v) => Some(v),
            None => if has_key(entry, key) {
                Some(value_of(entry))
            } else {
                None
            },
        }),
    decreases entries.len(),
{
    let all = entries.push(entry);
    if entries.len() == 0 {
        assert(all.drop_first() =~= Seq::<Seq<u8>>::empty());
        assert(find_value(all.drop_first(), key) is None);
    } else {
        assert(all[0] == entries[0]);
        assert(all.drop_first() =~= entries.drop_first().push(entry));
        lemma_find_push(entries.drop_first(), entry, key);
    }
}

proof fn lemma_same_key(entry: Seq<u8>, a: Seq<u8>, b: Seq<u8>)
    ensures
        same_ignoring_case(a, b) ==> has_key(entry, a) == has_key(entry, b),
        has_key(entry, a) && has_key(entry, b) ==> same_ignoring_case(a, b),
{
    if let Some(i) = first_index(entry, 0x3d) {
        let k = entry.subrange(0, i);
        if same_ignoring_case(k, a) && same_ignoring_case(k, b) {
            assert forall|j: int| 0 <= j < a.len() implies crate::bytes::lower(#[trigger] a[j])
                == crate::bytes::lower(b[j]) by {
                assert(crate::bytes::lower(k[j]) == crate::bytes::lower(a[j]));
            }
        }
    }
}

proof fn lemma_find_filtered(entries: Seq<Seq<u8>>, key: Seq<u8>)
    ensures
        find_value(entries.filter(|e: Seq<u8>| !has_key(e, lyrics_key())), key) == if same_ignoring_case(
            key,
            lyrics_key(),
        ) {
            None
        } else {
            find_value(entries, key)
        },
    decreases entries.len(),
{
    let stays = |e: Seq<u8>| !has_key(e, lyrics_key());
    if entries.len() == 0 {
        assert(entries.filter(stays) =~= entries) by {
            reveal(Seq::filter);
        }
    } else {
        let init = entries.drop_last();
        let last = entries.last();
        assert(entries =~= init.push(last));
        lemma_find_filtered(init, key);
        lemma_same_key(last, key, lyrics_key());
        init.lemma_filter_push(last, stays);
        lemma_find_push(init, last, key);
        lemma_find_push(init.filter(stays), last, key);
    }
}

proof fn lemma_lyrics_entry(lyrics: Seq<char>)
    ensures
        has_key(lyrics_entry(lyrics), lyrics_key()),
        value_of(lyrics_entry(lyrics)) == encode_utf8(lyrics),
        first_index(lyrics_entry(lyrics), 0x3d) == Some(6int),
        lyrics_entry(lyrics).subrange(0, 6) == lyrics_key(),
{
    reveal_strlit("LYRICS");
    vstd::utf8::is_ascii_chars_encode_utf8("LYRICS"@);
    let e = lyrics_entry(lyrics);
    let k = lyrics_key();
    assert(k.len() == 6);
    assert forall|j: int| 0 <= j < 6 implies e[j] != 0x3d by {
        assert(e[j] == k[j]);
        assert("LYRICS"@[j] as u8 == k[j]);
    }
    assert(e[6] == 0x3d);
    crate::bytes::lemma_first_index_is(e, 0x3d, 6);
    assert(e.subrange(0, 6) =~= k);
    assert(e.subrange(7, e.len() as int) =~= encode_utf8(lyrics));
}

/// After lyrics are put into a comment list, the lyrics found there are the new ones, and what is
/// found under any other key is what was found before.
pub proof fn law_lyrics_replaced(entries: Seq<Seq<u8>>, lyrics: Seq<char>, key: Seq<u8>)
    ensures
        find_value(with_lyrics(entries, lyrics), lyrics_key()) == Some(encode_utf8(lyrics)),
        !same_ignoring_case(key, lyrics_key()) ==> find_value(with_lyrics(entries, lyrics), key)
            == find_value(entries, key),
{
    let kept = entries.filter(|e: Seq<u8>| !has_key(e, lyrics_key()));
    lemma_lyrics_entry(lyrics);
    lemma_find_filtered(entries, lyrics_key());
    lemma_find_filtered(entries, key);
    lemma_find_push(kept, lyrics_entry(lyrics), lyrics_key());
    lemma_find_push(kept, lyrics_entry(lyrics), key);
    lemma_same_key(lyrics_entry(lyrics), key, lyrics_key());
}

/// Putting lyrics in twice leaves the second ones only, as if the first had never been there.
pub proof fn law_last_lyrics_stay(entries: Seq<Seq<u8>>, first: Seq<char>, second: Seq<char>)
    ensures
        with_lyrics(with_lyrics(entries, first), second) == with_lyrics(entries, second),
{
    let stays = |e: Seq<u8>| !has_key(e, lyrics_key());
    let kept = entries.filter(stays);
    lemma_lyrics_entry(first);
    kept.lemma_filter_push(lyrics_entry(first), stays);
    assert(kept.filter(stays) == kept) by {
        broadcast use vstd::seq_lib::group_filter_ensures;

        lemma_filter_all(kept);
    }
}

proof fn lemma_filter_all(entries: Seq<Seq<u8>>)
    requires
        forall|i: int| 0 <= i < entries.len() ==> !has_key(#[trigger] entries[i], lyrics_key()),
    ensures
        entries.filter(|e: Seq<u8>| !has_key(e, lyrics_key())) == entries,
    decreases entries.len(),
{
    let stays = |e: Seq<u8>| !has_key(e, lyrics_key());
    if entries.len() == 0 {
        assert(entries.filter(stays) =~= entries) by {
            reveal(Seq::filter);
        }
    } else {
        let init = entries.drop_last();
        assert(entries =~= init.push(entries.last()));
        lemma_filter_all(init);
        init.lemma_filter_push(entries.last(), stays);
    }
}

/// What was packed is at least as long as any of its parts.
pub proof fn lemma_fits(c: Comments)
    requires
        comment_bytes(c).len() < 0x1_0000_0000,
    ensures
        fits(c),
{
    lemma_packed_len(c.entries);
}

proof fn lemma_packed_len(entries: Seq<Seq<u8>>)
    ensures
        entries.len() <= packed(entries).len(),
        forall|i: int| 0 <= i < entries.len() ==> (#[trigger] entries[i]).len() <= packed(entries).len(),
    decreases entries.len(),
{
    if entries.len() > 0 {
        let rest = entries.drop_first();
        lemma_packed_len(rest);
        assert forall|i: int| 0 <= i < entries.len() implies (#[trigger] entries[i]).len() <= packed(
            entries,
        ).len() by {
            if i > 0 {
                assert(rest[i - 1] == entries[i]);
            }
        }
    }
}

proof fn lemma_other_key(key: &str)
    requires
        key@ == "TITLE"@ || key@ == "ARTIST"@ || key@ == "ALBUM"@ || key@ == "TRACKNUMBER"@,
    ensures
        !same_ignoring_case(encode_utf8(key@), lyrics_key()),
{
    reveal_strlit("TITLE");
    reveal_strlit("ARTIST");
    reveal_strlit("ALBUM");
    reveal_strlit("TRACKNUMBER");
    reveal_strlit("LYRICS");
    vstd::utf8::is_ascii_chars_encode_utf8(key@);
    vstd::utf8::is_ascii_chars_encode_utf8("LYRICS"@);
    let k = encode_utf8(key@);
    if key@ == "ARTIST"@ {
        assert(k[0] == 'A' as u8);
        assert(lyrics_key()[0] == 'L' as u8);
        assert(crate::bytes::lower(k[0]) != crate::bytes::lower(lyrics_key()[0]));
    }
}

/// Lyrics in a comment list do not change the other tags.
pub proof fn lemma_tagged_with_lyrics(track: Track, entries: Seq<Seq<u8>>, lyrics: Seq<char>)
    ensures
        tagged(track, with_lyrics(entries, lyrics)) == tagged(track, entries),
{
    lemma_other_key("TITLE");
    lemma_other_key("ARTIST");
    lemma_other_key("ALBUM");
    lemma_other_key("TRACKNUMBER");
    law_lyrics_replaced(entries, lyrics, encode_utf8("TITLE"@));
    law_lyrics_replaced(entries, lyrics, encode_utf8("ARTIST"@));
    law_lyrics_replaced(entries, lyrics, encode_utf8("ALBUM"@));
    law_lyrics_replaced(entries, lyrics, encode_utf8("TRACKNUMBER"@));
}

} // verus!
