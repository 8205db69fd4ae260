//! FLAC metadata reader/writer.
//!
//! FLAC files start with the `fLaC` marker followed by a chain of metadata
//! blocks, each prefixed by a 4-byte header:
//!
//! ```text
//!  bit 0       : last-metadata-block flag
//!  bits 1-7    : block type (0=STREAMINFO, 4=VORBIS_COMMENT, ...)
//!  bits 8-31   : 24-bit big-endian payload length
//! ```
//!
//! Two block types matter:
//!
//! * `STREAMINFO` carries `sample_rate` and `total_samples`, from which
//!   playback duration is derived.
//! * `VORBIS_COMMENT` is the standard tag container for FLAC. Lyrics live in
//!   a `LYRICS` field.
//!
//! Rewriting puts a new `VORBIS_COMMENT` block in place of the old one (or
//! inserts one after `STREAMINFO` if none existed) and copies the audio
//! frames verbatim.

use vstd::prelude::*;
use vstd::utf8::encode_utf8;

use crate::bytes::{
    append_bytes, be24, be24_bytes, be32, copy_range, is_at, push_be24, read_be24, read_be32,
    stands_at, views,
};
use crate::metadata::vorbis::{
    apply_tags, build_vorbis_comment, comment_bytes, comments_of, find_comment, find_value,
    lyrics_key, parse_vorbis_comment, replace_lyrics, tagged, with_lyrics, Comments,
};
use crate::metadata::{blank, blank_track, AudioFormat, Edit, MetaError};
use crate::text::as_text;
use crate::types::{Track, TrackMeta};

verus! {

/// The FLAC format.
pub struct Flac;

/// Type of the block that carries the stream's sample rate and length.
pub const BLOCK_STREAMINFO: u8 = 0;

/// Type of the block that carries the tags.
pub const BLOCK_VORBIS_COMMENT: u8 = 4;

/// The four bytes at the start of a FLAC file: `fLaC`.
pub open spec fn marker() -> Seq<u8> {
    seq![0x66u8, 0x4c, 0x61, 0x43]
}

fn marker_bytes() -> (r: Vec<u8>)
    ensures
        r@ == marker(),
{
    let r: Vec<u8> = vec![0x66, 0x4c, 0x61, 0x43];
    assert(r@ =~= marker());
    r
}

/// A metadata block: its type and its payload.
pub struct Block {
    pub kind: u8,
    pub data: Seq<u8>,
}

/// A FLAC file taken apart: its metadata blocks, and the place where the audio frames begin.
pub struct Split {
    pub blocks: Seq<Block>,
    pub audio: int,
}

/// One parsed metadata block: its type and the raw payload bytes (without
/// the 4-byte header).
pub struct MetaBlock {
    pub block_type: u8,
    pub data: Vec<u8>,
}

impl View for MetaBlock {
    type V = Block;

    open spec fn view(&self) -> Block {
        Block { kind: self.block_type, data: self.data@ }
    }
}

/// The views of a list of blocks.
pub open spec fn block_views(blocks: Seq<MetaBlock>) -> Seq<Block> {
    blocks.map_values(|b: MetaBlock| b@)
}

/// The chain of blocks that starts at `pos`.
pub open spec fn blocks_at(b: Seq<u8>, pos: int) -> Result<Split, Seq<char>>
    decreases b.len() - pos,
{
    if pos + 4 > b.len() {
        Err("truncated FLAC metadata block header"@)
    } else if pos + 4 + be24(b, pos + 1) > b.len() {
        Err("FLAC block payload exceeds file size"@)
    } else {
        let end = pos + 4 + be24(b, pos + 1);
        let block = Block { kind: (b[pos] % 0x80) as u8, data: b.subrange(pos + 4, end) };
        if b[pos] >= 0x80 {
            Ok(Split { blocks: seq![block], audio: end })
        } else {
            prefixed(seq![block], blocks_at(b, end))
        }
    }
}

/// Blocks before those of `rest`.
pub open spec fn prefixed(first: Seq<Block>, rest: Result<Split, Seq<char>>) -> Result<
    Split,
    Seq<char>,
> {
    match rest {
        Ok(split) => Ok(Split { blocks: first + split.blocks, audio: split.audio }),
        Err(message) => Err(message),
    }
}

/// A FLAC file taken apart, or the message of the error.
pub open spec fn split_of(b: Seq<u8>) -> Result<Split, Seq<char>> {
    if !stands_at(b, 0, marker()) {
        Err("not a FLAC file (missing 'fLaC' marker)"@)
    } else {
        blocks_at(b, 4)
    }
}

/// Split a file into its metadata blocks and the place where its audio frames
/// begin.
pub fn split_file(bytes: &[u8]) -> (r: Result<(Vec<MetaBlock>, usize), MetaError>)
    ensures
        match (r, split_of(bytes@)) {
            (Ok((blocks, audio)), Ok(s)) => block_views(blocks@) == s.blocks && audio == s.audio
                && audio <= bytes@.len() && blocks@.len() > 0,
            (Err(e), Err(message)) => e.0@ == message,
            _ => false,
        },
{
    if !is_at(bytes, 0, &marker_bytes()) {
        return Err(MetaError::new("not a FLAC file (missing 'fLaC' marker)"));
    }
    let mut pos: usize = 4;
    let mut blocks: Vec<MetaBlock> = Vec::new();
    let ghost goal = blocks_at(bytes@, 4);
    assert(prefixed(block_views(blocks@), goal) == goal) by {
        if let Ok(split) = goal {
            assert(block_views(blocks@) + split.blocks =~= split.blocks);
        }
    }
    loop
        invariant
            pos <= bytes@.len(),
            goal == split_of(bytes@),
            goal == prefixed(block_views(blocks@), blocks_at(bytes@, pos as int)),
        decreases bytes@.len() - pos,
    {
        if bytes.len() - pos < 4 {
            return Err(MetaError::new("truncated FLAC metadata block header"));
        }
        let header: u8 = bytes[pos];
        let len: usize = read_be24(bytes, pos + 1) as usize;
        if len > bytes.len() - pos - 4 {
            return Err(MetaError::new("FLAC block payload exceeds file size"));
        }
        let ghost before = block_views(blocks@);
        let ghost rest = blocks_at(bytes@, pos + 4 + len);
        let block = MetaBlock {
            block_type: header % 0x80,
            data: copy_range(bytes, pos + 4, pos + 4 + len),
        };
        let ghost view = block@;
        blocks.push(block);
        assert(block_views(blocks@) =~= before.push(view));
        assert(before + seq![view] =~= block_views(blocks@));
        assert(prefixed(before, prefixed(seq![view], rest)) == prefixed(block_views(blocks@), rest))
            by {
            if let Ok(split) = rest {
                assert(before + (seq![view] + split.blocks) =~= block_views(blocks@)
                    + split.blocks);
            }
        }
        pos = pos + 4 + len;
        if header >= 0x80 {
            return Ok((blocks, pos));
        }
    }
}

/// Blocks written down, with the flag for the last one set on the last one only.
pub open spec fn block_bytes(blocks: Seq<Block>) -> Seq<u8>
    decreases blocks.len(),
{
    if blocks.len() == 0 {
        seq![]
    } else {
        let flag: int = if blocks.len() == 1 {
            0x80
        } else {
            0
        };
        seq![(flag + blocks[0].kind % 0x80) as u8] + be24_bytes(blocks[0].data.len() as int)
            + blocks[0].data + block_bytes(blocks.drop_first())
    }
}

/// Re-emit a list of metadata blocks as bytes, setting the last-block flag
/// on the final block (and clearing it on all others).
pub fn serialize_blocks(blocks: &Vec<MetaBlock>) -> (r: Vec<u8>)
    ensures
        r@ == block_bytes(block_views(blocks@)),
{
    let mut out: Vec<u8> = Vec::new();
    let ghost all = block_views(blocks@);
    let mut i: usize = 0;
    assert(all.skip(0) =~= all);
    assert(out@ + block_bytes(all) =~= block_bytes(all));
    while i < blocks.len()
        invariant
            i <= blocks@.len(),
            all == block_views(blocks@),
            out@ + block_bytes(all.skip(i as int)) == block_bytes(all),
        decreases blocks@.len() - i,
    {
        let ghost before = out@;
        let b = &blocks[i];
        let flag: u8 = if i == blocks.len() - 1 {
            0x80
        } else {
            0
        };
        out.push(flag + b.block_type % 0x80);
        push_be24(&mut out, b.data.len() as u64);
        append_bytes(&mut out, &b.data);
        proof {
            let rest = all.skip(i as int);
            assert(rest[0] == b@);
            assert(rest.drop_first() =~= all.skip(i + 1));
            assert(before + block_bytes(rest) =~= out@ + block_bytes(all.skip(i + 1)));
        }
        i = i + 1;
    }
    assert(all.skip(i as int) =~= Seq::<Block>::empty());
    assert(out@ + Seq::<u8>::empty() =~= out@);
    out
}

/// The sample rate and the number of samples in a STREAMINFO payload: 20 bits from byte 10 on,
/// and 36 bits up to byte 17.
pub open spec fn stream_info(d: Seq<u8>) -> Option<(int, int)> {
    if d.len() < 18 {
        None
    } else {
        Some(
            (
                d[10] * 0x1000 + d[11] * 0x10 + d[12] / 0x10,
                (d[13] % 0x10) * 0x1_0000_0000 + be32(d, 14),
            ),
        )
    }
}

/// Extract `sample_rate` and `total_samples` from a STREAMINFO payload.
pub fn parse_streaminfo(data: &[u8]) -> (r: Result<(u32, u64), MetaError>)
    ensures
        match (r, stream_info(data@)) {
            (Ok((rate, total)), Some((a, b))) => rate == a && total == b,
            (Err(e), None) => e.0@ == "STREAMINFO payload too short"@,
            _ => false,
        },
{
    if data.len() < 18 {
        return Err(MetaError::new("STREAMINFO payload too short"));
    }
    let sample_rate: u32 = (data[10] as u32) * 0x1000 + (data[11] as u32) * 0x10 + (data[12] as u32)
        / 0x10;
    let hi: u64 = (data[13] % 0x10) as u64;
    let lo: u64 = read_be32(data, 14) as u64;
    Ok((sample_rate, hi * 0x1_0000_0000 + lo))
}

/// `track` with what one block says of it.
pub open spec fn informed(track: Track, block: Block) -> Track {
    if block.kind == BLOCK_STREAMINFO {
        match stream_info(block.data) {
            Some((rate, total)) => if rate > 0 {
                Track { duration: (total / rate % 0x1_0000_0000) as u32, ..track }
            } else {
                track
            },
            None => track,
        }
    } else if block.kind == BLOCK_VORBIS_COMMENT {
        match comments_of(block.data) {
            Ok(c) => tagged(track, c.entries),
            Err(_) => track,
        }
    } else {
        track
    }
}

/// `track` with what the blocks, one after the other, say of it.
pub open spec fn all_informed(track: Track, blocks: Seq<Block>) -> Track
    decreases blocks.len(),
{
    if blocks.len() == 0 {
        track
    } else {
        all_informed(informed(track, blocks[0]), blocks.drop_first())
    }
}

/// Takes over what one block says of a track.
pub fn inform(track: &mut TrackMeta, block: &MetaBlock)
    ensures
        final(track)@ == informed(old(track)@, block@),
{
    if block.block_type == BLOCK_STREAMINFO {
        if let Ok((rate, total)) = parse_streaminfo(&block.data) {
            if rate > 0 {
                track.duration = (total / (rate as u64) % 0x1_0000_0000) as u32;
            }
        }
    } else if block.block_type == BLOCK_VORBIS_COMMENT {
        if let Ok((_, comments)) = parse_vorbis_comment(&block.data) {
            apply_tags(track, &comments);
        }
    }
}

/// The place of the first block of a type.
pub open spec fn first_of(blocks: Seq<Block>, kind: u8) -> Option<int>
    decreases blocks.len(),
{
    if blocks.len() == 0 {
        None
    } else if blocks[0].kind == kind {
        Some(0)
    } else {
        match first_of(blocks.drop_first(), kind) {
            Some(i) => Some(i + 1),
            None => None,
        }
    }
}

/// Finds the first block of a type.
pub fn position(blocks: &Vec<MetaBlock>, kind: u8) -> (r: Option<usize>)
    ensures
        match r {
            Some(i) => first_of(block_views(blocks@), kind) == Some(i as int) && i < blocks.len(),
            None => first_of(block_views(blocks@), kind) is None,
        },
{
    let ghost all = block_views(blocks@);
    let mut i: usize = 0;
    assert(all.skip(0) =~= all);
    while i < blocks.len()
        invariant
            i <= blocks@.len(),
            all == block_views(blocks@),
            first_of(all, kind) == (match first_of(all.skip(i as int), kind) {
                Some(k) => Some(k + i),
                None => None,
            }),
        decreases blocks@.len() - i,
    {
        assert(all.skip(i as int)[0] == blocks@[i as int]@);
        if blocks[i].block_type == kind {
            return Some(i);
        }
        assert(all.skip(i as int).drop_first() =~= all.skip(i + 1));
        i = i + 1;
    }
    assert(all.skip(i as int) =~= Seq::<Block>::empty());
    None
}

/// The comments that stay when lyrics are put into a file: those of its first comment block, with
/// the vendor string made valid UTF-8, or none where it has no readable one.
pub open spec fn old_comments(blocks: Seq<Block>) -> Comments {
    match first_of(blocks, BLOCK_VORBIS_COMMENT) {
        Some(i) => match comments_of(blocks[i].data) {
            Ok(c) => Comments { vendor: encode_utf8(as_text(c.vendor)), entries: c.entries },
            Err(_) => Comments { vendor: seq![], entries: seq![] },
        },
        None => Comments { vendor: seq![], entries: seq![] },
    }
}

/// Whether the first comment block of a file holds lyrics.
pub open spec fn holds_lyrics(blocks: Seq<Block>) -> bool {
    match first_of(blocks, BLOCK_VORBIS_COMMENT) {
        Some(i) => match comments_of(blocks[i].data) {
            Ok(c) => find_value(c.entries, lyrics_key()) is Some,
            Err(_) => false,
        },
        None => false,
    }
}

/// The comment block with `lyrics` in it.
pub open spec fn new_block(blocks: Seq<Block>, lyrics: Seq<char>) -> Block {
    let c = old_comments(blocks);
    Block {
        kind: BLOCK_VORBIS_COMMENT,
        data: comment_bytes(
            Comments { vendor: c.vendor, entries: with_lyrics(c.entries, lyrics) },
        ),
    }
}

/// The blocks with `lyrics` in them: in the first comment block, or in a new one after STREAMINFO.
pub open spec fn new_blocks(blocks: Seq<Block>, lyrics: Seq<char>) -> Seq<Block> {
    match first_of(blocks, BLOCK_VORBIS_COMMENT) {
        Some(i) => blocks.update(i, new_block(blocks, lyrics)),
        None => match first_of(blocks, BLOCK_STREAMINFO) {
            Some(i) => blocks.insert(i + 1, new_block(blocks, lyrics)),
            None => blocks.insert(0, new_block(blocks, lyrics)),
        },
    }
}

/// The audio frames of a file.
pub open spec fn audio_of(b: Seq<u8>) -> Seq<u8> {
    b.subrange(split_of(b)->Ok_0.audio, b.len() as int)
}

impl AudioFormat for Flac {
    open spec fn readable(b: Seq<u8>) -> bool {
        true
    }

    open spec fn metadata(b: Seq<u8>, filepath: Seq<char>) -> Result<Track, Seq<char>> {
        match split_of(b) {
            Ok(s) => Ok(all_informed(blank(filepath), s.blocks)),
            Err(message) => Err(message),
        }
    }

    open spec fn editable(b: Seq<u8>, lyrics: Seq<char>, force: bool) -> bool {
        true
    }

    open spec fn edited(b: Seq<u8>, lyrics: Seq<char>, force: bool) -> Result<
        Option<Seq<u8>>,
        Seq<char>,
    > {
        match split_of(b) {
            Ok(s) => if !force && holds_lyrics(s.blocks) {
                Ok(None)
            } else {
                Ok(Some(marker() + block_bytes(new_blocks(s.blocks, lyrics)) + audio_of(b)))
            },
            Err(message) => Err(message),
        }
    }

    fn can_read(bytes: &[u8]) -> (r: bool) {
        true
    }

    fn can_sync(bytes: &[u8], lyrics: &str, force: bool) -> (r: bool) {
        true
    }

    fn read_metadata(bytes: &[u8], filepath: &str) -> (r: Result<TrackMeta, MetaError>) {
        let blocks = match split_file(bytes) {
            Ok((blocks, _)) => blocks,
            Err(e) => return Err(e),
        };
        let mut track = blank_track(filepath);
        let ghost all = block_views(blocks@);
        let mut i: usize = 0;
        assert(all.skip(0) =~= all);
        while i < blocks.len()
            invariant
                i <= blocks@.len(),
                all == block_views(blocks@),
                all_informed(track@, all.skip(i as int)) == all_informed(blank(filepath@), all),
            decreases blocks@.len() - i,
        {
            assert(all.skip(i as int)[0] == blocks@[i as int]@);
            assert(all.skip(i as int).drop_first() =~= all.skip(i + 1));
            inform(&mut track, &blocks[i]);
            i = i + 1;
        }
        assert(all.skip(i as int) =~= Seq::<Block>::empty());
        Ok(track)
    }

    fn sync_lyrics(bytes: &[u8], lyrics: &str, force: bool) -> (r: Result<Edit, MetaError>) {
        let (mut blocks, audio) = match split_file(bytes) {
            Ok(pair) => pair,
            Err(e) => return Err(e),
        };
        let ghost all = block_views(blocks@);
        let vc_index = position(&blocks, BLOCK_VORBIS_COMMENT);
        let mut vendor = String::new();
        let mut comments: Vec<Vec<u8>> = Vec::new();
        proof {
            lemma_encode_empty();
            assert(views(comments@) =~= seq![]);
        }
        if let Some(idx) = vc_index {
            assert(all[idx as int] == blocks@[idx as int]@);
            if let Ok((v, c)) = parse_vorbis_comment(&blocks[idx].data) {
                if !force && find_comment(&c, "LYRICS").is_some() {
                    return Ok(Edit::Unchanged);
                }
                vendor = v;
                comments = c;
            }
        }
        assert(old_comments(all).vendor =~= encode_utf8(vendor@));
        assert(old_comments(all).entries =~= views(comments@));
        let comments = replace_lyrics(&comments, lyrics);
        let block = MetaBlock {
            block_type: BLOCK_VORBIS_COMMENT,
            data: build_vorbis_comment(&vendor, &comments),
        };
        let ghost view = block@;
        assert(view == new_block(all, lyrics@));
        match vc_index {
            Some(idx) => {
                blocks[idx] = block;
                assert(block_views(blocks@) =~= all.update(idx as int, view));
            },
            None => {
                let at: usize = match position(&blocks, BLOCK_STREAMINFO) {
                    Some(i) => i + 1,
                    None => 0,
                };
                blocks.insert(at, block);
                assert(block_views(blocks@) =~= all.insert(at as int, view));
            },
        }
        assert(block_views(blocks@) == new_blocks(all, lyrics@));
        let mut out = marker_bytes();
        let chain = serialize_blocks(&blocks);
        append_bytes(&mut out, &chain);
        append_bytes(&mut out, vstd::slice::slice_subrange(bytes, audio, bytes.len()));
        Ok(Edit::Rewritten(out))
    }
}

proof fn lemma_encode_empty()
    ensures
        encode_utf8(Seq::<char>::empty()) == Seq::<u8>::empty(),
{
    assert(encode_utf8(Seq::<char>::empty()) =~= Seq::<u8>::empty());
}

proof fn lemma_be24_in(before: Seq<u8>, n: int, after: Seq<u8>)
    requires
        0 <= n < 0x100_0000,
    ensures
        be24(before + be24_bytes(n) + after, before.len() as int) == n,
{
    let all = before + be24_bytes(n) + after;
    let at = before.len() as int;
    assert(all[at] == be24_bytes(n)[0]);
    assert(all[at + 1] == be24_bytes(n)[1]);
    assert(all[at + 2] == be24_bytes(n)[2]);
    crate::bytes::lemma_be24_round_trip(n);
}

/// Whether a block can be written down: its type in 7 bits, its length in 24.
pub open spec fn fits(block: Block) -> bool {
    block.kind < 0x80 && block.data.len() < 0x100_0000
}

/// Blocks are read back from the bytes they were written as, whatever stands before and after.
#[verifier::spinoff_prover]
#[verifier::rlimit(40)]
pub proof fn law_blocks_round_trip(before: Seq<u8>, blocks: Seq<Block>, after: Seq<u8>)
    requires
        blocks.len() > 0,
        forall|i: int| 0 <= i < blocks.len() ==> fits(#[trigger] blocks[i]),
    ensures
        blocks_at(before + block_bytes(blocks) + after, before.len() as int) == Ok::<
            Split,
            Seq<char>,
        >(Split { blocks, audio: (before.len() + block_bytes(blocks).len()) as int }),
    decreases blocks.len(),
{
    let block = blocks[0];
    let rest = blocks.drop_first();
    let n = block.data.len() as int;
    let pos = before.len() as int;
    let b = before + block_bytes(blocks) + after;
    let flag: int = if blocks.len() == 1 {
        0x80
    } else {
        0
    };
    let head = seq![(flag + block.kind % 0x80) as u8];
    assert(b =~= (before + head) + be24_bytes(n) + (block.data + block_bytes(rest) + after));
    lemma_be24_in(before + head, n, block.data + block_bytes(rest) + after);
    assert((before + head).len() == pos + 1);
    assert(be24(b, pos + 1) == n);
    assert(b[pos] == (flag + block.kind % 0x80) as u8);
    assert(b.subrange(pos + 4, pos + 4 + n) =~= block.data);
    assert(Block { kind: (b[pos] % 0x80) as u8, data: b.subrange(pos + 4, pos + 4 + n) } == block);
    let next = before + head + be24_bytes(n) + block.data;
    assert(next.len() == pos + 4 + n);
    if blocks.len() == 1 {
        assert(rest =~= Seq::<Block>::empty());
        assert(seq![block] =~= blocks);
    } else {
        assert(fits(rest[0]));
        assert forall|i: int| 0 <= i < rest.len() implies fits(#[trigger] rest[i]) by {
            assert(rest[i] == blocks[i + 1]);
        }
        law_blocks_round_trip(next, rest, after);
        assert(b =~= next + block_bytes(rest) + after);
        assert(seq![block] + rest =~= blocks);
    }
}

proof fn lemma_split_fits(b: Seq<u8>, pos: int)
    requires
        0 <= pos,
        blocks_at(b, pos) is Ok,
    ensures
        blocks_at(b, pos)->Ok_0.blocks.len() > 0,
        pos <= blocks_at(b, pos)->Ok_0.audio <= b.len(),
        forall|i: int|
            0 <= i < blocks_at(b, pos)->Ok_0.blocks.len() ==> fits(
                #[trigger] blocks_at(b, pos)->Ok_0.blocks[i],
            ),
    decreases b.len() - pos,
{
    let end = pos + 4 + be24(b, pos + 1);
    let block = Block { kind: (b[pos] % 0x80) as u8, data: b.subrange(pos + 4, end) };
    assert(fits(block));
    if b[pos] < 0x80 {
        lemma_split_fits(b, end);
        let rest = blocks_at(b, end)->Ok_0.blocks;
        let all = blocks_at(b, pos)->Ok_0.blocks;
        assert(all == seq![block] + rest);
        assert forall|i: int| 0 <= i < all.len() implies fits(#[trigger] all[i]) by {
            if i > 0 {
                assert(all[i] == rest[i - 1]);
            }
        }
    }
}

pub proof fn lemma_first_of(blocks: Seq<Block>, kind: u8)
    ensures
        match first_of(blocks, kind) {
            Some(i) => 0 <= i < blocks.len() && blocks[i].kind == kind && forall|j: int|
                0 <= j < i ==> (#[trigger] blocks[j]).kind != kind,
            None => forall|j: int| 0 <= j < blocks.len() ==> (#[trigger] blocks[j]).kind != kind,
        },
    decreases blocks.len(),
{
    if blocks.len() > 0 && blocks[0].kind != kind {
        let rest = blocks.drop_first();
        lemma_first_of(rest, kind);
        assert forall|j: int|
            0 <= j < (match first_of(rest, kind) {
                Some(i) => i + 1,
                None => blocks.len() as int,
            }) implies (#[trigger] blocks[j]).kind != kind by {
            if j > 0 {
                assert(rest[j - 1] == blocks[j]);
            }
        }
    }
}

proof fn lemma_first_of_is(blocks: Seq<Block>, kind: u8, i: int)
    requires
        0 <= i < blocks.len(),
        blocks[i].kind == kind,
        forall|j: int| 0 <= j < i ==> (#[trigger] blocks[j]).kind != kind,
    ensures
        first_of(blocks, kind) == Some(i),
{
    lemma_first_of(blocks, kind);
}

proof fn lemma_informed_split(track: Track, a: Seq<Block>, b: Seq<Block>)
    ensures
        all_informed(track, a + b) == all_informed(all_informed(track, a), b),
    decreases a.len(),
{
    if a.len() == 0 {
        assert(a + b =~= b);
    } else {
        assert((a + b)[0] == a[0]);
        assert((a + b).drop_first() =~= a.drop_first() + b);
        lemma_informed_split(informed(track, a[0]), a.drop_first(), b);
    }
}

proof fn lemma_untagged(track: Track, blocks: Seq<Block>)
    requires
        track.title is None,
        track.artist is None,
        track.album is None,
        forall|i: int|
            0 <= i < blocks.len() ==> (#[trigger] blocks[i]).kind != BLOCK_VORBIS_COMMENT,
    ensures
        all_informed(track, blocks).title is None,
        all_informed(track, blocks).artist is None,
        all_informed(track, blocks).album is None,
    decreases blocks.len(),
{
    if blocks.len() > 0 {
        let rest = blocks.drop_first();
        assert forall|i: int| 0 <= i < rest.len() implies (#[trigger] rest[i]).kind
            != BLOCK_VORBIS_COMMENT by {
            assert(rest[i] == blocks[i + 1]);
        }
        lemma_untagged(informed(track, blocks[0]), rest);
    }
}

proof fn lemma_informed_one(track: Track, block: Block)
    ensures
        all_informed(track, seq![block]) == informed(track, block),
{
    assert(seq![block].drop_first() =~= Seq::<Block>::empty());
    assert(all_informed(informed(track, block), seq![block].drop_first()) == informed(track, block));
}

/// The comments of a block with lyrics in it are the old ones with the lyrics in their place.
pub proof fn lemma_new_comments(blocks: Seq<Block>, lyrics: Seq<char>)
    requires
        new_block(blocks, lyrics).data.len() < 0x1_0000_0000,
    ensures
        comments_of(new_block(blocks, lyrics).data) == Ok::<
            Comments,
            crate::metadata::vorbis::Fault,
        >(
            Comments {
                vendor: old_comments(blocks).vendor,
                entries: with_lyrics(old_comments(blocks).entries, lyrics),
            },
        ),
{
    let c = Comments {
        vendor: old_comments(blocks).vendor,
        entries: with_lyrics(old_comments(blocks).entries, lyrics),
    };
    crate::metadata::vorbis::lemma_fits(c);
    crate::metadata::vorbis::law_comments_round_trip(c, Seq::empty());
}

proof fn lemma_new_block_informs(track: Track, blocks: Seq<Block>, lyrics: Seq<char>)
    requires
        new_block(blocks, lyrics).data.len() < 0x1_0000_0000,
    ensures
        informed(track, new_block(blocks, lyrics)) == tagged(track, old_comments(blocks).entries),
{
    lemma_new_comments(blocks, lyrics);
    crate::metadata::vorbis::lemma_tagged_with_lyrics(track, old_comments(blocks).entries, lyrics);
}

proof fn lemma_no_tags(track: Track)
    requires
        track.title is None,
        track.artist is None,
        track.album is None,
    ensures
        tagged(track, seq![]) == track,
{
}

/// The metadata of the blocks with lyrics in them is that of the blocks before.
#[verifier::spinoff_prover]
#[verifier::rlimit(40)]
proof fn lemma_new_blocks_inform(filepath: Seq<char>, blocks: Seq<Block>, lyrics: Seq<char>)
    requires
        new_block(blocks, lyrics).data.len() < 0x1_0000_0000,
    ensures
        all_informed(blank(filepath), new_blocks(blocks, lyrics)) == all_informed(
            blank(filepath),
            blocks,
        ),
{
    let start = blank(filepath);
    let new = new_block(blocks, lyrics);
    let all = new_blocks(blocks, lyrics);
    lemma_first_of(blocks, BLOCK_VORBIS_COMMENT);
    lemma_first_of(blocks, BLOCK_STREAMINFO);
    match first_of(blocks, BLOCK_VORBIS_COMMENT) {
        Some(i) => {
            let a = blocks.subrange(0, i);
            let z = blocks.subrange(i + 1, blocks.len() as int);
            let old = blocks[i];
            assert(blocks =~= a + seq![old] + z);
            assert(all =~= a + seq![new] + z);
            let mid = all_informed(start, a);
            assert forall|j: int| 0 <= j < a.len() implies (#[trigger] a[j]).kind
                != BLOCK_VORBIS_COMMENT by {
                assert(a[j] == blocks[j]);
            }
            lemma_untagged(start, a);
            lemma_new_block_informs(mid, blocks, lyrics);
            lemma_no_tags(mid);
            assert(informed(mid, new) == informed(mid, old));
            lemma_informed_one(mid, old);
            lemma_informed_one(mid, new);
            lemma_informed_split(start, a, seq![old]);
            lemma_informed_split(start, a, seq![new]);
            lemma_informed_split(start, a + seq![old], z);
            lemma_informed_split(start, a + seq![new], z);
        },
        None => {
            let at = match first_of(blocks, BLOCK_STREAMINFO) {
                Some(i) => i + 1,
                None => 0,
            };
            let a = blocks.subrange(0, at);
            let z = blocks.subrange(at, blocks.len() as int);
            assert(blocks =~= a + z);
            assert(all =~= a + seq![new] + z);
            let mid = all_informed(start, a);
            assert forall|j: int| 0 <= j < a.len() implies (#[trigger] a[j]).kind
                != BLOCK_VORBIS_COMMENT by {
                assert(a[j] == blocks[j]);
            }
            lemma_untagged(start, a);
            lemma_new_block_informs(mid, blocks, lyrics);
            lemma_no_tags(mid);
            lemma_informed_one(mid, new);
            lemma_informed_split(start, a, z);
            lemma_informed_split(start, a, seq![new]);
            lemma_informed_split(start, a + seq![new], z);
        },
    }
}

/// The lyrics in the first comment block of a file.
pub open spec fn lyrics_of(b: Seq<u8>) -> Option<Seq<u8>> {
    match split_of(b) {
        Ok(s) => match first_of(s.blocks, BLOCK_VORBIS_COMMENT) {
            Some(i) => match comments_of(s.blocks[i].data) {
                Ok(c) => find_value(c.entries, lyrics_key()),
                Err(_) => None,
            },
            None => None,
        },
        Err(_) => None,
    }
}

/// A file into which lyrics were written gives them back, keeps its audio frames and its metadata,
/// and is left alone by a further sync without `force`; a further sync with `force` gives what it
/// would have given on the file as it was before. This holds as long as the comment block stays
/// below 16 MiB, the largest that its length field can tell.
#[verifier::spinoff_prover]
#[verifier::rlimit(40)]
pub proof fn law_flac_read_back(
    b: Seq<u8>,
    lyrics: Seq<char>,
    force: bool,
    later: Seq<char>,
    filepath: Seq<char>,
)
    requires
        Flac::edited(b, lyrics, force) matches Ok(Some(_)),
    ensures
        new_block(split_of(b)->Ok_0.blocks, lyrics).data.len() < 0x100_0000 ==> {
            let out = Flac::edited(b, lyrics, force)->Ok_0->0;
            &&& split_of(out) matches Ok(s) && s.blocks == new_blocks(
                split_of(b)->Ok_0.blocks,
                lyrics,
            )
            &&& lyrics_of(out) == Some(encode_utf8(lyrics))
            &&& audio_of(out) == audio_of(b)
            &&& Flac::metadata(out, filepath) == Flac::metadata(b, filepath)
            &&& Flac::edited(out, later, false) == Ok::<Option<Seq<u8>>, Seq<char>>(None)
            &&& Flac::edited(out, later, true) == Flac::edited(b, later, true)
        },
{
    let blocks = split_of(b)->Ok_0.blocks;
    let new = new_block(blocks, lyrics);
    let all = new_blocks(blocks, lyrics);
    let out = Flac::edited(b, lyrics, force)->Ok_0->0;
    if new.data.len() < 0x100_0000 {
        lemma_split_fits(b, 4);
        lemma_first_of(blocks, BLOCK_VORBIS_COMMENT);
        lemma_first_of(blocks, BLOCK_STREAMINFO);
        let at: int = match first_of(blocks, BLOCK_VORBIS_COMMENT) {
            Some(i) => i,
            None => match first_of(blocks, BLOCK_STREAMINFO) {
                Some(i) => i + 1,
                None => 0,
            },
        };
        assert(fits(new));
        assert forall|i: int| 0 <= i < all.len() implies fits(#[trigger] all[i]) by {
            if i < at {
                assert(all[i] == blocks[i]);
            } else if i > at {
                assert(all[i] == blocks[i] || all[i] == blocks[i - 1]);
            }
        }
        law_blocks_round_trip(marker(), all, audio_of(b));
        assert(stands_at(out, 0, marker())) by {
            assert(out.subrange(0, 4) =~= marker());
        }
        assert(marker().len() == 4);
        assert(split_of(out) == blocks_at(out, 4));
        assert(audio_of(out) =~= audio_of(b));
        assert forall|j: int| 0 <= j < at implies (#[trigger] all[j]).kind
            != BLOCK_VORBIS_COMMENT by {
            assert(all[j] == blocks[j]);
        }
        lemma_first_of_is(all, BLOCK_VORBIS_COMMENT, at);
        lemma_new_comments(blocks, lyrics);
        crate::metadata::vorbis::law_lyrics_replaced(
            old_comments(blocks).entries,
            lyrics,
            lyrics_key(),
        );
        lemma_new_blocks_inform(filepath, blocks, lyrics);
        crate::text::lemma_as_text(as_text(comments_of(blocks[at].data)->Ok_0.vendor));
        crate::text::lemma_as_text(Seq::empty());
        lemma_encode_empty();
        crate::metadata::vorbis::law_last_lyrics_stay(
            old_comments(blocks).entries,
            lyrics,
            later,
        );
        assert(old_comments(all).vendor == old_comments(blocks).vendor);
        assert(new_block(all, later) == new_block(blocks, later));
        assert(new_blocks(all, later) =~= new_blocks(blocks, later));
    }
}

} // verus!
