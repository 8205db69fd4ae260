//! OGG container reader/writer for Vorbis and Opus streams.
//!
//! Both codecs store tags in a "Vorbis comment" packet (vendor string +
//! `KEY=VALUE` list, identical layout to FLAC). The packet lives at a
//! fixed position in the stream:
//!
//! * Vorbis: packet 0 = identification, packet 1 = comment, packet 2 = setup
//! * Opus:   packet 0 = identification, packet 1 = comment
//!
//! Editing the comment packet changes its byte length, which forces a
//! re-encoding of the OGG page structure: the header pages are rebuilt from
//! scratch and every subsequent page has its sequence number bumped and
//! its CRC32 recomputed. The audio packets themselves are copied verbatim.
//! Where the page on which the headers end holds more than them, which neither
//! codec allows, what follows them there goes to a page of its own.
//!
//! Duration comes from the last page's granule position:
//!
//! * Vorbis: `granule / sample_rate` (sample rate from the id header)
//! * Opus:   `granule / 48000` (Opus granules are always at 48 kHz)

use vstd::prelude::*;
use vstd::slice::slice_subrange;
use vstd::utf8::encode_utf8;

use crate::bytes::{
    append_bytes, copy_range, is_at, le32, le32_bytes, le64, le64_bytes, push_le32, push_le64,
    read_le32, read_le64, stands_at, views,
};
use crate::metadata::vorbis::{
    apply_tags, build_vorbis_comment, comment_bytes, comments_of, find_comment, find_value,
    lyrics_key, parse_vorbis_comment, replace_lyrics, tagged, with_lyrics, Comments, Fault,
};
use crate::metadata::{blank, blank_track, edit_agrees, AudioFormat, Edit, MetaError};
use crate::text::as_text;
use crate::types::{Track, TrackMeta};

verus! {

/// The OGG format.
pub struct Ogg;

/// The most segments that a page can have.
pub const MAX_SEGMENTS: usize = 255;

/// The four bytes at the start of a page: `OggS`.
pub open spec fn magic() -> Seq<u8> {
    seq![0x4fu8, 0x67, 0x67, 0x53]
}

/// The CRC register after a shift by one bit.
pub open spec fn shifted(c: u32) -> u32 {
    if c & 0x8000_0000u32 != 0 {
        (c << 1u32) ^ 0x04C1_1DB7u32
    } else {
        c << 1u32
    }
}

/// The CRC register after `n` shifts.
pub open spec fn shifted_by(c: u32, n: nat) -> u32
    decreases n,
{
    if n == 0 {
        c
    } else {
        shifted(shifted_by(c, (n - 1) as nat))
    }
}

/// The CRC register after one more byte.
pub open spec fn fed(crc: u32, b: u8) -> u32 {
    shifted_by(crc ^ ((b as u32) << 24u32), 8)
}

/// The OGG page CRC32 of `data`: polynomial `0x04C11DB7`, most significant bit first, starting
/// from zero.
pub open spec fn crc_of(data: Seq<u8>) -> u32
    decreases data.len(),
{
    if data.len() == 0 {
        0
    } else {
        fed(crc_of(data.drop_last()), data.last())
    }
}

proof fn lemma_shifted_xor(a: u32, b: u32)
    ensures
        shifted(a ^ b) == shifted(a) ^ shifted(b),
{
    assert((if (a ^ b) & 0x8000_0000u32 != 0 {
        ((a ^ b) << 1u32) ^ 0x04C1_1DB7u32
    } else {
        (a ^ b) << 1u32
    }) == (if a & 0x8000_0000u32 != 0 {
        (a << 1u32) ^ 0x04C1_1DB7u32
    } else {
        a << 1u32
    }) ^ (if b & 0x8000_0000u32 != 0 {
        (b << 1u32) ^ 0x04C1_1DB7u32
    } else {
        b << 1u32
    })) by (bit_vector);
}

proof fn lemma_shifted_by_xor(a: u32, b: u32, n: nat)
    ensures
        shifted_by(a ^ b, n) == shifted_by(a, n) ^ shifted_by(b, n),
    decreases n,
{
    if n > 0 {
        lemma_shifted_by_xor(a, b, (n - 1) as nat);
        lemma_shifted_xor(shifted_by(a, (n - 1) as nat), shifted_by(b, (n - 1) as nat));
    }
}

/// Eight shifts of a register whose top byte is zero only move it.
proof fn lemma_shifted_low(low: u32)
    requires
        low < 0x100_0000,
    ensures
        shifted_by(low, 8) == low << 8u32,
{
    reveal_with_fuel(shifted_by, 9);
    assert(low & 0x8000_0000u32 == 0 && (low << 1u32) & 0x8000_0000u32 == 0 && (low << 1u32 << 1u32)
        & 0x8000_0000u32 == 0 && (low << 1u32 << 1u32 << 1u32) & 0x8000_0000u32 == 0 && (low << 1u32
        << 1u32 << 1u32 << 1u32) & 0x8000_0000u32 == 0 && (low << 1u32 << 1u32 << 1u32 << 1u32
        << 1u32) & 0x8000_0000u32 == 0 && (low << 1u32 << 1u32 << 1u32 << 1u32 << 1u32 << 1u32)
        & 0x8000_0000u32 == 0 && (low << 1u32 << 1u32 << 1u32 << 1u32 << 1u32 << 1u32 << 1u32)
        & 0x8000_0000u32 == 0 && low << 1u32 << 1u32 << 1u32 << 1u32 << 1u32 << 1u32 << 1u32 << 1u32
        == low << 8u32) by (bit_vector)
        requires
            low < 0x100_0000u32,
    ;
}

/// The remainders of the 256 possible top bytes.
pub struct CrcTable {
    pub entries: Vec<u32>,
}

impl CrcTable {
    /// Whether the table is filled.
    pub open spec fn filled(&self) -> bool {
        &&& self.entries@.len() == 256
        &&& forall|i: int|
            0 <= i < 256 ==> #[trigger] self.entries@[i] == shifted_by((i as u32) << 24u32, 8)
    }
}

/// Computes the CRC32 table for the OGG polynomial.
pub fn crc_table() -> (t: CrcTable)
    ensures
        t.filled(),
{
    let mut entries: Vec<u32> = Vec::new();
    let mut i: u32 = 0;
    while i < 256
        invariant
            i <= 256,
            entries@.len() == i,
            forall|j: int|
                0 <= j < i ==> #[trigger] entries@[j] == shifted_by((j as u32) << 24u32, 8),
        decreases 256 - i,
    {
        let mut c: u32 = i << 24u32;
        let mut k: u32 = 0;
        while k < 8
            invariant
                k <= 8,
                c == shifted_by(i << 24u32, k as nat),
            decreases 8 - k,
        {
            if c & 0x8000_0000u32 != 0 {
                c = (c << 1u32) ^ 0x04C1_1DB7u32;
            } else {
                c = c << 1u32;
            }
            k = k + 1;
        }
        entries.push(c);
        i = i + 1;
    }
    CrcTable { entries }
}

/// The table lookup makes the same step as eight shifts.
proof fn lemma_table_step(crc: u32, b: u8)
    ensures
        ((crc >> 24u32) as u8 ^ b) < 256,
        fed(crc, b) == (crc << 8u32) ^ shifted_by((((crc >> 24u32) as u8 ^ b) as u32) << 24u32, 8),
{
    let top: u32 = (((crc >> 24u32) as u8 ^ b) as u32) << 24u32;
    let low: u32 = crc & 0x00FF_FFFFu32;
    assert(crc ^ ((b as u32) << 24u32) == ((((crc >> 24u32) as u8 ^ b) as u32) << 24u32) ^ (crc
        & 0x00FF_FFFFu32)) by (bit_vector);
    assert(crc & 0x00FF_FFFFu32 < 0x100_0000u32) by (bit_vector);
    lemma_shifted_by_xor(top, low, 8);
    lemma_shifted_low(low);
    assert((crc & 0x00FF_FFFFu32) << 8u32 == crc << 8u32) by (bit_vector);
    let t: u32 = shifted_by(top, 8);
    let s: u32 = crc << 8u32;
    assert(t ^ s == s ^ t) by (bit_vector);
}

/// Computes the OGG page CRC32 over `data` (the CRC field must be zeroed).
pub fn ogg_crc(table: &CrcTable, data: &[u8]) -> (crc: u32)
    requires
        table.filled(),
    ensures
        crc == crc_of(data@),
{
    let mut crc: u32 = 0;
    let mut i: usize = 0;
    while i < data.len()
        invariant
            i <= data@.len(),
            table.filled(),
            crc == crc_of(data@.take(i as int)),
        decreases data@.len() - i,
    {
        let b: u8 = data[i];
        let index: u8 = (crc >> 24u32) as u8 ^ b;
        proof {
            lemma_table_step(crc, b);
            assert(data@.take(i + 1).drop_last() =~= data@.take(i as int));
            assert(table.entries@[index as int] == shifted_by((index as u32) << 24u32, 8));
        }
        crc = (crc << 8u32) ^ table.entries[index as usize];
        i = i + 1;
    }
    assert(data@.take(i as int) =~= data@);
    crc
}

/// A page with its CRC field zeroed.
pub open spec fn zeroed(page: Seq<u8>) -> Seq<u8> {
    page.subrange(0, 22) + seq![0u8, 0, 0, 0] + page.subrange(26, page.len() as int)
}

/// A page with the right CRC in its CRC field.
pub open spec fn sealed(page: Seq<u8>) -> Seq<u8> {
    page.subrange(0, 22) + le32_bytes(crc_of(zeroed(page)) as int) + page.subrange(
        26,
        page.len() as int,
    )
}

/// Writes the CRC of a serialised page into its CRC field.
pub fn recompute_crc(table: &CrcTable, page: &mut Vec<u8>)
    requires
        table.filled(),
        old(page)@.len() >= 26,
    ensures
        final(page)@ == sealed(old(page)@),
{
    page.set(22, 0);
    page.set(23, 0);
    page.set(24, 0);
    page.set(25, 0);
    assert(page@ =~= zeroed(old(page)@));
    let crc: u32 = ogg_crc(table, page);
    page.set(22, (crc % 0x100) as u8);
    page.set(23, (crc / 0x100 % 0x100) as u8);
    page.set(24, (crc / 0x1_0000 % 0x100) as u8);
    page.set(25, (crc / 0x100_0000 % 0x100) as u8);
    assert(page@ =~= sealed(old(page)@));
}

/// One parsed page.
pub struct OggPage {
    pub header_type: u8,
    /// The granule position as a two's complement number.
    pub granule: u64,
    pub serial: u32,
    pub sequence: u32,
    /// Segment payloads in table order. A segment of exactly 255 bytes
    /// means "packet continues"; a shorter segment terminates a packet.
    pub segments: Vec<Vec<u8>>,
    /// Byte length of the page.
    pub raw_len: usize,
}

/// What an [`OggPage`] holds.
pub struct Page {
    pub header_type: u8,
    pub granule: u64,
    pub serial: u32,
    pub sequence: u32,
    pub segments: Seq<Seq<u8>>,
    pub raw_len: int,
}

impl View for OggPage {
    type V = Page;

    open spec fn view(&self) -> Page {
        Page {
            header_type: self.header_type,
            granule: self.granule,
            serial: self.serial,
            sequence: self.sequence,
            segments: views(self.segments@),
            raw_len: self.raw_len as int,
        }
    }
}

/// The contents of a list of pages.
pub open spec fn page_views(pages: Seq<OggPage>) -> Seq<Page> {
    pages.map_values(|p: OggPage| p@)
}

/// The sum of the `n` bytes at `at`.
pub open spec fn byte_sum(b: Seq<u8>, at: int, n: int) -> int
    decreases n,
{
    if n <= 0 {
        0
    } else {
        b[at] + byte_sum(b, at + 1, n - 1)
    }
}

/// The `n` segments that start at `data`, with their lengths in the table at `table`.
pub open spec fn segments_at(b: Seq<u8>, table: int, data: int, n: int) -> Seq<Seq<u8>>
    decreases n,
{
    if n <= 0 {
        seq![]
    } else {
        seq![b.subrange(data, data + b[table])] + segments_at(b, table + 1, data + b[table], n - 1)
    }
}

/// The length of the page at `pos`: header, segment table and segments.
pub open spec fn page_len(b: Seq<u8>, pos: int) -> int {
    27 + b[pos + 26] + byte_sum(b, pos + 27, b[pos + 26] as int)
}

/// The page at `pos`, or the message of the error.
pub open spec fn page_at(b: Seq<u8>, pos: int) -> Result<Page, Seq<char>> {
    if pos + 27 > b.len() || !stands_at(b, pos, magic()) {
        Err("invalid OGG page header"@)
    } else if pos + 27 + b[pos + 26] > b.len() {
        Err("OGG segment table truncated"@)
    } else if pos + page_len(b, pos) > b.len() {
        Err("OGG segment body truncated"@)
    } else {
        Ok(
            Page {
                header_type: b[pos + 5],
                granule: le64(b, pos + 6) as u64,
                serial: le32(b, pos + 14) as u32,
                sequence: le32(b, pos + 18) as u32,
                segments: segments_at(b, pos + 27, pos + 27 + b[pos + 26], b[pos + 26] as int),
                raw_len: page_len(b, pos),
            },
        )
    }
}

/// The pages from `pos` to the end, or the message of the error.
pub open spec fn pages_at(b: Seq<u8>, pos: int) -> Result<Seq<Page>, Seq<char>>
    decreases b.len() - pos,
{
    if pos >= b.len() {
        Ok(seq![])
    } else {
        match page_at(b, pos) {
            Ok(page) => if page.raw_len > 0 {
                prefixed(seq![page], pages_at(b, pos + page.raw_len))
            } else {
                Ok(seq![])
            },
            Err(message) => Err(message),
        }
    }
}

/// `pages`, where there are any, with others before them.
pub open spec fn prefixed(done: Seq<Page>, pages: Result<Seq<Page>, Seq<char>>) -> Result<
    Seq<Page>,
    Seq<char>,
> {
    match pages {
        Ok(rest) => Ok(done + rest),
        Err(message) => Err(message),
    }
}

proof fn lemma_byte_sum(b: Seq<u8>, at: int, n: int, k: int)
    requires
        0 <= k <= n,
    ensures
        byte_sum(b, at, n) == byte_sum(b, at, k) + byte_sum(b, at + k, n - k),
        0 <= byte_sum(b, at, k) <= 255 * k,
        0 <= byte_sum(b, at + k, n - k),
    decreases n,
{
    if n > 0 {
        if k > 0 {
            lemma_byte_sum(b, at + 1, n - 1, k - 1);
        } else {
            lemma_byte_sum(b, at + 1, n - 1, 0);
        }
    }
}

/// Parses the page at `pos`.
pub fn parse_page(bytes: &[u8], pos: usize) -> (r: Result<OggPage, MetaError>)
    requires
        pos < bytes.len(),
    ensures
        match (r, page_at(bytes@, pos as int)) {
            (Ok(page), Ok(p)) => page@ == p && 27 <= page.raw_len <= bytes.len() - pos,
            (Err(e), Err(message)) => e.0@ == message,
            _ => false,
        },
{
    let n: usize = bytes.len();
    let marker: Vec<u8> = vec![0x4f, 0x67, 0x67, 0x53];
    assert(marker@ =~= magic());
    if n - pos < 27 || !is_at(bytes, pos, &marker) {
        return Err(MetaError::new("invalid OGG page header"));
    }
    let n_seg: usize = bytes[pos + 26] as usize;
    let table: usize = pos + 27;
    if n_seg > n - table {
        return Err(MetaError::new("OGG segment table truncated"));
    }
    let mut data_pos: usize = table + n_seg;
    let mut segments: Vec<Vec<u8>> = Vec::new();
    let mut i: usize = 0;
    let ghost all = segments_at(bytes@, table as int, table + n_seg, n_seg as int);
    assert(views(segments@) + all =~= all);
    while i < n_seg
        invariant
            i <= n_seg,
            n == bytes.len(),
            n_seg <= 255,
            pos + 27 == table,
            table + n_seg <= data_pos <= n,
            bytes@[pos + 26] == n_seg,
            stands_at(bytes@, pos as int, magic()),
            data_pos == table + n_seg + byte_sum(bytes@, table as int, i as int),
            all == segments_at(bytes@, table as int, table + n_seg, n_seg as int),
            views(segments@) + segments_at(bytes@, table + i, data_pos as int, n_seg - i) == all,
        decreases n_seg - i,
    {
        let len: usize = bytes[table + i] as usize;
        proof {
            lemma_byte_sum(bytes@, table as int, n_seg as int, i as int);
            lemma_byte_sum(bytes@, table as int, i + 1, i as int);
            lemma_byte_sum(bytes@, table as int, n_seg as int, i + 1);
            assert(byte_sum(bytes@, table + i, 1) == len) by {
                assert(byte_sum(bytes@, table + i + 1, 0) == 0);
            }
        }
        if len > n - data_pos {
            return Err(MetaError::new("OGG segment body truncated"));
        }
        let ghost done = views(segments@);
        let segment = copy_range(bytes, data_pos, data_pos + len);
        let ghost view = segment@;
        segments.push(segment);
        assert(views(segments@) =~= done.push(view));
        assert(done + (seq![view] + segments_at(bytes@, table + i + 1, data_pos + len, n_seg - i - 1))
            =~= done.push(view) + segments_at(
            bytes@,
            table + i + 1,
            data_pos + len,
            n_seg - i - 1,
        ));
        data_pos = data_pos + len;
        i = i + 1;
    }
    assert(views(segments@) =~= all);
    Ok(
        OggPage {
            header_type: bytes[pos + 5],
            granule: read_le64(bytes, pos + 6),
            serial: read_le32(bytes, pos + 14),
            sequence: read_le32(bytes, pos + 18),
            segments,
            raw_len: data_pos - pos,
        },
    )
}

/// Parses every page in the stream. Returns the pages in file order.
pub fn parse_pages(bytes: &[u8]) -> (r: Result<Vec<OggPage>, MetaError>)
    ensures
        match (r, pages_at(bytes@, 0)) {
            (Ok(pages), Ok(p)) => page_views(pages@) == p,
            (Err(e), Err(message)) => e.0@ == message,
            _ => false,
        },
{
    let mut pages: Vec<OggPage> = Vec::new();
    let mut pos: usize = 0;
    proof {
        if let Ok(all) = pages_at(bytes@, 0) {
            assert(page_views(pages@) + all =~= all);
        }
    }
    while pos < bytes.len()
        invariant
            pos <= bytes.len(),
            prefixed(page_views(pages@), pages_at(bytes@, pos as int)) == pages_at(bytes@, 0),
        decreases bytes@.len() - pos,
    {
        let ghost done = page_views(pages@);
        match parse_page(bytes, pos) {
            Ok(page) => {
                let len: usize = page.raw_len;
                let ghost view = page@;
                pages.push(page);
                assert(page_views(pages@) =~= done.push(view));
                proof {
                    if let Ok(rest) = pages_at(bytes@, pos + len) {
                        assert(done + (seq![view] + rest) =~= done.push(view) + rest);
                    }
                }
                pos = pos + len;
            },
            Err(e) => return Err(e),
        }
    }
    assert(page_views(pages@) + Seq::<Page>::empty() =~= page_views(pages@));
    Ok(pages)
}

/// A reconstructed packet plus the index of the page on which it
/// terminates (i.e. the page containing its final `<255` segment).
pub struct Packet {
    pub data: Vec<u8>,
    pub end_page: usize,
}

/// What a [`Packet`] holds.
pub struct PacketContent {
    pub data: Seq<u8>,
    pub end_page: int,
}

impl View for Packet {
    type V = PacketContent;

    open spec fn view(&self) -> PacketContent {
        PacketContent { data: self.data@, end_page: self.end_page as int }
    }
}

/// The contents of a list of packets.
pub open spec fn packet_views(packets: Seq<Packet>) -> Seq<PacketContent> {
    packets.map_values(|p: Packet| p@)
}

/// The packets that end in the segments of page `page`, where `current` has been read of the
/// first one.
pub open spec fn packets_in(segments: Seq<Seq<u8>>, current: Seq<u8>, page: int) -> Seq<
    PacketContent,
>
    decreases segments.len(),
{
    if segments.len() == 0 {
        seq![]
    } else {
        let data = current + segments[0];
        if segments[0].len() < 255 {
            seq![PacketContent { data, end_page: page }] + packets_in(
                segments.drop_first(),
                seq![],
                page,
            )
        } else {
            packets_in(segments.drop_first(), data, page)
        }
    }
}

/// What the segments leave of a packet that does not end in them.
pub open spec fn left_over(segments: Seq<Seq<u8>>, current: Seq<u8>) -> Seq<u8>
    decreases segments.len(),
{
    if segments.len() == 0 {
        current
    } else if segments[0].len() < 255 {
        left_over(segments.drop_first(), seq![])
    } else {
        left_over(segments.drop_first(), current + segments[0])
    }
}

/// The packets that end in `pages`, the first of which is page `page` of the stream, where
/// `current` has been read of the first packet.
pub open spec fn packets_from(pages: Seq<Page>, page: int, current: Seq<u8>) -> Seq<PacketContent>
    decreases pages.len(),
{
    if pages.len() == 0 {
        seq![]
    } else {
        packets_in(pages[0].segments, current, page) + packets_from(
            pages.drop_first(),
            page + 1,
            left_over(pages[0].segments, current),
        )
    }
}

/// Reassembles packets from page segments, tracking which page each one
/// ends on. Packets may span page boundaries via 255-byte continuation
/// segments.
pub fn reconstruct_packets(pages: &Vec<OggPage>) -> (r: Vec<Packet>)
    ensures
        packet_views(r@) == packets_from(page_views(pages@), 0, seq![]),
{
    let mut packets: Vec<Packet> = Vec::new();
    let mut current: Vec<u8> = Vec::new();
    let ghost all = page_views(pages@);
    let ghost goal = packets_from(all, 0, seq![]);
    let mut k: usize = 0;
    assert(all.skip(0) =~= all);
    assert(packet_views(packets@) + goal =~= goal);
    while k < pages.len()
        invariant
            k <= pages@.len(),
            all == page_views(pages@),
            packet_views(packets@) + packets_from(all.skip(k as int), k as int, current@) == goal,
        decreases pages@.len() - k,
    {
        let ghost rest = all.skip(k as int);
        let ghost segs = views(pages@[k as int].segments@);
        let ghost after = rest.drop_first();
        assert(rest[0] == pages@[k as int]@);
        assert(after =~= all.skip(k + 1));
        let ghost start = packet_views(packets@);
        let ghost first = current@;
        let mut i: usize = 0;
        assert(segs.skip(0) =~= segs);
        assert(start + (packets_in(segs, first, k as int) + packets_from(
            after,
            k + 1,
            left_over(segs, first),
        )) =~= start + packets_in(segs, first, k as int) + packets_from(
            after,
            k + 1,
            left_over(segs, first),
        ));
        while i < pages[k].segments.len()
            invariant
                i <= pages@[k as int].segments@.len(),
                k < pages@.len(),
                segs == views(pages@[k as int].segments@),
                packet_views(packets@) + packets_in(segs.skip(i as int), current@, k as int)
                    + packets_from(after, k + 1, left_over(segs.skip(i as int), current@)) == goal,
            decreases pages@[k as int].segments@.len() - i,
        {
            let ghost left = segs.skip(i as int);
            let ghost done = packet_views(packets@);
            let segment = &pages[k].segments[i];
            assert(left[0] == segment@);
            assert(left.drop_first() =~= segs.skip(i + 1));
            append_bytes(&mut current, segment);
            if segment.len() < 255 {
                let packet = Packet { data: current, end_page: k };
                let ghost view = packet@;
                packets.push(packet);
                current = Vec::new();
                assert(packet_views(packets@) =~= done.push(view));
                assert(current@ =~= seq![]);
                assert(done + (seq![view] + packets_in(segs.skip(i + 1), seq![], k as int))
                    =~= done.push(view) + packets_in(segs.skip(i + 1), seq![], k as int));
            }
            i = i + 1;
        }
        assert(segs.skip(i as int) =~= seq![]);
        assert(packet_views(packets@) + Seq::<PacketContent>::empty() =~= packet_views(packets@));
        k = k + 1;
    }
    assert(all.skip(k as int) =~= seq![]);
    assert(packet_views(packets@) + Seq::<PacketContent>::empty() =~= packet_views(packets@));
    packets
}

/// The segment lengths of a packet of `n` bytes: as many full segments as fit, and a shorter one.
pub open spec fn lacing(n: int) -> Seq<u8> {
    Seq::new(
        (n / 255 + 1) as nat,
        |i: int|
            if i < n / 255 {
                255u8
            } else {
                (n % 255) as u8
            },
    )
}

/// Builds the segment-table lacing for a single packet.
pub fn packet_segments(packet: &[u8]) -> (r: Vec<u8>)
    ensures
        r@ == lacing(packet@.len() as int),
{
    let n: usize = packet.len();
    let mut segs: Vec<u8> = Vec::new();
    let full: usize = n / 255;
    let mut i: usize = 0;
    while i < full
        invariant
            i <= full,
            full == n / 255,
            segs@ =~= lacing(n as int).take(i as int),
        decreases full - i,
    {
        segs.push(255);
        i = i + 1;
    }
    segs.push((n % 255) as u8);
    assert(segs@ =~= lacing(n as int));
    segs
}

/// The bytes of a page with one packet and an empty CRC field.
pub open spec fn unsealed(
    header_type: u8,
    granule: u64,
    serial: u32,
    sequence: int,
    packet: Seq<u8>,
) -> Seq<u8> {
    magic() + seq![0u8, header_type] + le64_bytes(granule as int) + le32_bytes(serial as int)
        + le32_bytes(sequence) + seq![0u8, 0, 0, 0, (packet.len() / 255 + 1) as u8] + lacing(
        packet.len() as int,
    ) + packet
}

/// The page with one packet.
#[verifier::opaque]
pub open spec fn header_page(
    header_type: u8,
    granule: u64,
    serial: u32,
    sequence: int,
    packet: Seq<u8>,
) -> Seq<u8> {
    sealed(unsealed(header_type, granule, serial, sequence, packet))
}

/// The page that holds exactly one complete packet, or the message of the error where the packet
/// has more segments than a page.
pub open spec fn page_of(
    header_type: u8,
    granule: u64,
    serial: u32,
    sequence: int,
    packet: Seq<u8>,
) -> Result<Seq<u8>, Seq<char>> {
    if packet.len() / 255 + 1 > MAX_SEGMENTS {
        Err("OGG header packet too large for a single page"@)
    } else {
        Ok(header_page(header_type, granule, serial, sequence, packet))
    }
}

/// Serialises a single page containing exactly one complete packet. The granule position is given
/// as a two's complement number.
pub fn build_page(
    table: &CrcTable,
    header_type: u8,
    granule: u64,
    serial: u32,
    sequence: u32,
    packet: &[u8],
) -> (r: Result<Vec<u8>, MetaError>)
    requires
        table.filled(),
    ensures
        match (r, page_of(header_type, granule, serial, sequence as int, packet@)) {
            (Ok(page), Ok(p)) => page@ == p,
            (Err(e), Err(message)) => e.0@ == message,
            _ => false,
        },
{
    let segs = packet_segments(packet);
    if segs.len() > MAX_SEGMENTS {
        return Err(MetaError::new("OGG header packet too large for a single page"));
    }
    let mut page: Vec<u8> = vec![0x4f, 0x67, 0x67, 0x53, 0, header_type];
    assert(page@ =~= magic() + seq![0u8, header_type]);
    push_le64(&mut page, granule);
    push_le32(&mut page, serial as u64);
    push_le32(&mut page, sequence as u64);
    page.push(0);
    page.push(0);
    page.push(0);
    page.push(0);
    page.push(segs.len() as u8);
    append_bytes(&mut page, &segs);
    append_bytes(&mut page, packet);
    assert(page@ =~= unsealed(header_type, granule, serial, sequence as int, packet@));
    recompute_crc(table, &mut page);
    proof {
        reveal(header_page);
    }
    Ok(page)
}

/// The codecs whose comments can be edited.
#[derive(Debug, Clone, Copy, PartialEq, Eq, Structural)]
pub enum Codec {
    Vorbis,
    Opus,
}

/// The bytes at the start of a Vorbis identification packet: `\x01vorbis`.
pub open spec fn vorbis_head() -> Seq<u8> {
    seq![1u8, 0x76, 0x6f, 0x72, 0x62, 0x69, 0x73]
}

/// The bytes at the start of an Opus identification packet: `OpusHead`.
pub open spec fn opus_head() -> Seq<u8> {
    seq![0x4fu8, 0x70, 0x75, 0x73, 0x48, 0x65, 0x61, 0x64]
}

/// The codec of a stream by its first packet.
pub open spec fn codec_of(first: Seq<u8>) -> Option<Codec> {
    if stands_at(first, 0, vorbis_head()) {
        Some(Codec::Vorbis)
    } else if stands_at(first, 0, opus_head()) {
        Some(Codec::Opus)
    } else {
        None
    }
}

/// Detects the codec from the first packet's magic bytes.
pub fn detect_codec(first_packet: &[u8]) -> (r: Result<Codec, MetaError>)
    ensures
        match (r, codec_of(first_packet@)) {
            (Ok(codec), Some(c)) => codec == c,
            (Err(e), None) => e.0@ == "unknown OGG codec (not Vorbis or Opus)"@,
            _ => false,
        },
{
    let vorbis: Vec<u8> = vec![1, 0x76, 0x6f, 0x72, 0x62, 0x69, 0x73];
    let opus: Vec<u8> = vec![0x4f, 0x70, 0x75, 0x73, 0x48, 0x65, 0x61, 0x64];
    assert(vorbis@ =~= vorbis_head());
    assert(opus@ =~= opus_head());
    if is_at(first_packet, 0, &vorbis) {
        Ok(Codec::Vorbis)
    } else if is_at(first_packet, 0, &opus) {
        Ok(Codec::Opus)
    } else {
        Err(MetaError::new("unknown OGG codec (not Vorbis or Opus)"))
    }
}

/// Number of header packets before audio data begins.
pub open spec fn header_packets(codec: Codec) -> int {
    match codec {
        Codec::Vorbis => 3,
        Codec::Opus => 2,
    }
}

/// Number of header packets before audio data begins.
pub fn header_packet_count(codec: Codec) -> (n: usize)
    ensures
        n == header_packets(codec),
{
    match codec {
        Codec::Vorbis => 3,
        Codec::Opus => 2,
    }
}

/// The bytes before the comments in a comment packet: `\x03vorbis` or `OpusTags`.
pub open spec fn comment_prefix(codec: Codec) -> Seq<u8> {
    match codec {
        Codec::Vorbis => seq![3u8, 0x76, 0x6f, 0x72, 0x62, 0x69, 0x73],
        Codec::Opus => seq![0x4fu8, 0x70, 0x75, 0x73, 0x54, 0x61, 0x67, 0x73],
    }
}

/// A comment packet without the codec magic prefix.
pub open spec fn body_of(packet: Seq<u8>, codec: Codec) -> Seq<u8> {
    packet.subrange(comment_prefix(codec).len() as int, packet.len() as int)
}

/// Extracts the comment packet body (without the codec magic prefix) from a raw header packet.
pub fn comment_body(packet: &[u8], codec: Codec) -> (r: &[u8])
    requires
        packet@.len() >= comment_prefix(codec).len(),
    ensures
        r@ == body_of(packet@, codec),
{
    match codec {
        Codec::Vorbis => slice_subrange(packet, 7, packet.len()),
        Codec::Opus => slice_subrange(packet, 8, packet.len()),
    }
}

/// Reassembles a comment packet from a new comment body, re-attaching the codec's magic prefix.
pub fn rebuild_comment_packet(codec: Codec, body: &[u8]) -> (r: Vec<u8>)
    ensures
        r@ == comment_prefix(codec) + body@,
{
    let mut out: Vec<u8> = match codec {
        Codec::Vorbis => vec![3, 0x76, 0x6f, 0x72, 0x62, 0x69, 0x73],
        Codec::Opus => vec![0x4f, 0x70, 0x75, 0x73, 0x54, 0x61, 0x67, 0x73],
    };
    assert(out@ =~= comment_prefix(codec));
    append_bytes(&mut out, body);
    out
}

/// The message that tells a fault of a comment packet.
pub open spec fn fault_message(fault: Fault) -> Seq<char> {
    match fault {
        Fault::NoVendorLength => "vorbis comment too short"@,
        Fault::VendorOverrun => "vorbis vendor overruns block"@,
        Fault::NoCount => "vorbis comment missing count"@,
        Fault::EntryTruncated => "vorbis comment entry truncated"@,
        Fault::ValueOverrun => "vorbis comment value overruns"@,
    }
}

/// Tells a fault of a comment packet.
pub fn fault_error(fault: Fault) -> (e: MetaError)
    ensures
        e.0@ == fault_message(fault),
{
    match fault {
        Fault::NoVendorLength => MetaError::new("vorbis comment too short"),
        Fault::VendorOverrun => MetaError::new("vorbis vendor overruns block"),
        Fault::NoCount => MetaError::new("vorbis comment missing count"),
        Fault::EntryTruncated => MetaError::new("vorbis comment entry truncated"),
        Fault::ValueOverrun => MetaError::new("vorbis comment value overruns"),
    }
}

/// The pages that hold the header packets from `i` up to `n`, one each, or the message of the
/// error. The first one is marked as the beginning of the stream.
pub open spec fn headers_from(packets: Seq<PacketContent>, serial: u32, i: int, n: int) -> Result<
    Seq<u8>,
    Seq<char>,
>
    decreases n - i,
{
    if i < 0 || i >= n || i >= packets.len() {
        Ok(seq![])
    } else {
        let header_type = if i == 0 {
            2u8
        } else {
            0u8
        };
        match (page_of(header_type, 0, serial, i, packets[i].data), headers_from(
            packets,
            serial,
            i + 1,
            n,
        )) {
            (Err(message), _) => Err(message),
            (Ok(_), Err(message)) => Err(message),
            (Ok(page), Ok(rest)) => Ok(page + rest),
        }
    }
}

/// Builds the pages of the first `n` packets.
pub fn build_headers(table: &CrcTable, packets: &Vec<Packet>, serial: u32, n: usize) -> (r: Result<
    Vec<u8>,
    MetaError,
>)
    requires
        table.filled(),
        n <= 3,
    ensures
        match (r, headers_from(packet_views(packets@), serial, 0, n as int)) {
            (Ok(out), Ok(o)) => out@ == o,
            (Err(e), Err(message)) => e.0@ == message,
            _ => false,
        },
{
    let mut out: Vec<u8> = Vec::new();
    let ghost all = packet_views(packets@);
    let ghost goal = headers_from(all, serial, 0, n as int);
    let mut i: usize = 0;
    assert(goal matches Ok(o) ==> out@ + o =~= o);
    while i < n && i < packets.len()
        invariant
            i <= n <= 3,
            i <= packets@.len(),
            table.filled(),
            all == packet_views(packets@),
            goal == headers_from(all, serial, 0, n as int),
            goal == (match headers_from(all, serial, i as int, n as int) {
                Ok(rest) => Ok(out@ + rest),
                Err(message) => Err(message),
            }),
        decreases n - i,
    {
        let ghost done = out@;
        assert(all[i as int] == packets@[i as int]@);
        let header_type: u8 = if i == 0 {
            2
        } else {
            0
        };
        match build_page(table, header_type, 0, serial, i as u32, &packets[i].data) {
            Ok(page) => {
                append_bytes(&mut out, &page);
                proof {
                    if let Ok(rest) = headers_from(all, serial, i + 1, n as int) {
                        assert(done + (page@ + rest) =~= out@ + rest);
                    }
                }
            },
            Err(e) => return Err(e),
        }
        i = i + 1;
    }
    assert(out@ + Seq::<u8>::empty() =~= out@);
    Ok(out)
}

/// Where page `k` starts.
pub open spec fn page_start(b: Seq<u8>, k: int) -> int
    decreases k,
{
    if k <= 0 {
        0
    } else {
        page_start(b, k - 1) + page_len(b, page_start(b, k - 1))
    }
}

/// A page with another sequence number.
pub open spec fn resequenced(page: Seq<u8>, sequence: int) -> Seq<u8> {
    sealed(page.subrange(0, 18) + le32_bytes(sequence) + page.subrange(22, page.len() as int))
}

/// The pages from `pos` on, numbered from `sequence` on, as 32-bit numbers.
pub open spec fn copied_from(b: Seq<u8>, pos: int, sequence: int) -> Seq<u8>
    decreases b.len() - pos,
{
    let end = pos + page_len(b, pos);
    if pos < 0 || end <= pos || end > b.len() {
        seq![]
    } else {
        resequenced(b.subrange(pos, end), sequence) + copied_from(
            b,
            end,
            (sequence + 1) % 0x1_0000_0000,
        )
    }
}

/// Copies a page with another sequence number.
pub fn renumber(table: &CrcTable, page: &[u8], sequence: u64) -> (r: Vec<u8>)
    requires
        table.filled(),
        page@.len() >= 27,
    ensures
        r@ == resequenced(page@, sequence as int),
{
    let mut r = copy_range(page, 0, 18);
    push_le32(&mut r, sequence);
    append_bytes(&mut r, slice_subrange(page, 22, page.len()));
    assert(r@ =~= page@.subrange(0, 18) + le32_bytes(sequence as int) + page@.subrange(
        22,
        page@.len() as int,
    ));
    recompute_crc(table, &mut r);
    r
}

/// A page that was parsed is at least as long as its fixed header.
proof fn lemma_page_len(b: Seq<u8>, pos: int)
    ensures
        page_len(b, pos) >= 27,
{
    lemma_byte_sum(b, pos + 27, b[pos + 26] as int, b[pos + 26] as int);
}

/// The first page and those after it.
proof fn lemma_pages_step(b: Seq<u8>, pos: int, pages: Seq<Page>)
    requires
        pages_at(b, pos) == Ok::<Seq<Page>, Seq<char>>(pages),
        pages.len() > 0,
    ensures
        page_at(b, pos) == Ok::<Page, Seq<char>>(pages[0]),
        pages[0].raw_len == page_len(b, pos),
        27 <= page_len(b, pos) <= b.len() - pos,
        pages_at(b, pos + page_len(b, pos)) == Ok::<Seq<Page>, Seq<char>>(pages.drop_first()),
{
    lemma_page_len(b, pos);
    let page = page_at(b, pos)->Ok_0;
    let rest = pages_at(b, pos + page.raw_len)->Ok_0;
    assert(pages == seq![page] + rest);
    assert((seq![page] + rest).drop_first() =~= rest);
}

/// Copies the pages after the first `skipped`, numbered from `first` on.
pub fn copy_pages(
    table: &CrcTable,
    bytes: &[u8],
    pages: &Vec<OggPage>,
    skipped: usize,
    first: usize,
) -> (r: Vec<u8>)
    requires
        table.filled(),
        pages_at(bytes@, 0) == Ok::<Seq<Page>, Seq<char>>(page_views(pages@)),
        skipped <= pages@.len(),
        first <= 4,
    ensures
        r@ == copied_from(bytes@, page_start(bytes@, skipped as int), first as int),
{
    let ghost all = page_views(pages@);
    let mut pos: usize = 0;
    let mut k: usize = 0;
    let n: usize = pages.len();
    assert(all.skip(0) =~= all);
    while k < skipped
        invariant
            k <= skipped <= n,
            n == pages.len(),
            all == page_views(pages@),
            pos == page_start(bytes@, k as int),
            pos <= bytes.len(),
            pages_at(bytes@, pos as int) == Ok::<Seq<Page>, Seq<char>>(all.skip(k as int)),
        decreases skipped - k,
    {
        proof {
            lemma_pages_step(bytes@, pos as int, all.skip(k as int));
            assert(all.skip(k as int)[0] == pages@[k as int]@);
            assert(all.skip(k as int).drop_first() =~= all.skip(k + 1));
        }
        pos = pos + pages[k].raw_len;
        k = k + 1;
    }
    let ghost start = pos as int;
    let ghost goal = copied_from(bytes@, start, first as int);
    let mut out: Vec<u8> = Vec::new();
    let mut sequence: u64 = first as u64;
    assert(out@ + goal =~= goal);
    while k < n
        invariant
            skipped <= k <= n,
            n == pages.len(),
            table.filled(),
            sequence < 0x1_0000_0000,
            all == page_views(pages@),
            pos <= bytes.len(),
            pages_at(bytes@, pos as int) == Ok::<Seq<Page>, Seq<char>>(all.skip(k as int)),
            out@ + copied_from(bytes@, pos as int, sequence as int) == goal,
        decreases n - k,
    {
        let ghost done = out@;
        proof {
            lemma_pages_step(bytes@, pos as int, all.skip(k as int));
            assert(all.skip(k as int)[0] == pages@[k as int]@);
            assert(all.skip(k as int).drop_first() =~= all.skip(k + 1));
        }
        let end: usize = pos + pages[k].raw_len;
        let page = renumber(table, slice_subrange(bytes, pos, end), sequence);
        append_bytes(&mut out, &page);
        sequence = (sequence + 1) % 0x1_0000_0000;
        assert(done + (page@ + copied_from(bytes@, end as int, sequence as int)) =~= out@
            + copied_from(bytes@, end as int, sequence as int));
        pos = end;
        k = k + 1;
    }
    proof {
        assert(all.skip(k as int) =~= seq![]);
        lemma_page_len(bytes@, pos as int);
        if pos < bytes@.len() {
            assert(page_at(bytes@, pos as int) is Ok);
            assert(all.skip(k as int).len() > 0);
        }
        assert(out@ + Seq::<u8>::empty() =~= out@);
    }
    out
}

/// The pages of a stream that can be parsed.
pub open spec fn pages_of(b: Seq<u8>) -> Seq<Page> {
    pages_at(b, 0)->Ok_0
}

/// The packets of a stream that can be parsed.
pub open spec fn packets_of(b: Seq<u8>) -> Seq<PacketContent> {
    packets_from(pages_of(b), 0, seq![])
}

/// The message with which a stream is refused that does not start with two packets of a known
/// codec.
pub open spec fn refusal(b: Seq<u8>) -> Option<Seq<char>> {
    match pages_at(b, 0) {
        Err(message) => Some(message),
        Ok(pages) => if pages.len() == 0 {
            Some("empty OGG file"@)
        } else if packets_of(b).len() < 2 {
            Some("OGG stream missing header packets"@)
        } else if codec_of(packets_of(b)[0].data) is None {
            Some("unknown OGG codec (not Vorbis or Opus)"@)
        } else {
            None
        },
    }
}

/// The codec of a stream.
pub open spec fn codec_in(b: Seq<u8>) -> Codec {
    codec_of(packets_of(b)[0].data)->0
}

/// The comments of a stream.
pub open spec fn comments_in(b: Seq<u8>) -> Result<Comments, Fault> {
    comments_of(body_of(packets_of(b)[1].data, codec_in(b)))
}

/// The comment packet of a stream with `lyrics` in it.
pub open spec fn new_comment_packet(b: Seq<u8>, lyrics: Seq<char>) -> Seq<u8> {
    let c = comments_in(b)->Ok_0;
    comment_prefix(codec_in(b)) + comment_bytes(
        Comments {
            vendor: encode_utf8(as_text(c.vendor)),
            entries: with_lyrics(c.entries, lyrics),
        },
    )
}

/// The packets of a stream with `lyrics` in them.
pub open spec fn new_packets(b: Seq<u8>, lyrics: Seq<char>) -> Seq<PacketContent> {
    let packets = packets_of(b);
    packets.update(
        1,
        PacketContent { data: new_comment_packet(b, lyrics), end_page: packets[1].end_page },
    )
}

/// The header pages of a stream with `lyrics` in them, or the message of the error.
pub open spec fn new_headers(b: Seq<u8>, lyrics: Seq<char>) -> Result<Seq<u8>, Seq<char>> {
    headers_from(new_packets(b, lyrics), pages_of(b)[0].serial, 0, header_packets(codec_in(b)))
}

/// The number of pages up to the one on which the last header packet ends.
pub open spec fn header_pages(b: Seq<u8>) -> int {
    packets_of(b)[header_packets(codec_in(b)) - 1].end_page + 1
}

/// The segments after the first `m` that end a packet.
pub open spec fn after_packets(segments: Seq<Seq<u8>>, m: int) -> Seq<Seq<u8>>
    decreases segments.len(),
{
    if m <= 0 || segments.len() == 0 {
        segments
    } else if segments[0].len() < 255 {
        after_packets(segments.drop_first(), m - 1)
    } else {
        after_packets(segments.drop_first(), m)
    }
}

/// The number of packets that end before page `page`.
pub open spec fn packets_before(pages: Seq<Page>, page: int) -> int {
    packets_from(pages.take(page), 0, seq![]).len() as int
}

/// What follows packet `n - 1`, which ends on page `page`, on that page.
pub open spec fn following(pages: Seq<Page>, page: int, n: int) -> Seq<Seq<u8>> {
    after_packets(pages[page].segments, n - packets_before(pages, page))
}

/// The segments that follow the last header packet on its page.
#[verifier::opaque]
pub open spec fn spare_segments(b: Seq<u8>) -> Seq<Seq<u8>> {
    following(pages_of(b), header_pages(b) - 1, header_packets(codec_in(b)))
}

/// The lengths of segments.
pub open spec fn lengths(segments: Seq<Seq<u8>>) -> Seq<u8> {
    Seq::new(segments.len(), |i: int| segments[i].len() as u8)
}

/// Segments, one after another.
pub open spec fn run_together(segments: Seq<Seq<u8>>) -> Seq<u8>
    decreases segments.len(),
{
    if segments.len() == 0 {
        seq![]
    } else {
        segments[0] + run_together(segments.drop_first())
    }
}

/// The page that holds some segments.
#[verifier::opaque]
pub open spec fn segment_page(
    header_type: u8,
    granule: u64,
    serial: u32,
    sequence: int,
    segments: Seq<Seq<u8>>,
) -> Seq<u8> {
    sealed(
        magic() + seq![0u8, header_type] + le64_bytes(granule as int) + le32_bytes(serial as int)
            + le32_bytes(sequence) + seq![0u8, 0, 0, 0, segments.len() as u8] + lengths(segments)
            + run_together(segments),
    )
}

/// The page for what follows the last header packet on its page, where anything does. It is not
/// the first page of the stream and continues no packet; it may be the last one.
pub open spec fn carried_page(b: Seq<u8>) -> Seq<u8> {
    let old_page = pages_of(b)[header_pages(b) - 1];
    if spare_segments(b).len() == 0 {
        seq![]
    } else {
        segment_page(
            (old_page.header_type / 4 * 4) as u8,
            old_page.granule,
            old_page.serial,
            header_packets(codec_in(b)),
            spare_segments(b),
        )
    }
}

/// The number of the first page that is copied.
pub open spec fn first_copied(b: Seq<u8>) -> int {
    if spare_segments(b).len() == 0 {
        header_packets(codec_in(b))
    } else {
        header_packets(codec_in(b)) + 1
    }
}

/// What is written after the header pages.
#[verifier::opaque]
pub open spec fn tail_of(b: Seq<u8>) -> Seq<u8> {
    carried_page(b) + copied_from(b, page_start(b, header_pages(b)), first_copied(b))
}

/// The sample rate of the granule clock: from the identification header for Vorbis, fixed for
/// Opus.
pub open spec fn clock(codec: Codec, id: Seq<u8>) -> int {
    match codec {
        Codec::Vorbis => if id.len() >= 16 {
            le32(id, 12)
        } else {
            0
        },
        Codec::Opus => 48_000,
    }
}

/// The duration in seconds by the granule position of the last page, where it is positive.
pub open spec fn duration_of(granule: u64, rate: int) -> int {
    if 0 < granule < 0x8000_0000_0000_0000 && rate > 0 {
        granule as int / rate % 0x1_0000_0000
    } else {
        0
    }
}

/// Reads the sample rate of the granule clock.
pub fn sample_rate(codec: Codec, id: &[u8]) -> (r: u32)
    ensures
        r == clock(codec, id@),
{
    match codec {
        Codec::Vorbis => if id.len() >= 16 {
            read_le32(id, 12)
        } else {
            0
        },
        Codec::Opus => 48_000,
    }
}

/// How far an edit gets before the audio pages are copied.
enum Prepared {
    /// The result is there already.
    Finished(Result<Edit, MetaError>),
    /// A header packet is shorter than its magic prefix, or missing.
    Incomplete,
    /// The new pages up to those that are copied, the pages of the stream, and the numbers of old
    /// and new pages before those.
    Ready(Vec<u8>, Vec<OggPage>, usize, usize),
}

/// The page on which a packet ends is one of those that were read.
proof fn lemma_end_pages(pages: Seq<Page>, page: int, current: Seq<u8>)
    ensures
        forall|i: int|
            0 <= i < packets_from(pages, page, current).len() ==> page <= (#[trigger] packets_from(
                pages,
                page,
                current,
            )[i]).end_page < page + pages.len(),
    decreases pages.len(),
{
    if pages.len() > 0 {
        let here = packets_in(pages[0].segments, current, page);
        let rest = packets_from(
            pages.drop_first(),
            page + 1,
            left_over(pages[0].segments, current),
        );
        let all = packets_from(pages, page, current);
        lemma_end_page(pages[0].segments, current, page);
        lemma_end_pages(pages.drop_first(), page + 1, left_over(pages[0].segments, current));
        assert forall|i: int| 0 <= i < all.len() implies page <= (#[trigger] all[i]).end_page < page
            + pages.len() by {
            if i < here.len() {
                assert(all[i] == here[i]);
            } else {
                assert(all[i] == rest[i - here.len()]);
            }
        }
    }
}

proof fn lemma_end_page(segments: Seq<Seq<u8>>, current: Seq<u8>, page: int)
    ensures
        forall|i: int|
            0 <= i < packets_in(segments, current, page).len() ==> (#[trigger] packets_in(
                segments,
                current,
                page,
            )[i]).end_page == page,
    decreases segments.len(),
{
    if segments.len() > 0 {
        let all = packets_in(segments, current, page);
        if segments[0].len() < 255 {
            lemma_end_page(segments.drop_first(), seq![], page);
            let rest = packets_in(segments.drop_first(), seq![], page);
            assert forall|i: int| 0 <= i < all.len() implies (#[trigger] all[i]).end_page == page by {
                if i > 0 {
                    assert(all[i] == rest[i - 1]);
                }
            }
        } else {
            lemma_end_page(segments.drop_first(), current + segments[0], page);
            assert(all == packets_in(segments.drop_first(), current + segments[0], page));
        }
    }
}

/// The packets after the first `m` of a page are those of the segments after them.
proof fn lemma_after_packets(segments: Seq<Seq<u8>>, current: Seq<u8>, page: int, m: int)
    requires
        0 < m <= packets_in(segments, current, page).len(),
    ensures
        packets_in(segments, current, page).skip(m) == packets_in(
            after_packets(segments, m),
            seq![],
            page,
        ),
        left_over(segments, current) == left_over(after_packets(segments, m), seq![]),
    decreases segments.len(),
{
    if segments.len() > 0 {
        let all = packets_in(segments, current, page);
        let rest = segments.drop_first();
        if segments[0].len() < 255 {
            let later = packets_in(rest, seq![], page);
            assert(all.skip(m) =~= later.skip(m - 1));
            if m == 1 {
                assert(later.skip(0) =~= later);
                assert(after_packets(rest, 0) == rest);
            } else {
                lemma_after_packets(rest, seq![], page, m - 1);
            }
        } else {
            lemma_after_packets(rest, current + segments[0], page, m);
        }
    }
}

/// The packets of a stream up to page `page`, on which packet `n - 1` ends, and after it.
#[verifier::spinoff_prover]
#[verifier::rlimit(40)]
proof fn lemma_split_at(pages: Seq<Page>, page: int, n: int)
    requires
        0 < n <= packets_from(pages, 0, seq![]).len(),
        page == packets_from(pages, 0, seq![])[n - 1].end_page,
    ensures
        ({
            let all = packets_from(pages, 0, seq![]);
            let left = remainder(pages.take(page), seq![]);
            let here = packets_in(pages[page].segments, left, page);
            let m = n - packets_before(pages, page);
            &&& 0 <= page < pages.len()
            &&& 0 < m <= here.len()
            &&& forall|j: int| 0 <= j < n - m ==> (#[trigger] all[j]).end_page < page
            &&& forall|j: int| n - m <= j < n ==> (#[trigger] all[j]).end_page == page
            &&& all.skip(n) == here.skip(m) + packets_from(
                pages.skip(page + 1),
                page + 1,
                left_over(pages[page].segments, left),
            )
        }),
{
    let all = packets_from(pages, 0, seq![]);
    lemma_end_pages(pages, 0, seq![]);
    let left = remainder(pages.take(page), seq![]);
    let first = packets_from(pages.take(page), 0, seq![]);
    let here = packets_in(pages[page].segments, left, page);
    let rest = packets_from(
        pages.skip(page + 1),
        page + 1,
        left_over(pages[page].segments, left),
    );
    let m = n - first.len();
    lemma_packets_split(pages, page, 0, seq![]);
    assert(pages.skip(page)[0] == pages[page]);
    assert(pages.skip(page).drop_first() =~= pages.skip(page + 1));
    assert(all == first + (here + rest));
    lemma_end_pages(pages.take(page), 0, seq![]);
    lemma_end_page(pages[page].segments, left, page);
    lemma_end_pages(pages.skip(page + 1), page + 1, left_over(pages[page].segments, left));
    if n - 1 < first.len() {
        assert(all[n - 1] == first[n - 1]);
    }
    if n - 1 >= first.len() + here.len() {
        assert(all[n - 1] == rest[n - 1 - first.len() - here.len()]);
    }
    assert forall|j: int| 0 <= j < n - m implies (#[trigger] all[j]).end_page < page by {
        assert(all[j] == first[j]);
    }
    assert forall|j: int| n - m <= j < n implies (#[trigger] all[j]).end_page == page by {
        assert(all[j] == here[j - first.len()]);
    }
    assert(all.skip(n) =~= here.skip(m) + rest);
}

/// Copies what follows packet `n - 1` on the page on which it ends.
fn take_following(pages: &Vec<OggPage>, packets: &Vec<Packet>, n: usize) -> (r: Vec<Vec<u8>>)
    requires
        0 < n <= packets@.len(),
        packet_views(packets@) == packets_from(page_views(pages@), 0, seq![]),
    ensures
        views(r@) == following(page_views(pages@), packets@[n - 1].end_page as int, n as int),
{
    let ghost all = packet_views(packets@);
    let ghost pages_read = page_views(pages@);
    let page: usize = packets[n - 1].end_page;
    let ghost m = n - packets_before(pages_read, page as int);
    proof {
        assert(all[n - 1] == packets@[n - 1]@);
        lemma_split_at(pages_read, page as int, n as int);
        assert(pages_read[page as int] == pages@[page as int]@);
    }
    let mut before: usize = 0;
    while before < n && packets[before].end_page < page
        invariant
            before <= n <= packets@.len(),
            all == packet_views(packets@),
            before <= n - m,
            forall|j: int| n - m <= j < n ==> (#[trigger] all[j]).end_page == page,
        decreases n - before,
    {
        assert(all[before as int] == packets@[before as int]@);
        before = before + 1;
    }
    proof {
        if before < n - m {
            assert(all[before as int] == packets@[before as int]@);
            assert(all[before as int].end_page < page);
        }
    }
    let segments = &pages[page].segments;
    let ghost here = views(segments@);
    let mut i: usize = 0;
    let mut left: usize = n - before;
    assert(here.skip(0) =~= here);
    while i < segments.len() && left > 0
        invariant
            i <= segments@.len(),
            here == views(segments@),
            after_packets(here, m) == after_packets(here.skip(i as int), left as int),
        decreases segments@.len() - i,
    {
        let ghost rest = here.skip(i as int);
        assert(rest[0] == segments@[i as int]@);
        assert(rest.drop_first() =~= here.skip(i + 1));
        if segments[i].len() < 255 {
            left = left - 1;
        }
        i = i + 1;
    }
    assert(after_packets(here, m) == here.skip(i as int)) by {
        if left > 0 {
            assert(here.skip(i as int) =~= seq![]);
        }
    }
    let mut r: Vec<Vec<u8>> = Vec::new();
    let mut j: usize = i;
    assert(views(r@) =~= here.skip(i as int).take(0));
    while j < segments.len()
        invariant
            i <= j <= segments@.len(),
            here == views(segments@),
            views(r@) == here.skip(i as int).take(j - i),
        decreases segments@.len() - j,
    {
        let copy = copy_range(&segments[j], 0, segments[j].len());
        assert(copy@ =~= segments@[j as int]@);
        let ghost done = views(r@);
        r.push(copy);
        assert(views(r@) =~= done.push(copy@));
        assert(here.skip(i as int).take(j + 1 - i) =~= done.push(here[j as int]));
        j = j + 1;
    }
    assert(here.skip(i as int).take(j - i) =~= here.skip(i as int));
    r
}

/// Whether segments fit on a page.
pub open spec fn fit_on_page(segments: Seq<Seq<u8>>) -> bool {
    segments.len() <= 255 && forall|i: int|
        0 <= i < segments.len() ==> (#[trigger] segments[i]).len() <= 255
}

proof fn lemma_segments_fit(b: Seq<u8>, table: int, data: int, n: int)
    requires
        0 <= n,
        0 <= data,
        data + byte_sum(b, table, n) <= b.len(),
    ensures
        segments_at(b, table, data, n).len() == n,
        forall|i: int|
            0 <= i < n ==> (#[trigger] segments_at(b, table, data, n)[i]).len() <= 255,
    decreases n,
{
    if n > 0 {
        let all = segments_at(b, table, data, n);
        let rest = segments_at(b, table + 1, data + b[table], n - 1);
        lemma_byte_sum(b, table + 1, n - 1, n - 1);
        lemma_segments_fit(b, table + 1, data + b[table], n - 1);
        assert forall|i: int| 0 <= i < n implies (#[trigger] all[i]).len() <= 255 by {
            if i > 0 {
                assert(all[i] == rest[i - 1]);
            }
        }
    }
}

/// The segments of every page that was parsed fit on a page.
proof fn lemma_pages_fit(b: Seq<u8>, pos: int, pages: Seq<Page>, i: int)
    requires
        0 <= pos,
        pages_at(b, pos) == Ok::<Seq<Page>, Seq<char>>(pages),
        0 <= i < pages.len(),
    ensures
        fit_on_page(pages[i].segments),
    decreases i,
{
    lemma_pages_step(b, pos, pages);
    if i == 0 {
        lemma_byte_sum(b, pos + 27, b[pos + 26] as int, b[pos + 26] as int);
        lemma_segments_fit(b, pos + 27, pos + 27 + b[pos + 26], b[pos + 26] as int);
    } else {
        lemma_pages_fit(b, pos + page_len(b, pos), pages.drop_first(), i - 1);
    }
}

proof fn lemma_after_fits(segments: Seq<Seq<u8>>, m: int)
    requires
        fit_on_page(segments),
    ensures
        fit_on_page(after_packets(segments, m)),
    decreases segments.len(),
{
    if m > 0 && segments.len() > 0 {
        let rest = segments.drop_first();
        assert forall|i: int| 0 <= i < rest.len() implies (#[trigger] rest[i]).len() <= 255 by {
            assert(rest[i] == segments[i + 1]);
        }
        lemma_after_fits(rest, m - 1);
        lemma_after_fits(rest, m);
    }
}

/// Serialises a page that holds some segments.
fn build_segment_page(
    table: &CrcTable,
    header_type: u8,
    granule: u64,
    serial: u32,
    sequence: u32,
    segments: &Vec<Vec<u8>>,
) -> (r: Vec<u8>)
    requires
        table.filled(),
        fit_on_page(views(segments@)),
    ensures
        r@ == segment_page(header_type, granule, serial, sequence as int, views(segments@)),
{
    let ghost all = views(segments@);
    let mut page: Vec<u8> = vec![0x4f, 0x67, 0x67, 0x53, 0, header_type];
    assert(page@ =~= magic() + seq![0u8, header_type]);
    push_le64(&mut page, granule);
    push_le32(&mut page, serial as u64);
    push_le32(&mut page, sequence as u64);
    page.push(0);
    page.push(0);
    page.push(0);
    page.push(0);
    page.push(segments.len() as u8);
    let ghost front = page@;
    assert(front =~= magic() + seq![0u8, header_type] + le64_bytes(granule as int) + le32_bytes(
        serial as int,
    ) + le32_bytes(sequence as int) + seq![0u8, 0, 0, 0, all.len() as u8]);
    let mut i: usize = 0;
    assert(front + lengths(all).take(0) =~= front);
    while i < segments.len()
        invariant
            i <= segments@.len(),
            all == views(segments@),
            fit_on_page(all),
            page@ == front + lengths(all).take(i as int),
        decreases segments@.len() - i,
    {
        assert(all[i as int] == segments@[i as int]@);
        let ghost done = page@;
        page.push(segments[i].len() as u8);
        assert(page@ =~= front + lengths(all).take(i + 1));
        i = i + 1;
    }
    assert(lengths(all).take(i as int) =~= lengths(all));
    let ghost head = page@;
    let mut j: usize = 0;
    assert(all.skip(0) =~= all);
    while j < segments.len()
        invariant
            j <= segments@.len(),
            all == views(segments@),
            page@ + run_together(all.skip(j as int)) == head + run_together(all),
        decreases segments@.len() - j,
    {
        let ghost done = page@;
        let ghost rest = all.skip(j as int);
        assert(rest[0] == segments@[j as int]@);
        assert(rest.drop_first() =~= all.skip(j + 1));
        append_bytes(&mut page, &segments[j]);
        assert(page@ + run_together(all.skip(j + 1)) =~= done + run_together(rest));
        j = j + 1;
    }
    assert(all.skip(j as int) =~= seq![]);
    assert(page@ =~= head + run_together(all));
    recompute_crc(table, &mut page);
    proof {
        reveal(segment_page);
    }
    page
}

/// Takes an edit as far as the new header pages.
fn prepare(table: &CrcTable, bytes: &[u8], lyrics: &str, force: bool) -> (r: Prepared)
    requires
        table.filled(),
    ensures
        match r {
            Prepared::Finished(result) => Ogg::editable(bytes@, lyrics@, force) && edit_agrees(
                result,
                Ogg::edited(bytes@, lyrics@, force),
            ),
            Prepared::Incomplete => !Ogg::editable(bytes@, lyrics@, force),
            Prepared::Ready(out, pages, old_pages, new_pages) => Ogg::editable(
                bytes@,
                lyrics@,
                force,
            ) && pages_at(bytes@, 0) == Ok::<Seq<Page>, Seq<char>>(page_views(pages@)) && old_pages
                <= pages@.len() && new_pages <= 4 && Ogg::edited(bytes@, lyrics@, force) == Ok::<
                Option<Seq<u8>>,
                Seq<char>,
            >(
                Some(
                    out@ + copied_from(
                        bytes@,
                        page_start(bytes@, old_pages as int),
                        new_pages as int,
                    ),
                ),
            ),
        },
{
    let pages = match parse_pages(bytes) {
        Ok(pages) => pages,
        Err(e) => return Prepared::Finished(Err(e)),
    };
    if pages.len() == 0 {
        return Prepared::Finished(Err(MetaError::new("empty OGG file")));
    }
    let serial: u32 = pages[0].serial;
    let mut packets = reconstruct_packets(&pages);
    let ghost all = packet_views(packets@);
    if packets.len() < 2 {
        return Prepared::Finished(Err(MetaError::new("OGG stream missing header packets")));
    }
    assert(all[0] == packets@[0]@ && all[1] == packets@[1]@);
    let codec = match detect_codec(&packets[0].data) {
        Ok(codec) => codec,
        Err(e) => return Prepared::Finished(Err(e)),
    };
    let n: usize = header_packet_count(codec);
    let prefix: usize = match codec {
        Codec::Vorbis => 7,
        Codec::Opus => 8,
    };
    if packets[1].data.len() < prefix {
        return Prepared::Incomplete;
    }
    let (vendor, comments) = match parse_vorbis_comment(comment_body(&packets[1].data, codec)) {
        Ok(pair) => pair,
        Err(fault) => return Prepared::Finished(Err(fault_error(fault))),
    };
    if !force && find_comment(&comments, "LYRICS").is_some() {
        return Prepared::Finished(Ok(Edit::Unchanged));
    }
    let spare: Vec<Vec<u8>> = if packets.len() >= n {
        take_following(&pages, &packets, n)
    } else {
        Vec::new()
    };
    let comments = replace_lyrics(&comments, lyrics);
    let body = build_vorbis_comment(&vendor, &comments);
    let comment_packet = Packet {
        data: rebuild_comment_packet(codec, &body),
        end_page: packets[1].end_page,
    };
    let ghost view = comment_packet@;
    packets[1] = comment_packet;
    assert(packet_views(packets@) =~= all.update(1, view));
    assert(packet_views(packets@) == new_packets(bytes@, lyrics@));
    let mut out = match build_headers(table, &packets, serial, n) {
        Ok(out) => out,
        Err(e) => return Prepared::Finished(Err(e)),
    };
    if packets.len() < n {
        return Prepared::Incomplete;
    }
    proof {
        lemma_end_pages(page_views(pages@), 0, seq![]);
        assert(packet_views(packets@)[n - 1] == packets@[n - 1]@);
        assert(all[n - 1].end_page == packets@[n - 1].end_page);
        reveal(tail_of);
        reveal(spare_segments);
        assert(views(spare@) == spare_segments(bytes@));
    }
    let old_pages: usize = packets[n - 1].end_page + 1;
    let ghost head = out@;
    let ghost copied = page_start(bytes@, old_pages as int);
    if spare.len() == 0 {
        proof {
            let rest = copied_from(bytes@, copied, n as int);
            assert(carried_page(bytes@) + rest =~= rest);
        }
        return Prepared::Ready(out, pages, old_pages, n);
    }
    let old_page = &pages[old_pages - 1];
    proof {
        let page = page_views(pages@)[old_pages - 1];
        assert(page == old_page@);
        lemma_pages_fit(bytes@, 0, page_views(pages@), old_pages - 1);
        lemma_after_fits(page.segments, n - packets_before(page_views(pages@), old_pages - 1));
    }
    let page = build_segment_page(
        table,
        old_page.header_type / 4 * 4,
        old_page.granule,
        old_page.serial,
        n as u32,
        &spare,
    );
    append_bytes(&mut out, &page);
    proof {
        let rest = copied_from(bytes@, copied, n + 1);
        assert(page@ == carried_page(bytes@));
        assert(head + (page@ + rest) =~= out@ + rest);
    }
    Prepared::Ready(out, pages, old_pages, n + 1)
}

impl AudioFormat for Ogg {
    open spec fn readable(b: Seq<u8>) -> bool {
        (pages_at(b, 0) is Ok && packets_of(b).len() >= 2 && codec_of(packets_of(b)[0].data) is Some)
            ==> packets_of(b)[1].data.len() >= comment_prefix(codec_in(b)).len()
    }

    open spec fn metadata(b: Seq<u8>, filepath: Seq<char>) -> Result<Track, Seq<char>> {
        match pages_at(b, 0) {
            Err(message) => Err(message),
            Ok(pages) => if pages.len() == 0 {
                Err("empty OGG file"@)
            } else if packets_of(b).len() == 0 {
                Err("OGG stream has no packets"@)
            } else if codec_of(packets_of(b)[0].data) is None {
                Err("unknown OGG codec (not Vorbis or Opus)"@)
            } else {
                let track = if packets_of(b).len() >= 2 {
                    match comments_in(b) {
                        Ok(c) => tagged(blank(filepath), c.entries),
                        Err(_) => blank(filepath),
                    }
                } else {
                    blank(filepath)
                };
                Ok(
                    Track {
                        duration: duration_of(
                            pages.last().granule,
                            clock(codec_in(b), packets_of(b)[0].data),
                        ) as u32,
                        ..track
                    },
                )
            },
        }
    }

    open spec fn editable(b: Seq<u8>, lyrics: Seq<char>, force: bool) -> bool {
        refusal(b) is Some || (packets_of(b)[1].data.len() >= comment_prefix(codec_in(b)).len() && (
        match comments_in(b) {
            Ok(c) => {
                ||| !force && find_value(c.entries, lyrics_key()) is Some
                ||| new_headers(b, lyrics) is Err
                ||| packets_of(b).len() >= header_packets(codec_in(b))
            },
            Err(_) => true,
        }))
    }

    open spec fn edited(b: Seq<u8>, lyrics: Seq<char>, force: bool) -> Result<
        Option<Seq<u8>>,
        Seq<char>,
    > {
        if let Some(message) = refusal(b) {
            Err(message)
        } else {
            match comments_in(b) {
                Err(fault) => Err(fault_message(fault)),
                Ok(c) => if !force && find_value(c.entries, lyrics_key()) is Some {
                    Ok(None)
                } else {
                    match new_headers(b, lyrics) {
                        Err(message) => Err(message),
                        Ok(head) => Ok(Some(head + tail_of(b))),
                    }
                },
            }
        }
    }

    fn can_read(bytes: &[u8]) -> (r: bool) {
        let pages = match parse_pages(bytes) {
            Ok(pages) => pages,
            Err(_) => return true,
        };
        let packets = reconstruct_packets(&pages);
        let ghost all = packet_views(packets@);
        if packets.len() < 2 {
            return true;
        }
        assert(all[0] == packets@[0]@ && all[1] == packets@[1]@);
        match detect_codec(&packets[0].data) {
            Ok(Codec::Vorbis) => packets[1].data.len() >= 7,
            Ok(Codec::Opus) => packets[1].data.len() >= 8,
            Err(_) => true,
        }
    }

    fn can_sync(bytes: &[u8], lyrics: &str, force: bool) -> (r: bool) {
        match prepare(&crc_table(), bytes, lyrics, force) {
            Prepared::Incomplete => false,
            _ => true,
        }
    }

    fn read_metadata(bytes: &[u8], filepath: &str) -> (r: Result<TrackMeta, MetaError>) {
        let pages = match parse_pages(bytes) {
            Ok(pages) => pages,
            Err(e) => return Err(e),
        };
        if pages.len() == 0 {
            return Err(MetaError::new("empty OGG file"));
        }
        let packets = reconstruct_packets(&pages);
        let ghost all = packet_views(packets@);
        if packets.len() == 0 {
            return Err(MetaError::new("OGG stream has no packets"));
        }
        assert(all[0] == packets@[0]@);
        let codec = match detect_codec(&packets[0].data) {
            Ok(codec) => codec,
            Err(e) => return Err(e),
        };
        let mut track = blank_track(filepath);
        let rate: u32 = sample_rate(codec, &packets[0].data);
        if packets.len() >= 2 {
            assert(all[1] == packets@[1]@);
            let body = comment_body(&packets[1].data, codec);
            if let Ok((_, comments)) = parse_vorbis_comment(body) {
                apply_tags(&mut track, &comments);
            }
        }
        let granule: u64 = pages[pages.len() - 1].granule;
        assert(page_views(pages@).last() == pages@[pages@.len() - 1]@);
        if 0 < granule && granule < 0x8000_0000_0000_0000 && rate > 0 {
            track.duration = (granule / (rate as u64) % 0x1_0000_0000) as u32;
        }
        Ok(track)
    }

    fn sync_lyrics(bytes: &[u8], lyrics: &str, force: bool) -> (r: Result<Edit, MetaError>) {
        let table = crc_table();
        match prepare(&table, bytes, lyrics, force) {
            Prepared::Finished(result) => result,
            Prepared::Incomplete => Ok(Edit::Unchanged),
            Prepared::Ready(head, pages, old_pages, new_pages) => {
                let mut out = head;
                let audio = copy_pages(&table, bytes, &pages, old_pages, new_pages);
                append_bytes(&mut out, &audio);
                Ok(Edit::Rewritten(out))
            },
        }
    }
}

/// Whether `p` is exactly one page.
pub open spec fn whole_page(p: Seq<u8>) -> bool {
    page_at(p, 0) is Ok && page_len(p, 0) == p.len()
}

proof fn lemma_same_sum(a: Seq<u8>, b: Seq<u8>, i: int, j: int, n: int)
    requires
        0 <= i,
        0 <= j,
        i + n <= a.len(),
        j + n <= b.len(),
        forall|k: int| 0 <= k < n ==> #[trigger] a[i + k] == b[j + k],
    ensures
        byte_sum(a, i, n) == byte_sum(b, j, n),
    decreases n,
{
    if n > 0 {
        assert(a[i + 0] == b[j + 0]);
        assert forall|k: int| 0 <= k < n - 1 implies #[trigger] a[i + 1 + k] == b[j + 1 + k] by {
            assert(a[i + (k + 1)] == b[j + (k + 1)]);
        }
        lemma_same_sum(a, b, i + 1, j + 1, n - 1);
    }
}

/// The same bytes at another place hold the same segments.
proof fn lemma_same_segments(
    a: Seq<u8>,
    b: Seq<u8>,
    table: int,
    data: int,
    shift: int,
    n: int,
)
    requires
        0 <= n,
        0 <= table,
        table + n <= data,
        data + byte_sum(a, table, n) <= a.len(),
        0 <= table + shift,
        shift + data + byte_sum(a, table, n) <= b.len(),
        forall|k: int|
            table <= k < data + byte_sum(a, table, n) ==> #[trigger] a[k] == b[k + shift],
    ensures
        segments_at(b, table + shift, data + shift, n) == segments_at(a, table, data, n),
    decreases n,
{
    if n > 0 {
        lemma_byte_sum(a, table, n, 1);
        lemma_byte_sum(a, table, 1, 1);
        assert(byte_sum(a, table, 1) == a[table]) by {
            assert(byte_sum(a, table + 1, 0) == 0);
        }
        assert(a[table] == b[table + shift]);
        let len = a[table] as int;
        assert(b.subrange(data + shift, data + shift + len) =~= a.subrange(data, data + len));
        lemma_same_segments(a, b, table + 1, data + len, shift, n - 1);
        assert(table + shift + 1 == table + 1 + shift);
        assert(data + shift + len == data + len + shift);
    }
}

/// A page is parsed wherever it stands.
#[verifier::spinoff_prover]
#[verifier::rlimit(40)]
proof fn lemma_page_in(before: Seq<u8>, p: Seq<u8>, after: Seq<u8>)
    requires
        whole_page(p),
    ensures
        page_at(before + p + after, before.len() as int) == page_at(p, 0),
        page_len(before + p + after, before.len() as int) == p.len(),
        p.len() >= 27,
{
    let b = before + p + after;
    let pos = before.len() as int;
    let n = p[26] as int;
    assert(forall|k: int| 0 <= k < p.len() ==> #[trigger] p[k] == b[k + pos]);
    lemma_page_len(p, 0);
    lemma_byte_sum(p, 27, n, n);
    assert forall|k: int| 0 <= k < n implies #[trigger] p[27 + k] == b[pos + 27 + k] by {
        assert(p[27 + k] == b[(27 + k) + pos]);
    }
    lemma_same_sum(p, b, 27, pos + 27, n);
    assert(p[26] == b[pos + 26]);
    assert(b.subrange(pos, pos + 4) =~= p.subrange(0, 4));
    assert(p[5] == b[pos + 5]);
    assert(le64(b, pos + 6) == le64(p, 6)) by {
        assert(p[6] == b[pos + 6] && p[7] == b[pos + 7] && p[8] == b[pos + 8] && p[9] == b[pos + 9]
            && p[10] == b[pos + 10] && p[11] == b[pos + 11] && p[12] == b[pos + 12] && p[13] == b[pos
            + 13]);
    }
    assert(le32(b, pos + 14) == le32(p, 14)) by {
        assert(p[14] == b[pos + 14] && p[15] == b[pos + 15] && p[16] == b[pos + 16] && p[17] == b[pos
            + 17]);
    }
    assert(le32(b, pos + 18) == le32(p, 18)) by {
        assert(p[18] == b[pos + 18] && p[19] == b[pos + 19] && p[20] == b[pos + 20] && p[21] == b[pos
            + 21]);
    }
    assert(27 + n + byte_sum(p, 27, n) == p.len());
    lemma_same_segments(p, b, 27, 27 + n, pos, n);
    assert(pos + 27 + n == 27 + n + pos);
    assert(pos + 27 == 27 + pos);
}

/// Whether every page from `pos` on carries the CRC of its own bytes.
pub open spec fn intact(b: Seq<u8>, pos: int) -> bool
    decreases b.len() - pos,
{
    let end = pos + page_len(b, pos);
    if pos < 0 || end <= pos || end > b.len() {
        true
    } else {
        sealed(b.subrange(pos, end)) == b.subrange(pos, end) && intact(b, end)
    }
}

/// A page followed by others.
proof fn lemma_pages_cons(before: Seq<u8>, p: Seq<u8>, after: Seq<u8>)
    requires
        whole_page(p),
    ensures
        pages_at(before + p + after, before.len() as int) == prefixed(
            seq![page_at(p, 0)->Ok_0],
            pages_at((before + p) + after, (before + p).len() as int),
        ),
        sealed(p) == p && intact((before + p) + after, (before + p).len() as int) ==> intact(
            before + p + after,
            before.len() as int,
        ),
{
    lemma_page_in(before, p, after);
    let b = before + p + after;
    assert(b.subrange(before.len() as int, (before.len() + p.len()) as int) =~= p);
    assert((before + p).len() == before.len() + p.len());
}

/// A page in which only the sequence number and the CRC are others.
#[verifier::spinoff_prover]
#[verifier::rlimit(60)]
proof fn lemma_resequenced(p: Seq<u8>, sequence: int)
    requires
        whole_page(p),
        0 <= sequence < 0x1_0000_0000,
    ensures
        whole_page(resequenced(p, sequence)),
        resequenced(p, sequence).len() == p.len(),
        page_at(resequenced(p, sequence), 0)->Ok_0 == (Page {
            sequence: sequence as u32,
            ..page_at(p, 0)->Ok_0
        }),
        sealed(resequenced(p, sequence)) == resequenced(p, sequence),
        resequenced(resequenced(p, sequence), sequence) == resequenced(p, sequence),
{
    let q = resequenced(p, sequence);
    let raw = p.subrange(0, 18) + le32_bytes(sequence) + p.subrange(22, p.len() as int);
    let n = p[26] as int;
    lemma_page_len(p, 0);
    lemma_byte_sum(p, 27, n, n);
    assert(raw.len() == p.len());
    assert(q.len() == p.len());
    assert forall|k: int| 0 <= k < p.len() && !(18 <= k < 26) implies #[trigger] q[k] == p[k] by {
        assert(q[k] == raw[k]);
        assert(raw[k] == p[k]);
    }
    assert forall|k: int| 0 <= k < n implies #[trigger] p[27 + k] == q[27 + k] by {}
    lemma_same_sum(p, q, 27, 27, n);
    assert(p[26] == q[26]);
    assert(q.subrange(0, 4) =~= p.subrange(0, 4));
    assert(le64(q, 6) == le64(p, 6)) by {
        assert(p[6] == q[6] && p[7] == q[7] && p[8] == q[8] && p[9] == q[9] && p[10] == q[10]
            && p[11] == q[11] && p[12] == q[12] && p[13] == q[13]);
    }
    assert(le32(q, 14) == le32(p, 14)) by {
        assert(p[14] == q[14] && p[15] == q[15] && p[16] == q[16] && p[17] == q[17]);
    }
    assert(le32(q, 18) == sequence) by {
        let s = le32_bytes(sequence);
        crate::bytes::lemma_le32_round_trip(sequence);
        assert(q[18] == raw[18] && q[19] == raw[19] && q[20] == raw[20] && q[21] == raw[21]);
        assert(raw[18] == s[0] && raw[19] == s[1] && raw[20] == s[2] && raw[21] == s[3]);
    }
    assert(p[5] == q[5]);
    lemma_same_segments(p, q, 27, 27 + n, 0, n);
    assert(zeroed(q) =~= zeroed(raw));
    assert(sealed(q) =~= q);
    let again = q.subrange(0, 18) + le32_bytes(sequence) + q.subrange(22, q.len() as int);
    assert(again.subrange(0, 22) =~= raw.subrange(0, 22));
    assert(again.subrange(26, again.len() as int) =~= raw.subrange(26, raw.len() as int));
    assert(zeroed(again) =~= zeroed(raw));
    assert(resequenced(q, sequence) =~= q);
}

/// Pages with other sequence numbers.
pub open spec fn renumbered(pages: Seq<Page>, sequence: int) -> Seq<Page>
    decreases pages.len(),
{
    if pages.len() == 0 {
        seq![]
    } else {
        seq![Page { sequence: sequence as u32, ..pages[0] }] + renumbered(
            pages.drop_first(),
            (sequence + 1) % 0x1_0000_0000,
        )
    }
}

/// The pages that were copied are the old ones with other sequence numbers.
#[verifier::spinoff_prover]
#[verifier::rlimit(40)]
proof fn lemma_copied_pages(
    before: Seq<u8>,
    b: Seq<u8>,
    pos: int,
    sequence: int,
    pages: Seq<Page>,
)
    requires
        0 <= pos <= b.len(),
        pages_at(b, pos) == Ok::<Seq<Page>, Seq<char>>(pages),
        0 <= sequence < 0x1_0000_0000,
    ensures
        pages_at(before + copied_from(b, pos, sequence), before.len() as int) == Ok::<
            Seq<Page>,
            Seq<char>,
        >(renumbered(pages, sequence)),
        intact(before + copied_from(b, pos, sequence), before.len() as int),
        copied_from(before + copied_from(b, pos, sequence), before.len() as int, sequence)
            == copied_from(b, pos, sequence),
    decreases pages.len(),
{
    let out = before + copied_from(b, pos, sequence);
    let at = before.len() as int;
    lemma_page_len(b, pos);
    lemma_page_len(out, at);
    if pages.len() == 0 {
        if pos < b.len() {
            assert(pages_at(b, pos)->Ok_0.len() > 0);
        }
        assert(copied_from(b, pos, sequence) =~= seq![]);
        assert(out.len() == at);
    } else {
        lemma_pages_step(b, pos, pages);
        let end = pos + page_len(b, pos);
        let p = b.subrange(pos, end);
        let next = (sequence + 1) % 0x1_0000_0000;
        let rest = copied_from(b, end, next);
        let q = resequenced(p, sequence);
        lemma_page_there(b, pos);
        lemma_resequenced(p, sequence);
        lemma_copied_pages(before + q, b, end, next, pages.drop_first());
        assert(out =~= before + q + rest);
        lemma_pages_cons(before, q, rest);
        lemma_page_in(before, q, rest);
        assert(out.subrange(at, at + q.len()) =~= q);
    }
}

/// The bytes of a page that was parsed are exactly one page.
#[verifier::spinoff_prover]
#[verifier::rlimit(40)]
proof fn lemma_page_there(b: Seq<u8>, pos: int)
    requires
        0 <= pos,
        page_at(b, pos) is Ok,
    ensures
        whole_page(b.subrange(pos, pos + page_len(b, pos))),
        page_at(b.subrange(pos, pos + page_len(b, pos)), 0) == page_at(b, pos),
{
    let p = b.subrange(pos, pos + page_len(b, pos));
    let n = b[pos + 26] as int;
    lemma_page_len(b, pos);
    lemma_byte_sum(b, pos + 27, n, n);
    assert(forall|k: int| 0 <= k < p.len() ==> #[trigger] p[k] == b[k + pos]);
    assert forall|k: int| 0 <= k < n implies #[trigger] p[27 + k] == b[pos + 27 + k] by {
        assert(p[27 + k] == b[(27 + k) + pos]);
    }
    lemma_same_sum(p, b, 27, pos + 27, n);
    assert(p[26] == b[pos + 26]);
    assert(b.subrange(pos, pos + 4) =~= p.subrange(0, 4));
    assert(p[5] == b[pos + 5]);
    assert(le64(b, pos + 6) == le64(p, 6)) by {
        assert(p[6] == b[pos + 6] && p[7] == b[pos + 7] && p[8] == b[pos + 8] && p[9] == b[pos + 9]
            && p[10] == b[pos + 10] && p[11] == b[pos + 11] && p[12] == b[pos + 12] && p[13] == b[pos
            + 13]);
    }
    assert(le32(b, pos + 14) == le32(p, 14)) by {
        assert(p[14] == b[pos + 14] && p[15] == b[pos + 15] && p[16] == b[pos + 16] && p[17] == b[pos
            + 17]);
    }
    assert(le32(b, pos + 18) == le32(p, 18)) by {
        assert(p[18] == b[pos + 18] && p[19] == b[pos + 19] && p[20] == b[pos + 20] && p[21] == b[pos
            + 21]);
    }
    lemma_same_segments(p, b, 27, 27 + n, pos, n);
    assert(pos + 27 + n == 27 + n + pos);
    assert(pos + 27 == 27 + pos);
}

/// The lengths in a lacing table add up to the length of the packet.
proof fn lemma_lacing_sum(b: Seq<u8>, table: int, n: int, i: int)
    requires
        0 <= table,
        0 <= i <= n / 255,
        0 <= n,
        forall|j: int| 0 <= j < n / 255 + 1 ==> #[trigger] b[table + j] == lacing(n)[j],
    ensures
        byte_sum(b, table + i, n / 255 + 1 - i) == n - 255 * i,
    decreases n / 255 - i,
{
    assert(b[table + i] == lacing(n)[i]);
    if i == n / 255 {
        assert(byte_sum(b, table + i + 1, 0) == 0);
    } else {
        lemma_lacing_sum(b, table, n, i + 1);
    }
}

/// The segments of a packet make up that packet and leave nothing over.
#[verifier::spinoff_prover]
#[verifier::rlimit(40)]
proof fn lemma_packet_back(b: Seq<u8>, table: int, data: int, packet: Seq<u8>, i: int, page: int)
    requires
        0 <= table,
        0 <= data,
        0 <= i <= packet.len() / 255,
        data + packet.len() <= b.len(),
        b.subrange(data, data + packet.len()) == packet,
        forall|j: int|
            0 <= j < packet.len() / 255 + 1 ==> #[trigger] b[table + j] == lacing(
                packet.len() as int,
            )[j],
    ensures
        packets_in(
            segments_at(b, table + i, data + 255 * i, packet.len() / 255 + 1 - i),
            packet.take(255 * i),
            page,
        ) == seq![PacketContent { data: packet, end_page: page }],
        left_over(
            segments_at(b, table + i, data + 255 * i, packet.len() / 255 + 1 - i),
            packet.take(255 * i),
        ) == Seq::<u8>::empty(),
    decreases packet.len() / 255 - i,
{
    let n = packet.len() as int;
    let from = data + 255 * i;
    let len = b[table + i] as int;
    assert(b[table + i] == lacing(n)[i]);
    let segs = segments_at(b, table + i, from, n / 255 + 1 - i);
    let rest = segments_at(b, table + i + 1, from + len, n / 255 - i);
    let segment = b.subrange(from, from + len);
    assert(segs == seq![segment] + rest);
    assert(segs[0] == segment);
    assert(segs.drop_first() =~= rest);
    assert forall|j: int| 0 <= j < len implies #[trigger] segment[j] == packet[255 * i + j] by {
        assert(b.subrange(data, data + packet.len())[255 * i + j] == b[from + j]);
    }
    if i == n / 255 {
        assert(rest =~= seq![]);
        assert(packet.take(255 * i) + segment =~= packet);
        assert(packets_in(rest, seq![], page) =~= seq![]);
        assert(left_over(rest, seq![]) =~= seq![]);
    } else {
        assert(packet.take(255 * i) + segment =~= packet.take(255 * (i + 1)));
        lemma_packet_back(b, table, data, packet, i + 1, page);
        assert(table + i + 1 == table + (i + 1));
    }
}

/// A page that was built agrees with its parts.
#[verifier::spinoff_prover]
#[verifier::rlimit(40)]
proof fn lemma_header_page(
    header_type: u8,
    granule: u64,
    serial: u32,
    sequence: int,
    packet: Seq<u8>,
)
    requires
        packet.len() / 255 + 1 <= MAX_SEGMENTS,
        0 <= sequence < 0x1_0000_0000,
    ensures
        ({
            let p = header_page(header_type, granule, serial, sequence, packet);
            let n = packet.len() as int;
            let k = n / 255 + 1;
            &&& p.len() == 27 + k + n
            &&& p.subrange(0, 4) == magic()
            &&& p[5] == header_type
            &&& le64(p, 6) == granule
            &&& le32(p, 14) == serial
            &&& le32(p, 18) == sequence
            &&& p[26] == k
            &&& forall|j: int| 0 <= j < k ==> #[trigger] p[27 + j] == lacing(n)[j]
            &&& p.subrange(27 + k, 27 + k + n) == packet
            &&& sealed(p) == p
        }),
{
    reveal(header_page);
    let raw = unsealed(header_type, granule, serial, sequence, packet);
    let p = header_page(header_type, granule, serial, sequence, packet);
    let n = packet.len() as int;
    let k = n / 255 + 1;
    let s = le32_bytes(serial as int);
    let q = le32_bytes(sequence);
    let g = le64_bytes(granule as int);
    let front = magic() + seq![0u8, header_type] + g + s + q + seq![0u8, 0, 0, 0, k as u8];
    assert(front.len() == 27);
    assert(raw =~= front + (lacing(n) + packet));
    assert(raw.len() == 27 + k + n);
    assert(p.len() == raw.len());
    assert forall|i: int| 0 <= i < raw.len() && !(22 <= i < 26) implies #[trigger] p[i] == raw[i] by {}
    assert forall|i: int| 0 <= i < 27 && !(22 <= i < 26) implies #[trigger] p[i] == front[i] by {
        assert(p[i] == raw[i]);
    }
    assert(p.subrange(0, 4) =~= magic()) by {
        assert(p[0] == front[0] && p[1] == front[1] && p[2] == front[2] && p[3] == front[3]);
    }
    assert(p[5] == front[5]);
    assert(p[26] == front[26]);
    assert(le64(p, 6) == granule) by {
        crate::bytes::lemma_le64_round_trip(granule as int);
        assert(p[6] == front[6] && p[7] == front[7] && p[8] == front[8] && p[9] == front[9]);
        assert(p[10] == front[10] && p[11] == front[11] && p[12] == front[12] && p[13]
            == front[13]);
        assert(front[6] == g[0] && front[7] == g[1] && front[8] == g[2] && front[9] == g[3]);
        assert(front[10] == g[4] && front[11] == g[5] && front[12] == g[6] && front[13] == g[7]);
    }
    assert(le32(p, 14) == serial) by {
        crate::bytes::lemma_le32_round_trip(serial as int);
        assert(p[14] == front[14] && p[15] == front[15] && p[16] == front[16] && p[17]
            == front[17]);
        assert(front[14] == s[0] && front[15] == s[1] && front[16] == s[2] && front[17] == s[3]);
    }
    assert(le32(p, 18) == sequence) by {
        crate::bytes::lemma_le32_round_trip(sequence);
        assert(p[18] == front[18] && p[19] == front[19] && p[20] == front[20] && p[21]
            == front[21]);
        assert(front[18] == q[0] && front[19] == q[1] && front[20] == q[2] && front[21] == q[3]);
    }
    assert forall|j: int| 0 <= j < k implies #[trigger] p[27 + j] == lacing(n)[j] by {
        assert(p[27 + j] == raw[27 + j]);
    }
    assert(p.subrange(27 + k, 27 + k + n) =~= packet) by {
        assert forall|j: int| 0 <= j < n implies #[trigger] p[27 + k + j] == packet[j] by {
            assert(p[27 + k + j] == raw[27 + k + j]);
        }
    }
    assert(zeroed(p) =~= zeroed(raw));
    assert(sealed(p) =~= p);
}

/// What was built as a page is one, and holds the packet.
pub proof fn lemma_built_page(
    header_type: u8,
    granule: u64,
    serial: u32,
    sequence: int,
    packet: Seq<u8>,
    page: int,
)
    requires
        packet.len() / 255 + 1 <= MAX_SEGMENTS,
        0 <= sequence < 0x1_0000_0000,
    ensures
        ({
            let p = header_page(header_type, granule, serial, sequence, packet);
            let content = page_at(p, 0)->Ok_0;
            &&& whole_page(p)
            &&& sealed(p) == p
            &&& content.header_type == header_type
            &&& content.granule == granule
            &&& content.serial == serial
            &&& content.sequence == sequence
            &&& content.raw_len == p.len()
            &&& packets_in(content.segments, seq![], page) == seq![
                PacketContent { data: packet, end_page: page },
            ]
            &&& left_over(content.segments, seq![]) == Seq::<u8>::empty()
        }),
{
    let p = header_page(header_type, granule, serial, sequence, packet);
    let n = packet.len() as int;
    let k = n / 255 + 1;
    lemma_header_page(header_type, granule, serial, sequence, packet);
    lemma_lacing_sum(p, 27, n, 0);
    lemma_packet_back(p, 27, 27 + k, packet, 0, page);
    assert(packet.take(0) =~= seq![]);
}

/// The page that is built for packet `i`.
pub open spec fn page_for(packets: Seq<PacketContent>, serial: u32, i: int) -> Seq<u8> {
    header_page(
        if i == 0 {
            2u8
        } else {
            0u8
        },
        0,
        serial,
        i,
        packets[i].data,
    )
}

/// What the page that is built for packet `i` holds.
#[verifier::opaque]
pub open spec fn content_for(packets: Seq<PacketContent>, serial: u32, i: int) -> Page {
    page_at(page_for(packets, serial, i), 0)->Ok_0
}

/// The pages that are built for the packets from `i` up to `n`.
pub open spec fn built_pages(packets: Seq<PacketContent>, serial: u32, i: int, n: int) -> Seq<Page> {
    Seq::new((n - i) as nat, |j: int| content_for(packets, serial, i + j))
}

/// The first header page and those after it.
proof fn lemma_headers_step(packets: Seq<PacketContent>, serial: u32, i: int, n: int)
    requires
        0 <= i < n <= packets.len(),
        n <= 3,
        headers_from(packets, serial, i, n) is Ok,
    ensures
        headers_from(packets, serial, i + 1, n) is Ok,
        headers_from(packets, serial, i, n)->Ok_0 == page_for(packets, serial, i) + headers_from(
            packets,
            serial,
            i + 1,
            n,
        )->Ok_0,
        packets[i].data.len() / 255 + 1 <= MAX_SEGMENTS,
{
}

/// The content of one header page.
proof fn lemma_content(packets: Seq<PacketContent>, serial: u32, i: int)
    requires
        0 <= i < 3,
        packets[i].data.len() / 255 + 1 <= MAX_SEGMENTS,
    ensures
        ({
            let content = content_for(packets, serial, i);
            &&& whole_page(page_for(packets, serial, i))
            &&& page_at(page_for(packets, serial, i), 0)->Ok_0 == content
            &&& sealed(page_for(packets, serial, i)) == page_for(packets, serial, i)
            &&& content.serial == serial
            &&& content.sequence == i
            &&& packets_in(content.segments, seq![], i) == seq![
                PacketContent { data: packets[i].data, end_page: i },
            ]
            &&& left_over(content.segments, seq![]) == Seq::<u8>::empty()
        }),
{
    reveal(content_for);
    lemma_built_page(
        if i == 0 {
            2u8
        } else {
            0u8
        },
        0,
        serial,
        i,
        packets[i].data,
        i,
    );
}

/// The header pages are found again in front of whatever follows them.
#[verifier::spinoff_prover]
#[verifier::rlimit(60)]
proof fn lemma_headers_back(
    before: Seq<u8>,
    packets: Seq<PacketContent>,
    serial: u32,
    i: int,
    n: int,
    after: Seq<u8>,
)
    requires
        0 <= i <= n <= packets.len(),
        n <= 3,
        headers_from(packets, serial, i, n) is Ok,
    ensures
        ({
            let head = headers_from(packets, serial, i, n)->Ok_0;
            let b = before + head + after;
            let end = (before.len() + head.len()) as int;
            &&& pages_at(b, before.len() as int) == prefixed(
                built_pages(packets, serial, i, n),
                pages_at(b, end),
            )
            &&& intact(b, end) ==> intact(b, before.len() as int)
        }),
    decreases n - i,
{
    let head = headers_from(packets, serial, i, n)->Ok_0;
    let b = before + head + after;
    let end = (before.len() + head.len()) as int;
    if i == n {
        assert(head =~= seq![]);
        assert(built_pages(packets, serial, i, n) =~= seq![]);
        if let Ok(rest) = pages_at(b, end) {
            assert(Seq::<Page>::empty() + rest =~= rest);
        }
    } else {
        let p = page_for(packets, serial, i);
        let rest = headers_from(packets, serial, i + 1, n)->Ok_0;
        lemma_headers_step(packets, serial, i, n);
        lemma_content(packets, serial, i);
        lemma_headers_back(before + p, packets, serial, i + 1, n, after);
        assert(b =~= before + p + (rest + after));
        assert(b =~= (before + p) + rest + after);
        assert(b =~= (before + p) + (rest + after));
        lemma_pages_cons(before, p, rest + after);
        let mine = seq![content_for(packets, serial, i)];
        let others = built_pages(packets, serial, i + 1, n);
        assert(built_pages(packets, serial, i, n) =~= mine + others);
        assert((before + p).len() + rest.len() == end);
        if let Ok(last) = pages_at(b, end) {
            assert(mine + (others + last) =~= (mine + others) + last);
        }
    }
}

/// The packets of the header pages, each on a page of its own.
pub open spec fn paged(packets: Seq<PacketContent>, i: int, n: int) -> Seq<PacketContent> {
    Seq::new(
        (n - i) as nat,
        |j: int| PacketContent { data: packets[i + j].data, end_page: i + j },
    )
}

/// The packets are found again in the header pages, and those of the other pages after them.
#[verifier::spinoff_prover]
#[verifier::rlimit(60)]
proof fn lemma_header_packets_back(
    packets: Seq<PacketContent>,
    serial: u32,
    i: int,
    n: int,
    rest: Seq<Page>,
)
    requires
        0 <= i <= n <= packets.len(),
        n <= 3,
        headers_from(packets, serial, i, n) is Ok,
    ensures
        packets_from(built_pages(packets, serial, i, n) + rest, i, seq![]) == paged(packets, i, n)
            + packets_from(rest, n, seq![]),
    decreases n - i,
{
    let pages = built_pages(packets, serial, i, n) + rest;
    let later = packets_from(rest, n, seq![]);
    if i == n {
        assert(pages =~= rest);
        assert(paged(packets, i, n) =~= seq![]);
        assert(Seq::<PacketContent>::empty() + later =~= later);
    } else {
        lemma_headers_step(packets, serial, i, n);
        lemma_content(packets, serial, i);
        lemma_header_packets_back(packets, serial, i + 1, n, rest);
        assert(pages[0] == content_for(packets, serial, i));
        assert(pages.drop_first() =~= built_pages(packets, serial, i + 1, n) + rest);
        let mine = seq![PacketContent { data: packets[i].data, end_page: i }];
        assert(mine + paged(packets, i + 1, n) =~= paged(packets, i, n));
        assert(mine + (paged(packets, i + 1, n) + later) =~= (mine + paged(packets, i + 1, n))
            + later);
    }
}

/// Page `k` starts where the pages from it on are found.
proof fn lemma_page_start(b: Seq<u8>, k: int)
    requires
        pages_at(b, 0) is Ok,
        0 <= k <= pages_of(b).len(),
    ensures
        0 <= page_start(b, k) <= b.len(),
        pages_at(b, page_start(b, k)) == Ok::<Seq<Page>, Seq<char>>(pages_of(b).skip(k)),
    decreases k,
{
    if k == 0 {
        assert(pages_of(b).skip(0) =~= pages_of(b));
    } else {
        lemma_page_start(b, k - 1);
        lemma_pages_step(b, page_start(b, k - 1), pages_of(b).skip(k - 1));
        assert(pages_of(b).skip(k - 1).drop_first() =~= pages_of(b).skip(k));
    }
}

/// Where page `k` starts depends on the pages before it.
proof fn lemma_start_by_pages(b: Seq<u8>, at: int, k: int, pages: Seq<Page>)
    requires
        pages_at(b, 0) == Ok::<Seq<Page>, Seq<char>>(pages),
        0 <= k <= pages.len(),
        0 <= at <= b.len(),
        pages_at(b, at) == Ok::<Seq<Page>, Seq<char>>(pages.skip(k)),
    ensures
        page_start(b, k) == at,
{
    lemma_page_start(b, k);
    lemma_same_place(b, page_start(b, k), at, pages.skip(k));
}

/// The pages from a place on tell how far it is from the end.
proof fn lemma_same_place(b: Seq<u8>, i: int, j: int, pages: Seq<Page>)
    requires
        0 <= i <= b.len(),
        0 <= j <= b.len(),
        pages_at(b, i) == Ok::<Seq<Page>, Seq<char>>(pages),
        pages_at(b, j) == Ok::<Seq<Page>, Seq<char>>(pages),
    ensures
        i == j,
    decreases pages.len(),
{
    if pages.len() == 0 {
        lemma_page_len(b, i);
        lemma_page_len(b, j);
        if i < b.len() {
            assert(pages_at(b, i)->Ok_0.len() > 0);
        }
        if j < b.len() {
            assert(pages_at(b, j)->Ok_0.len() > 0);
        }
    } else {
        lemma_pages_step(b, i, pages);
        lemma_pages_step(b, j, pages);
        lemma_same_place(b, i + page_len(b, i), j + page_len(b, j), pages.drop_first());
    }
}

/// The numbers of renumbered pages follow one another; nothing else changes.
proof fn lemma_renumbered(pages: Seq<Page>, sequence: int)
    requires
        0 <= sequence < 0x1_0000_0000,
    ensures
        renumbered(pages, sequence).len() == pages.len(),
        forall|i: int|
            0 <= i < pages.len() ==> #[trigger] renumbered(pages, sequence)[i] == (Page {
                sequence: ((sequence + i) % 0x1_0000_0000) as u32,
                ..pages[i]
            }),
    decreases pages.len(),
{
    if pages.len() > 0 {
        let next = (sequence + 1) % 0x1_0000_0000;
        let all = renumbered(pages, sequence);
        let rest = renumbered(pages.drop_first(), next);
        lemma_renumbered(pages.drop_first(), next);
        assert forall|i: int| 0 <= i < pages.len() implies #[trigger] all[i] == (Page {
            sequence: ((sequence + i) % 0x1_0000_0000) as u32,
            ..pages[i]
        }) by {
            if i > 0 {
                assert(all[i] == rest[i - 1]);
                assert(pages.drop_first()[i - 1] == pages[i]);
                assert((next + (i - 1)) % 0x1_0000_0000 == (sequence + i) % 0x1_0000_0000);
            }
        }
    }
}

/// Renumbered pages hold the same packets.
proof fn lemma_renumbered_packets(pages: Seq<Page>, sequence: int, page: int, current: Seq<u8>)
    ensures
        packets_from(renumbered(pages, sequence), page, current) == packets_from(
            pages,
            page,
            current,
        ),
    decreases pages.len(),
{
    if pages.len() > 0 {
        let all = renumbered(pages, sequence);
        let next = (sequence + 1) % 0x1_0000_0000;
        assert(all.drop_first() =~= renumbered(pages.drop_first(), next));
        lemma_renumbered_packets(
            pages.drop_first(),
            next,
            page + 1,
            left_over(pages[0].segments, current),
        );
    }
}

/// Header pages depend on the data of the packets alone.
proof fn lemma_same_headers(
    a: Seq<PacketContent>,
    b: Seq<PacketContent>,
    serial: u32,
    i: int,
    n: int,
)
    requires
        0 <= i,
        n <= a.len(),
        n <= b.len(),
        forall|j: int| 0 <= j < n ==> (#[trigger] a[j]).data == b[j].data,
    ensures
        headers_from(a, serial, i, n) == headers_from(b, serial, i, n),
    decreases n - i,
{
    if i < n {
        assert(a[i].data == b[i].data);
        lemma_same_headers(a, b, serial, i + 1, n);
    }
}

/// A page that was built of segments is one, and holds them.
#[verifier::spinoff_prover]
#[verifier::rlimit(60)]
proof fn lemma_segment_page(
    header_type: u8,
    granule: u64,
    serial: u32,
    sequence: int,
    segments: Seq<Seq<u8>>,
)
    requires
        fit_on_page(segments),
        0 <= sequence < 0x1_0000_0000,
    ensures
        ({
            let p = segment_page(header_type, granule, serial, sequence, segments);
            &&& whole_page(p)
            &&& sealed(p) == p
            &&& resequenced(p, sequence) == p
            &&& page_at(p, 0)->Ok_0 == (Page {
                header_type,
                granule,
                serial,
                sequence: sequence as u32,
                segments,
                raw_len: p.len() as int,
            })
        }),
{
    reveal(segment_page);
    let p = segment_page(header_type, granule, serial, sequence, segments);
    let k = segments.len() as int;
    let g = le64_bytes(granule as int);
    let s = le32_bytes(serial as int);
    let q = le32_bytes(sequence);
    let front = magic() + seq![0u8, header_type] + g + s + q + seq![0u8, 0, 0, 0, k as u8];
    let table = lengths(segments);
    let body = run_together(segments);
    let raw = front + table + body;
    assert(front.len() == 27);
    assert(raw =~= magic() + seq![0u8, header_type] + g + s + q + seq![0u8, 0, 0, 0, k as u8]
        + table + body);
    assert(p == sealed(raw));
    assert(p.len() == raw.len());
    assert forall|i: int| 0 <= i < raw.len() && !(22 <= i < 26) implies #[trigger] p[i] == raw[i] by {}
    assert forall|i: int| 0 <= i < 27 && !(22 <= i < 26) implies #[trigger] p[i] == front[i] by {
        assert(p[i] == raw[i]);
    }
    assert(p.subrange(0, 4) =~= magic()) by {
        assert(p[0] == front[0] && p[1] == front[1] && p[2] == front[2] && p[3] == front[3]);
    }
    assert(p[5] == front[5]);
    assert(p[26] == front[26]);
    assert(le64(p, 6) == granule) by {
        crate::bytes::lemma_le64_round_trip(granule as int);
        assert(p[6] == front[6] && p[7] == front[7] && p[8] == front[8] && p[9] == front[9]);
        assert(p[10] == front[10] && p[11] == front[11] && p[12] == front[12] && p[13]
            == front[13]);
        assert(front[6] == g[0] && front[7] == g[1] && front[8] == g[2] && front[9] == g[3]);
        assert(front[10] == g[4] && front[11] == g[5] && front[12] == g[6] && front[13] == g[7]);
    }
    assert(le32(p, 14) == serial) by {
        crate::bytes::lemma_le32_round_trip(serial as int);
        assert(p[14] == front[14] && p[15] == front[15] && p[16] == front[16] && p[17]
            == front[17]);
        assert(front[14] == s[0] && front[15] == s[1] && front[16] == s[2] && front[17] == s[3]);
    }
    assert(p[18] == front[18] && p[19] == front[19] && p[20] == front[20] && p[21] == front[21]);
    assert(front[18] == q[0] && front[19] == q[1] && front[20] == q[2] && front[21] == q[3]);
    assert(le32(p, 18) == sequence) by {
        crate::bytes::lemma_le32_round_trip(sequence);
    }
    assert forall|j: int| 0 <= j < k implies #[trigger] p[27 + j] == segments[j].len() by {
        assert(p[27 + j] == raw[27 + j]);
        assert(raw[27 + j] == table[j]);
    }
    assert(p.subrange(27 + k, p.len() as int) =~= body) by {
        assert forall|j: int| 0 <= j < body.len() implies #[trigger] p[27 + k + j] == body[j] by {
            assert(p[27 + k + j] == raw[27 + k + j]);
        }
    }
    assert(segments.skip(0) =~= segments);
    lemma_segments_back(p, segments, 0, 27 + k);
    assert(zeroed(p) =~= zeroed(raw));
    assert(sealed(p) =~= p);
    assert(p.subrange(0, 18) + q + p.subrange(22, p.len() as int) =~= p);
}

/// The segments of a page are found again.
#[verifier::spinoff_prover]
#[verifier::rlimit(40)]
proof fn lemma_segments_back(p: Seq<u8>, segments: Seq<Seq<u8>>, i: int, data: int)
    requires
        fit_on_page(segments),
        0 <= i <= segments.len(),
        27 + segments.len() <= data <= p.len(),
        forall|j: int| 0 <= j < segments.len() ==> #[trigger] p[27 + j] == segments[j].len(),
        p.subrange(data, p.len() as int) == run_together(segments.skip(i)),
    ensures
        segments_at(p, 27 + i, data, segments.len() - i) == segments.skip(i),
        data + byte_sum(p, 27 + i, segments.len() - i) == p.len(),
    decreases segments.len() - i,
{
    let rest = segments.skip(i);
    if i == segments.len() {
        assert(rest =~= seq![]);
        assert(segments_at(p, 27 + i, data, 0) =~= seq![]);
        assert(p.subrange(data, p.len() as int).len() == 0);
    } else {
        let first = segments[i];
        let end = data + first.len();
        assert(rest[0] == first);
        assert(rest.drop_first() =~= segments.skip(i + 1));
        let body = p.subrange(data, p.len() as int);
        let later = run_together(segments.skip(i + 1));
        assert(body == first + later);
        assert(p.subrange(end, p.len() as int) =~= body.subrange(
            first.len() as int,
            body.len() as int,
        ));
        assert(body.subrange(first.len() as int, body.len() as int) =~= later);
        assert(p.subrange(data, end) =~= body.subrange(0, first.len() as int));
        assert(body.subrange(0, first.len() as int) =~= first);
        lemma_segments_back(p, segments, i + 1, end);
        assert(p[27 + i] == first.len());
        assert(27 + i + 1 == 27 + (i + 1));
        assert(seq![first] + segments.skip(i + 1) =~= rest);
    }
}

/// The pages after the headers of a stream: what follows the last header packet on its page, where
/// anything does, and the pages after that one.
pub open spec fn rest_pages(b: Seq<u8>) -> Seq<Page> {
    let old_page = pages_of(b)[header_pages(b) - 1];
    let kept = pages_of(b).skip(header_pages(b));
    if spare_segments(b).len() == 0 {
        kept
    } else {
        seq![
            Page {
                header_type: (old_page.header_type / 4 * 4) as u8,
                segments: spare_segments(b),
                raw_len: carried_page(b).len() as int,
                ..old_page
            },
        ] + kept
    }
}

/// What is written after the header pages is read back.
#[verifier::spinoff_prover]
#[verifier::rlimit(60)]
proof fn lemma_tail_back(before: Seq<u8>, b: Seq<u8>)
    requires
        pages_at(b, 0) is Ok,
        0 < header_packets(codec_in(b)) <= packets_of(b).len(),
    ensures
        ({
            let n = header_packets(codec_in(b));
            let out = before + tail_of(b);
            &&& 0 < header_pages(b) <= pages_of(b).len()
            &&& pages_at(out, before.len() as int) == Ok::<Seq<Page>, Seq<char>>(
                renumbered(rest_pages(b), n),
            )
            &&& intact(out, before.len() as int)
            &&& copied_from(out, before.len() as int, n) == tail_of(b)
        }),
{
    reveal(tail_of);
    let n = header_packets(codec_in(b));
    let k = header_pages(b);
    let pages = pages_of(b);
    let kept = pages.skip(k);
    let start = page_start(b, k);
    let segments = spare_segments(b);
    lemma_end_pages(pages, 0, seq![]);
    assert(0 <= packets_of(b)[n - 1].end_page < pages.len());
    lemma_page_start(b, k);
    if segments.len() == 0 {
        lemma_copied_pages(before, b, start, n, kept);
        assert(tail_of(b) =~= copied_from(b, start, n));
    } else {
        let p = carried_page(b);
        let copied = copied_from(b, start, n + 1);
        let old_page = pages[k - 1];
        let header_type = (old_page.header_type / 4 * 4) as u8;
        lemma_pages_fit(b, 0, pages, k - 1);
        lemma_after_fits(old_page.segments, n - packets_before(pages, k - 1));
        assert(fit_on_page(segments)) by {
            reveal(spare_segments);
        }
        lemma_segment_page(header_type, old_page.granule, old_page.serial, n, segments);
        lemma_copied_pages(before + p, b, start, n + 1, kept);
        let out = before + tail_of(b);
        assert(out =~= before + p + copied);
        lemma_pages_cons(before, p, copied);
        lemma_page_in(before, p, copied);
        let mine = rest_pages(b)[0];
        assert(rest_pages(b) =~= seq![mine] + kept);
        assert(rest_pages(b).drop_first() =~= kept);
        assert(page_at(p, 0)->Ok_0 == (Page { sequence: n as u32, ..mine }));
        assert(out.subrange(before.len() as int, (before.len() + p.len()) as int) =~= p);
    }
}

/// The packets after the headers are those of the pages after them.
#[verifier::spinoff_prover]
#[verifier::rlimit(40)]
proof fn lemma_rest_packets(b: Seq<u8>)
    requires
        pages_at(b, 0) is Ok,
        0 < header_packets(codec_in(b)) <= packets_of(b).len(),
    ensures
        ({
            let n = header_packets(codec_in(b));
            let rest = packets_from(rest_pages(b), n, seq![]);
            &&& packets_of(b).len() == n + rest.len()
            &&& forall|i: int|
                0 <= i < rest.len() ==> (#[trigger] rest[i]).data == packets_of(b)[n + i].data
        }),
{
    reveal(spare_segments);
    let n = header_packets(codec_in(b));
    let pages = pages_of(b);
    let page = header_pages(b) - 1;
    let all = packets_of(b);
    lemma_split_at(pages, page, n);
    let left = remainder(pages.take(page), seq![]);
    let m = n - packets_before(pages, page);
    lemma_after_packets(pages[page].segments, left, page, m);
    let segments = spare_segments(b);
    let kept = pages.skip(page + 1);
    let open = left_over(segments, seq![]);
    let here = packets_in(segments, seq![], page);
    let later = packets_from(kept, page + 1, open);
    assert(all.skip(n) == here + later);
    let whole = rest_pages(b);
    if segments.len() == 0 {
        assert(here =~= seq![]);
        assert(open =~= seq![]);
        assert(all.skip(n) =~= packets_from(whole, page + 1, seq![]));
        lemma_shifted_packets(whole, page + 1, n, seq![]);
    } else {
        assert(whole[0].segments == segments);
        assert(whole.drop_first() =~= kept);
        assert(all.skip(n) == packets_from(whole, page, seq![]));
        lemma_shifted_packets(whole, page, n, seq![]);
    }
    let rest = packets_from(whole, n, seq![]);
    assert(all.skip(n).len() == rest.len());
    assert forall|i: int| 0 <= i < rest.len() implies (#[trigger] rest[i]).data == all[n + i].data by {
        assert(all.skip(n)[i] == all[n + i]);
    }
}

/// What a written file is made of: the new header pages, and the old pages after the headers with
/// other numbers.
#[verifier::spinoff_prover]
#[verifier::rlimit(60)]
pub proof fn lemma_written(b: Seq<u8>, lyrics: Seq<char>)
    requires
        refusal(b) is None,
        comments_in(b) is Ok,
        packets_of(b).len() >= header_packets(codec_in(b)),
        new_headers(b, lyrics) is Ok,
    ensures
        ({
            let n = header_packets(codec_in(b));
            let head = new_headers(b, lyrics)->Ok_0;
            let out = head + tail_of(b);
            let new = built_pages(new_packets(b, lyrics), pages_of(b)[0].serial, 0, n);
            &&& 0 < header_pages(b) <= pages_of(b).len()
            &&& pages_at(out, 0) == Ok::<Seq<Page>, Seq<char>>(
                new + renumbered(rest_pages(b), n),
            )
            &&& intact(out, 0)
            &&& packets_of(out) == paged(new_packets(b, lyrics), 0, n) + packets_from(
                rest_pages(b),
                n,
                seq![],
            )
            &&& codec_in(out) == codec_in(b)
            &&& tail_of(out) == tail_of(b)
        }),
{
    let n = header_packets(codec_in(b));
    let packets = new_packets(b, lyrics);
    let serial = pages_of(b)[0].serial;
    let head = new_headers(b, lyrics)->Ok_0;
    let tail = tail_of(b);
    let out = head + tail;
    let rest = rest_pages(b);
    let new = built_pages(packets, serial, 0, n);
    lemma_tail_back(head, b);
    lemma_headers_back(Seq::empty(), packets, serial, 0, n, tail);
    assert(Seq::<u8>::empty() + head + tail =~= out);
    lemma_header_packets_back(packets, serial, 0, n, renumbered(rest, n));
    lemma_renumbered_packets(rest, n, n, seq![]);
    assert((new + renumbered(rest, n)).skip(n) =~= renumbered(rest, n));
    lemma_start_by_pages(out, head.len() as int, n, new + renumbered(rest, n));
    assert(packets_of(out)[0].data == packets[0].data);
    assert(packets_of(out)[n - 1].end_page == n - 1);
    lemma_headers_each(packets, serial, 0, n, n - 1);
    lemma_content(packets, serial, n - 1);
    assert(pages_of(out)[n - 1] == content_for(packets, serial, n - 1));
    assert(spare_segments(out) =~= seq![]) by {
        reveal(spare_segments);
        let segments = content_for(packets, serial, n - 1).segments;
        assert((new + renumbered(rest, n)).take(n - 1) =~= built_pages(packets, serial, 0, n - 1)
            + Seq::<Page>::empty());
        lemma_headers_fewer(packets, serial, 0, n - 1, n);
        lemma_header_packets_back(packets, serial, 0, n - 1, Seq::empty());
        assert(packets_before(pages_of(out), n - 1) == n - 1);
        lemma_after_packets(segments, seq![], n - 1, 1);
        lemma_open_end(after_packets(segments, 1), seq![], n - 1);
    }
    assert(tail_of(out) =~= copied_from(out, page_start(out, n), n)) by {
        reveal(tail_of);
    }
}

/// Fewer header pages can be built where more can.
proof fn lemma_headers_fewer(packets: Seq<PacketContent>, serial: u32, i: int, k: int, n: int)
    requires
        0 <= i <= k <= n <= packets.len(),
        n <= 3,
        headers_from(packets, serial, i, n) is Ok,
    ensures
        headers_from(packets, serial, i, k) is Ok,
    decreases n - i,
{
    if i < k {
        lemma_headers_step(packets, serial, i, n);
        lemma_headers_fewer(packets, serial, i + 1, k, n);
    }
}

/// Each packet of the header pages fits on its page.
pub proof fn lemma_headers_each(packets: Seq<PacketContent>, serial: u32, i: int, n: int, j: int)
    requires
        0 <= i <= j < n <= packets.len(),
        n <= 3,
        headers_from(packets, serial, i, n) is Ok,
    ensures
        packets[j].data.len() / 255 + 1 <= MAX_SEGMENTS,
    decreases n - i,
{
    lemma_headers_step(packets, serial, i, n);
    if i < j {
        lemma_headers_each(packets, serial, i + 1, n, j);
    }
}

/// Segments hold the end of a packet or leave something over.
proof fn lemma_open_end(segments: Seq<Seq<u8>>, current: Seq<u8>, page: int)
    ensures
        segments.len() > 0 ==> packets_in(segments, current, page).len() > 0 || left_over(
            segments,
            current,
        ).len() > 0,
        packets_in(segments, current, page).len() == 0 ==> left_over(segments, current).len()
            >= current.len(),
    decreases segments.len(),
{
    if segments.len() > 0 && segments[0].len() >= 255 {
        lemma_open_end(segments.drop_first(), current + segments[0], page);
    }
}

/// The lyrics in the comment packet of a stream.
pub open spec fn lyrics_of(b: Seq<u8>) -> Option<Seq<u8>> {
    if refusal(b) is Some {
        None
    } else {
        match comments_in(b) {
            Ok(c) => find_value(c.entries, lyrics_key()),
            Err(_) => None,
        }
    }
}

/// The comments that are read from a packet with new lyrics.
proof fn lemma_comments_back(b: Seq<u8>, lyrics: Seq<char>)
    requires
        new_comment_packet(b, lyrics).len() < 0x1_0000_0000,
    ensures
        comments_of(body_of(new_comment_packet(b, lyrics), codec_in(b))) == Ok::<Comments, Fault>(
            Comments {
                vendor: encode_utf8(as_text(comments_in(b)->Ok_0.vendor)),
                entries: with_lyrics(comments_in(b)->Ok_0.entries, lyrics),
            },
        ),
        new_comment_packet(b, lyrics).len() >= comment_prefix(codec_in(b)).len(),
{
    let c = comments_in(b)->Ok_0;
    let new = Comments {
        vendor: encode_utf8(as_text(c.vendor)),
        entries: with_lyrics(c.entries, lyrics),
    };
    assert(body_of(new_comment_packet(b, lyrics), codec_in(b)) =~= comment_bytes(new));
    crate::metadata::vorbis::lemma_fits(new);
    crate::metadata::vorbis::law_comments_round_trip(new, Seq::empty());
}

/// A stream into which lyrics were written can be read, gives the lyrics back and keeps its
/// metadata; it is left alone by a further sync without `force`, and a further sync with `force`
/// gives what it would have given on the stream as it was before.
///
/// The duration is that of the last page, so it is kept where anything follows the headers.
#[verifier::spinoff_prover]
#[verifier::rlimit(40)]
pub proof fn law_ogg_read_back(
    b: Seq<u8>,
    lyrics: Seq<char>,
    force: bool,
    later: Seq<char>,
    filepath: Seq<char>,
)
    requires
        Ogg::edited(b, lyrics, force) matches Ok(Some(_)),
        packets_of(b).len() >= header_packets(codec_in(b)),
        packets_of(b)[1].data.len() >= comment_prefix(codec_in(b)).len(),
    ensures
        ({
            let out = Ogg::edited(b, lyrics, force)->Ok_0->0;
            &&& Ogg::readable(out)
            &&& Ogg::editable(out, later, false) && Ogg::editable(out, later, true)
            &&& lyrics_of(out) == Some(encode_utf8(lyrics))
            &&& Ogg::metadata(out, filepath) is Ok
            &&& Ogg::metadata(out, filepath)->Ok_0 == (Track {
                duration: Ogg::metadata(out, filepath)->Ok_0.duration,
                ..Ogg::metadata(b, filepath)->Ok_0
            })
            &&& rest_pages(b).len() > 0 ==> Ogg::metadata(out, filepath) == Ogg::metadata(
                b,
                filepath,
            )
            &&& Ogg::edited(out, later, false) == Ok::<Option<Seq<u8>>, Seq<char>>(None)
            &&& Ogg::edited(out, later, true) == Ogg::edited(b, later, true)
        }),
{
    let out = Ogg::edited(b, lyrics, force)->Ok_0->0;
    let c = comments_in(b)->Ok_0;
    lemma_written_comments(b, lyrics, later);
    if rest_pages(b).len() > 0 {
        lemma_last_granule(b, lyrics);
    }
    crate::metadata::vorbis::law_lyrics_replaced(c.entries, lyrics, lyrics_key());
    crate::metadata::vorbis::lemma_tagged_with_lyrics(blank(filepath), c.entries, lyrics);
}

/// The granule position at the end of a written stream.
proof fn lemma_last_granule(b: Seq<u8>, lyrics: Seq<char>)
    requires
        refusal(b) is None,
        comments_in(b) is Ok,
        packets_of(b).len() >= header_packets(codec_in(b)),
        new_headers(b, lyrics) is Ok,
        rest_pages(b).len() > 0,
    ensures
        pages_of(new_headers(b, lyrics)->Ok_0 + tail_of(b)).last().granule == pages_of(
            b,
        ).last().granule,
{
    let n = header_packets(codec_in(b));
    let rest = rest_pages(b);
    let out = new_headers(b, lyrics)->Ok_0 + tail_of(b);
    lemma_written(b, lyrics);
    lemma_renumbered(rest, n);
    assert(pages_of(out).last() == renumbered(rest, n)[rest.len() - 1]);
    assert(rest[rest.len() - 1].granule == pages_of(b).last().granule);
}

/// What the header packets of a written stream hold, and what a further edit makes of them.
#[verifier::spinoff_prover]
#[verifier::rlimit(60)]
proof fn lemma_written_comments(b: Seq<u8>, lyrics: Seq<char>, later: Seq<char>)
    requires
        refusal(b) is None,
        comments_in(b) is Ok,
        packets_of(b).len() >= header_packets(codec_in(b)),
        new_headers(b, lyrics) is Ok,
    ensures
        ({
            let n = header_packets(codec_in(b));
            let out = new_headers(b, lyrics)->Ok_0 + tail_of(b);
            let c = comments_in(b)->Ok_0;
            &&& refusal(out) is None
            &&& packets_of(out).len() >= n
            &&& packets_of(out)[0].data == packets_of(b)[0].data
            &&& packets_of(out)[1].data.len() >= comment_prefix(codec_in(b)).len()
            &&& comments_in(out) == Ok::<Comments, Fault>(
                Comments {
                    vendor: encode_utf8(as_text(c.vendor)),
                    entries: with_lyrics(c.entries, lyrics),
                },
            )
            &&& new_headers(out, later) == new_headers(b, later)
            &&& codec_in(out) == codec_in(b)
            &&& tail_of(out) == tail_of(b)
        }),
{
    let n = header_packets(codec_in(b));
    let out = new_headers(b, lyrics)->Ok_0 + tail_of(b);
    let packets = new_packets(b, lyrics);
    let serial = pages_of(b)[0].serial;
    let new = built_pages(packets, serial, 0, n);
    let c = comments_in(b)->Ok_0;
    lemma_written(b, lyrics);
    lemma_headers_each(packets, serial, 0, n, 0);
    lemma_headers_each(packets, serial, 0, n, 1);
    lemma_content(packets, serial, 0);
    lemma_comments_back(b, lyrics);
    assert(packets_of(out)[0].data == packets_of(b)[0].data);
    assert(packets_of(out)[1].data == new_comment_packet(b, lyrics));
    assert(pages_of(out)[0] == new[0]);
    assert(new[0] == content_for(packets, serial, 0));
    crate::text::lemma_as_text(as_text(c.vendor));
    crate::metadata::vorbis::law_last_lyrics_stay(c.entries, lyrics, later);
    assert(new_comment_packet(out, later) == new_comment_packet(b, later));
    assert forall|j: int| 0 <= j < n implies (#[trigger] new_packets(out, later)[j]).data
        == new_packets(b, later)[j].data by {
        assert(packets_of(out)[j].data == packets[j].data);
    }
    lemma_same_headers(new_packets(out, later), new_packets(b, later), serial, 0, n);
}

/// The pages of a stream into which lyrics were written are numbered from zero on, each carries
/// the CRC of its bytes, and those after the headers are the old ones but for number and CRC.
#[verifier::spinoff_prover]
#[verifier::rlimit(40)]
pub proof fn law_ogg_pages(b: Seq<u8>, lyrics: Seq<char>, force: bool)
    requires
        Ogg::edited(b, lyrics, force) matches Ok(Some(_)),
        packets_of(b).len() >= header_packets(codec_in(b)),
        packets_of(b)[1].data.len() >= comment_prefix(codec_in(b)).len(),
    ensures
        ({
            let out = Ogg::edited(b, lyrics, force)->Ok_0->0;
            let n = header_packets(codec_in(b));
            &&& pages_at(out, 0) is Ok
            &&& pages_of(out).len() == n + rest_pages(b).len()
            &&& intact(out, 0)
            &&& forall|i: int|
                0 <= i < pages_of(out).len() ==> (#[trigger] pages_of(out)[i]).sequence == i
                    % 0x1_0000_0000
            &&& forall|i: int|
                n <= i < pages_of(out).len() ==> #[trigger] pages_of(out)[i] == (Page {
                    sequence: (i % 0x1_0000_0000) as u32,
                    ..rest_pages(b)[i - n]
                })
        }),
{
    let out = Ogg::edited(b, lyrics, force)->Ok_0->0;
    let n = header_packets(codec_in(b));
    let packets = new_packets(b, lyrics);
    let serial = pages_of(b)[0].serial;
    let rest = rest_pages(b);
    let new = built_pages(packets, serial, 0, n);
    lemma_written(b, lyrics);
    lemma_renumbered(rest, n);
    lemma_headers_step(packets, serial, 0, n);
    lemma_headers_step(packets, serial, 1, n);
    lemma_content(packets, serial, 0);
    lemma_content(packets, serial, 1);
    if n == 3 {
        lemma_headers_step(packets, serial, 2, n);
        lemma_content(packets, serial, 2);
    }
    assert forall|i: int| n <= i < pages_of(out).len() implies #[trigger] pages_of(out)[i] == (Page {
        sequence: (i % 0x1_0000_0000) as u32,
        ..rest[i - n]
    }) by {
        assert(pages_of(out)[i] == renumbered(rest, n)[i - n]);
    }
    assert forall|i: int| 0 <= i < pages_of(out).len() implies (#[trigger] pages_of(out)[i]).sequence
        == i % 0x1_0000_0000 by {
        if i < n {
            assert(pages_of(out)[i] == new[i]);
            assert(new[i] == content_for(packets, serial, 0 + i));
        }
    }
}

/// The comment packet is the new one, and every other packet stays as it is.
pub proof fn law_ogg_packets_kept(b: Seq<u8>, lyrics: Seq<char>, force: bool)
    requires
        Ogg::edited(b, lyrics, force) matches Ok(Some(_)),
        packets_of(b).len() >= header_packets(codec_in(b)),
        packets_of(b)[1].data.len() >= comment_prefix(codec_in(b)).len(),
    ensures
        ({
            let out = Ogg::edited(b, lyrics, force)->Ok_0->0;
            &&& packets_of(out).len() == packets_of(b).len()
            &&& packets_of(out)[1].data == new_comment_packet(b, lyrics)
            &&& forall|i: int|
                0 <= i < packets_of(b).len() && i != 1 ==> (#[trigger] packets_of(out)[i]).data
                    == packets_of(b)[i].data
        }),
{
    let out = Ogg::edited(b, lyrics, force)->Ok_0->0;
    let n = header_packets(codec_in(b));
    lemma_written(b, lyrics);
    lemma_rest_packets(b);
    let rest = packets_from(rest_pages(b), n, seq![]);
    assert forall|i: int| 0 <= i < packets_of(b).len() && i != 1 implies (#[trigger] packets_of(
        out,
    )[i]).data == packets_of(b)[i].data by {
        if i >= n {
            assert(packets_of(out)[i] == rest[i - n]);
            assert(rest[i - n].data == packets_of(b)[n + (i - n)].data);
        }
    }
}

/// What pages leave of a packet that does not end in them.
pub open spec fn remainder(pages: Seq<Page>, current: Seq<u8>) -> Seq<u8>
    decreases pages.len(),
{
    if pages.len() == 0 {
        current
    } else {
        remainder(pages.drop_first(), left_over(pages[0].segments, current))
    }
}

#[verifier::spinoff_prover]
#[verifier::rlimit(40)]
proof fn lemma_packets_split(pages: Seq<Page>, k: int, page: int, current: Seq<u8>)
    requires
        0 <= k <= pages.len(),
    ensures
        packets_from(pages, page, current) == packets_from(pages.take(k), page, current)
            + packets_from(pages.skip(k), page + k, remainder(pages.take(k), current)),
    decreases k,
{
    if k == 0 {
        assert(pages.take(0) =~= seq![]);
        assert(pages.skip(0) =~= pages);
        assert(packets_from(pages.take(0), page, current) =~= seq![]);
        assert(Seq::<PacketContent>::empty() + packets_from(pages, page, current) =~= packets_from(
            pages,
            page,
            current,
        ));
    } else {
        let rest = pages.drop_first();
        let left = left_over(pages[0].segments, current);
        lemma_packets_split(rest, k - 1, page + 1, left);
        assert(pages.take(k)[0] == pages[0]);
        assert(pages.take(k).drop_first() =~= rest.take(k - 1));
        assert(pages.skip(k) =~= rest.skip(k - 1));
        let here = packets_in(pages[0].segments, current, page);
        let a = packets_from(rest.take(k - 1), page + 1, left);
        let z = packets_from(rest.skip(k - 1), page + k, remainder(rest.take(k - 1), left));
        assert(here + (a + z) =~= (here + a) + z);
        assert(page + 1 + (k - 1) == page + k);
    }
}

/// The data of packets do not depend on how pages are counted.
proof fn lemma_shifted_packets(pages: Seq<Page>, i: int, j: int, current: Seq<u8>)
    ensures
        packets_from(pages, i, current).len() == packets_from(pages, j, current).len(),
        forall|k: int|
            0 <= k < packets_from(pages, i, current).len() ==> (#[trigger] packets_from(
                pages,
                i,
                current,
            )[k]).data == packets_from(pages, j, current)[k].data,
    decreases pages.len(),
{
    if pages.len() > 0 {
        let left = left_over(pages[0].segments, current);
        lemma_shifted_in(pages[0].segments, current, i, j);
        lemma_shifted_packets(pages.drop_first(), i + 1, j + 1, left);
        let a = packets_in(pages[0].segments, current, i);
        let b = packets_in(pages[0].segments, current, j);
        let x = packets_from(pages.drop_first(), i + 1, left);
        let y = packets_from(pages.drop_first(), j + 1, left);
        assert forall|k: int| 0 <= k < packets_from(pages, i, current).len() implies (
        #[trigger] packets_from(pages, i, current)[k]).data == packets_from(pages, j, current)[k].data by {
            if k < a.len() {
                assert(packets_from(pages, i, current)[k] == a[k]);
                assert(packets_from(pages, j, current)[k] == b[k]);
            } else {
                assert(packets_from(pages, i, current)[k] == x[k - a.len()]);
                assert(packets_from(pages, j, current)[k] == y[k - a.len()]);
            }
        }
    }
}

proof fn lemma_shifted_in(segments: Seq<Seq<u8>>, current: Seq<u8>, i: int, j: int)
    ensures
        packets_in(segments, current, i).len() == packets_in(segments, current, j).len(),
        forall|k: int|
            0 <= k < packets_in(segments, current, i).len() ==> (#[trigger] packets_in(
                segments,
                current,
                i,
            )[k]).data == packets_in(segments, current, j)[k].data,
    decreases segments.len(),
{
    if segments.len() > 0 {
        let a = packets_in(segments, current, i);
        let b = packets_in(segments, current, j);
        if segments[0].len() < 255 {
            lemma_shifted_in(segments.drop_first(), seq![], i, j);
            let x = packets_in(segments.drop_first(), seq![], i);
            let y = packets_in(segments.drop_first(), seq![], j);
            assert forall|k: int| 0 <= k < a.len() implies (#[trigger] a[k]).data == b[k].data by {
                if k > 0 {
                    assert(a[k] == x[k - 1]);
                    assert(b[k] == y[k - 1]);
                }
            }
        } else {
            lemma_shifted_in(segments.drop_first(), current + segments[0], i, j);
            assert(a == packets_in(segments.drop_first(), current + segments[0], i));
            assert(b == packets_in(segments.drop_first(), current + segments[0], j));
        }
    }
}

/// What a page with one packet is built of.
pub struct PageParts {
    pub header_type: u8,
    pub granule: u64,
    pub serial: u32,
    pub sequence: u32,
    pub packet: Seq<u8>,
}

impl PageParts {
    /// The bytes that are built of the parts.
    pub open spec fn built(self) -> Result<Seq<u8>, Seq<char>> {
        page_of(self.header_type, self.granule, self.serial, self.sequence as int, self.packet)
    }

    /// Whether a page that was read agrees with the parts.
    pub open spec fn told_by(self, page: Page) -> bool {
        &&& page.header_type == self.header_type
        &&& page.granule == self.granule
        &&& page.serial == self.serial
        &&& page.sequence == self.sequence
        &&& page.raw_len == self.built()->Ok_0.len()
    }
}

/// The bytes of pages, one after another.
pub open spec fn built_bytes(parts: Seq<PageParts>) -> Seq<u8>
    decreases parts.len(),
{
    if parts.len() == 0 {
        seq![]
    } else {
        parts[0].built()->Ok_0 + built_bytes(parts.drop_first())
    }
}

/// Pages that are built of one packet each are read back, with their headers, their lengths and
/// their packets, each on its own page.
pub proof fn law_built_pages_read_back(parts: Seq<PageParts>)
    requires
        forall|i: int| 0 <= i < parts.len() ==> (#[trigger] parts[i]).built() is Ok,
    ensures
        ({
            let b = built_bytes(parts);
            &&& pages_at(b, 0) is Ok
            &&& pages_of(b).len() == parts.len()
            &&& forall|i: int|
                0 <= i < parts.len() ==> (#[trigger] parts[i]).told_by(pages_of(b)[i])
            &&& packets_of(b).len() == parts.len()
            &&& forall|i: int|
                0 <= i < parts.len() ==> #[trigger] packets_of(b)[i] == (PacketContent {
                    data: parts[i].packet,
                    end_page: i,
                })
        }),
{
    lemma_parts_back(Seq::empty(), parts, 0);
    assert(Seq::<u8>::empty() + built_bytes(parts) =~= built_bytes(parts));
}

#[verifier::spinoff_prover]
#[verifier::rlimit(60)]
proof fn lemma_parts_back(before: Seq<u8>, parts: Seq<PageParts>, page: int)
    requires
        forall|i: int| 0 <= i < parts.len() ==> (#[trigger] parts[i]).built() is Ok,
    ensures
        ({
            let b = before + built_bytes(parts);
            let found = pages_at(b, before.len() as int);
            let packets = packets_from(found->Ok_0, page, seq![]);
            &&& found is Ok
            &&& found->Ok_0.len() == parts.len()
            &&& forall|i: int| 0 <= i < parts.len() ==> (#[trigger] parts[i]).told_by(
                found->Ok_0[i],
            )
            &&& packets.len() == parts.len()
            &&& forall|i: int|
                0 <= i < parts.len() ==> #[trigger] packets[i] == (PacketContent {
                    data: parts[i].packet,
                    end_page: page + i,
                })
        }),
    decreases parts.len(),
{
    let b = before + built_bytes(parts);
    if parts.len() == 0 {
        assert(b =~= before);
        assert(packets_from(Seq::empty(), page, seq![]) =~= seq![]);
    } else {
        let rest = parts.drop_first();
        let first = parts[0];
        let p = first.built()->Ok_0;
        let tail = built_bytes(rest);
        assert forall|i: int| 0 <= i < rest.len() implies (#[trigger] rest[i]).built() is Ok by {
            assert(rest[i] == parts[i + 1]);
        }
        lemma_built_page(
            first.header_type,
            first.granule,
            first.serial,
            first.sequence as int,
            first.packet,
            page,
        );
        lemma_parts_back(before + p, rest, page + 1);
        assert(b =~= before + p + tail);
        lemma_pages_cons(before, p, tail);
        let content = page_at(p, 0)->Ok_0;
        let others = pages_at(before + p + tail, (before + p).len() as int)->Ok_0;
        let all = pages_at(b, before.len() as int)->Ok_0;
        assert(all == seq![content] + others);
        assert(all[0] == content);
        assert(all.drop_first() =~= others);
        let packets = packets_from(all, page, seq![]);
        let later = packets_from(others, page + 1, seq![]);
        let mine = PacketContent { data: first.packet, end_page: page };
        assert(packets == seq![mine] + later);
        assert forall|i: int| 0 <= i < parts.len() implies (#[trigger] parts[i]).told_by(
            all[i],
        ) by {
            if i > 0 {
                assert(rest[i - 1] == parts[i]);
                assert(all[i] == others[i - 1]);
            }
        }
        assert forall|i: int| 0 <= i < parts.len() implies #[trigger] packets[i] == (
        PacketContent { data: parts[i].packet, end_page: page + i }) by {
            if i > 0 {
                assert(rest[i - 1] == parts[i]);
                assert(packets[i] == later[i - 1]);
            }
        }
    }
}

} // verus!
