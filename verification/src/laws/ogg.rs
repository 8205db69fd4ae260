//! What is read from an OGG file and written to it.

use vstd::prelude::*;
use vstd::utf8::{decode_utf8, encode_utf8, valid_utf8};

use crate::bytes::{le32, le32_bytes, le64, le64_bytes, stands_at};
use crate::metadata::ogg::{
    built_pages, byte_sum, clock, codec_in, codec_of, comment_prefix, comments_in, content_for,
    crc_of, header_packets, header_page, lacing, left_over, new_comment_packet, new_packets,
    packets_from, packets_in, packets_of, page_at, page_of, pages_at, pages_of, refusal, rest_pages,
    run_together, sealed, segments_at, shifted, shifted_by, spare_segments, zeroed, Codec, Ogg,
    PacketContent, Page,
};
use crate::metadata::vorbis::{comment_bytes, find_value, has_key, tagged, with_lyrics, Comments};
use crate::metadata::AudioFormat;
use crate::types::Track;

verus! {

/// The CRC of a page is that of the polynomial 0x04c11db7: a bit at a time, what is shifted out of
/// the 32 bits is taken up by the polynomial, and each byte is fed in at the high end.
pub proof fn law_crc(data: Seq<u8>, b: u8, c: u32)
    ensures
        c < 0x8000_0000 ==> shifted(c) == 2 * c,
        c >= 0x8000_0000 ==> shifted(c) == ((2 * c - 0x1_0000_0000) as u32) ^ 0x04c1_1db7u32,
        crc_of(Seq::empty()) == 0,
        crc_of(data.push(b)) == shifted(
            shifted(
                shifted(
                    shifted(
                        shifted(
                            shifted(shifted(shifted(crc_of(data) ^ ((b as u32) * 0x100_0000) as u32))),
                        ),
                    ),
                ),
            ),
        ),
{
    assert(c & 0x8000_0000u32 != 0 <==> c >= 0x8000_0000u32) by (bit_vector);
    assert(c < 0x8000_0000u32 ==> c << 1u32 == 2 * c) by (bit_vector);
    assert(c >= 0x8000_0000u32 ==> c << 1u32 == 2 * c - 0x1_0000_0000) by (bit_vector);
    let w = b as u32;
    assert(w <= 255 ==> w << 24u32 == w * 0x100_0000) by (bit_vector);
    assert(data.push(b).drop_last() =~= data);
    assert(data.push(b).last() == b);
    reveal_with_fuel(shifted_by, 9);
}

/// The fields of a page stand at fixed places: type, granule position, serial number and sequence
/// number, the lower bytes first, and the number of segments.
pub proof fn law_page_fields(b: Seq<u8>, pos: int)
    requires
        0 <= pos,
        page_at(b, pos) is Ok,
    ensures
        ({
            let p = page_at(b, pos)->Ok_0;
            &&& b.subrange(pos, pos + 4) == seq![0x4fu8, 0x67, 0x67, 0x53]
            &&& p.header_type == b[pos + 5]
            &&& p.granule == le64(b, pos + 6)
            &&& p.serial == le32(b, pos + 14)
            &&& p.sequence == le32(b, pos + 18)
            &&& p.segments.len() == b[pos + 26]
            &&& forall|i: int|
                0 <= i < p.segments.len() ==> (#[trigger] p.segments[i]).len() == b[pos + 27 + i]
            &&& 0 < p.raw_len && pos + p.raw_len <= b.len()
            &&& run_together(p.segments) == b.subrange(
                pos + 27 + b[pos + 26],
                pos + p.raw_len,
            )
        }),
{
    let n = b[pos + 26] as int;
    lemma_segments(b, pos + 27, pos + 27 + n, n);
    assert(seq![0x4fu8, 0x67, 0x67, 0x53].len() == 4);
}

/// A page is read exactly if it starts with `OggS` and all the bytes that its lengths announce are
/// there.
pub proof fn law_page_whole(b: Seq<u8>, pos: int)
    requires
        0 <= pos,
    ensures
        pos + 27 > b.len() ==> page_at(b, pos) is Err,
        pos + 27 <= b.len() && b.subrange(pos, pos + 4) != seq![0x4fu8, 0x67, 0x67, 0x53] ==> page_at(
            b,
            pos,
        ) is Err,
        pos + 27 <= b.len() && b.subrange(pos, pos + 4) == seq![0x4fu8, 0x67, 0x67, 0x53] ==> (
        page_at(b, pos) is Ok <==> pos + 27 + b[pos + 26] + byte_sum(
            b,
            pos + 27,
            b[pos + 26] as int,
        ) <= b.len() && pos + 27 + b[pos + 26] <= b.len()),
{
    assert(seq![0x4fu8, 0x67, 0x67, 0x53].len() == 4);
}

proof fn lemma_segments(b: Seq<u8>, table: int, data: int, n: int)
    requires
        0 <= table,
        0 <= n,
        table + n <= b.len(),
        0 <= data,
        data + byte_sum(b, table, n) <= b.len(),
    ensures
        byte_sum(b, table, n) >= 0,
        segments_at(b, table, data, n).len() == n,
        forall|i: int|
            0 <= i < n ==> (#[trigger] segments_at(b, table, data, n)[i]).len() == b[table + i],
        run_together(segments_at(b, table, data, n)) == b.subrange(
            data,
            data + byte_sum(b, table, n),
        ),
    decreases n,
{
    let all = segments_at(b, table, data, n);
    if n > 0 {
        let first = b.subrange(data, data + b[table]);
        lemma_sum_positive(b, table + 1, n - 1);
        lemma_segments(b, table + 1, data + b[table], n - 1);
        let rest = segments_at(b, table + 1, data + b[table], n - 1);
        assert(all == seq![first] + rest);
        assert(all.drop_first() =~= rest);
        assert forall|i: int| 0 <= i < n implies (#[trigger] all[i]).len() == b[table + i] by {
            if i > 0 {
                assert(all[i] == rest[i - 1]);
            }
        }
        assert(run_together(all) =~= b.subrange(data, data + byte_sum(b, table, n)));
    } else {
        assert(run_together(all) =~= b.subrange(data, data));
    }
}

proof fn lemma_sum_positive(b: Seq<u8>, table: int, n: int)
    ensures
        byte_sum(b, table, n) >= 0,
    decreases n,
{
    if n > 0 {
        lemma_sum_positive(b, table + 1, n - 1);
    }
}

/// The segments of pages, one page after another.
pub open spec fn all_segments(pages: Seq<Page>) -> Seq<Seq<u8>>
    decreases pages.len(),
{
    if pages.len() == 0 {
        seq![]
    } else {
        pages[0].segments + all_segments(pages.drop_first())
    }
}

/// The data of packets.
pub open spec fn data_of(packets: Seq<PacketContent>) -> Seq<Seq<u8>> {
    packets.map_values(|p: PacketContent| p.data)
}

/// A packet is made of segments of 255 bytes and a shorter one that ends it, and the next packet
/// starts behind it.
pub proof fn law_packet(long: Seq<Seq<u8>>, last: Seq<u8>, rest: Seq<Seq<u8>>, page: int)
    requires
        forall|i: int| 0 <= i < long.len() ==> (#[trigger] long[i]).len() == 255,
        last.len() < 255,
    ensures
        packets_in(long + seq![last] + rest, seq![], page) == seq![
            PacketContent { data: run_together(long) + last, end_page: page },
        ] + packets_in(rest, seq![], page),
        packets_in(long, seq![], page) == Seq::<PacketContent>::empty(),
{
    lemma_packet(long, last, rest, Seq::empty(), page);
    assert(Seq::<u8>::empty() + run_together(long) + last =~= run_together(long) + last);
}

proof fn lemma_packet(
    long: Seq<Seq<u8>>,
    last: Seq<u8>,
    rest: Seq<Seq<u8>>,
    current: Seq<u8>,
    page: int,
)
    requires
        forall|i: int| 0 <= i < long.len() ==> (#[trigger] long[i]).len() == 255,
        last.len() < 255,
    ensures
        packets_in(long + seq![last] + rest, current, page) == seq![
            PacketContent { data: current + run_together(long) + last, end_page: page },
        ] + packets_in(rest, seq![], page),
        packets_in(long, current, page) == Seq::<PacketContent>::empty(),
    decreases long.len(),
{
    let all = long + seq![last] + rest;
    if long.len() == 0 {
        assert(all[0] == last);
        assert(all.drop_first() =~= rest);
        assert(current + run_together(long) + last =~= current + last);
    } else {
        let tail = long.drop_first();
        assert(long[0].len() == 255);
        assert(all[0] == long[0]);
        assert(all.drop_first() =~= tail + seq![last] + rest);
        assert forall|i: int| 0 <= i < tail.len() implies (#[trigger] tail[i]).len() == 255 by {
            assert(tail[i] == long[i + 1]);
        }
        lemma_packet(tail, last, rest, current + long[0], page);
        assert(current + run_together(long) + last =~= current + long[0] + run_together(tail)
            + last);
    }
}

/// Packets go on from page to page: those of a stream are those of all its segments in a row.
pub proof fn law_packets_across_pages(pages: Seq<Page>, page: int, current: Seq<u8>)
    ensures
        data_of(packets_from(pages, page, current)) == data_of(
            packets_in(all_segments(pages), current, 0),
        ),
    decreases pages.len(),
{
    if pages.len() == 0 {
        assert(data_of(packets_from(pages, page, current)) =~= data_of(
            packets_in(all_segments(pages), current, 0),
        ));
    } else {
        let first = pages[0].segments;
        let rest = pages.drop_first();
        let over = left_over(first, current);
        law_packets_across_pages(rest, page + 1, over);
        lemma_in_parts(first, all_segments(rest), current, page);
        assert(data_of(packets_from(pages, page, current)) =~= data_of(
            packets_in(first, current, page),
        ) + data_of(packets_from(rest, page + 1, over)));
    }
}

#[verifier::spinoff_prover]
#[verifier::rlimit(40)]
proof fn lemma_in_parts(a: Seq<Seq<u8>>, b: Seq<Seq<u8>>, current: Seq<u8>, page: int)
    ensures
        data_of(packets_in(a + b, current, 0)) == data_of(packets_in(a, current, page)) + data_of(
            packets_in(b, left_over(a, current), 0),
        ),
    decreases a.len(),
{
    if a.len() == 0 {
        assert(a + b =~= b);
        assert(data_of(packets_in(a + b, current, 0)) =~= data_of(packets_in(a, current, page))
            + data_of(packets_in(b, left_over(a, current), 0)));
    } else {
        let rest = a.drop_first();
        assert((a + b)[0] == a[0]);
        assert((a + b).drop_first() =~= rest + b);
        let data = current + a[0];
        let last = packets_in(b, left_over(a, current), 0);
        if a[0].len() < 255 {
            lemma_in_parts(rest, b, seq![], page);
            let all = packets_in(rest + b, seq![], 0);
            let part = packets_in(rest, seq![], page);
            assert(data_of(seq![PacketContent { data, end_page: 0 }] + all) =~= seq![data]
                + data_of(all));
            assert(data_of(seq![PacketContent { data, end_page: page }] + part) =~= seq![data]
                + data_of(part));
            assert(seq![data] + (data_of(part) + data_of(last)) =~= (seq![data] + data_of(part))
                + data_of(last));
        } else {
            lemma_in_parts(rest, b, data, page);
        }
    }
}

/// A page that is built starts with `OggS`, holds each field in its place, the CRC of its bytes with
/// zeros in place of the CRC, one length for each segment, and behind them the packet.
#[verifier::spinoff_prover]
#[verifier::rlimit(40)]
pub proof fn law_page_built(
    header_type: u8,
    granule: u64,
    serial: u32,
    sequence: u32,
    packet: Seq<u8>,
)
    requires
        packet.len() < 255 * 255,
    ensures
        ({
            let p = header_page(header_type, granule, serial, sequence as int, packet);
            let n = (packet.len() / 255 + 1) as int;
            &&& p.len() == 27 + n + packet.len()
            &&& p.subrange(0, 6) == seq![0x4fu8, 0x67, 0x67, 0x53, 0, header_type]
            &&& p.subrange(6, 14) == le64_bytes(granule as int)
            &&& p.subrange(14, 18) == le32_bytes(serial as int)
            &&& p.subrange(18, 22) == le32_bytes(sequence as int)
            &&& p.subrange(22, 26) == le32_bytes(
                crc_of(
                    p.subrange(0, 22) + seq![0u8, 0, 0, 0] + p.subrange(26, p.len() as int),
                ) as int,
            )
            &&& p[26] == n
            &&& forall|i: int| 0 <= i < n - 1 ==> #[trigger] p[27 + i] == 255
            &&& p[27 + n - 1] == packet.len() % 255
            &&& p.subrange(27 + n, p.len() as int) == packet
        }),
{
    reveal(header_page);
    let p = header_page(header_type, granule, serial, sequence as int, packet);
    let n = (packet.len() / 255 + 1) as int;
    let u = crate::metadata::ogg::unsealed(header_type, granule, serial, sequence as int, packet);
    let lace = lacing(packet.len() as int);
    assert(u.len() == 27 + n + packet.len());
    assert(u.subrange(0, 6) =~= seq![0x4fu8, 0x67, 0x67, 0x53, 0, header_type]);
    assert(u.subrange(6, 14) =~= le64_bytes(granule as int));
    assert(u.subrange(14, 18) =~= le32_bytes(serial as int));
    assert(u.subrange(18, 22) =~= le32_bytes(sequence as int));
    assert(u[26] == n);
    assert(u.subrange(27, 27 + n) =~= lace);
    assert(u.subrange(27 + n, u.len() as int) =~= packet);
    lemma_sealed(u);
    assert(p.subrange(0, 6) =~= u.subrange(0, 6));
    assert(p.subrange(6, 14) =~= u.subrange(6, 14));
    assert(p.subrange(14, 18) =~= u.subrange(14, 18));
    assert(p.subrange(18, 22) =~= u.subrange(18, 22));
    assert(p.subrange(27 + n, p.len() as int) =~= packet);
    assert forall|i: int| 0 <= i < n - 1 implies #[trigger] p[27 + i] == 255 by {
        assert(p[27 + i] == u[27 + i]);
        assert(u.subrange(27, 27 + n)[i] == lace[i]);
    }
    assert(p[27 + n - 1] == u[27 + n - 1]);
    assert(u.subrange(27, 27 + n)[n - 1] == lace[n - 1]);
}

/// Sealing a page changes its CRC and nothing else.
proof fn lemma_sealed(u: Seq<u8>)
    requires
        u.len() >= 27,
    ensures
        sealed(u).len() == u.len(),
        forall|i: int|
            0 <= i < u.len() && !(22 <= i < 26) ==> #[trigger] sealed(u)[i] == u[i],
        sealed(u).subrange(22, 26) == le32_bytes(
            crc_of(
                sealed(u).subrange(0, 22) + seq![0u8, 0, 0, 0] + sealed(u).subrange(
                    26,
                    u.len() as int,
                ),
            ) as int,
        ),
{
    let p = sealed(u);
    let crc = le32_bytes(crc_of(zeroed(u)) as int);
    assert(p.subrange(22, 26) =~= crc);
    assert(p.subrange(0, 22) =~= u.subrange(0, 22));
    assert(p.subrange(26, p.len() as int) =~= u.subrange(26, u.len() as int));
}

/// The first packet tells the codec: 1 and `vorbis`, or `OpusHead`. A Vorbis stream has three header
/// packets and an Opus stream two; the comment packet starts with 3 and `vorbis`, or with
/// `OpusTags`.
pub proof fn law_codecs(rest: Seq<u8>, other: Seq<u8>)
    ensures
        codec_of(seq![1u8, 0x76, 0x6f, 0x72, 0x62, 0x69, 0x73] + rest) == Some(Codec::Vorbis),
        codec_of(seq![0x4fu8, 0x70, 0x75, 0x73, 0x48, 0x65, 0x61, 0x64] + rest) == Some(
            Codec::Opus,
        ),
        (other.len() < 7 || other.subrange(0, 7) != seq![1u8, 0x76, 0x6f, 0x72, 0x62, 0x69, 0x73])
            && (other.len() < 8 || other.subrange(0, 8) != seq![
            0x4fu8,
            0x70,
            0x75,
            0x73,
            0x48,
            0x65,
            0x61,
            0x64,
        ]) ==> codec_of(other) is None,
        header_packets(Codec::Vorbis) == 3,
        header_packets(Codec::Opus) == 2,
        comment_prefix(Codec::Vorbis) == seq![3u8, 0x76, 0x6f, 0x72, 0x62, 0x69, 0x73],
        comment_prefix(Codec::Opus) == seq![0x4fu8, 0x70, 0x75, 0x73, 0x54, 0x61, 0x67, 0x73],
{
    let v = seq![1u8, 0x76, 0x6f, 0x72, 0x62, 0x69, 0x73];
    let o = seq![0x4fu8, 0x70, 0x75, 0x73, 0x48, 0x65, 0x61, 0x64];
    assert((v + rest).subrange(0, 7) =~= v);
    assert((o + rest).subrange(0, 8) =~= o);
    assert(stands_at(v + rest, 0, v));
    assert(stands_at(o + rest, 0, o));
    assert((o + rest)[0] == 0x4f);
    if stands_at(o + rest, 0, v) {
        assert((o + rest).subrange(0, 7)[0] == v[0]);
    }
}

/// The comment packet that is written is the prefix of its codec and a comment block, whose vendor
/// string is the old one and whose comments are the old ones without lyrics and then the new lyrics.
pub proof fn law_ogg_comments(b: Seq<u8>, lyrics: Seq<char>, c: Comments)
    requires
        comments_in(b) == Ok::<Comments, crate::metadata::vorbis::Fault>(c),
    ensures
        ({
            let key = seq![0x4cu8, 0x59, 0x52, 0x49, 0x43, 0x53];
            let entries = c.entries.filter(|e: Seq<u8>| !has_key(e, key)).push(
                key + seq![0x3du8] + encode_utf8(lyrics),
            );
            valid_utf8(c.vendor) ==> new_comment_packet(b, lyrics) == (match codec_in(b) {
                Codec::Vorbis => seq![3u8, 0x76, 0x6f, 0x72, 0x62, 0x69, 0x73],
                Codec::Opus => seq![0x4fu8, 0x70, 0x75, 0x73, 0x54, 0x61, 0x67, 0x73],
            }) + comment_bytes((Comments { vendor: c.vendor, entries }))
        }),
{
    let key = seq![0x4cu8, 0x59, 0x52, 0x49, 0x43, 0x53];
    let entries = c.entries.filter(|e: Seq<u8>| !has_key(e, key)).push(
        key + seq![0x3du8] + encode_utf8(lyrics),
    );
    crate::laws::comments::law_lyrics_comment(c.entries, lyrics);
    assert(with_lyrics(c.entries, lyrics) =~= entries);
    if valid_utf8(c.vendor) {
        broadcast use vstd::utf8::decode_utf8_encode_utf8;

        assert(encode_utf8(decode_utf8(c.vendor)) == c.vendor);
    }
}

/// The header packets of a written stream have pages of their own: the first one is marked as the
/// beginning of the stream, all have the serial number of the old stream, granule position zero and
/// their number, and the CRC of every page is right.
#[verifier::spinoff_prover]
#[verifier::rlimit(40)]
pub proof fn law_ogg_headers(b: Seq<u8>, lyrics: Seq<char>, force: bool, i: int)
    requires
        Ogg::edited(b, lyrics, force) matches Ok(Some(_)),
        packets_of(b).len() >= header_packets(codec_in(b)),
        packets_of(b)[1].data.len() >= comment_prefix(codec_in(b)).len(),
        0 <= i < header_packets(codec_in(b)),
    ensures
        ({
            let out = Ogg::edited(b, lyrics, force)->Ok_0->0;
            let page = pages_of(out)[i];
            &&& i < pages_of(out).len()
            &&& page.header_type == (if i == 0 {
                2int
            } else {
                0
            })
            &&& page.granule == 0
            &&& page.serial == pages_of(b)[0].serial
            &&& page.sequence == i
            &&& packets_in(page.segments, seq![], i) == seq![
                PacketContent {
                    data: (if i == 1 {
                        new_comment_packet(b, lyrics)
                    } else {
                        packets_of(b)[i].data
                    }),
                    end_page: i,
                },
            ]
        }),
{
    let out = Ogg::edited(b, lyrics, force)->Ok_0->0;
    let n = header_packets(codec_in(b));
    let packets = new_packets(b, lyrics);
    let serial = pages_of(b)[0].serial;
    let new = built_pages(packets, serial, 0, n);
    crate::metadata::ogg::lemma_written(b, lyrics);
    crate::metadata::ogg::lemma_headers_each(packets, serial, 0, n, i);
    reveal(content_for);
    crate::metadata::ogg::lemma_built_page(
        if i == 0 {
            2u8
        } else {
            0u8
        },
        0,
        serial,
        i,
        packets[i].data,
        i,
    );
    assert(pages_of(out)[i] == new[i]);
    assert(new[i] == content_for(packets, serial, 0 + i));
}

/// Where the header packets fill their pages, the pages behind them are kept one by one: each has
/// the type, granule position, serial number and segments that it had, and the next number.
pub proof fn law_ogg_pages_kept(b: Seq<u8>, lyrics: Seq<char>, force: bool, i: int)
    requires
        Ogg::edited(b, lyrics, force) matches Ok(Some(_)),
        packets_of(b).len() >= header_packets(codec_in(b)),
        packets_of(b)[1].data.len() >= comment_prefix(codec_in(b)).len(),
        spare_segments(b).len() == 0,
        packets_of(b)[header_packets(codec_in(b)) - 1].end_page < i < pages_of(b).len(),
    ensures
        ({
            let out = Ogg::edited(b, lyrics, force)->Ok_0->0;
            let n = header_packets(codec_in(b));
            let at = n + i - packets_of(b)[n - 1].end_page - 1;
            &&& 0 <= at < pages_of(out).len()
            &&& pages_of(out)[at].header_type == pages_of(b)[i].header_type
            &&& pages_of(out)[at].granule == pages_of(b)[i].granule
            &&& pages_of(out)[at].serial == pages_of(b)[i].serial
            &&& pages_of(out)[at].segments == pages_of(b)[i].segments
            &&& pages_of(out)[at].sequence == at % 0x1_0000_0000
        }),
{
    let out = Ogg::edited(b, lyrics, force)->Ok_0->0;
    let n = header_packets(codec_in(b));
    let at = n + i - packets_of(b)[n - 1].end_page - 1;
    crate::metadata::ogg::law_ogg_pages(b, lyrics, force);
    crate::metadata::ogg::lemma_written(b, lyrics);
    assert(rest_pages(b)[at - n] == pages_of(b)[i]);
    assert(pages_of(out)[at] == (Page {
        sequence: (at % 0x1_0000_0000) as u32,
        ..rest_pages(b)[at - n]
    }));
}

/// Where other packets stand behind the last header packet on its page, they go to a page of their
/// own, with the granule position and serial number of the old page. It keeps the mark of the end of
/// the stream, and neither continues a packet nor begins the stream.
pub proof fn law_ogg_carried(b: Seq<u8>, lyrics: Seq<char>, force: bool)
    requires
        Ogg::edited(b, lyrics, force) matches Ok(Some(_)),
        packets_of(b).len() >= header_packets(codec_in(b)),
        packets_of(b)[1].data.len() >= comment_prefix(codec_in(b)).len(),
        spare_segments(b).len() > 0,
    ensures
        ({
            let out = Ogg::edited(b, lyrics, force)->Ok_0->0;
            let n = header_packets(codec_in(b));
            let old_page = pages_of(b)[packets_of(b)[n - 1].end_page];
            &&& n < pages_of(out).len()
            &&& pages_of(out)[n].granule == old_page.granule
            &&& pages_of(out)[n].serial == old_page.serial
            &&& pages_of(out)[n].sequence == n
            &&& pages_of(out)[n].segments == spare_segments(b)
            &&& pages_of(out)[n].header_type / 4 == old_page.header_type / 4
            &&& pages_of(out)[n].header_type % 4 == 0
        }),
{
    let out = Ogg::edited(b, lyrics, force)->Ok_0->0;
    let n = header_packets(codec_in(b));
    crate::metadata::ogg::law_ogg_pages(b, lyrics, force);
    crate::metadata::ogg::lemma_written(b, lyrics);
    assert(pages_of(out)[n] == (Page {
        sequence: (n % 0x1_0000_0000) as u32,
        ..rest_pages(b)[0]
    }));
}

/// A packet that needs more than 255 segments is too large for a page.
pub proof fn law_page_too_large(
    header_type: u8,
    granule: u64,
    serial: u32,
    sequence: u32,
    packet: Seq<u8>,
)
    ensures
        page_of(header_type, granule, serial, sequence as int, packet) is Err <==> packet.len()
            >= 255 * 255,
        packet.len() < 255 * 255 ==> page_of(header_type, granule, serial, sequence as int, packet)
            == Ok::<Seq<u8>, Seq<char>>(
            header_page(header_type, granule, serial, sequence as int, packet),
        ),
{
}

/// Lyrics can be put into a stream whose comment packet has its prefix, where all header packets are
/// there.
pub proof fn law_ogg_possible(b: Seq<u8>, lyrics: Seq<char>, force: bool)
    requires
        packets_of(b).len() >= 2,
        packets_of(b).len() >= header_packets(codec_in(b)),
        packets_of(b)[1].data.len() >= 8,
    ensures
        Ogg::readable(b),
        Ogg::editable(b, lyrics, force),
{
}

/// A stream of another codec, with fewer than two packets or without pages is refused, and so is one
/// whose comments cannot be read.
pub proof fn law_ogg_refused(b: Seq<u8>, lyrics: Seq<char>, force: bool)
    requires
        pages_at(b, 0) matches Ok(pages) ==> {
            ||| pages.len() == 0
            ||| packets_of(b).len() < 2
            ||| codec_of(packets_of(b)[0].data) is None
            ||| comments_in(b) is Err
        },
    ensures
        Ogg::edited(b, lyrics, force) is Err,
{
}

/// An OGG file plays as many seconds as its last granule position takes at the rate of its codec:
/// 48000 per second for Opus, and for Vorbis what its first packet says. A position that is not
/// positive, or a rate of zero, tells nothing.
pub proof fn law_ogg_duration(b: Seq<u8>, filepath: Seq<char>)
    requires
        Ogg::metadata(b, filepath) is Ok,
        packets_of(b).len() > 0,
    ensures
        ({
            let t = Ogg::metadata(b, filepath)->Ok_0;
            let granule = pages_of(b).last().granule as int;
            let first = packets_of(b)[0].data;
            let rate = match codec_in(b) {
                Codec::Opus => 48_000int,
                Codec::Vorbis => if first.len() >= 16 {
                    le32(first, 12)
                } else {
                    0
                },
            };
            &&& 0 < granule < 0x8000_0000_0000_0000 && rate > 0 && granule / rate < 0x1_0000_0000
                ==> t.duration == granule / rate
            &&& granule == 0 || granule >= 0x8000_0000_0000_0000 || rate == 0 ==> t.duration == 0
        }),
{
    let granule = pages_of(b).last().granule as int;
    let rate = clock(codec_in(b), packets_of(b)[0].data);
    if 0 < granule && rate > 0 {
        vstd::arithmetic::div_mod::lemma_div_pos_is_pos(granule, rate);
    }
}

/// The tags of an OGG file are those that its comment packet tells.
pub proof fn law_ogg_tags(b: Seq<u8>, filepath: Seq<char>, c: Comments)
    requires
        Ogg::metadata(b, filepath) is Ok,
        packets_of(b).len() >= 2,
        comments_in(b) == Ok::<Comments, crate::metadata::vorbis::Fault>(c),
    ensures
        ({
            let t = Ogg::metadata(b, filepath)->Ok_0;
            let none = Track {
                title: None,
                artist: None,
                album: None,
                track_number: 0,
                duration: 0,
                filepath,
            };
            let told = tagged(none, c.entries);
            &&& t.title == told.title && t.artist == told.artist && t.album == told.album
            &&& t.track_number == told.track_number
            &&& t.filepath == filepath
        }),
{
}

/// A sync with `force` writes every stream whose header packets can be written, and one without
/// writes exactly those of them without a `LYRICS` comment.
pub proof fn law_ogg_overwrites(b: Seq<u8>, lyrics: Seq<char>, c: Comments)
    requires
        refusal(b) is None,
        comments_in(b) == Ok::<Comments, crate::metadata::vorbis::Fault>(c),
    ensures
        ({
            let key = seq![0x4cu8, 0x59, 0x52, 0x49, 0x43, 0x53];
            Ogg::edited(b, lyrics, false) == (if find_value(c.entries, key) is Some {
                Ok::<Option<Seq<u8>>, Seq<char>>(None)
            } else {
                Ogg::edited(b, lyrics, true)
            })
        }),
        !(Ogg::edited(b, lyrics, true) matches Ok(None)),
{
    crate::laws::comments::lemma_keys();
}

} // verus!
