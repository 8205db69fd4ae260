use synclyr2metadata::metadata::ogg::{
    build_page, crc_table, detect_codec, ogg_crc, packet_segments, parse_pages, rebuild_comment_packet,
    reconstruct_packets, recompute_crc, Codec, Ogg,
};
use synclyr2metadata::metadata::vorbis::build_vorbis_comment;
use synclyr2metadata::metadata::{read_checked, sync_checked, AudioFormat, Edit, MetaError};

fn comments(list: &[&str]) -> Vec<Vec<u8>> {
    list.iter().map(|c| c.as_bytes().to_vec()).collect()
}

fn page(kind: u8, granule: i64, sequence: u32, lacing: &[u8], body: &[u8]) -> Vec<u8> {
    let mut p = b"OggS\x00".to_vec();
    p.push(kind);
    p.extend_from_slice(&granule.to_le_bytes());
    p.extend_from_slice(&77u32.to_le_bytes());
    p.extend_from_slice(&sequence.to_le_bytes());
    p.extend_from_slice(&[0, 0, 0, 0]);
    p.push(lacing.len() as u8);
    p.extend_from_slice(lacing);
    p.extend_from_slice(body);
    recompute_crc(&crc_table(), &mut p);
    p
}

fn whole(kind: u8, granule: i64, sequence: u32, packet: &[u8]) -> Vec<u8> {
    page(kind, granule, sequence, &packet_segments(packet), packet)
}

fn vorbis_id(rate: u32) -> Vec<u8> {
    let mut id = b"\x01vorbis\x00\x00\x00\x00\x02".to_vec();
    id.extend_from_slice(&rate.to_le_bytes());
    id
}

fn vorbis_tags(list: &[&str]) -> Vec<u8> {
    rebuild_comment_packet(Codec::Vorbis, &build_vorbis_comment("v", &comments(list)))
}

fn vorbis(list: &[&str]) -> Vec<u8> {
    [
        whole(2, 0, 0, &vorbis_id(44_100)),
        whole(0, 0, 1, &vorbis_tags(list)),
        whole(0, 0, 2, b"\x05vorbis"),
        whole(0, 44_100, 3, b"audio"),
        whole(4, 44_100 * 90 + 44_099, 4, b"more"),
    ]
    .concat()
}

fn opus(list: &[&str]) -> Vec<u8> {
    let tags = rebuild_comment_packet(Codec::Opus, &build_vorbis_comment("v", &comments(list)));
    [whole(2, 0, 0, b"OpusHead...."), whole(0, 0, 1, &tags), whole(4, 48_000 * 7, 2, b"audio")].concat()
}

fn written(r: Result<Edit, MetaError>) -> Vec<u8> {
    match r {
        Ok(Edit::Rewritten(b)) => b,
        Ok(Edit::Unchanged) => panic!("the file was to change"),
        Err(e) => panic!("{}", e.0),
    }
}

fn refused<T>(r: Result<T, MetaError>) -> String {
    match r {
        Ok(_) => panic!("an error was expected"),
        Err(e) => e.0,
    }
}

#[test]
fn checksums() {
    let table = crc_table();
    assert_eq!(ogg_crc(&table, b"123456789"), 0x89a1_897f);
    assert_eq!(ogg_crc(&table, b""), 0);
    assert_eq!(ogg_crc(&table, b"\x01"), 0x04c1_1db7);
}

#[test]
fn lacing_values() {
    assert_eq!(packet_segments(b""), vec![0]);
    assert_eq!(packet_segments(&[0u8; 254]), vec![254]);
    assert_eq!(packet_segments(&[0u8; 255]), vec![255, 0]);
    assert_eq!(packet_segments(&[0u8; 600]), vec![255, 255, 90]);
}

#[test]
fn pages_are_built_and_read() {
    let table = crc_table();
    let p = build_page(&table, 2, 0, 77, 5, b"packet").unwrap();
    assert_eq!(p, whole(2, 0, 5, b"packet"));
    let pages = parse_pages(&p).unwrap();
    assert_eq!(pages.len(), 1);
    assert_eq!((pages[0].header_type, pages[0].serial, pages[0].sequence), (2, 77, 5));
    assert_eq!(pages[0].segments, vec![b"packet".to_vec()]);
    assert_eq!(pages[0].raw_len, p.len());
    assert_eq!(
        refused(build_page(&table, 0, 0, 1, 1, &vec![0u8; 255 * 255])),
        "OGG header packet too large for a single page"
    );
    assert!(build_page(&table, 0, 0, 1, 1, &vec![0u8; 255 * 255 - 1]).is_ok());
}

#[test]
fn built_pages_are_read_back_with_their_packets() {
    let table = crc_table();
    let x = build_page(&table, 2, 0, 7, 0, b"first").unwrap();
    let y = build_page(&table, 4, (-9i64) as u64, 8, u32::MAX, &[5u8; 600]).unwrap();
    assert_eq!(y, {
        let mut p = page(4, -9, u32::MAX, &[255, 255, 90], &[5u8; 600]);
        p[14] = 8;
        recompute_crc(&table, &mut p);
        p
    });
    let pages = parse_pages(&[x.clone(), y.clone()].concat()).unwrap();
    assert_eq!(pages.len(), 2);
    assert_eq!((pages[0].header_type, pages[0].granule, pages[0].serial, pages[0].sequence), (2, 0, 7, 0));
    assert_eq!(pages[1].granule as i64, -9);
    assert_eq!((pages[1].header_type, pages[1].serial, pages[1].sequence), (4, 8, u32::MAX));
    assert_eq!((pages[0].raw_len, pages[1].raw_len), (x.len(), y.len()));
    let packets = reconstruct_packets(&pages);
    assert_eq!(packets.len(), 2);
    assert_eq!((packets[0].data.as_slice(), packets[0].end_page), (b"first".as_slice(), 0));
    assert_eq!((packets[1].data.len(), packets[1].end_page), (600, 1));
}

#[test]
fn audio_on_a_header_page_gets_a_page_of_its_own() {
    let setup = b"\x05vorbis";
    let head = |tags: &[&str]| {
        [whole(2, 0, 0, &vorbis_id(8000)), whole(0, 0, 1, &vorbis_tags(tags))].concat()
    };
    let ended = |tags: &[&str]| [head(tags), whole(0, 0, 2, setup)].concat();
    let shared = [head(&[]), page(4, 16_000, 2, &[7, 5], b"\x05vorbisaudio")].concat();
    let out = written(Ogg::sync_lyrics(&shared, "x", true));
    assert_eq!(out, [ended(&["LYRICS=x"]), whole(4, 16_000, 3, b"audio")].concat());
    assert_eq!(written(Ogg::sync_lyrics(&out, "x", true)), out);
    assert_eq!(Ogg::read_metadata(&out, "").unwrap().duration, 2);
    let begun = [
        head(&[]),
        page(0, 9, 2, &[7, 0, 255], &[setup.as_slice(), &[1u8; 255]].concat()),
        page(1, 9, 3, &[1], b"a"),
        whole(4, 10, 4, b"more"),
    ]
    .concat();
    let expected = [
        ended(&["LYRICS=x"]),
        page(0, 9, 3, &[0, 255], &[1u8; 255]),
        page(1, 9, 4, &[1], b"a"),
        whole(4, 10, 5, b"more"),
    ]
    .concat();
    assert_eq!(written(Ogg::sync_lyrics(&begun, "x", true)), expected);
    let packets = reconstruct_packets(&parse_pages(&expected).unwrap());
    assert_eq!(packets.len(), 6);
    assert_eq!(packets[4].data.len(), 256);
}

#[test]
fn headers_on_a_single_page_are_taken_apart() {
    let tags = vorbis_tags(&[]);
    let id = vorbis_id(8000);
    let f = page(
        2,
        9,
        0,
        &[id.len() as u8, tags.len() as u8, 7, 5],
        &[id.as_slice(), &tags, b"\x05vorbisaudio"].concat(),
    );
    let expected = [
        whole(2, 0, 0, &id),
        whole(0, 0, 1, &vorbis_tags(&["LYRICS=x"])),
        whole(0, 0, 2, b"\x05vorbis"),
        whole(0, 9, 3, b"audio"),
    ]
    .concat();
    assert_eq!(written(Ogg::sync_lyrics(&f, "x", false)), expected);
}

#[test]
fn packets_span_pages() {
    let f = [
        page(2, 0, 0, &[3, 255], &[vec![b'a'; 3], vec![b'b'; 255]].concat()),
        page(1, 0, 1, &[2, 0], b"cc"),
        page(0, 0, 2, &[255], &[b'd'; 255]),
    ]
    .concat();
    let packets = reconstruct_packets(&parse_pages(&f).unwrap());
    assert_eq!(packets.len(), 3);
    assert_eq!((packets[0].data.len(), packets[0].end_page), (3, 0));
    assert_eq!((packets[1].data.len(), packets[1].end_page), (257, 1));
    assert_eq!((packets[2].data.len(), packets[2].end_page), (0, 1));
}

#[test]
fn codecs() {
    assert_eq!(detect_codec(b"\x01vorbis...").unwrap(), Codec::Vorbis);
    assert_eq!(detect_codec(b"OpusHead").unwrap(), Codec::Opus);
    assert_eq!(refused(detect_codec(b"\x7fFLAC")), "unknown OGG codec (not Vorbis or Opus)");
}

#[test]
fn vorbis_tags_are_read() {
    let f = vorbis(&["TITLE=T", "artist=A", "ALBUM=L", "TRACKNUMBER=3/9"]);
    let t = Ogg::read_metadata(&f, "/p.ogg").unwrap();
    assert_eq!((t.title.as_deref(), t.artist.as_deref(), t.album.as_deref()), (Some("T"), Some("A"), Some("L")));
    assert_eq!((t.track_number, t.duration), (3, 90));
    assert_eq!(t.filepath, "/p.ogg");
}

#[test]
fn opus_tags_are_read() {
    let t = Ogg::read_metadata(&opus(&["TITLE=T"]), "x").unwrap();
    assert_eq!((t.title.as_deref(), t.duration), (Some("T"), 7));
}

#[test]
fn ogg_lyrics_are_written_and_kept() {
    let f = vorbis(&["TITLE=T", "Lyrics=old", "ARTIST=A"]);
    assert!(matches!(Ogg::sync_lyrics(&f, "new", false), Ok(Edit::Unchanged)));
    let out = written(Ogg::sync_lyrics(&f, "new", true));
    assert_eq!(out, vorbis(&["TITLE=T", "ARTIST=A", "LYRICS=new"]));
    assert!(matches!(Ogg::sync_lyrics(&out, "x", false), Ok(Edit::Unchanged)));
    assert_eq!(written(Ogg::sync_lyrics(&out, "new", true)), out);
    let f = opus(&["TITLE=T"]);
    assert_eq!(written(Ogg::sync_lyrics(&f, "la", false)), opus(&["TITLE=T", "LYRICS=la"]));
}

#[test]
fn header_packets_get_pages_of_their_own() {
    let setup = vec![b's'; 300];
    let tags = vorbis_tags(&["TITLE=T"]);
    let mut lacing = packet_segments(&tags);
    lacing.extend_from_slice(&[255]);
    let f = [
        whole(2, 0, 0, &vorbis_id(8000)),
        page(0, 0, 1, &lacing, &[tags.as_slice(), &setup[..255]].concat()),
        page(1, 0, 2, &[45], &setup[255..]),
        whole(4, 8000, 3, b"audio"),
    ]
    .concat();
    let out = written(Ogg::sync_lyrics(&f, "x", false));
    let expected = [
        whole(2, 0, 0, &vorbis_id(8000)),
        whole(0, 0, 1, &vorbis_tags(&["TITLE=T", "LYRICS=x"])),
        whole(0, 0, 2, &setup),
        whole(4, 8000, 3, b"audio"),
    ]
    .concat();
    assert_eq!(out, expected);
}

#[test]
fn pages_are_renumbered_when_headers_shrink() {
    let f = [
        whole(2, 0, 0, &vorbis_id(8000)),
        whole(0, 0, 1, &vorbis_tags(&[])),
        page(0, 0, 2, &[255], &[b's'; 255]),
        page(1, 0, 3, &[1], b"s"),
        whole(4, 8000, 4, b"audio"),
    ]
    .concat();
    let pages = parse_pages(&written(Ogg::sync_lyrics(&f, "x", false))).unwrap();
    let sequences: Vec<u32> = pages.iter().map(|p| p.sequence).collect();
    assert_eq!(sequences, vec![0, 1, 2, 3]);
    assert_eq!(pages[3].segments, vec![b"audio".to_vec()]);
}

#[test]
fn broken_streams_are_refused() {
    assert_eq!(refused(Ogg::read_metadata(b"", "")), "empty OGG file");
    assert_eq!(refused(Ogg::read_metadata(b"OggX", "")), "invalid OGG page header");
    let p = whole(2, 0, 0, b"packet");
    assert_eq!(refused(Ogg::read_metadata(&p[..p.len() - 1], "")), "OGG segment body truncated");
    assert_eq!(refused(Ogg::read_metadata(&p[..27], "")), "OGG segment table truncated");
    assert_eq!(refused(Ogg::read_metadata(&page(2, 0, 0, &[], b""), "")), "OGG stream has no packets");
    assert_eq!(refused(Ogg::read_metadata(&p, "")), "unknown OGG codec (not Vorbis or Opus)");
    assert_eq!(refused(Ogg::sync_lyrics(&p, "x", true)), "OGG stream missing header packets");
    let f = [whole(2, 0, 0, b"OpusHead"), whole(0, 0, 1, b"OpusTagsabc")].concat();
    assert_eq!(refused(Ogg::sync_lyrics(&f, "x", true)), "vorbis comment too short");
    let f = [whole(2, 0, 0, b"OpusHead"), whole(0, 0, 1, b"OpusTags\x01\x00\x00\x00")].concat();
    assert_eq!(refused(Ogg::sync_lyrics(&f, "x", true)), "vorbis vendor overruns block");
}

#[test]
fn headers_that_are_cut_off_are_noticed() {
    let f = [whole(2, 0, 0, b"OpusHead"), whole(0, 0, 1, b"Opus")].concat();
    assert!(read_checked(Some("opus"), "p", &f).is_none());
    assert!(sync_checked(Some("opus"), "p", &f, "x", false).is_none());
    let f = [whole(2, 0, 0, &vorbis_id(8000)), whole(0, 0, 1, &vorbis_tags(&[]))].concat();
    assert!(read_checked(Some("ogg"), "p", &f).unwrap().is_ok());
    assert!(sync_checked(Some("ogg"), "p", &f, "x", false).is_none());
    assert!(sync_checked(Some("ogg"), "p", &vorbis(&[]), "x", false).unwrap().is_ok());
}
