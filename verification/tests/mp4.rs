use synclyr2metadata::metadata::mp4::{
    build_text_tag, data_box_payload, find, is_container, parse_boxes, parse_mvhd,
    patch_chunk_offsets, read_text_tag, serialize, serialize_all, Failure, Mp4, Tree,
};
use synclyr2metadata::metadata::{read_checked, sync_checked, AudioFormat, Edit, MetaError};

fn kind(name: &[u8; 4]) -> u32 {
    u32::from_be_bytes(*name)
}

fn boxed(name: &[u8; 4], payload: &[u8]) -> Vec<u8> {
    let mut b = ((payload.len() + 8) as u32).to_be_bytes().to_vec();
    b.extend_from_slice(name);
    b.extend_from_slice(payload);
    b
}

fn text_tag(name: &[u8; 4], text: &str) -> Vec<u8> {
    let mut d = vec![0, 0, 0, 1, 0, 0, 0, 0];
    d.extend_from_slice(text.as_bytes());
    boxed(name, &boxed(b"data", &d))
}

fn trkn(n: u16) -> Vec<u8> {
    let mut d = vec![0u8; 8];
    d.extend_from_slice(&n.to_be_bytes());
    d.extend_from_slice(&[0, 12, 0, 0]);
    boxed(b"trkn", &boxed(b"data", &d))
}

fn mvhd(scale: u32, duration: u32) -> Vec<u8> {
    let mut p = vec![0u8; 12];
    p.extend_from_slice(&scale.to_be_bytes());
    p.extend_from_slice(&duration.to_be_bytes());
    p.extend_from_slice(&[0u8; 80]);
    boxed(b"mvhd", &p)
}

fn stco(offsets: &[u32]) -> Vec<u8> {
    let mut p = vec![0u8; 4];
    p.extend_from_slice(&(offsets.len() as u32).to_be_bytes());
    for o in offsets {
        p.extend_from_slice(&o.to_be_bytes());
    }
    boxed(b"stco", &p)
}

fn co64(offsets: &[u64]) -> Vec<u8> {
    let mut p = vec![0u8; 4];
    p.extend_from_slice(&(offsets.len() as u32).to_be_bytes());
    for o in offsets {
        p.extend_from_slice(&o.to_be_bytes());
    }
    boxed(b"co64", &p)
}

fn moov(tables: &[u8], tags: &[u8]) -> Vec<u8> {
    let meta = boxed(b"meta", &[&[0u8, 0, 0, 0], boxed(b"ilst", tags).as_slice()].concat());
    let stbl = boxed(b"trak", &boxed(b"mdia", &boxed(b"minf", &boxed(b"stbl", tables))));
    boxed(b"moov", &[mvhd(1000, 185_900), stbl, boxed(b"udta", &meta)].concat())
}

fn written(r: Result<Edit, MetaError>) -> Vec<u8> {
    match r {
        Ok(Edit::Rewritten(b)) => b,
        Ok(Edit::Unchanged) => panic!("the file was to change"),
        Err(e) => panic!("{}", e.0),
    }
}

fn refused<T>(r: Result<T, MetaError>) -> String {
    match r {
        Ok(_) => panic!("an error was expected"),
        Err(e) => e.0,
    }
}

#[test]
fn containers() {
    assert!(is_container(kind(b"moov")) && is_container(kind(b"trkn")) && is_container(kind(b"\xa9lyr")));
    assert!(!is_container(kind(b"mdat")) && !is_container(kind(b"data")));
}

#[test]
fn mp4_tags_are_read() {
    let tags = [text_tag(b"\xa9nam", "T\u{e9}"), text_tag(b"\xa9ART", "A"), text_tag(b"\xa9alb", "L"), trkn(258)].concat();
    let f = [boxed(b"ftyp", b"M4A "), moov(&stco(&[]), &tags), boxed(b"mdat", b"audio")].concat();
    let t = Mp4::read_metadata(&f, "/p.m4a").unwrap();
    assert_eq!(t.title.as_deref(), Some("T\u{e9}"));
    assert_eq!((t.artist.as_deref(), t.album.as_deref()), (Some("A"), Some("L")));
    assert_eq!((t.track_number, t.duration), (258, 185));
    assert_eq!(t.filepath, "/p.m4a");
}

#[test]
fn durations_of_movies() {
    let mut p = vec![0u8; 24];
    p[15] = 2;
    p[19] = 9;
    assert_eq!(parse_mvhd(&p), Some((2, 9)));
    assert_eq!(parse_mvhd(&p[..23]), None);
    let mut p = vec![0u8; 36];
    p[0] = 1;
    p[23] = 3;
    p[24] = 1;
    assert_eq!(parse_mvhd(&p), Some((3, 1 << 56)));
    p[0] = 2;
    assert_eq!(parse_mvhd(&p), None);
}

#[test]
fn boxes_are_read_back() {
    let f = [boxed(b"ftyp", b"M4A "), moov(&stco(&[1, 2]), &trkn(1)), boxed(b"free", b"")].concat();
    let boxes = match parse_boxes(&f) {
        Ok(b) => b,
        Err(_) => panic!("the boxes are well formed"),
    };
    assert_eq!(boxes.len(), 3);
    assert_eq!(serialize_all(&boxes), f);
    assert_eq!(serialize(&boxes[0]), boxed(b"ftyp", b"M4A "));
    match find(&boxes[1], kind(b"trkn")) {
        Some(t) => assert_eq!(data_box_payload(t).unwrap().len(), 14),
        None => panic!("the tag is there"),
    }
}

#[test]
fn sizes_of_boxes() {
    let mut large = vec![0, 0, 0, 1];
    large.extend_from_slice(b"free");
    large.extend_from_slice(&18u64.to_be_bytes());
    large.extend_from_slice(b"ab");
    let rest = [0, 0, 0, 0, b'm', b'd', b'a', b't', 1, 2, 3];
    let boxes = match parse_boxes(&[large.as_slice(), &rest].concat()) {
        Ok(b) => b,
        Err(_) => panic!("the boxes are well formed"),
    };
    assert_eq!(serialize_all(&boxes), [boxed(b"free", b"ab"), boxed(b"mdat", &[1, 2, 3])].concat());
}

#[test]
fn broken_boxes() {
    let message = |b: &[u8]| match parse_boxes(b) {
        Err(Failure::Refused(e)) => e.0,
        _ => panic!("an error was expected"),
    };
    assert_eq!(message(b"\x00\x00\x00\x08moo"), "truncated MP4 box header");
    assert_eq!(message(b"\x00\x00\x00\x01moovabc"), "truncated MP4 largesize");
    assert_eq!(message(b"\x00\x00\x00\x09moov"), "MP4 box extends past EOF");
    assert!(matches!(parse_boxes(b"\x00\x00\x00\x07moov"), Err(Failure::Overrun)));
    assert_eq!(refused(Mp4::read_metadata(&boxed(b"ftyp", b""), "")), "MP4 missing moov box");
    assert_eq!(refused(Mp4::sync_lyrics(&boxed(b"ftyp", b""), "x", true)), "MP4 missing moov box");
}

#[test]
fn text_tags() {
    let t = build_text_tag(kind(b"\xa9lyr"), "l\u{e9}");
    assert_eq!(serialize(&t), text_tag(b"\xa9lyr", "l\u{e9}"));
    assert_eq!(read_text_tag(&t).as_deref(), Some("l\u{e9}"));
    assert_eq!(read_text_tag(&build_text_tag(kind(b"\xa9lyr"), "")), None);
    let leaf = Tree::Leaf { box_type: kind(b"data"), payload: vec![0; 7] };
    assert_eq!(read_text_tag(&leaf), None);
}

#[test]
fn mp4_lyrics_are_written_and_kept() {
    let old = [text_tag(b"\xa9lyr", "old"), text_tag(b"\xa9nam", "T")].concat();
    let new = [text_tag(b"\xa9nam", "T"), text_tag(b"\xa9lyr", "new")].concat();
    let f = [moov(&stco(&[]), &old), boxed(b"mdat", b"audio")].concat();
    assert!(matches!(Mp4::sync_lyrics(&f, "new", false), Ok(Edit::Unchanged)));
    let out = written(Mp4::sync_lyrics(&f, "new", true));
    assert_eq!(out, [moov(&stco(&[]), &new), boxed(b"mdat", b"audio")].concat());
    assert!(matches!(Mp4::sync_lyrics(&out, "x", false), Ok(Edit::Unchanged)));
    assert_eq!(Mp4::read_metadata(&out, "").unwrap().title.as_deref(), Some("T"));
}

#[test]
fn an_overwrite_leaves_no_trace() {
    for table in [stco(&[500, 600]), co64(&[700])] {
        let f = [moov(&table, &text_tag(b"\xa9nam", "T")), boxed(b"mdat", b"audio")].concat();
        let first = written(Mp4::sync_lyrics(&f, "some long lyrics", true));
        let second = written(Mp4::sync_lyrics(&first, "la", true));
        assert_eq!(second, written(Mp4::sync_lyrics(&f, "la", true)));
    }
    let f = boxed(b"moov", &mvhd(1, 1));
    let first = written(Mp4::sync_lyrics(&f, "some long lyrics", true));
    assert_eq!(written(Mp4::sync_lyrics(&first, "", true)), written(Mp4::sync_lyrics(&f, "", true)));
}

#[test]
fn chunk_offsets_are_moved_and_moved_back() {
    let bytes = moov(&[stco(&[100, 200]), co64(&[300])].concat(), &trkn(1));
    let mut tree = match parse_boxes(&bytes) {
        Ok(mut boxes) => boxes.remove(0),
        Err(_) => panic!("the boxes are well formed"),
    };
    patch_chunk_offsets(&mut tree, 50);
    assert_eq!(serialize(&tree), moov(&[stco(&[150, 250]), co64(&[350])].concat(), &trkn(1)));
    patch_chunk_offsets(&mut tree, -50);
    assert_eq!(serialize(&tree), bytes);
    patch_chunk_offsets(&mut tree, -150);
    assert_eq!(serialize(&tree), moov(&[stco(&[0, 50]), co64(&[150])].concat(), &trkn(1)));
}

#[test]
fn chunk_offsets_follow_the_media() {
    let tag = text_tag(b"\xa9lyr", "la");
    let grown = tag.len() as u32;
    let before = moov(&[stco(&[500, 600]), co64(&[700])].concat(), b"");
    let f = [before, boxed(b"mdat", b"audio")].concat();
    let after = moov(&[stco(&[500 + grown, 600 + grown]), co64(&[700 + grown as u64])].concat(), &tag);
    assert_eq!(written(Mp4::sync_lyrics(&f, "la", false)), [after, boxed(b"mdat", b"audio")].concat());
}

#[test]
fn chunk_offsets_stay_where_the_media_come_first() {
    let tag = text_tag(b"\xa9lyr", "la");
    let f = [boxed(b"mdat", b"audio"), moov(&stco(&[8]), b"")].concat();
    let expected = [boxed(b"mdat", b"audio"), moov(&stco(&[8]), &tag)].concat();
    assert_eq!(written(Mp4::sync_lyrics(&f, "la", false)), expected);
}

#[test]
fn the_media_of_a_chunk_are_found_again() {
    let data = b"0123456789";
    let base = moov(&stco(&[0]), b"").len() as u32 + 8;
    let f = [moov(&stco(&[base + 3]), b""), boxed(b"mdat", data)].concat();
    let out = written(Mp4::sync_lyrics(&f, "some lyrics", false));
    let grown = out.len() - f.len();
    let at = base as usize + 3 + grown;
    assert_eq!(&out[at..at + 2], b"34");
    let tables = moov(&stco(&[at as u32]), &text_tag(b"\xa9lyr", "some lyrics"));
    assert_eq!(&out[..tables.len()], &tables[..]);
}

#[test]
fn media_keep_their_place_behind_set_flags_and_an_open_size() {
    let base = moov(&stco(&[0]), b"").len() as u32 + 8;
    let mut first = moov(&stco(&[base + 3]), b"");
    let n = first.len();
    assert_eq!(&first[n - 12..n - 8], &[0, 0, 0, 0]);
    first[n - 9] = 1;
    let mut media = boxed(b"mdat", b"0123456789");
    media[..4].copy_from_slice(&[0, 0, 0, 0]);
    let f = [first, media].concat();
    let out = written(Mp4::sync_lyrics(&f, "some lyrics", false));
    let grown = out.len() - f.len();
    let at = base + 3 + grown as u32;
    assert_eq!(&out[at as usize..at as usize + 2], b"34");
    let tag = text_tag(b"\xa9lyr", "some lyrics");
    let expected = [moov(&stco(&[at]), &tag), boxed(b"mdat", b"0123456789")].concat();
    assert_eq!(out, expected);
}

#[test]
fn missing_boxes_are_added() {
    let f = [boxed(b"moov", &mvhd(1, 1)), boxed(b"free", b"x")].concat();
    let out = written(Mp4::sync_lyrics(&f, "la", false));
    let udta = boxed(b"udta", &boxed(b"ilst", &text_tag(b"\xa9lyr", "la")));
    assert_eq!(out, [boxed(b"moov", &[mvhd(1, 1), udta].concat()), boxed(b"free", b"x")].concat());
    let f = boxed(b"moov", &boxed(b"udta", b""));
    let out = written(Mp4::sync_lyrics(&f, "la", false));
    assert_eq!(out, boxed(b"moov", &boxed(b"udta", &boxed(b"ilst", &text_tag(b"\xa9lyr", "la")))));
}

#[test]
fn files_that_cannot_be_handled_are_noticed() {
    let short = b"\x00\x00\x00\x07moov";
    assert!(read_checked(Some("m4a"), "p", short).is_none());
    assert!(sync_checked(Some("m4a"), "p", short, "x", true).is_none());
    let apart = boxed(b"moov", &[boxed(b"ilst", b""), boxed(b"udta", b"")].concat());
    assert!(read_checked(Some("m4a"), "p", &apart).unwrap().is_ok());
    assert!(sync_checked(Some("m4a"), "p", &apart, "x", true).is_none());
}
