use synclyr2metadata::metadata::id3v2::{
    build_uslt, can_estimate, decode_text, estimate_duration, find_string_terminator, has_lyrics,
    iter_frames, parse_id3_header, parse_mpeg_header, read_description, samples_per_frame, serialize_tag,
    sideinfo_size, strip_trailing_nul, utf16_decode, Frame, Mp3,
};
use synclyr2metadata::metadata::{
    read_checked, sync_checked, synchsafe_u32, AudioFormat, Edit, MetaError,
};

fn id(name: &[u8; 4]) -> u32 {
    u32::from_be_bytes(*name)
}

fn frame(name: &[u8; 4], data: &[u8]) -> Frame {
    Frame { id: id(name), data: data.to_vec() }
}

fn tag(version: u8, frames: &[(&[u8; 4], &[u8])]) -> Vec<u8> {
    let mut body = Vec::new();
    for (name, data) in frames {
        body.extend_from_slice(*name);
        let n = data.len() as u32;
        if version == 4 {
            body.extend_from_slice(&[(n >> 21) as u8, (n >> 14) as u8 & 0x7f, (n >> 7) as u8 & 0x7f, n as u8 & 0x7f]);
        } else {
            body.extend_from_slice(&n.to_be_bytes());
        }
        body.extend_from_slice(&[0, 0]);
        body.extend_from_slice(data);
    }
    let n = body.len() as u32;
    let mut t = vec![b'I', b'D', b'3', version, 0, 0];
    t.extend_from_slice(&[(n >> 21) as u8, (n >> 14) as u8 & 0x7f, (n >> 7) as u8 & 0x7f, n as u8 & 0x7f]);
    t.extend_from_slice(&body);
    t
}

fn with_audio(mut t: Vec<u8>, audio: &[u8]) -> Vec<u8> {
    t.extend_from_slice(audio);
    t
}

/// A frame of MPEG 1 Layer III at 128 kbit/s and 44100 Hz, in stereo.
const HEADER: [u8; 4] = [0xff, 0xfb, 0x90, 0x00];

fn written(r: Result<Edit, MetaError>) -> Vec<u8> {
    match r {
        Ok(Edit::Rewritten(b)) => b,
        Ok(Edit::Unchanged) => panic!("the file was to change"),
        Err(e) => panic!("{}", e.0),
    }
}

#[test]
fn synchsafe_numbers() {
    assert_eq!(synchsafe_u32(&[0, 0, 2, 1]), 257);
    assert_eq!(synchsafe_u32(&[0x7f, 0x7f, 0x7f, 0x7f]), 0x0fff_ffff);
}

#[test]
fn tag_headers() {
    assert!(parse_id3_header(b"ID3\x04\x00").is_none());
    assert!(parse_id3_header(b"TAG\x04\x00\x00\x00\x00\x00\x00").is_none());
    let h = parse_id3_header(b"ID3\x03\x00\x00\x00\x00\x00\x02ab..").unwrap();
    assert_eq!((h.version, h.end), (3, 12));
    let h = parse_id3_header(b"ID3\x04\x00\x00\x00\x00\x00\x7fab").unwrap();
    assert_eq!(h.end, 12);
}

#[test]
fn texts_in_every_encoding() {
    assert_eq!(decode_text(b"\x00caf\xe9\x00").as_deref(), Some("caf\u{e9}"));
    assert_eq!(decode_text(b"\x01\xff\xfeA\x00\xe9\x00\x00\x00").as_deref(), Some("A\u{e9}"));
    assert_eq!(decode_text(b"\x01\xfe\xff\x00A").as_deref(), Some("A"));
    assert_eq!(decode_text(b"\x01A\x00B\x00").as_deref(), Some("AB"));
    assert_eq!(decode_text(b"\x02\x00A\xd8\x3d\xde\x00").as_deref(), Some("A\u{1f600}"));
    assert_eq!(decode_text(b"\x03caf\xc3\xa9").as_deref(), Some("caf\u{e9}"));
    assert_eq!(decode_text(b"\x03\xff"), None);
    assert_eq!(decode_text(b"\x09a\xff").as_deref(), Some("a\u{fffd}"));
    assert_eq!(decode_text(b""), None);
    assert_eq!(decode_text(b"\x01\xff\xfeA"), None);
    assert_eq!(utf16_decode(b"\x00\xd8", true), None);
}

#[test]
fn terminators() {
    assert_eq!(strip_trailing_nul(b"ab\x00\x00", 0), b"ab\x00");
    assert_eq!(strip_trailing_nul(b"a\x00\x00\x00", 1), b"a\x00");
    assert_eq!(strip_trailing_nul(b"", 3), b"");
    assert_eq!(find_string_terminator(b"ab\x00c", 3), 2);
    assert_eq!(find_string_terminator(b"abc", 0), 3);
    assert_eq!(find_string_terminator(b"a\x00\x00\x00\x00\x00", 1), 2);
}

#[test]
fn tags_are_read_in_both_versions() {
    for version in [3, 4] {
        let long = [b'x'; 200];
        let mut album = vec![3u8];
        album.extend_from_slice(&long);
        let f = with_audio(
            tag(version, &[(b"TIT2", b"\x03T"), (b"TPE1", b"\x00A"), (b"TALB", &album), (b"TRCK", b"\x005/12")]),
            &[],
        );
        let t = Mp3::read_metadata(&f, "/p.mp3").unwrap();
        assert_eq!((t.title.as_deref(), t.artist.as_deref()), (Some("T"), Some("A")));
        assert_eq!(t.album.unwrap().len(), 200);
        assert_eq!((t.track_number, t.duration), (5, 0));
        assert_eq!(t.filepath, "/p.mp3");
    }
}

#[test]
fn frames_end_at_the_padding() {
    let frames = iter_frames(4, b"TIT2\x00\x00\x00\x02\x00\x00\x03T\x00\x00\x00\x00\x00\x00\x00\x00\x00\x00");
    assert_eq!(frames.len(), 1);
    assert_eq!((frames[0].id, frames[0].data.as_slice()), (id(b"TIT2"), b"\x03T".as_slice()));
    assert!(iter_frames(3, b"TIT2\x00\x00\x00\x09\x00\x00\x03T").is_empty());
}

#[test]
fn mp3_frames_are_read_back() {
    let frames = vec![frame(b"TIT2", b"\x03T"), frame(b"APIC", &[7u8; 300]), build_uslt("la")];
    let t = serialize_tag(&frames);
    assert_eq!(&t[..10], b"ID3\x04\x00\x00\x00\x00\x02\x53".as_slice());
    let back = iter_frames(4, &t[10..]);
    assert_eq!(back.len(), 3);
    for (a, b) in frames.iter().zip(back.iter()) {
        assert_eq!((a.id, &a.data), (b.id, &b.data));
    }
}

#[test]
fn lyrics_frames() {
    let f = build_uslt("l\u{e9}");
    assert_eq!((f.id, f.data.as_slice()), (id(b"USLT"), b"\x03eng\x00l\xc3\xa9".as_slice()));
    assert!(has_lyrics(&vec![frame(b"USLT", b"")]));
    assert!(has_lyrics(&vec![frame(b"TXXX", b"\x00Lyrics\x00la")]));
    assert!(!has_lyrics(&vec![frame(b"TXXX", b"\x00Other\x00la"), frame(b"TXXX", b"")]));
}

const LITTLE: &[u8] = b"\x01\xff\xfeL\x00Y\x00R\x00I\x00C\x00S\x00\x00\x00\xff\xfea\x00";
const BIG: &[u8] = b"\x02\x00l\x00y\x00r\x00i\x00c\x00s\x00\x00\x00a";

#[test]
fn descriptions_are_read_in_their_encoding() {
    assert_eq!(read_description(LITTLE).as_deref(), Some("LYRICS"));
    assert_eq!(read_description(BIG).as_deref(), Some("lyrics"));
    assert_eq!(read_description(b"\x03LYRICS").as_deref(), Some("LYRICS"));
    assert_eq!(read_description(b"\x00\xe9\x00x").as_deref(), Some("\u{e9}"));
    assert_eq!(read_description(b""), None);
    assert!(has_lyrics(&vec![frame(b"TXXX", LITTLE)]));
    assert!(has_lyrics(&vec![frame(b"TXXX", BIG)]));
    assert!(has_lyrics(&vec![frame(b"TXXX", b"\x03lyrics\x00la")]));
    assert!(!has_lyrics(&vec![frame(b"TXXX", b"\x01\xff\xfeL\x00Y\x00\x00\x00")]));
}

#[test]
fn lyrics_in_wide_descriptions_are_kept_or_replaced() {
    let f = with_audio(tag(4, &[(b"TIT2", b"\x03T"), (b"TXXX", LITTLE)]), b"audio");
    assert!(matches!(Mp3::sync_lyrics(&f, "new", false), Ok(Edit::Unchanged)));
    let expected = with_audio(tag(4, &[(b"TIT2", b"\x03T"), (b"USLT", b"\x03eng\x00new")]), b"audio");
    assert_eq!(written(Mp3::sync_lyrics(&f, "new", true)), expected);
}

#[test]
fn mp3_lyrics_are_written_and_kept() {
    let f = with_audio(
        tag(3, &[(b"TIT2", b"\x03T"), (b"TXXX", b"\x00LYRICS\x00old"), (b"TPE1", b"\x03A")]),
        b"audio",
    );
    assert!(matches!(Mp3::sync_lyrics(&f, "new", false), Ok(Edit::Unchanged)));
    let out = written(Mp3::sync_lyrics(&f, "new", true));
    let expected = with_audio(
        tag(4, &[(b"TIT2", b"\x03T"), (b"TPE1", b"\x03A"), (b"USLT", b"\x03eng\x00new")]),
        b"audio",
    );
    assert_eq!(out, expected);
    assert!(matches!(Mp3::sync_lyrics(&out, "x", false), Ok(Edit::Unchanged)));
    assert_eq!(written(Mp3::sync_lyrics(&out, "new", true)), out);
}

#[test]
fn files_without_a_tag_get_one() {
    let out = written(Mp3::sync_lyrics(b"audio", "x", false));
    assert_eq!(out, with_audio(tag(4, &[(b"USLT", b"\x03eng\x00x")]), b"audio"));
}

#[test]
fn mpeg_headers() {
    let i = parse_mpeg_header(&HEADER).unwrap();
    assert_eq!((i.bitrate, i.sample_rate, i.samples_per_frame, i.frame_length), (128_000, 44_100, 1152, 417));
    assert!(i.version_mpeg1);
    let i = parse_mpeg_header(&[0xff, 0xf3, 0x84, 0x00]).unwrap();
    assert_eq!((i.bitrate, i.sample_rate, i.samples_per_frame, i.frame_length), (64_000, 24_000, 576, 384));
    let i = parse_mpeg_header(&[0xff, 0xff, 0x12, 0x00]).unwrap();
    assert_eq!((i.bitrate, i.samples_per_frame, i.frame_length), (32_000, 384, (12 * 32_000 / 44_100 + 1) * 4));
    let i = parse_mpeg_header(&[0xff, 0xe3, 0x18, 0x00]).unwrap();
    assert_eq!((i.bitrate, i.sample_rate), (8_000, 8_000));
}

#[test]
fn invalid_mpeg_headers() {
    for h in [
        [0xfe, 0xfb, 0x90, 0x00],
        [0xff, 0xdb, 0x90, 0x00],
        [0xff, 0xeb, 0x90, 0x00],
        [0xff, 0xf9, 0x90, 0x00],
        [0xff, 0xfb, 0x00, 0x00],
        [0xff, 0xfb, 0xf0, 0x00],
        [0xff, 0xfb, 0x9c, 0x00],
    ] {
        assert!(parse_mpeg_header(&h).is_none());
    }
    assert!(parse_mpeg_header(&HEADER[..3]).is_none());
}

#[test]
fn sizes_of_frames() {
    assert_eq!((samples_per_frame(true, 1), samples_per_frame(false, 1)), (1152, 576));
    assert_eq!((samples_per_frame(false, 2), samples_per_frame(true, 3)), (1152, 384));
    assert_eq!(samples_per_frame(true, 0), 0);
    assert_eq!((sideinfo_size(true, false), sideinfo_size(true, true)), (32, 17));
    assert_eq!((sideinfo_size(false, false), sideinfo_size(false, true)), (17, 9));
}

fn constant_rate(len: usize) -> Vec<u8> {
    let mut a = HEADER.to_vec();
    a.resize(len, 0);
    a
}

fn with_count(magic: &[u8; 4], flags: u8, frames: u32) -> Vec<u8> {
    let mut a = constant_rate(36);
    a.extend_from_slice(magic);
    a.extend_from_slice(&[0, 0, 0, flags]);
    a.extend_from_slice(&frames.to_be_bytes());
    a
}

#[test]
fn durations() {
    assert_eq!(estimate_duration(&constant_rate(160_000)), 10);
    assert_eq!(estimate_duration(&[0u8; 100]), 0);
    assert_eq!(estimate_duration(b""), 0);
    assert_eq!(estimate_duration(&with_count(b"Xing", 1, 3829)), 100);
    assert_eq!(estimate_duration(&with_count(b"Info", 3, 38_290)), 1000);
    assert_eq!(estimate_duration(&with_count(b"Xing", 2, 3829)), 0);
    let mut late = vec![0xff; 1000];
    late.extend_from_slice(&constant_rate(160_000));
    assert_eq!(estimate_duration(&late), 10);
}

#[test]
fn cut_off_frame_counts_are_noticed() {
    let mut a = with_count(b"Xing", 1, 1);
    a.truncate(44);
    assert!(!can_estimate(&a));
    assert!(read_checked(Some("mp3"), "p", &a).is_none());
    assert!(sync_checked(Some("mp3"), "p", &a, "x", false).unwrap().is_ok());
    assert!(can_estimate(&with_count(b"Xing", 1, 1)));
}
