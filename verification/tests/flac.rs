use synclyr2metadata::metadata::flac::{parse_streaminfo, serialize_blocks, split_file, Flac, MetaBlock};
use synclyr2metadata::metadata::vorbis::{
    build_vorbis_comment, find_comment, find_tag, parse_track_number, parse_vorbis_comment,
    replace_lyrics, Fault,
};
use synclyr2metadata::metadata::{
    is_audio_file, read_checked, read_metadata, sync_checked, sync_lyrics, AudioFormat, Edit,
    LyricsOutcome, MetaError,
};

fn comments(list: &[&str]) -> Vec<Vec<u8>> {
    list.iter().map(|c| c.as_bytes().to_vec()).collect()
}

fn block(kind: u8, last: bool, data: &[u8]) -> Vec<u8> {
    let mut b = vec![
        kind | if last { 0x80 } else { 0 },
        (data.len() >> 16) as u8,
        (data.len() >> 8) as u8,
        data.len() as u8,
    ];
    b.extend_from_slice(data);
    b
}

fn streaminfo(rate: u32, total: u64) -> Vec<u8> {
    let mut d = vec![0u8; 34];
    d[10] = (rate >> 12) as u8;
    d[11] = (rate >> 4) as u8;
    d[12] = ((rate << 4) as u8) | 0x03;
    d[13] = 0xf0 | ((total >> 32) as u8 & 0x0f);
    d[14] = (total >> 24) as u8;
    d[15] = (total >> 16) as u8;
    d[16] = (total >> 8) as u8;
    d[17] = total as u8;
    d
}

fn file(blocks: &[Vec<u8>], audio: &[u8]) -> Vec<u8> {
    let mut f = b"fLaC".to_vec();
    for b in blocks {
        f.extend_from_slice(b);
    }
    f.extend_from_slice(audio);
    f
}

fn tagged(tags: &[&str]) -> Vec<u8> {
    let vc = build_vorbis_comment("vendor", &comments(tags));
    file(&[block(0, false, &streaminfo(44_100, 44_100 * 185)), block(4, true, &vc)], b"audio")
}

fn written(r: Result<Edit, MetaError>) -> Vec<u8> {
    match r {
        Ok(Edit::Rewritten(b)) => b,
        Ok(Edit::Unchanged) => panic!("the file was to change"),
        Err(e) => panic!("{}", e.0),
    }
}

fn refused<T>(r: Result<T, MetaError>) -> String {
    match r {
        Ok(_) => panic!("an error was expected"),
        Err(e) => e.0,
    }
}

#[test]
fn extensions() {
    for ext in ["flac", "MP3", "ogg", "Opus", "m4a", "mp4", "m4b", "m4p", "aac"] {
        assert!(is_audio_file(Some(ext)));
    }
    assert!(!is_audio_file(Some("wav")));
    assert!(!is_audio_file(None));
}

#[test]
fn unsupported_files() {
    assert_eq!(refused(read_metadata(Some("wav"), "/a.wav", b"")), "unsupported audio format: /a.wav");
    assert_eq!(refused(sync_lyrics(None, "/a", b"", "x", false)), "unsupported audio format: /a");
}

#[test]
fn flac_tags_are_read() {
    let f = tagged(&["title=T", "ARTIST=\u{e9}", "Album=L", "TRACKNUMBER= 7 /12"]);
    let t = read_metadata(Some("FLAC"), "/p.flac", &f).unwrap();
    assert_eq!(t.title.as_deref(), Some("T"));
    assert_eq!(t.artist.as_deref(), Some("\u{e9}"));
    assert_eq!(t.album.as_deref(), Some("L"));
    assert_eq!((t.track_number, t.duration), (7, 185));
    assert_eq!(t.filepath, "/p.flac");
}

#[test]
fn empty_and_broken_tags_are_none() {
    let mut vc = comments(&["TITLE=", "ALBUM"]);
    vc.push(b"ARTIST=\xff".to_vec());
    vc.push(b"TRACKNUMBER=x".to_vec());
    let f = file(&[block(4, true, &build_vorbis_comment("", &vc))], b"");
    let t = Flac::read_metadata(&f, "").unwrap();
    assert!(t.title.is_none() && t.artist.is_none() && t.album.is_none());
    assert_eq!((t.track_number, t.duration), (0, 0));
}

#[test]
fn flac_lyrics_are_written_and_kept() {
    let f = tagged(&["TITLE=T", "lyrics=old", "ARTIST=A"]);
    assert!(matches!(Flac::sync_lyrics(&f, "new", false), Ok(Edit::Unchanged)));
    let out = written(Flac::sync_lyrics(&f, "new", true));
    assert_eq!(out, tagged(&["TITLE=T", "ARTIST=A", "LYRICS=new"]));
    assert!(matches!(Flac::sync_lyrics(&out, "other", false), Ok(Edit::Unchanged)));
    assert_eq!(written(Flac::sync_lyrics(&out, "new", true)), out);
    let t = Flac::read_metadata(&out, "x").unwrap();
    assert_eq!((t.title.as_deref(), t.duration), (Some("T"), 185));
}

#[test]
fn comments_are_added_after_the_stream_info() {
    let f = file(&[block(0, false, &streaminfo(8000, 8000)), block(1, true, b"pad")], b"audio");
    let vc = build_vorbis_comment("", &comments(&["LYRICS=x"]));
    let expected = file(
        &[block(0, false, &streaminfo(8000, 8000)), block(4, false, &vc), block(1, true, b"pad")],
        b"audio",
    );
    assert_eq!(written(Flac::sync_lyrics(&f, "x", false)), expected);
    let bare = file(&[block(1, true, b"")], b"a");
    assert_eq!(
        written(Flac::sync_lyrics(&bare, "x", false)),
        file(&[block(4, false, &vc), block(1, true, b"")], b"a")
    );
}

#[test]
fn broken_comments_are_replaced() {
    let f = file(&[block(4, true, b"\xff\xff\xff\xff")], b"a");
    let vc = build_vorbis_comment("", &comments(&["LYRICS=x"]));
    assert_eq!(written(Flac::sync_lyrics(&f, "x", false)), file(&[block(4, true, &vc)], b"a"));
}

#[test]
fn broken_files_are_refused() {
    assert_eq!(refused(Flac::read_metadata(b"OggS", "")), "not a FLAC file (missing 'fLaC' marker)");
    assert_eq!(refused(Flac::read_metadata(b"fLaC", "")), "truncated FLAC metadata block header");
    assert_eq!(
        refused(Flac::sync_lyrics(b"fLaC\x80\x00\x00\x05ab", "x", true)),
        "FLAC block payload exceeds file size"
    );
    assert_eq!(refused(parse_streaminfo(b"short")), "STREAMINFO payload too short");
}

#[test]
fn blocks_are_split_and_joined() {
    let f = tagged(&["A=B"]);
    let (blocks, audio) = split_file(&f).unwrap();
    assert_eq!(blocks.len(), 2);
    assert_eq!((blocks[0].block_type, blocks[1].block_type), (0, 4));
    assert_eq!(&f[audio..], b"audio");
    assert_eq!(serialize_blocks(&blocks), &f[4..audio]);
    let one = vec![MetaBlock { block_type: 1, data: vec![9] }];
    assert_eq!(serialize_blocks(&one), vec![0x81, 0, 0, 1, 9]);
}

#[test]
fn stream_info() {
    assert_eq!(parse_streaminfo(&streaminfo(96_000, 0xf_1234_5678)).unwrap(), (96_000, 0xf_1234_5678));
}

#[test]
fn comment_blocks_are_read_back() {
    let list = comments(&["A=1", "", "B=\u{e9}"]);
    let (vendor, back) = parse_vorbis_comment(&build_vorbis_comment("v\u{e9}", &list)).unwrap();
    assert_eq!(vendor, "v\u{e9}");
    assert_eq!(back, list);
    let mut longer = build_vorbis_comment("v", &list);
    longer.extend_from_slice(b"\x01 and more");
    assert_eq!(parse_vorbis_comment(&longer).unwrap(), ("v".to_string(), list));
}

#[test]
fn vendors_that_are_no_text_are_mended() {
    let data = b"\x02\x00\x00\x00a\xff\x00\x00\x00\x00";
    let (vendor, list) = parse_vorbis_comment(data).unwrap();
    assert_eq!(vendor, "a\u{fffd}");
    assert!(list.is_empty());
}

#[test]
fn faults_of_comment_blocks() {
    assert!(matches!(parse_vorbis_comment(b"abc"), Err(Fault::NoVendorLength)));
    assert!(matches!(parse_vorbis_comment(b"\x05\x00\x00\x00a"), Err(Fault::VendorOverrun)));
    assert!(matches!(parse_vorbis_comment(b"\x01\x00\x00\x00a"), Err(Fault::NoCount)));
    assert!(matches!(parse_vorbis_comment(b"\x00\x00\x00\x00\x01\x00\x00\x00"), Err(Fault::EntryTruncated)));
    assert!(matches!(
        parse_vorbis_comment(b"\x00\x00\x00\x00\x01\x00\x00\x00\x02\x00\x00\x00a"),
        Err(Fault::ValueOverrun)
    ));
}

#[test]
fn comments_are_found_by_key() {
    let list = comments(&["noequals", "key=a=b", "KEY=c"]);
    assert_eq!(find_comment(&list, "KEY"), Some(b"a=b".to_vec()));
    assert_eq!(find_comment(&list, "ke"), None);
    assert_eq!(find_tag(&list, "KEY"), Some("a=b".to_string()));
    assert_eq!(replace_lyrics(&comments(&["Lyrics=x", "LYRICSX=y"]), "z"), comments(&["LYRICSX=y", "LYRICS=z"]));
}

#[test]
fn track_numbers() {
    assert_eq!(parse_track_number("5"), 5);
    assert_eq!(parse_track_number("05/12"), 5);
    assert_eq!(parse_track_number(" 3 "), 3);
    assert_eq!(parse_track_number("+4"), 4);
    assert_eq!(parse_track_number("-4"), 0);
    assert_eq!(parse_track_number(""), 0);
    assert_eq!(parse_track_number("4294967296"), 0);
}

#[test]
fn checked_calls() {
    let f = tagged(&["TITLE=T"]);
    assert!(read_checked(Some("flac"), "p", &f).unwrap().is_ok());
    let edit = sync_checked(Some("flac"), "p", &f, "x", false).unwrap().unwrap();
    assert_eq!(edit.outcome(), LyricsOutcome::Written);
    assert_eq!(Edit::Unchanged.outcome(), LyricsOutcome::Skipped);
    assert_eq!(MetaError::new("m").0, "m");
}
