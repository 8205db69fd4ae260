//! What is given by the functions that decide or word a thing in one step.

use vstd::prelude::*;
use vstd::utf8::encode_utf8;

use crate::cli::{arg_views, parse, written, Args, Item, Mode};
use crate::fs_util::{basename, is_directory, is_scanned, is_subdir, lrc_sidecar, EntryKind};
use crate::http_client::{parse_checked, HttpError, HttpResponse};
use crate::json::{document, Json, Value};
use crate::laws::formats::spells;
use crate::laws::http::{last_length, sent, tells_status, unchunked, writable, Line};
use crate::laws::options::{given, selects, sensible};
use crate::laws::sync::law_stem;
use crate::laws::text::law_first_place;
use crate::lidarr::{
    album_dir_from_title, album_dir_from_tracks, choose_target, dir_log, event_action,
    lidarr_config, target_exit_code, target_log, EventAction, Target,
};
use crate::logger::{log_line, path_with_suffix};
use crate::lrclib::{read_reply, ApiReply};
use crate::metadata::flac::Flac;
use crate::metadata::id3v2::Mp3;
use crate::metadata::mp4::Mp4;
use crate::metadata::ogg::Ogg;
use crate::metadata::{read_checked, sync_checked, AudioFormat, Edit, MetaError};
use crate::report::{done_text, exit_code};
use crate::sync::{shown_title, worker_count};
use crate::text::decimal;
use crate::types::{SyncConfig, SyncResult, Track, TrackMeta};

verus! {

/// A test event is answered with success, a download of an album is synced, any other event is
/// ignored without an error, and a missing event is an error.
pub proof fn law_event_action(event: Option<&str>, r: EventAction)
    requires
        call_ensures(event_action, (event,), r),
    ensures
        event is None ==> (r matches EventAction::Stop(m, code) && code == 1 && m@
            == "ERROR: lidarr_eventtype not set"@),
        event matches Some(e) && e@ == "Test"@ ==> (r matches EventAction::Stop(m, code) && code == 0
            && m@ == "Test OK"@),
        event matches Some(e) && e@ == "AlbumDownload"@ ==> r is Sync,
        event matches Some(e) && e@ != "Test"@ && e@ != "AlbumDownload"@ ==> (
        r matches EventAction::Stop(m, code) && code == 0 && m@ == "Ignoring event: "@ + event->0@),
{
    reveal_strlit("Test");
    reveal_strlit("AlbumDownload");
    assert("Test"@.len() == 4 && "AlbumDownload"@.len() == 13);
}

/// The album is synced where its directory is known, else all of the artist where that is, and
/// where neither is the run fails.
pub proof fn law_target(album: bool, artist: bool, target: Target, dir: &str, log: String, code: u8)
    requires
        call_ensures(choose_target, (album, artist), target),
        call_ensures(target_log, (target, dir), log),
        call_ensures(target_exit_code, (target,), code),
    ensures
        album ==> target == Target::Album && code == 0 && log@ == "Album: "@ + dir@,
        !album && artist ==> target == Target::Artist && code == 0 && log@
            == "Album dir not found, syncing artist: "@ + dir@,
        !album && !artist ==> target == Target::Unknown && code == 1 && log@
            == "ERROR: could not determine album directory"@,
{
}

/// A sync for Lidarr overwrites and deletes nothing, prefers synced lyrics, runs on four threads and
/// writes both logs.
pub proof fn law_lidarr_config(plain: String, missing: String, r: SyncConfig)
    requires
        call_ensures(lidarr_config, (plain, missing), r),
    ensures
        !r.force && !r.clean_lrc && r.prefer_synced,
        r.num_threads == 4,
        r.out_plain == Some(plain),
        r.out_missing == Some(missing),
{
}

/// The line above a directory tells how many tracks it holds, or that it holds none.
pub proof fn law_dir_log(tracks: usize, dir: &str, r: String)
    requires
        call_ensures(dir_log, (tracks, dir), r),
    ensures
        tracks == 0 ==> r@ == "No audio files found in '"@ + dir@ + "'"@,
        tracks > 0 ==> r@ == "Syncing "@ + decimal(tracks as nat) + " track(s) in '"@ + dir@ + "'"@,
{
}

/// The first of several paths ends at the first bar, and a single path is taken whole.
pub proof fn law_first_path(paths: &str, first: Seq<char>, rest: Seq<char>, r: String)
    requires
        call_ensures(album_dir_from_tracks, (paths,), r),
        paths@ == first || paths@ == first + seq!['|'] + rest,
        forall|i: int| 0 <= i < first.len() ==> #[trigger] first[i] != '|',
    ensures
        r@ == first,
{
    law_first_place(first, '|', rest);
}

/// The directory of an album is the first one whose name holds its title.
pub proof fn law_album_directory(
    names: &Vec<Option<String>>,
    title: &str,
    r: Option<usize>,
    i: int,
    ahead: Seq<char>,
    behind: Seq<char>,
)
    requires
        call_ensures(album_dir_from_title, (names, title), r),
        0 <= i < names@.len(),
        names@[i] matches Some(name) && name@ == ahead + title@ + behind,
    ensures
        r matches Some(k) && k <= i && k < names@.len() && names@[k as int] is Some,
        r matches Some(k) ==> exists|a: Seq<char>, z: Seq<char>|
            names@[k as int]->0@ == #[trigger] (a + title@ + z),
{
    crate::laws::lookup::law_holds(names@[i]->0@, title@, ahead, behind);
    assert(crate::lidarr::names_album(crate::types::text_view(names@[i]), title@));
    if let Some(k) = r {
        crate::laws::lookup::law_holds(names@[k as int]->0@, title@, ahead, behind);
    }
}

/// A reply of status 404 is no match. One of status 200 is the document it holds, where it holds one,
/// and any other reply is of no use.
pub proof fn law_reply(status: u16, body: &str, r: ApiReply)
    requires
        call_ensures(read_reply, (status, body), r),
    ensures
        status == 404 ==> r is NoMatch,
        status == 200 ==> match document(encode_utf8(body@)) {
            Ok(v) => r matches ApiReply::Document(json) && json.value() == v,
            Err(_) => r is Useless,
        },
        status != 404 && status != 200 ==> r is Useless,
{
}

/// A directory is scanned for files that are not hidden and have one of the extensions of audio
/// files.
pub proof fn law_scanned(name: &str, is_file: bool, extension: Option<&str>, r: bool)
    requires
        call_ensures(is_scanned, (Some(name), is_file, extension), r),
    ensures
        !is_file ==> !r,
        extension is None ==> !r,
        name@.len() > 0 && name@[0] == '.' ==> !r,
        is_file && (name@.len() == 0 || name@[0] != '.') && (extension matches Some(e) && (spells(
            e@,
            seq!['f', 'l', 'a', 'c'],
        ) || spells(e@, seq!['m', 'p', '3']) || spells(e@, seq!['o', 'g', 'g']) || spells(
            e@,
            seq!['o', 'p', 'u', 's'],
        ) || spells(e@, seq!['m', '4', 'a']) || spells(e@, seq!['m', 'p', '4']) || spells(
            e@,
            seq!['m', '4', 'b'],
        ) || spells(e@, seq!['m', '4', 'p']) || spells(e@, seq!['a', 'a', 'c']))) ==> r,
{
    if let Some(e) = extension {
        crate::laws::formats::lemma_names(e@);
    }
}

/// A subdirectory is a directory that is not hidden, and a link is no directory.
pub proof fn law_subdirectories(name: &str, is_dir: bool, kind: EntryKind, r: bool, d: bool)
    requires
        call_ensures(is_subdir, (Some(name), is_dir), r),
        call_ensures(is_directory, (kind,), d),
    ensures
        r <==> is_dir && (name@.len() == 0 || name@[0] != '.'),
        d <==> kind == EntryKind::Directory,
{
}

/// A name is shown as it is, and one that is no text as a question mark.
pub proof fn law_basename(name: Option<&str>, r: String)
    requires
        call_ensures(basename, (name,), r),
    ensures
        name matches Some(n) ==> r@ == n@,
        name is None ==> r@ == seq!['?'],
{
    reveal_strlit("?");
    assert("?"@ =~= seq!['?']);
}

/// The sidecar of a file has its name with `.lrc` in place of the extension.
pub proof fn law_sidecar(file: &str, name: Seq<char>, extension: Seq<char>, r: String)
    requires
        call_ensures(lrc_sidecar, (file,), r),
        file@ == name + seq!['.'] + extension,
        name.len() > 0,
        forall|i: int| 0 <= i < extension.len() ==> #[trigger] extension[i] != '.',
    ensures
        r@ == name + seq!['.', 'l', 'r', 'c'],
{
    reveal_strlit(".lrc");
    assert(".lrc"@ =~= seq!['.', 'l', 'r', 'c']);
    law_stem(name, extension);
}

/// A run fails exactly if a track hit an error, and its counts are told in one line.
pub proof fn law_run_told(result: &SyncResult, code: u8, line: String)
    requires
        call_ensures(exit_code, (result,), code),
        call_ensures(done_text, (result,), line),
    ensures
        code == 0 <==> result.errors == 0,
        code <= 1,
        line@ == "Done: "@ + decimal(result.synced as nat) + " synced, "@ + decimal(
            result.plain as nat,
        ) + " plain, "@ + decimal(result.skipped as nat) + " skipped, "@ + decimal(
            result.not_found as nat,
        ) + " not found"@,
{
}

/// A track is shown by its title, or as unknown.
pub proof fn law_shown_title(track: &TrackMeta, r: String)
    requires
        call_ensures(shown_title, (track,), r),
    ensures
        track.title matches Some(t) ==> r@ == t@,
        track.title is None ==> r@ == "(unknown)"@,
{
}

/// There are as many workers as threads, but no more than tracks, and at least one.
pub proof fn law_worker_count(config: &SyncConfig, tracks: usize, r: usize)
    requires
        call_ensures(worker_count, (config, tracks), r),
        tracks < 0x1_0000_0000,
    ensures
        r >= 1,
        config.num_threads >= 1 && tracks >= 1 ==> r == (if config.num_threads < tracks {
            config.num_threads as int
        } else {
            tracks as int
        }),
{
}

/// A line of the log is the time between brackets and the message, and a log lies beside the
/// program, under its name with a suffix.
pub proof fn law_log_line(
    time: &str,
    message: &str,
    line: String,
    program: &str,
    suffix: &str,
    path: String,
)
    requires
        call_ensures(log_line, (time, message), line),
        call_ensures(path_with_suffix, (program, suffix), path),
    ensures
        line@ == seq!['['] + time@ + seq![']', ' '] + message@,
        path@ == program@ + suffix@,
{
    reveal_strlit("[");
    reveal_strlit("] ");
    assert("["@ =~= seq!['[']);
    assert("] "@ =~= seq![']', ' ']);
}

/// Whether a sync gave what a format makes of a file.
pub open spec fn wrote(
    r: Option<Result<Edit, MetaError>>,
    possible: bool,
    made: Result<Option<Seq<u8>>, Seq<char>>,
) -> bool {
    match r {
        Some(Ok(Edit::Rewritten(bytes))) => possible && made == Ok::<Option<Seq<u8>>, Seq<char>>(
            Some(bytes@),
        ),
        Some(Ok(Edit::Unchanged)) => possible && made == Ok::<Option<Seq<u8>>, Seq<char>>(None),
        Some(Err(e)) => possible && made == Err::<Option<Seq<u8>>, Seq<char>>(e.0@),
        None => !possible,
    }
}

/// Syncing a file is what the format of its extension, in any case of letters, makes of its bytes.
pub proof fn law_sync_by_extension(
    extension: &str,
    filepath: &str,
    bytes: &[u8],
    lyrics: &str,
    force: bool,
    r: Option<Result<Edit, MetaError>>,
)
    requires
        call_ensures(sync_checked, (Some(extension), filepath, bytes, lyrics, force), r),
    ensures
        spells(extension@, seq!['m', '4', 'a']) || spells(extension@, seq!['m', 'p', '4']) || spells(
            extension@,
            seq!['m', '4', 'b'],
        ) || spells(extension@, seq!['m', '4', 'p']) || spells(extension@, seq!['a', 'a', 'c'])
            ==> wrote(
            r,
            Mp4::editable(bytes@, lyrics@, force),
            Mp4::edited(bytes@, lyrics@, force),
        ),
        spells(extension@, seq!['f', 'l', 'a', 'c']) ==> wrote(
            r,
            true,
            Flac::edited(bytes@, lyrics@, force),
        ),
        spells(extension@, seq!['m', 'p', '3']) ==> wrote(
            r,
            true,
            Mp3::edited(bytes@, lyrics@, force),
        ),
        spells(extension@, seq!['o', 'g', 'g']) || spells(extension@, seq!['o', 'p', 'u', 's'])
            ==> wrote(
            r,
            Ogg::editable(bytes@, lyrics@, force),
            Ogg::edited(bytes@, lyrics@, force),
        ),
{
    crate::laws::formats::lemma_names(extension@);
}

/// Whether a reading gave what a format reads from a file.
pub open spec fn told(
    r: Option<Result<TrackMeta, MetaError>>,
    possible: bool,
    read: Result<Track, Seq<char>>,
) -> bool {
    match r {
        Some(Ok(t)) => possible && (read matches Ok(m) && m == t@),
        Some(Err(e)) => possible && read == Err::<Track, Seq<char>>(e.0@),
        None => !possible,
    }
}

/// Reading a file is what the format of its extension, in any case of letters, reads from its bytes.
pub proof fn law_read_by_extension(
    extension: &str,
    filepath: &str,
    bytes: &[u8],
    r: Option<Result<TrackMeta, MetaError>>,
)
    requires
        call_ensures(read_checked, (Some(extension), filepath, bytes), r),
    ensures
        spells(extension@, seq!['m', '4', 'a']) || spells(extension@, seq!['m', 'p', '4']) || spells(
            extension@,
            seq!['m', '4', 'b'],
        ) || spells(extension@, seq!['m', '4', 'p']) || spells(extension@, seq!['a', 'a', 'c'])
            ==> told(r, Mp4::readable(bytes@), Mp4::metadata(bytes@, filepath@)),
        spells(extension@, seq!['f', 'l', 'a', 'c']) ==> told(
            r,
            true,
            Flac::metadata(bytes@, filepath@),
        ),
        spells(extension@, seq!['m', 'p', '3']) ==> told(
            r,
            Mp3::readable(bytes@),
            Mp3::metadata(bytes@, filepath@),
        ),
        spells(extension@, seq!['o', 'g', 'g']) || spells(extension@, seq!['o', 'p', 'u', 's'])
            ==> told(r, Ogg::readable(bytes@), Ogg::metadata(bytes@, filepath@)),
{
    crate::laws::formats::lemma_names(extension@);
}

/// A response with a `Content-Length` is parsed into its status and exactly the text of that length.
pub proof fn law_response_parsed(
    raw: &[u8],
    r: Option<Result<HttpResponse, HttpError>>,
    first: Seq<char>,
    version: Seq<char>,
    status: nat,
    reason: Seq<char>,
    headers: Seq<Line>,
    k: int,
    text: Seq<char>,
    more: Seq<u8>,
)
    requires
        call_ensures(parse_checked, (raw,), r),
        tells_status(first, version, status, reason),
        forall|i: int| 0 <= i < headers.len() ==> writable(#[trigger] headers[i]),
        unchunked(headers),
        last_length(headers, k),
        headers[k].value == decimal(encode_utf8(text).len()),
        encode_utf8(text).len() <= usize::MAX,
        raw@ == sent(first, headers, encode_utf8(text) + more) || raw@ == sent(
            first,
            headers,
            encode_utf8(text),
        ),
    ensures
        r matches Some(Ok(response)) && response.status_code == status && response.body@ == text,
{
    crate::laws::http::law_response_with_length(
        first,
        version,
        status,
        reason,
        headers,
        k,
        text,
        more,
    );
}

/// A command line sets what its options stand for, and synced lyrics are always preferred.
pub proof fn law_arguments(
    argv: &[String],
    r: Result<Args, String>,
    items: Seq<Item>,
    n: u32,
    m: int,
)
    requires
        call_ensures(parse, (argv,), r),
        arg_views(argv@) == written(items),
        sensible(items, n),
        0 <= m < items.len(),
        selects(items[m].flag),
    ensures
        r matches Ok(a) && {
            &&& a.config.prefer_synced
            &&& a.config.force == given(items, "--force"@)
            &&& a.config.clean_lrc == given(items, "--clean-lrc"@)
            &&& !given(items, "--threads"@) ==> a.config.num_threads == 4
            &&& given(items, "--threads"@) && 1 <= n <= 16 ==> a.config.num_threads == n
            &&& !given(items, "--out-plain"@) ==> a.config.out_plain is None
            &&& !given(items, "--out-missing"@) ==> a.config.out_missing is None
            &&& items[m].flag == "--folder"@ ==> (a.mode matches Mode::Folder(p) && p@
                == items[m].value->0)
            &&& items[m].flag == "--album"@ ==> (a.mode matches Mode::Album(p) && p@
                == items[m].value->0)
            &&& items[m].flag == "--artist"@ ==> (a.mode matches Mode::Artist(p) && p@
                == items[m].value->0)
            &&& items[m].flag == "--library"@ ==> (a.mode matches Mode::Library(p) && p@
                == items[m].value->0)
        },
{
    crate::laws::options::law_command_line(items, n, m);
}

/// A JSON value gives its text, its number, its truth value or its items, and nothing else that it is
/// not.
pub proof fn law_json_read(
    j: &Json,
    text: Option<&str>,
    number: Option<&str>,
    truth: Option<bool>,
    null: bool,
)
    requires
        call_ensures(Json::as_str, (j,), text),
        call_ensures(Json::number_text, (j,), number),
        call_ensures(Json::as_bool, (j,), truth),
        call_ensures(Json::is_null, (j,), null),
    ensures
        match *j {
            Json::String(s) => text is Some && text->0@ == s@ && number is None && truth is None
                && !null,
            Json::Number(s) => number is Some && number->0@ == s@ && text is None && truth is None
                && !null,
            Json::Bool(b) => truth == Some(b) && text is None && number is None && !null,
            Json::Null => null && text is None && number is None && truth is None,
            _ => text is None && number is None && truth is None && !null,
        },
{
}

/// A field of a JSON object is the first one with its key.
pub proof fn law_json_field(
    j: &Json,
    key: &str,
    r: Option<&Json>,
    list: Seq<(Seq<char>, Value)>,
    i: int,
)
    requires
        call_ensures(Json::get, (j, key), r),
        j.value() == Value::Object(list),
        0 <= i < list.len(),
        list[i].0 == key@,
        forall|k: int| 0 <= k < i ==> (#[trigger] list[k]).0 != key@,
    ensures
        r matches Some(v) && v.value() == list[i].1,
{
    crate::laws::lookup::law_first_entry(list, i);
}

} // verus!
