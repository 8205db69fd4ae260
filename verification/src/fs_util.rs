//! Rules for file names and for the order of tracks.

use vstd::prelude::*;

use crate::metadata::{is_audio_file, kind_of};
use crate::text::{chars_of, find_last_char, last_place, push_text, string_of};
use crate::types::{str_view, Track, TrackMeta};

verus! {

/// The name of a file without its extension: what stands before the last dot, unless the name
/// starts with its only dot or has none.
pub open spec fn stem(name: Seq<char>) -> Seq<char> {
    match last_place(name, '.') {
        Some(i) => if i > 0 {
            name.subrange(0, i)
        } else {
            name
        },
        None => name,
    }
}

/// Derives the name of the `.lrc` sidecar of an audio file: same basename, `.lrc`
/// extension. E.g. `01-track.flac` → `01-track.lrc`.
pub fn lrc_sidecar(file_name: &str) -> (r: String)
    ensures
        r@ == stem(file_name@) + ".lrc"@,
{
    let chars = chars_of(file_name);
    let mut r = match find_last_char(&chars, '.') {
        Some(i) => if i > 0 {
            string_of(vstd::slice::slice_subrange(&chars, 0, i))
        } else {
            file_name.to_owned()
        },
        None => file_name.to_owned(),
    };
    push_text(&mut r, ".lrc");
    r
}

/// Whether an entry is hidden: its name starts with a dot. A name that is no text is not.
pub open spec fn hidden(name: Option<Seq<char>>) -> bool {
    name matches Some(n) && n.len() > 0 && n[0] == '.'
}

/// Tells whether an entry of a directory is hidden.
pub fn is_hidden(name: Option<&str>) -> (r: bool)
    ensures
        r == hidden(str_view(name)),
{
    match name {
        Some(n) => {
            let chars = chars_of(n);
            chars.len() > 0 && chars[0] == '.'
        },
        None => false,
    }
}

/// Tells whether an entry of a directory is scanned: a file that is not hidden, with the extension
/// of an audio file.
pub fn is_scanned(name: Option<&str>, is_file: bool, extension: Option<&str>) -> (r: bool)
    ensures
        r == (!hidden(str_view(name)) && is_file && kind_of(str_view(extension)) is Some),
{
    !is_hidden(name) && is_file && is_audio_file(extension)
}

/// Tells whether an entry of a directory is listed as a subdirectory: a directory that is not
/// hidden.
pub fn is_subdir(name: Option<&str>, is_dir: bool) -> (r: bool)
    ensures
        r == (!hidden(str_view(name)) && is_dir),
{
    !is_hidden(name) && is_dir
}

/// What the metadata of a path say it is, without following a link.
#[derive(Debug, Clone, Copy, PartialEq, Eq, Structural)]
pub enum EntryKind {
    Directory,
    File,
    /// A symbolic link, whatever it leads to.
    Link,
    /// Something else, or nothing at all.
    Other,
}

/// Returns `true` for a directory (not a symlink to one).
pub fn is_directory(kind: EntryKind) -> (r: bool)
    ensures
        r == (kind == EntryKind::Directory),
{
    match kind {
        EntryKind::Directory => true,
        _ => false,
    }
}

/// Returns the last path component (the "filename") as a string, or `?` if
/// it can't be represented as UTF-8.
pub fn basename(file_name: Option<&str>) -> (r: String)
    ensures
        r@ == (match str_view(file_name) {
            Some(n) => n,
            None => "?"@,
        }),
{
    match file_name {
        Some(n) => n.to_owned(),
        None => "?".to_owned(),
    }
}

/// The place of a track number in the order: zero, which stands for none, comes last.
pub open spec fn rank(track_number: u32) -> int {
    if track_number == 0 {
        0x1_0000_0000
    } else {
        track_number as int
    }
}

/// What a list of tracks holds.
pub open spec fn track_views(tracks: Seq<TrackMeta>) -> Seq<Track> {
    tracks.map_values(|t: TrackMeta| t@)
}

/// Tracks in order, with another one put in behind those that do not come after it.
pub open spec fn inserted(tracks: Seq<Track>, t: Track) -> Seq<Track>
    decreases tracks.len(),
{
    if tracks.len() == 0 || rank(tracks.last().track_number) <= rank(t.track_number) {
        tracks.push(t)
    } else {
        inserted(tracks.drop_last(), t).push(tracks.last())
    }
}

/// Tracks sorted by track number; those with the same number stay in the order they had.
pub open spec fn sorted(tracks: Seq<Track>) -> Seq<Track>
    decreases tracks.len(),
{
    if tracks.len() == 0 {
        seq![]
    } else {
        inserted(sorted(tracks.drop_last()), tracks.last())
    }
}

/// Puts a track behind those that do not come after it.
fn insert_track(tracks: &mut Vec<TrackMeta>, t: TrackMeta)
    ensures
        track_views(final(tracks)@) == inserted(track_views(old(tracks)@), t@),
{
    let ghost all = track_views(tracks@);
    let ghost view = t@;
    let mut i: usize = tracks.len();
    assert(all.take(i as int) =~= all);
    assert(inserted(all, view) + all.skip(i as int) =~= inserted(all, view));
    while i > 0 && ranks_after(tracks[i - 1].track_number, t.track_number)
        invariant
            i <= tracks@.len(),
            tracks@ == old(tracks)@,
            all == track_views(tracks@),
            view == t@,
            inserted(all.take(i as int), view) + all.skip(i as int) == inserted(all, view),
        decreases i,
    {
        assert(all[i - 1] == tracks@[i - 1]@);
        assert(all.take(i as int).last() == all[i - 1]);
        assert(all.take(i as int).drop_last() =~= all.take(i - 1));
        assert(inserted(all.take(i - 1), view).push(all[i - 1]) + all.skip(i as int) =~= inserted(
            all.take(i - 1),
            view,
        ) + all.skip(i - 1));
        i = i - 1;
    }
    proof {
        if i > 0 {
            assert(all[i - 1] == tracks@[i - 1]@);
            assert(all.take(i as int).last() == all[i - 1]);
        }
        assert(inserted(all.take(i as int), view) == all.take(i as int).push(view));
        assert(all.insert(i as int, view) =~= all.take(i as int).push(view) + all.skip(i as int));
    }
    tracks.insert(i, t);
    assert(track_views(tracks@) =~= all.insert(i as int, view));
}

/// Tells whether track number `a` comes after track number `b`.
fn ranks_after(a: u32, b: u32) -> (r: bool)
    ensures
        r == (rank(a) > rank(b)),
{
    if a == 0 {
        b != 0
    } else {
        b != 0 && a > b
    }
}

/// Sorts tracks by track number (0 sorts last, preserving relative order).
pub fn sort_tracks(tracks: Vec<TrackMeta>) -> (r: Vec<TrackMeta>)
    ensures
        track_views(r@) == sorted(track_views(tracks@)),
{
    let ghost all = track_views(tracks@);
    let mut rest = tracks;
    let mut r: Vec<TrackMeta> = Vec::new();
    let mut reversed: Vec<TrackMeta> = Vec::new();
    while rest.len() > 0
        invariant
            rest@.len() + reversed@.len() == all.len(),
            track_views(rest@) =~= all.take(rest@.len() as int),
            track_views(reversed@) =~= all.skip(rest@.len() as int).reverse(),
        decreases rest@.len(),
    {
        let ghost n = rest@.len() as int;
        let ghost before = rest@;
        match rest.pop() {
            Some(t) => {
                assert(t@ == track_views(before)[n - 1]);
                assert(all.skip(n - 1)[0] == t@);
                assert(all.skip(n - 1).reverse() =~= all.skip(n).reverse().push(t@));
                let ghost done = track_views(reversed@);
                let ghost view = t@;
                reversed.push(t);
                assert(track_views(reversed@) =~= done.push(view));
                assert(track_views(rest@) =~= all.take(n - 1));
            },
            None => {},
        }
    }
    assert(all.skip(0) =~= all);
    let ghost back = all.reverse();
    let ghost mut k: int = 0;
    assert(track_views(r@) =~= sorted(all.take(0))) by {
        assert(all.take(0) =~= seq![]);
    }
    while reversed.len() > 0
        invariant
            0 <= k <= all.len(),
            back == all.reverse(),
            reversed@.len() == all.len() - k,
            track_views(reversed@) =~= back.take(all.len() - k),
            track_views(r@) == sorted(all.take(k)),
        decreases reversed@.len(),
    {
        let ghost before = reversed@;
        match reversed.pop() {
            Some(t) => {
                proof {
                    assert(t@ == track_views(before)[all.len() - k - 1]);
                    assert(t@ == all[k]);
                    assert(all.take(k + 1).drop_last() =~= all.take(k));
                    assert(all.take(k + 1).last() == all[k]);
                }
                insert_track(&mut r, t);
                assert(track_views(reversed@) =~= back.take(all.len() - k - 1));
                proof {
                    k = k + 1;
                }
            },
            None => {},
        }
    }
    assert(all.take(k) =~= all);
    r
}

/// Whether tracks stand in order.
pub open spec fn in_order(tracks: Seq<Track>) -> bool {
    forall|i: int, j: int|
        0 <= i <= j < tracks.len() ==> rank(#[trigger] tracks[i].track_number) <= rank(
            #[trigger] tracks[j].track_number,
        )
}

/// The tracks with a number, in the order they have.
pub open spec fn numbered(tracks: Seq<Track>, n: u32) -> Seq<Track> {
    tracks.filter(|t: Track| t.track_number == n)
}

#[verifier::spinoff_prover]
#[verifier::rlimit(40)]
proof fn lemma_inserted(tracks: Seq<Track>, t: Track, n: u32)
    requires
        in_order(tracks),
    ensures
        in_order(inserted(tracks, t)),
        inserted(tracks, t).len() == tracks.len() + 1,
        inserted(tracks, t).to_multiset() =~= tracks.to_multiset().insert(t),
        numbered(inserted(tracks, t), n) == numbered(tracks.push(t), n),
        forall|i: int|
            0 <= i < inserted(tracks, t).len() ==> (#[trigger] inserted(tracks, t)[i] == t
                || exists|j: int| 0 <= j < tracks.len() && inserted(tracks, t)[i] == tracks[j]),
    decreases tracks.len(),
{
    broadcast use vstd::seq_lib::group_to_multiset_ensures;

    let pred = |x: Track| x.track_number == n;
    if tracks.len() == 0 || rank(tracks.last().track_number) <= rank(t.track_number) {
        let all = tracks.push(t);
        assert(inserted(tracks, t) == all);
        assert forall|i: int, j: int| 0 <= i <= j < all.len() implies rank(
            #[trigger] all[i].track_number,
        ) <= rank(#[trigger] all[j].track_number) by {
            if j == tracks.len() && i < tracks.len() {
                assert(tracks[i].track_number == all[i].track_number);
                assert(tracks[tracks.len() - 1].track_number == tracks.last().track_number);
            }
        }
    } else {
        let part = tracks.drop_last();
        let last = tracks.last();
        let sub = inserted(part, t);
        let all = inserted(tracks, t);
        assert(in_order(part)) by {
            assert forall|i: int, j: int| 0 <= i <= j < part.len() implies rank(
                #[trigger] part[i].track_number,
            ) <= rank(#[trigger] part[j].track_number) by {
                assert(part[i].track_number == tracks[i].track_number);
                assert(part[j].track_number == tracks[j].track_number);
            }
        }
        lemma_inserted(part, t, n);
        assert(all == sub.push(last));
        assert(part.push(last) =~= tracks);
        assert forall|i: int, j: int| 0 <= i <= j < all.len() implies rank(
            #[trigger] all[i].track_number,
        ) <= rank(#[trigger] all[j].track_number) by {
            if j == sub.len() && i < sub.len() {
                assert(all[i] == sub[i]);
                if sub[i] != t {
                    let k = choose|k: int| 0 <= k < part.len() && sub[i] == part[k];
                    assert(part[k] == tracks[k]);
                    assert(tracks[k].track_number == all[i].track_number);
                    assert(tracks[tracks.len() - 1].track_number == last.track_number);
                }
            } else if j < sub.len() {
                assert(all[i] == sub[i] && all[j] == sub[j]);
            }
        }
        assert(all.to_multiset() =~= tracks.to_multiset().insert(t)) by {
            assert(all.to_multiset() =~= sub.to_multiset().insert(last));
            assert(tracks.to_multiset() =~= part.to_multiset().insert(last));
        }
        sub.lemma_filter_push(last, pred);
        part.lemma_filter_push(t, pred);
        tracks.lemma_filter_push(t, pred);
        part.lemma_filter_push(last, pred);
        assert forall|i: int| 0 <= i < all.len() implies (#[trigger] all[i] == t || exists|j: int|
            0 <= j < tracks.len() && all[i] == tracks[j]) by {
            if i < sub.len() {
                assert(all[i] == sub[i]);
                if sub[i] != t {
                    let k = choose|k: int| 0 <= k < part.len() && sub[i] == part[k];
                    assert(tracks[k] == all[i]);
                }
            } else {
                assert(tracks[tracks.len() - 1] == all[i]);
            }
        }
    }
}

/// Sorting gives the same tracks in the order of their numbers, those without a number last, and
/// keeps the order of tracks with the same number.
pub proof fn law_sorted(tracks: Seq<Track>, n: u32)
    ensures
        in_order(sorted(tracks)),
        sorted(tracks).to_multiset() =~= tracks.to_multiset(),
        numbered(sorted(tracks), n) == numbered(tracks, n),
    decreases tracks.len(),
{
    broadcast use vstd::seq_lib::group_to_multiset_ensures;

    if tracks.len() > 0 {
        let part = tracks.drop_last();
        let last = tracks.last();
        let pred = |x: Track| x.track_number == n;
        law_sorted(part, n);
        lemma_inserted(sorted(part), last, n);
        assert(part.push(last) =~= tracks);
        sorted(part).lemma_filter_push(last, pred);
        part.lemma_filter_push(last, pred);
        assert(tracks.to_multiset() =~= part.to_multiset().insert(last));
    } else {
        assert(tracks =~= seq![]);
    }
}

/// The sidecar of an audio file has its name but for the extension.
pub proof fn law_sidecar_name(name: Seq<char>, extension: Seq<char>)
    requires
        name.len() > 0,
        forall|i: int| 0 <= i < extension.len() ==> #[trigger] extension[i] != '.',
    ensures
        stem(name + "."@ + extension) == name,
{
    reveal_strlit(".");
    let all = name + "."@ + extension;
    lemma_last_dot(all, name.len() as int);
    assert(all.subrange(0, name.len() as int) =~= name);
}

proof fn lemma_last_dot(s: Seq<char>, i: int)
    requires
        0 <= i < s.len(),
        s[i] == '.',
        forall|j: int| i < j < s.len() ==> #[trigger] s[j] != '.',
    ensures
        last_place(s, '.') == Some(i),
    decreases s.len(),
{
    if i < s.len() - 1 {
        assert(s[s.len() - 1] != '.');
        lemma_last_dot(s.drop_last(), i);
    }
}

} // verus!
