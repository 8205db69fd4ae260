//! The texts that tell the user how a sync run goes.

use vstd::prelude::*;

use crate::text::{
    decimal, decimal_text, joined, pad_end, pad_start, padded_end, padded_start, push_repeated,
    push_text, repeated, shortened, truncate,
};
use crate::types::SyncResult;

verus! {

/// How many characters of a title are shown.
pub const TITLE_WIDTH: usize = 40;

/// The line that tells the outcome of track number `idx` (from zero on) out of `total`.
pub open spec fn progress(idx: int, total: int, title: Seq<char>, status: Seq<char>) -> Seq<char> {
    "  ["@ + padded_start(decimal((idx + 1) as nat), 2, ' ') + "/"@ + decimal(total as nat) + "] "@
        + padded_end(shortened(title, TITLE_WIDTH as int), TITLE_WIDTH as int, ' ') + " "@ + status
}

/// Words the line that tells the outcome of a track.
pub fn progress_line(idx: usize, total: usize, title: &str, status: &str) -> (r: String)
    requires
        idx < usize::MAX,
    ensures
        r@ == progress(idx as int, total as int, title@, status@),
{
    let mut r = joined("  [", &pad_start(&decimal_text(idx as u64 + 1), 2, ' '));
    push_text(&mut r, "/");
    push_text(&mut r, &decimal_text(total as u64));
    push_text(&mut r, "] ");
    push_text(&mut r, &pad_end(&truncate(title, TITLE_WIDTH), TITLE_WIDTH, ' '));
    push_text(&mut r, " ");
    push_text(&mut r, status);
    r
}

/// The final tally: a count is shown for plain lyrics and errors only where there are any.
pub open spec fn tally(result: SyncResult) -> Seq<char> {
    let rule = repeated('\u{2500}', 46);
    "\n"@ + rule + "\n  \u{2713} Synced:     "@ + decimal(result.synced as nat) + (if result.plain
        > 0 {
        "\n  \u{2713} Plain:      "@ + decimal(result.plain as nat)
    } else {
        seq![]
    }) + "\n  \u{2298} Skipped:    "@ + decimal(result.skipped as nat)
        + "\n  \u{2717} Not found:  "@ + decimal(result.not_found as nat) + (if result.errors > 0 {
        "\n  \u{2717} Errors:     "@ + decimal(result.errors as nat)
    } else {
        seq![]
    }) + "\n"@ + rule
}

/// Words the final tally.
pub fn summary_text(result: &SyncResult) -> (r: String)
    ensures
        r@ == tally(*result),
{
    let mut rule = String::new();
    push_repeated(&mut rule, '\u{2500}', 46);
    assert(rule@ =~= repeated('\u{2500}', 46));
    let mut plain = String::new();
    if result.plain > 0 {
        plain = joined("\n  \u{2713} Plain:      ", &decimal_text(result.plain as u64));
    }
    let mut errors = String::new();
    if result.errors > 0 {
        errors = joined("\n  \u{2717} Errors:     ", &decimal_text(result.errors as u64));
    }
    let mut r = joined("\n", &rule);
    push_text(&mut r, "\n  \u{2713} Synced:     ");
    push_text(&mut r, &decimal_text(result.synced as u64));
    push_text(&mut r, &plain);
    push_text(&mut r, "\n  \u{2298} Skipped:    ");
    push_text(&mut r, &decimal_text(result.skipped as u64));
    push_text(&mut r, "\n  \u{2717} Not found:  ");
    push_text(&mut r, &decimal_text(result.not_found as u64));
    push_text(&mut r, &errors);
    push_text(&mut r, "\n");
    push_text(&mut r, &rule);
    r
}

/// The exit code of a run: one if any track hit an error.
pub fn exit_code(result: &SyncResult) -> (r: u8)
    ensures
        r == (if result.errors > 0 {
            1int
        } else {
            0
        }),
{
    if result.has_errors() {
        1
    } else {
        0
    }
}

/// The counts of a run in one line.
pub fn done_text(result: &SyncResult) -> (r: String)
    ensures
        r@ == "Done: "@ + decimal(result.synced as nat) + " synced, "@ + decimal(
            result.plain as nat,
        ) + " plain, "@ + decimal(result.skipped as nat) + " skipped, "@ + decimal(
            result.not_found as nat,
        ) + " not found"@,
{
    let mut r = joined("Done: ", &decimal_text(result.synced as u64));
    push_text(&mut r, " synced, ");
    push_text(&mut r, &decimal_text(result.plain as u64));
    push_text(&mut r, " plain, ");
    push_text(&mut r, &decimal_text(result.skipped as u64));
    push_text(&mut r, " skipped, ");
    push_text(&mut r, &decimal_text(result.not_found as u64));
    push_text(&mut r, " not found");
    r
}

/// The banner above a directory whose tracks are synced.
pub fn folder_heading(tracks: usize, label: &str, dir: &str, threads: u32) -> (r: String)
    ensures
        r@ == "Syncing lyrics for "@ + decimal(tracks as nat) + " track(s) in "@ + label@ + " '"@
            + dir@ + "' ["@ + decimal(threads as nat) + " threads]...\n"@,
{
    let mut r = joined("Syncing lyrics for ", &decimal_text(tracks as u64));
    push_text(&mut r, " track(s) in ");
    push_text(&mut r, label);
    push_text(&mut r, " '");
    push_text(&mut r, dir);
    push_text(&mut r, "' [");
    push_text(&mut r, &decimal_text(threads as u64));
    push_text(&mut r, " threads]...\n");
    r
}

/// The line that names an album about to be synced.
pub fn album_line(name: &str, tracks: usize) -> (r: String)
    ensures
        r@ == "\u{25b6} "@ + name@ + " ("@ + decimal(tracks as nat) + " tracks)"@,
{
    let mut r = joined("\u{25b6} ", name);
    push_text(&mut r, " (");
    push_text(&mut r, &decimal_text(tracks as u64));
    push_text(&mut r, " tracks)");
    r
}

/// The banner above the sync of a library.
pub open spec fn library_banner(path: Seq<char>, threads: nat) -> Seq<char> {
    let rule = repeated('\u{2550}', 60);
    rule + "\n  synclyr2metadata \u{2014} Library Sync\n  Path:     "@ + path
        + "\n  Threads:  "@ + decimal(threads) + "\n"@ + rule + "\n"@
}

/// Words the banner above the sync of a library.
pub fn library_heading(path: &str, threads: u32) -> (r: String)
    ensures
        r@ == library_banner(path@, threads as nat),
{
    let mut rule = String::new();
    push_repeated(&mut rule, '\u{2550}', 60);
    assert(rule@ =~= repeated('\u{2550}', 60));
    let mut r = joined(&rule, "\n  synclyr2metadata \u{2014} Library Sync\n  Path:     ");
    push_text(&mut r, path);
    push_text(&mut r, "\n  Threads:  ");
    push_text(&mut r, &decimal_text(threads as u64));
    push_text(&mut r, "\n");
    push_text(&mut r, &rule);
    push_text(&mut r, "\n");
    r
}

/// The lines that close the sync of a library.
pub fn library_closing(artists: u32, albums: u32) -> (r: String)
    ensures
        r@ == repeated('\u{2550}', 60) + "\n  Library Sync Complete\n  Artists:  "@ + decimal(
            artists as nat,
        ) + "\n  Albums:   "@ + decimal(albums as nat),
{
    let mut r = String::new();
    push_repeated(&mut r, '\u{2550}', 60);
    assert(r@ =~= repeated('\u{2550}', 60));
    push_text(&mut r, "\n  Library Sync Complete\n  Artists:  ");
    push_text(&mut r, &decimal_text(artists as u64));
    push_text(&mut r, "\n  Albums:   ");
    push_text(&mut r, &decimal_text(albums as u64));
    r
}

} // verus!
