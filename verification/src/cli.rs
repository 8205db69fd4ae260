//! Command-line argument parsing.
//!
//! Hand-rolled to keep the dependency count at zero.

use vstd::prelude::*;

use crate::text::{chars_of, joined, parse_number, parsed, push_text, same_text};
use crate::types::{text_view, SyncConfig};

verus! {

/// The sync mode chosen on the command line.
#[derive(Debug, Clone)]
pub enum Mode {
    /// `--folder PATH` — sync audio files directly in one directory.
    Folder(String),
    /// `--album PATH` — sync a single album directory.
    Album(String),
    /// `--artist PATH` — sync every album under an artist directory.
    Artist(String),
    /// `--library PATH` — sync an entire artist/album library.
    Library(String),
}

/// What a [`Mode`] holds.
pub enum ModeView {
    Folder(Seq<char>),
    Album(Seq<char>),
    Artist(Seq<char>),
    Library(Seq<char>),
}

impl View for Mode {
    type V = ModeView;

    open spec fn view(&self) -> ModeView {
        match self {
            Mode::Folder(p) => ModeView::Folder(p@),
            Mode::Album(p) => ModeView::Album(p@),
            Mode::Artist(p) => ModeView::Artist(p@),
            Mode::Library(p) => ModeView::Library(p@),
        }
    }
}

/// Parsed command-line arguments.
#[derive(Debug, Clone)]
pub struct Args {
    pub mode: Mode,
    pub config: SyncConfig,
}

/// Default thread count when `--threads` is not given.
pub const DEFAULT_THREADS: u32 = 4;

/// Maximum allowed parallel workers.
pub const MAX_THREADS: u32 = 16;

/// What the arguments read so far say.
pub struct Options {
    pub mode: Option<ModeView>,
    pub force: bool,
    pub clean_lrc: bool,
    pub threads: u32,
    pub out_plain: Option<Seq<char>>,
    pub out_missing: Option<Seq<char>>,
}

/// What no arguments say.
pub open spec fn no_options() -> Options {
    Options {
        mode: None,
        force: false,
        clean_lrc: false,
        threads: DEFAULT_THREADS,
        out_plain: None,
        out_missing: None,
    }
}

/// The mode that a mode flag and its value select.
pub open spec fn mode_of(flag: Seq<char>, path: Seq<char>) -> Option<ModeView> {
    if flag == "--folder"@ {
        Some(ModeView::Folder(path))
    } else if flag == "--album"@ {
        Some(ModeView::Album(path))
    } else if flag == "--artist"@ {
        Some(ModeView::Artist(path))
    } else if flag == "--library"@ {
        Some(ModeView::Library(path))
    } else {
        None
    }
}

/// Whether an argument is a flag with a value after it.
pub open spec fn takes_value(flag: Seq<char>) -> bool {
    ||| flag == "--threads"@
    ||| flag == "--folder"@
    ||| flag == "--album"@
    ||| flag == "--artist"@
    ||| flag == "--library"@
    ||| flag == "--out-plain"@
    ||| flag == "--out-missing"@
}

/// A number of threads brought into the range from one to sixteen.
pub open spec fn clamped(n: int) -> int {
    if n < 1 {
        1
    } else if n > MAX_THREADS {
        MAX_THREADS as int
    } else {
        n
    }
}

/// What the arguments say after a flag with a value, or the message of the error.
pub open spec fn with_value(o: Options, flag: Seq<char>, value: Seq<char>) -> Result<
    Options,
    Seq<char>,
> {
    if flag == "--threads"@ {
        match parsed(value, 10, u32::MAX as int) {
            Some(n) => Ok(Options { threads: clamped(n) as u32, ..o }),
            None => Err("invalid --threads value '"@ + value + "'"@),
        }
    } else if flag == "--out-plain"@ {
        Ok(Options { out_plain: Some(value), ..o })
    } else if flag == "--out-missing"@ {
        Ok(Options { out_missing: Some(value), ..o })
    } else if o.mode is Some {
        Err(
            "multiple mode flags given (only one of --folder/--album/--artist/--library)"@,
        )
    } else {
        Ok(Options { mode: mode_of(flag, value), ..o })
    }
}

/// What the arguments from `i` on say, after those before them, or the message of the error.
pub open spec fn options_from(args: Seq<Seq<char>>, i: int, o: Options) -> Result<
    Options,
    Seq<char>,
>
    decreases args.len() - i,
{
    if i < 0 || i >= args.len() {
        Ok(o)
    } else {
        let arg = args[i];
        if arg == "--help"@ || arg == "-h"@ {
            Err("__help__"@)
        } else if arg == "--force"@ {
            options_from(args, i + 1, Options { force: true, ..o })
        } else if arg == "--clean-lrc"@ {
            options_from(args, i + 1, Options { clean_lrc: true, ..o })
        } else if takes_value(arg) {
            if i + 1 >= args.len() {
                Err("missing value for "@ + arg)
            } else {
                match with_value(o, arg, args[i + 1]) {
                    Ok(next) => options_from(args, i + 2, next),
                    Err(message) => Err(message),
                }
            }
        } else {
            Err("unknown argument '"@ + arg + "'"@)
        }
    }
}

/// The views of the arguments.
pub open spec fn arg_views(argv: Seq<String>) -> Seq<Seq<char>> {
    argv.map_values(|a: String| a@)
}

/// What a command line says, or the message of the error.
pub open spec fn command_line(args: Seq<Seq<char>>) -> Result<Options, Seq<char>> {
    match options_from(args, 0, no_options()) {
        Err(message) => Err(message),
        Ok(o) => if o.mode is Some {
            Ok(o)
        } else {
            Err("no mode given (use one of --folder/--album/--artist/--library)"@)
        },
    }
}

/// The arguments read so far.
struct Draft {
    mode: Option<Mode>,
    force: bool,
    clean_lrc: bool,
    threads: u32,
    out_plain: Option<String>,
    out_missing: Option<String>,
}

impl View for Draft {
    type V = Options;

    closed spec fn view(&self) -> Options {
        Options {
            mode: match self.mode {
                Some(m) => Some(m@),
                None => None,
            },
            force: self.force,
            clean_lrc: self.clean_lrc,
            threads: self.threads,
            out_plain: text_view(self.out_plain),
            out_missing: text_view(self.out_missing),
        }
    }
}

/// Tells whether an argument is a flag with a value after it.
fn is_valued(flag: &str) -> (r: bool)
    ensures
        r == takes_value(flag@),
{
    same_text(flag, "--threads") || same_text(flag, "--folder") || same_text(flag, "--album")
        || same_text(flag, "--artist") || same_text(flag, "--library") || same_text(
        flag,
        "--out-plain",
    ) || same_text(flag, "--out-missing")
}

/// Gives the mode that a mode flag and its value select.
fn select_mode(flag: &str, path: &str) -> (r: Option<Mode>)
    ensures
        match r {
            Some(m) => mode_of(flag@, path@) == Some(m@),
            None => mode_of(flag@, path@) is None,
        },
{
    let path = path.to_owned();
    if same_text(flag, "--folder") {
        Some(Mode::Folder(path))
    } else if same_text(flag, "--album") {
        Some(Mode::Album(path))
    } else if same_text(flag, "--artist") {
        Some(Mode::Artist(path))
    } else if same_text(flag, "--library") {
        Some(Mode::Library(path))
    } else {
        None
    }
}

/// Takes over a flag with a value.
fn take_value(draft: Draft, flag: &str, value: &str) -> (r: Result<Draft, String>)
    ensures
        match (r, with_value(draft@, flag@, value@)) {
            (Ok(d), Ok(o)) => d@ == o,
            (Err(m), Err(message)) => m@ == message,
            _ => false,
        },
{
    if same_text(flag, "--threads") {
        match parse_number(&chars_of(value), 10, u32::MAX as u64) {
            Some(n) => {
                let threads: u32 = if n < 1 {
                    1
                } else if n > MAX_THREADS as u64 {
                    MAX_THREADS
                } else {
                    n as u32
                };
                Ok(Draft { threads, ..draft })
            },
            None => {
                let mut m = joined("invalid --threads value '", value);
                push_text(&mut m, "'");
                Err(m)
            },
        }
    } else if same_text(flag, "--out-plain") {
        Ok(Draft { out_plain: Some(value.to_owned()), ..draft })
    } else if same_text(flag, "--out-missing") {
        Ok(Draft { out_missing: Some(value.to_owned()), ..draft })
    } else if draft.mode.is_some() {
        Err(
            "multiple mode flags given (only one of --folder/--album/--artist/--library)".to_owned(),
        )
    } else {
        Ok(Draft { mode: select_mode(flag, value), ..draft })
    }
}

/// Parses `argv`. Returns `Err(message)` on a malformed command line; the
/// caller is responsible for printing usage and choosing an exit code.
/// A request for help is the message `__help__`.
pub fn parse(argv: &[String]) -> (r: Result<Args, String>)
    ensures
        match (r, command_line(arg_views(argv@))) {
            (Ok(a), Ok(o)) => Some(a.mode@) == o.mode && a.config.force == o.force
                && a.config.clean_lrc == o.clean_lrc && a.config.prefer_synced
                && a.config.num_threads == o.threads && text_view(a.config.out_plain) == o.out_plain
                && text_view(a.config.out_missing) == o.out_missing,
            (Err(m), Err(message)) => m@ == message,
            _ => false,
        },
        r matches Ok(a) ==> 1 <= a.config.num_threads <= MAX_THREADS,
{
    let ghost args = arg_views(argv@);
    let n: usize = argv.len();
    let mut draft = Draft {
        mode: None,
        force: false,
        clean_lrc: false,
        threads: DEFAULT_THREADS,
        out_plain: None,
        out_missing: None,
    };
    let mut i: usize = 0;
    while i < n
        invariant
            i <= n,
            n == argv.len(),
            args == arg_views(argv@),
            1 <= draft@.threads <= MAX_THREADS,
            options_from(args, i as int, draft@) == options_from(args, 0, no_options()),
        decreases n - i,
    {
        let arg = argv[i].as_str();
        assert(args[i as int] == arg@);
        if same_text(arg, "--help") || same_text(arg, "-h") {
            return Err("__help__".to_owned());
        } else if same_text(arg, "--force") {
            draft = Draft { force: true, ..draft };
            i = i + 1;
        } else if same_text(arg, "--clean-lrc") {
            draft = Draft { clean_lrc: true, ..draft };
            i = i + 1;
        } else if is_valued(arg) {
            if n - i < 2 {
                return Err(joined("missing value for ", arg));
            }
            assert(args[i + 1] == argv@[i + 1]@);
            draft = match take_value(draft, arg, &argv[i + 1]) {
                Ok(d) => d,
                Err(m) => return Err(m),
            };
            i = i + 2;
        } else {
            let mut m = joined("unknown argument '", arg);
            push_text(&mut m, "'");
            return Err(m);
        }
    }
    let Draft { mode, force, clean_lrc, threads, out_plain, out_missing } = draft;
    match mode {
        Some(mode) => Ok(
            Args {
                mode,
                config: SyncConfig {
                    force,
                    clean_lrc,
                    prefer_synced: true,
                    num_threads: threads,
                    out_plain,
                    out_missing,
                },
            },
        ),
        None => Err("no mode given (use one of --folder/--album/--artist/--library)".to_owned()),
    }
}

/// The usage banner.
pub open spec fn usage(p: Seq<char>) -> Seq<char> {
    "Usage:\n  "@ + p + " --folder  \"/path/to/folder\"  [--force] [--threads N]\n  "@ + p
        + " --album   \"/path/to/album\"   [--force] [--threads N]\n  "@ + p
        + " --artist  \"/path/to/artist\"  [--force] [--threads N]\n  "@ + p
        + " --library \"/path/to/music\"   [--force] [--threads N]\n\nOptions:\n"@
        + "  --folder       Sync lyrics for audio files directly in one folder\n"@
        + "  --album        Sync lyrics for a single album directory\n"@
        + "  --artist       Sync lyrics for all albums of an artist\n"@
        + "  --library      Sync lyrics for an entire library (artist/album)\n"@
        + "  --force        Overwrite existing lyrics\n"@
        + "  --clean-lrc    Delete local .lrc file after embedding it\n"@
        + "  --threads      Number of parallel threads (default: 4, max: 16)\n"@
        + "  --out-plain    File to log tracks that got plain lyrics\n"@
        + "  --out-missing  File to log tracks with no lyrics found\n"@
        + "  --help         Show this help message"@
}

/// Words the usage banner.
pub fn usage_text(progname: &str) -> (r: String)
    ensures
        r@ == usage(progname@),
{
    let mut r = joined("Usage:\n  ", progname);
    push_text(&mut r, " --folder  \"/path/to/folder\"  [--force] [--threads N]\n  ");
    push_text(&mut r, progname);
    push_text(&mut r, " --album   \"/path/to/album\"   [--force] [--threads N]\n  ");
    push_text(&mut r, progname);
    push_text(&mut r, " --artist  \"/path/to/artist\"  [--force] [--threads N]\n  ");
    push_text(&mut r, progname);
    push_text(&mut r, " --library \"/path/to/music\"   [--force] [--threads N]\n\nOptions:\n");
    push_text(&mut r, "  --folder       Sync lyrics for audio files directly in one folder\n");
    push_text(&mut r, "  --album        Sync lyrics for a single album directory\n");
    push_text(&mut r, "  --artist       Sync lyrics for all albums of an artist\n");
    push_text(&mut r, "  --library      Sync lyrics for an entire library (artist/album)\n");
    push_text(&mut r, "  --force        Overwrite existing lyrics\n");
    push_text(&mut r, "  --clean-lrc    Delete local .lrc file after embedding it\n");
    push_text(&mut r, "  --threads      Number of parallel threads (default: 4, max: 16)\n");
    push_text(&mut r, "  --out-plain    File to log tracks that got plain lyrics\n");
    push_text(&mut r, "  --out-missing  File to log tracks with no lyrics found\n");
    push_text(&mut r, "  --help         Show this help message");
    r
}

/// Whatever the command line, the number of threads is from one to sixteen and exactly one mode is
/// selected.
pub proof fn law_threads_in_range(args: Seq<Seq<char>>)
    ensures
        command_line(args) matches Ok(o) ==> 1 <= o.threads <= MAX_THREADS && o.mode is Some,
{
    lemma_threads(args, 0, no_options());
}

proof fn lemma_threads(args: Seq<Seq<char>>, i: int, o: Options)
    requires
        1 <= o.threads <= MAX_THREADS,
    ensures
        options_from(args, i, o) matches Ok(p) ==> 1 <= p.threads <= MAX_THREADS,
    decreases args.len() - i,
{
    if 0 <= i < args.len() {
        lemma_threads(args, i + 1, Options { force: true, ..o });
        lemma_threads(args, i + 1, Options { clean_lrc: true, ..o });
        if i + 1 < args.len() {
            if let Ok(next) = with_value(o, args[i], args[i + 1]) {
                lemma_threads(args, i + 2, next);
            }
        }
    }
}

/// An option on the command line: a flag, with its value where it takes one.
pub struct Item {
    pub flag: Seq<char>,
    pub value: Option<Seq<char>>,
}

/// The arguments that options are written as.
pub open spec fn written(items: Seq<Item>) -> Seq<Seq<char>>
    decreases items.len(),
{
    if items.len() == 0 {
        seq![]
    } else {
        (match items[0].value {
            Some(v) => seq![items[0].flag, v],
            None => seq![items[0].flag],
        }) + written(items.drop_first())
    }
}

/// Whether each flag has a value exactly if it takes one, and none occurs twice.
pub open spec fn tidy(items: Seq<Item>) -> bool {
    &&& forall|i: int|
        0 <= i < items.len() ==> ((#[trigger] items[i]).value is Some <==> takes_value(
            items[i].flag,
        ))
    &&& forall|i: int, j: int|
        0 <= i < j < items.len() ==> (#[trigger] items[i]).flag != (#[trigger] items[j]).flag
}

/// The order of the options does not matter: where a command line is accepted, so is every one
/// with the same options in another order, and it says the same.
pub proof fn law_order_of_options(one: Seq<Item>, other: Seq<Item>)
    requires
        tidy(one),
        one.to_multiset() == other.to_multiset(),
        command_line(written(one)) is Ok,
    ensures
        command_line(written(other)) == command_line(written(one)),
{
    broadcast use vstd::seq_lib::group_to_multiset_ensures;

    assert forall|i: int| 0 <= i < other.len() implies ((#[trigger] other[i]).value is Some
        <==> takes_value(other[i].flag)) by {
        assert(other.contains(other[i]));
        assert(other.to_multiset().contains(other[i]));
        assert(one.contains(other[i]));
        let j = choose|j: int| 0 <= j < one.len() && one[j] == other[i];
        assert(one[j].value is Some <==> takes_value(one[j].flag));
    }
    lemma_told(Seq::empty(), one, no_options());
    lemma_told(Seq::empty(), other, no_options());
    assert(Seq::<Seq<char>>::empty() + written(one) =~= written(one));
    assert(Seq::<Seq<char>>::empty() + written(other) =~= written(other));
    lemma_reordered(one, other, no_options());
}

/// What the options say after one more, or the message of the error.
pub open spec fn with_item(o: Options, item: Item) -> Result<Options, Seq<char>> {
    if item.flag == "--help"@ || item.flag == "-h"@ {
        Err("__help__"@)
    } else if item.flag == "--force"@ {
        Ok(Options { force: true, ..o })
    } else if item.flag == "--clean-lrc"@ {
        Ok(Options { clean_lrc: true, ..o })
    } else {
        match item.value {
            Some(v) => with_value(o, item.flag, v),
            None => Err("unknown argument '"@ + item.flag + "'"@),
        }
    }
}

/// What the options say after some more, or the message of the error.
pub open spec fn told(items: Seq<Item>, o: Options) -> Result<Options, Seq<char>>
    decreases items.len(),
{
    if items.len() == 0 {
        Ok(o)
    } else {
        match with_item(o, items[0]) {
            Ok(next) => told(items.drop_first(), next),
            Err(message) => Err(message),
        }
    }
}

/// The flags are told from one another.
#[verifier::spinoff_prover]
#[verifier::rlimit(40)]
pub proof fn lemma_flags()
    ensures
        !takes_value("--help"@),
        !takes_value("-h"@),
        !takes_value("--force"@),
        !takes_value("--clean-lrc"@),
{
    reveal_strlit("--help");
    reveal_strlit("-h");
    reveal_strlit("--force");
    reveal_strlit("--clean-lrc");
    reveal_strlit("--threads");
    reveal_strlit("--folder");
    reveal_strlit("--album");
    reveal_strlit("--artist");
    reveal_strlit("--library");
    reveal_strlit("--out-plain");
    reveal_strlit("--out-missing");
    assert("--help"@[2] == 'h' && "--help"@.len() == 6);
    assert("--force"@[2] == 'f' && "--force"@[3] == 'o' && "--force"@.len() == 7);
    assert("--clean-lrc"@[2] == 'c');
    assert("--threads"@[2] == 't');
    assert("--folder"@[2] == 'f' && "--folder"@.len() == 8);
    assert("--album"@[2] == 'a');
    assert("--artist"@[2] == 'a');
    assert("--library"@[2] == 'l');
    assert("--out-plain"@[2] == 'o');
    assert("--out-missing"@[2] == 'o');
    assert("-h"@.len() == 2);
}

/// The arguments that options are written as say what the options say.
#[verifier::spinoff_prover]
#[verifier::rlimit(40)]
pub proof fn lemma_told(before: Seq<Seq<char>>, items: Seq<Item>, o: Options)
    requires
        forall|i: int|
            0 <= i < items.len() ==> ((#[trigger] items[i]).value is Some <==> takes_value(
                items[i].flag,
            )),
    ensures
        options_from(before + written(items), before.len() as int, o) == told(items, o),
    decreases items.len(),
{
    let args = before + written(items);
    let n = before.len() as int;
    lemma_flags();
    if items.len() > 0 {
        let item = items[0];
        let rest = items.drop_first();
        assert forall|i: int| 0 <= i < rest.len() implies ((#[trigger] rest[i]).value is Some
            <==> takes_value(rest[i].flag)) by {
            assert(rest[i] == items[i + 1]);
        }
        assert(item.value is Some <==> takes_value(item.flag));
        assert(args[n] == item.flag);
        match item.value {
            Some(v) => {
                let part = before + seq![item.flag, v];
                assert(args =~= part + written(rest));
                assert(args[n + 1] == v);
                if let Ok(next) = with_item(o, item) {
                    lemma_told(part, rest, next);
                }
            },
            None => {
                let part = before + seq![item.flag];
                assert(args =~= part + written(rest));
                if let Ok(next) = with_item(o, item) {
                    lemma_told(part, rest, next);
                }
            },
        }
    }
}

/// Two options with different flags can change places.
proof fn lemma_swapped(o: Options, x: Item, y: Item)
    requires
        x.flag != y.flag,
        with_item(o, x) is Ok,
        with_item(with_item(o, x)->Ok_0, y) is Ok,
        mode_of(x.flag, x.value->0) is Some || x.flag == "--force"@ || x.flag == "--clean-lrc"@
            || x.flag == "--threads"@ || x.flag == "--out-plain"@ || x.flag == "--out-missing"@,
    ensures
        with_item(o, y) is Ok,
        with_item(with_item(o, y)->Ok_0, x) == with_item(with_item(o, x)->Ok_0, y),
{
}

/// An option can be moved behind others.
#[verifier::spinoff_prover]
#[verifier::rlimit(40)]
proof fn lemma_moved(o: Options, x: Item, ahead: Seq<Item>, behind: Seq<Item>)
    requires
        forall|i: int| 0 <= i < ahead.len() ==> (#[trigger] ahead[i]).flag != x.flag,
        x.value is Some <==> takes_value(x.flag),
        told(seq![x] + ahead + behind, o) is Ok,
    ensures
        told(ahead + seq![x] + behind, o) == told(seq![x] + ahead + behind, o),
    decreases ahead.len(),
{
    let front = seq![x] + ahead + behind;
    let moved = ahead + seq![x] + behind;
    if ahead.len() == 0 {
        assert(front =~= moved);
    } else {
        let a = ahead[0];
        let rest = ahead.drop_first();
        let next = seq![x] + rest + behind;
        assert forall|i: int| 0 <= i < rest.len() implies (#[trigger] rest[i]).flag != x.flag by {
            assert(rest[i] == ahead[i + 1]);
        }
        assert(front[0] == x);
        assert(front.drop_first() =~= ahead + behind);
        assert((ahead + behind)[0] == a);
        assert((ahead + behind).drop_first() =~= rest + behind);
        assert(moved[0] == a);
        assert(moved.drop_first() =~= rest + seq![x] + behind);
        assert(next[0] == x);
        assert(next.drop_first() =~= rest + behind);
        let after_x = with_item(o, x)->Ok_0;
        assert(told(ahead + behind, after_x) is Ok);
        assert(a.flag != x.flag);
        lemma_swapped(o, x, a);
        let after_a = with_item(o, a)->Ok_0;
        assert(told(next, after_a) == told(front, o));
        lemma_moved(after_a, x, rest, behind);
    }
}

/// The same options in another order say the same.
#[verifier::spinoff_prover]
#[verifier::rlimit(40)]
proof fn lemma_reordered(one: Seq<Item>, other: Seq<Item>, o: Options)
    requires
        tidy(one),
        one.to_multiset() == other.to_multiset(),
        told(one, o) is Ok,
    ensures
        told(other, o) == told(one, o),
    decreases one.len(),
{
    broadcast use vstd::seq_lib::group_to_multiset_ensures;

    assert(one.len() == other.len()) by {
        one.to_multiset_ensures();
        other.to_multiset_ensures();
    }
    if one.len() > 0 {
        let x = one[0];
        let rest = one.drop_first();
        assert(one.contains(x));
        assert(other.to_multiset().contains(x));
        assert(other.contains(x));
        let k = choose|k: int| 0 <= k < other.len() && other[k] == x;
        let ahead = other.take(k);
        let behind = other.skip(k + 1);
        let without = other.remove(k);
        assert(without =~= ahead + behind);
        assert(other =~= ahead + seq![x] + behind);
        assert(rest =~= one.remove(0));
        assert(rest.to_multiset() =~= one.to_multiset().remove(x));
        assert(without.to_multiset() =~= other.to_multiset().remove(x));
        assert forall|i: int, j: int| 0 <= i < j < rest.len() implies (#[trigger] rest[i]).flag != (
        #[trigger] rest[j]).flag by {
            assert(rest[i] == one[i + 1] && rest[j] == one[j + 1]);
        }
        assert forall|i: int| 0 <= i < rest.len() implies ((#[trigger] rest[i]).value is Some
            <==> takes_value(rest[i].flag)) by {
            assert(rest[i] == one[i + 1]);
        }
        let next = with_item(o, x)->Ok_0;
        lemma_reordered(rest, without, next);
        assert forall|i: int| 0 <= i < ahead.len() implies (#[trigger] ahead[i]).flag != x.flag by {
            assert(without[i] == ahead[i]);
            assert(without.contains(ahead[i]));
            assert(without.to_multiset().contains(ahead[i]));
            assert(rest.contains(ahead[i]));
            let j = choose|j: int| 0 <= j < rest.len() && rest[j] == ahead[i];
            assert(one[j + 1] == rest[j]);
            assert(one[0].flag != one[j + 1].flag);
        }
        let front = seq![x] + ahead + behind;
        assert(front[0] == x);
        assert(front.drop_first() =~= without);
        assert(x.value is Some <==> takes_value(x.flag));
        lemma_moved(o, x, ahead, behind);
    }
}

} // verus!
