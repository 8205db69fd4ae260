//! What the command line says.

use vstd::prelude::*;

use crate::cli::{
    command_line, no_options, options_from, told, with_item, written, Item, ModeView, Options,
};
use crate::laws::text::law_decimal_read_back;
use crate::text::decimal;

verus! {

/// Whether a flag selects a mode.
pub open spec fn selects(flag: Seq<char>) -> bool {
    flag == "--folder"@ || flag == "--album"@ || flag == "--artist"@ || flag == "--library"@
}

/// Whether an option is one that there is, with a value exactly if it takes one.
pub open spec fn known(item: Item) -> bool {
    ||| (item.flag == "--force"@ || item.flag == "--clean-lrc"@) && item.value is None
    ||| (selects(item.flag) || item.flag == "--threads"@ || item.flag == "--out-plain"@ || item.flag
        == "--out-missing"@) && item.value is Some
}

/// Whether some option has a flag.
pub open spec fn given(items: Seq<Item>, flag: Seq<char>) -> bool {
    exists|i: int| 0 <= i < items.len() && (#[trigger] items[i]).flag == flag
}

/// Whether options go together: all of them are known, none is given twice, at most one selects a
/// mode, and the number of threads is `n`.
pub open spec fn sensible(items: Seq<Item>, n: u32) -> bool {
    &&& forall|i: int| 0 <= i < items.len() ==> known(#[trigger] items[i])
    &&& forall|i: int, j: int|
        0 <= i < j < items.len() ==> (#[trigger] items[i]).flag != (#[trigger] items[j]).flag
            && !(selects(items[i].flag) && selects(items[j].flag))
    &&& forall|i: int|
        0 <= i < items.len() && (#[trigger] items[i]).flag == "--threads"@ ==> items[i].value
            == Some(decimal(n as nat))
}

/// Lengths and letters that tell the flags apart.
proof fn lemma_letters()
    ensures
        "--force"@.len() == 7 && "--force"@[2] == 'f',
        "--clean-lrc"@.len() == 11 && "--clean-lrc"@[2] == 'c',
        "--threads"@.len() == 9 && "--threads"@[2] == 't',
        "--folder"@.len() == 8 && "--folder"@[2] == 'f',
        "--album"@.len() == 7 && "--album"@[2] == 'a',
        "--artist"@.len() == 8 && "--artist"@[2] == 'a',
        "--library"@.len() == 9 && "--library"@[2] == 'l',
        "--out-plain"@.len() == 11 && "--out-plain"@[2] == 'o',
        "--out-missing"@.len() == 13 && "--out-missing"@[2] == 'o',
        "--help"@.len() == 6 && "-h"@.len() == 2,
{
    reveal_strlit("--help");
    reveal_strlit("-h");
    reveal_strlit("--force");
    reveal_strlit("--clean-lrc");
    reveal_strlit("--threads");
    reveal_strlit("--folder");
    reveal_strlit("--album");
    reveal_strlit("--artist");
    reveal_strlit("--library");
    reveal_strlit("--out-plain");
    reveal_strlit("--out-missing");
}

/// What options say when they come after others.
pub open spec fn says(items: Seq<Item>, n: u32, o: Options, p: Options) -> bool {
    &&& p.force == (o.force || given(items, "--force"@))
    &&& p.clean_lrc == (o.clean_lrc || given(items, "--clean-lrc"@))
    &&& p.threads == (if !given(items, "--threads"@) {
        o.threads as int
    } else if n == 0 {
        1
    } else if n > 16 {
        16
    } else {
        n as int
    })
    &&& !given(items, "--out-plain"@) ==> p.out_plain == o.out_plain
    &&& !given(items, "--out-missing"@) ==> p.out_missing == o.out_missing
    &&& forall|i: int|
        0 <= i < items.len() ==> {
            let item = #[trigger] items[i];
            &&& item.flag == "--out-plain"@ ==> p.out_plain == item.value
            &&& item.flag == "--out-missing"@ ==> p.out_missing == item.value
            &&& item.flag == "--folder"@ ==> p.mode == Some(ModeView::Folder(item.value->0))
            &&& item.flag == "--album"@ ==> p.mode == Some(ModeView::Album(item.value->0))
            &&& item.flag == "--artist"@ ==> p.mode == Some(ModeView::Artist(item.value->0))
            &&& item.flag == "--library"@ ==> p.mode == Some(ModeView::Library(item.value->0))
        }
    &&& (forall|i: int| 0 <= i < items.len() ==> !selects((#[trigger] items[i]).flag)) ==> p.mode
        == o.mode
}

#[verifier::spinoff_prover]
#[verifier::rlimit(40)]
proof fn lemma_says(items: Seq<Item>, n: u32, o: Options)
    requires
        sensible(items, n),
        o.mode is Some ==> forall|i: int|
            0 <= i < items.len() ==> !selects((#[trigger] items[i]).flag),
    ensures
        told(items, o) matches Ok(p) && says(items, n, o, p),
    decreases items.len(),
{
    lemma_letters();
    law_decimal_read_back(n as nat, u32::MAX as int);
    if items.len() > 0 {
        let item = items[0];
        let rest = items.drop_first();
        assert(known(item));
        assert forall|i: int| 0 <= i < rest.len() implies known(#[trigger] rest[i]) by {
            assert(rest[i] == items[i + 1]);
        }
        assert forall|i: int, j: int| 0 <= i < j < rest.len() implies (#[trigger] rest[i]).flag != (
        #[trigger] rest[j]).flag && !(selects(rest[i].flag) && selects(rest[j].flag)) by {
            assert(rest[i] == items[i + 1] && rest[j] == items[j + 1]);
        }
        assert forall|i: int|
            0 <= i < rest.len() && (#[trigger] rest[i]).flag == "--threads"@ implies rest[i].value
            == Some(decimal(n as nat)) by {
            assert(rest[i] == items[i + 1]);
        }
        assert forall|i: int| 0 <= i < rest.len() implies (#[trigger] rest[i]).flag != item.flag
            && !(selects(item.flag) && selects(rest[i].flag)) by {
            assert(rest[i] == items[i + 1]);
            assert(items[0].flag != items[i + 1].flag);
        }
        assert(with_item(o, item) is Ok);
        let next = with_item(o, item)->Ok_0;
        if next.mode is Some {
            assert forall|i: int| 0 <= i < rest.len() implies !selects((#[trigger] rest[i]).flag) by {
                assert(rest[i] == items[i + 1]);
            }
        }
        lemma_says(rest, n, next);
        let p = told(rest, next)->Ok_0;
        lemma_given(items, "--force"@);
        lemma_given(items, "--clean-lrc"@);
        lemma_given(items, "--threads"@);
        lemma_given(items, "--out-plain"@);
        lemma_given(items, "--out-missing"@);
        if selects(item.flag) {
            assert(forall|i: int| 0 <= i < rest.len() ==> !selects((#[trigger] rest[i]).flag));
            assert(p.mode == next.mode);
        }
        assert forall|i: int| 0 <= i < items.len() implies {
            let item = #[trigger] items[i];
            &&& item.flag == "--out-plain"@ ==> p.out_plain == item.value
            &&& item.flag == "--out-missing"@ ==> p.out_missing == item.value
            &&& item.flag == "--folder"@ ==> p.mode == Some(ModeView::Folder(item.value->0))
            &&& item.flag == "--album"@ ==> p.mode == Some(ModeView::Album(item.value->0))
            &&& item.flag == "--artist"@ ==> p.mode == Some(ModeView::Artist(item.value->0))
            &&& item.flag == "--library"@ ==> p.mode == Some(ModeView::Library(item.value->0))
        } by {
            if i > 0 {
                assert(items[i] == rest[i - 1]);
            }
        }
        if forall|i: int| 0 <= i < items.len() ==> !selects((#[trigger] items[i]).flag) {
            assert(!selects(items[0].flag));
            assert forall|i: int| 0 <= i < rest.len() implies !selects((#[trigger] rest[i]).flag) by {
                assert(rest[i] == items[i + 1]);
            }
        }
        assert(says(items, n, o, p));
    }
}

proof fn lemma_given(items: Seq<Item>, flag: Seq<char>)
    requires
        items.len() > 0,
    ensures
        given(items, flag) <==> items[0].flag == flag || given(items.drop_first(), flag),
{
    let rest = items.drop_first();
    if given(items, flag) {
        let i = choose|i: int| 0 <= i < items.len() && (#[trigger] items[i]).flag == flag;
        if i > 0 {
            assert(rest[i - 1].flag == flag);
        }
    }
    if given(rest, flag) {
        let i = choose|i: int| 0 <= i < rest.len() && (#[trigger] rest[i]).flag == flag;
        assert(items[i + 1].flag == flag);
    }
}

/// A command line with sensible options that select a mode says exactly what they say: each option
/// sets what it stands for, the number of threads is kept between 1 and 16, and what is not given
/// is off, 4 threads and no log files.
pub proof fn law_command_line(items: Seq<Item>, n: u32, m: int)
    requires
        sensible(items, n),
        0 <= m < items.len(),
        selects(items[m].flag),
    ensures
        command_line(written(items)) matches Ok(o) && {
            &&& o.force == given(items, "--force"@)
            &&& o.clean_lrc == given(items, "--clean-lrc"@)
            &&& !given(items, "--threads"@) ==> o.threads == 4
            &&& given(items, "--threads"@) && 1 <= n <= 16 ==> o.threads == n
            &&& given(items, "--threads"@) && n == 0 ==> o.threads == 1
            &&& given(items, "--threads"@) && n > 16 ==> o.threads == 16
            &&& !given(items, "--out-plain"@) ==> o.out_plain is None
            &&& !given(items, "--out-missing"@) ==> o.out_missing is None
            &&& forall|i: int|
                0 <= i < items.len() ==> {
                    let item = #[trigger] items[i];
                    &&& item.flag == "--out-plain"@ ==> o.out_plain == item.value
                    &&& item.flag == "--out-missing"@ ==> o.out_missing == item.value
                }
            &&& items[m].flag == "--folder"@ ==> o.mode == Some(
                ModeView::Folder(items[m].value->0),
            )
            &&& items[m].flag == "--album"@ ==> o.mode == Some(ModeView::Album(items[m].value->0))
            &&& items[m].flag == "--artist"@ ==> o.mode == Some(
                ModeView::Artist(items[m].value->0),
            )
            &&& items[m].flag == "--library"@ ==> o.mode == Some(
                ModeView::Library(items[m].value->0),
            )
        },
{
    let none = Seq::<Seq<char>>::empty();
    lemma_says(items, n, no_options());
    lemma_known(items);
    crate::cli::lemma_told(none, items, no_options());
    assert(none + written(items) =~= written(items));
    let item = items[m];
}

proof fn lemma_known(items: Seq<Item>)
    requires
        forall|i: int| 0 <= i < items.len() ==> known(#[trigger] items[i]),
    ensures
        forall|i: int|
            0 <= i < items.len() ==> ((#[trigger] items[i]).value is Some
                <==> crate::cli::takes_value(items[i].flag)),
{
    crate::cli::lemma_flags();
    assert forall|i: int| 0 <= i < items.len() implies ((#[trigger] items[i]).value is Some
        <==> crate::cli::takes_value(items[i].flag)) by {
        assert(known(items[i]));
    }
}

/// Options are read one after the other, and what follows them is read with what they say.
#[verifier::spinoff_prover]
#[verifier::rlimit(40)]
proof fn lemma_told_before(ahead: Seq<Seq<char>>, items: Seq<Item>, more: Seq<Seq<char>>, o: Options)
    requires
        forall|i: int| 0 <= i < items.len() ==> known(#[trigger] items[i]),
        told(items, o) is Ok,
    ensures
        options_from(ahead + written(items) + more, ahead.len() as int, o) == options_from(
            ahead + written(items) + more,
            (ahead.len() + written(items).len()) as int,
            told(items, o)->Ok_0,
        ),
    decreases items.len(),
{
    let args = ahead + written(items) + more;
    let n = ahead.len() as int;
    crate::cli::lemma_flags();
    lemma_known(items);
    if items.len() > 0 {
        let item = items[0];
        let rest = items.drop_first();
        assert forall|i: int| 0 <= i < rest.len() implies known(#[trigger] rest[i]) by {
            assert(rest[i] == items[i + 1]);
        }
        assert(known(item));
        assert(item.value is Some <==> crate::cli::takes_value(item.flag));
        lemma_letters();
        let first = match item.value {
            Some(v) => seq![item.flag, v],
            None => seq![item.flag],
        };
        let part = ahead + first;
        assert(written(items) == first + written(rest));
        assert(args =~= part + written(rest) + more);
        assert(args[n] == item.flag);
        if let Some(v) = item.value {
            assert(args[n + 1] == v);
        }
        lemma_told_before(part, rest, more, with_item(o, item)->Ok_0);
    } else {
        assert(written(items) =~= Seq::<Seq<char>>::empty());
    }
}

/// Help is given wherever it is asked for behind sensible options. An unknown argument, a flag
/// without its value and a second mode are refused by name, and so is a command line without a
/// mode.
#[verifier::spinoff_prover]
#[verifier::rlimit(40)]
pub proof fn law_command_line_refused(
    items: Seq<Item>,
    n: u32,
    arg: Seq<char>,
    value: Seq<char>,
    more: Seq<Seq<char>>,
)
    requires
        sensible(items, n),
    ensures
        command_line(written(items) + (seq!["--help"@] + more)) == Err::<Options, Seq<char>>(
            "__help__"@,
        ),
        command_line(written(items) + (seq!["-h"@] + more)) == Err::<Options, Seq<char>>(
            "__help__"@,
        ),
        !selects(arg) && arg != "--threads"@ && arg != "--out-plain"@ && arg != "--out-missing"@
            && arg != "--force"@ && arg != "--clean-lrc"@ && arg != "--help"@ && arg != "-h"@
            ==> command_line(written(items) + (seq![arg] + more)) == Err::<Options, Seq<char>>(
            "unknown argument '"@ + arg + "'"@,
        ),
        selects(arg) || arg == "--threads"@ || arg == "--out-plain"@ || arg == "--out-missing"@
            ==> command_line(written(items) + seq![arg]) == Err::<Options, Seq<char>>(
            "missing value for "@ + arg,
        ),
        selects(arg) && (exists|i: int| 0 <= i < items.len() && selects((#[trigger] items[i]).flag))
            ==> command_line(written(items) + (seq![arg, value] + more)) is Err,
        crate::text::parsed(value, 10, u32::MAX as int) is None ==> command_line(
            written(items) + (seq!["--threads"@, value] + more),
        ) is Err,
        (forall|i: int| 0 <= i < items.len() ==> !selects((#[trigger] items[i]).flag))
            ==> command_line(written(items)) is Err,
{
    let none = Seq::<Seq<char>>::empty();
    let w = written(items);
    let at = w.len() as int;
    lemma_letters();
    crate::cli::lemma_flags();
    lemma_says(items, n, no_options());
    lemma_known(items);
    lemma_refused(items, seq!["--help"@] + more);
    lemma_refused(items, seq!["-h"@] + more);
    lemma_refused(items, seq![arg] + more);
    lemma_refused(items, seq![arg]);
    lemma_refused(items, seq![arg, value] + more);
    lemma_refused(items, seq!["--threads"@, value] + more);
    assert((w + (seq!["--help"@] + more))[at] == "--help"@);
    assert((w + (seq!["-h"@] + more))[at] == "-h"@);
    assert((w + (seq![arg] + more))[at] == arg);
    assert((w + seq![arg])[at] == arg);
    assert((w + (seq![arg, value] + more))[at] == arg);
    assert((w + (seq![arg, value] + more))[at + 1] == value);
    assert((w + (seq!["--threads"@, value] + more))[at] == "--threads"@);
    assert((w + (seq!["--threads"@, value] + more))[at + 1] == value);
    crate::cli::lemma_told(none, items, no_options());
    assert(none + w =~= w);
    if exists|i: int| 0 <= i < items.len() && selects((#[trigger] items[i]).flag) {
        let i = choose|i: int| 0 <= i < items.len() && selects((#[trigger] items[i]).flag);
        let item = items[i];
        assert(told(items, no_options())->Ok_0.mode is Some);
    }
}

proof fn lemma_refused(items: Seq<Item>, more: Seq<Seq<char>>)
    requires
        forall|i: int| 0 <= i < items.len() ==> known(#[trigger] items[i]),
        told(items, no_options()) is Ok,
    ensures
        options_from(written(items) + more, 0, no_options()) == options_from(
            written(items) + more,
            written(items).len() as int,
            told(items, no_options())->Ok_0,
        ),
{
    let none = Seq::<Seq<char>>::empty();
    lemma_told_before(none, items, more, no_options());
    assert(none + written(items) + more =~= written(items) + more);
}

} // verus!
