use synclyr2metadata::cli::{parse, usage_text, Args, Mode};

fn run(args: &[&str]) -> Result<Args, String> {
    let owned: Vec<String> = args.iter().map(|a| a.to_string()).collect();
    parse(&owned)
}

fn refused(args: &[&str]) -> String {
    match run(args) {
        Ok(_) => panic!("an error was expected"),
        Err(e) => e,
    }
}

#[test]
fn defaults() {
    let a = run(&["--folder", "/m"]).unwrap();
    assert!(matches!(a.mode, Mode::Folder(ref p) if p == "/m"));
    assert!(!a.config.force && !a.config.clean_lrc && a.config.prefer_synced);
    assert_eq!(a.config.num_threads, 4);
    assert!(a.config.out_plain.is_none() && a.config.out_missing.is_none());
}

#[test]
fn every_option() {
    let a = run(&[
        "--force", "--library", "/l", "--clean-lrc", "--threads", "7", "--out-plain", "p",
        "--out-missing", "m",
    ])
    .unwrap();
    assert!(matches!(a.mode, Mode::Library(ref p) if p == "/l"));
    assert!(a.config.force && a.config.clean_lrc);
    assert_eq!(a.config.num_threads, 7);
    assert_eq!(a.config.out_plain.as_deref(), Some("p"));
    assert_eq!(a.config.out_missing.as_deref(), Some("m"));
}

#[test]
fn the_order_of_options_does_not_matter() {
    let items: [&[&str]; 5] =
        [&["--force"], &["--threads", "7"], &["--artist", "/a"], &["--out-plain", "--force"], &["--clean-lrc"]];
    for first in 0..5 {
        for step in [1, 2, 3, 4] {
            let order: Vec<&str> =
                (0..5).flat_map(|i| items[(first + i * step) % 5].iter().copied()).collect();
            let a = run(&order).unwrap();
            assert!(matches!(a.mode, Mode::Artist(ref p) if p == "/a"));
            assert!(a.config.force && a.config.clean_lrc);
            assert_eq!(a.config.num_threads, 7);
            assert_eq!(a.config.out_plain.as_deref(), Some("--force"));
            assert!(a.config.out_missing.is_none());
        }
    }
}

#[test]
fn modes() {
    assert!(matches!(run(&["--album", "a"]).unwrap().mode, Mode::Album(ref p) if p == "a"));
    assert!(matches!(run(&["--artist", "a"]).unwrap().mode, Mode::Artist(ref p) if p == "a"));
}

#[test]
fn threads_stay_in_range() {
    for (given, used) in [("0", 1), ("1", 1), ("16", 16), ("17", 16), ("4294967295", 16), ("+3", 3)] {
        let a = run(&["--folder", "f", "--threads", given]).unwrap();
        assert_eq!(a.config.num_threads, used);
    }
}

#[test]
fn help_comes_first() {
    assert_eq!(refused(&["--help"]), "__help__");
    assert_eq!(refused(&["--force", "-h", "--bogus"]), "__help__");
}

#[test]
fn malformed_command_lines() {
    assert_eq!(
        refused(&[]),
        "no mode given (use one of --folder/--album/--artist/--library)"
    );
    assert_eq!(
        refused(&["--folder", "a", "--album", "b"]),
        "multiple mode flags given (only one of --folder/--album/--artist/--library)"
    );
    assert_eq!(refused(&["--threads"]), "missing value for --threads");
    assert_eq!(refused(&["--threads", "x"]), "invalid --threads value 'x'");
    assert_eq!(refused(&["--threads", "-1"]), "invalid --threads value '-1'");
    assert_eq!(refused(&["--threads", "4294967296"]), "invalid --threads value '4294967296'");
    assert_eq!(refused(&["--artist"]), "missing value for --artist");
    assert_eq!(refused(&["--folder", "a", "--album"]), "missing value for --album");
    assert_eq!(refused(&["--out-plain"]), "missing value for --out-plain");
    assert_eq!(refused(&["--out-missing"]), "missing value for --out-missing");
    assert_eq!(refused(&["--bogus"]), "unknown argument '--bogus'");
}

#[test]
fn usage_names_the_program() {
    let text = usage_text("prog");
    assert!(text.starts_with("Usage:\n  prog --folder  \"/path/to/folder\"  [--force] [--threads N]\n"));
    assert!(text.ends_with("  --help         Show this help message"));
    assert_eq!(text.lines().count(), 17);
}
