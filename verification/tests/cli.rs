use nudat::cli::{
    check_base, check_edit, check_jobs, choose_format, done_line, info_lines, is_obb, split_put,
    totals,
};
use nudat::listing::{list_lines, select};
use nudat::outline::tree_lines;
use nudat::transfer::{shorten, TransferReport, TransferState};
use nudat::{pack, pack_with_progress, Archive, Format, PackEvent, SourceFile};

fn file(path: &str, data: &[u8]) -> SourceFile {
    SourceFile {
        path: path.to_owned(),
        data: data.to_vec(),
    }
}

fn joined(lines: Vec<String>) -> String {
    lines.iter().map(|line| format!("{line}\n")).collect()
}

fn shown(events: &[PackEvent]) -> String {
    let mut text = String::new();
    let mut states: Vec<(&str, TransferState)> = Vec::new();
    for event in events {
        let label = event.phase.label();
        if !states.iter().any(|(name, _)| *name == label) {
            states.push((label, TransferState::new()));
        }
        let (_, state) = states.iter_mut().find(|(name, _)| *name == label).unwrap();
        let report = TransferReport {
            path: &event.path,
            completed: event.completed,
            bytes: event.bytes,
            total_files: event.total_files,
            total_bytes: event.total_bytes,
        };
        if let Some(line) = state.report(label, &report, false, false).line {
            text.push_str(&line);
            text.push('\n');
        }
    }
    text
}

#[test]
fn tree_and_cat_show_archive_contents() {
    let mut input = vec![
        file("levels/episode_i/one.bin", b"\0hello\n"),
        file("levels/episode_i/two.bin", b"second"),
        file("root.bin", b"root"),
    ];
    let archive = pack(&input, Format::Pc).unwrap();
    let dat = Archive::open(&archive).unwrap();

    let members = select(dat.entries(), Some("one.bin"));
    assert_eq!(
        joined(tree_lines(dat.entries(), &members, "test.dat", 3, false)),
        "test.dat (1 file)\n└── levels/ (1 file)\n    └── episode_i/ (1 file)\n"
    );

    let members = select(dat.entries(), None);
    assert_eq!(
        joined(list_lines(dat.entries(), &members, false)),
        "levels\\episode_i\\one.bin\nlevels\\episode_i\\two.bin\nroot.bin\n"
    );

    let mut cat = Vec::new();
    dat.copy_to("LEVELS/EPISODE_I/ONE.BIN", &mut cat).unwrap();
    assert_eq!(cat, b"\0hello\n");

    let mut events = Vec::new();
    let unpacked = dat.unpack_with_progress(&mut events).unwrap();
    let (_, total_bytes) = totals(dat.entries());
    let mut state = TransferState::new();
    let mut stderr = String::new();
    for event in &events {
        let report = TransferReport {
            path: &dat.entries()[event.entry].path,
            completed: event.files,
            bytes: event.bytes,
            total_files: dat.entries().len(),
            total_bytes,
        };
        if let Some(line) = state.report("unpack", &report, false, false).line {
            stderr.push_str(&line);
        }
    }
    assert!(stderr.contains("unpack: 100%"));
    assert_eq!(
        format!("{}\n", done_line("unpacked", unpacked.len())),
        "unpacked 3 files\n"
    );

    assert_eq!(check_jobs(Some(0)), Some("--jobs must be at least 1"));

    let format = choose_format(None, Some("obb"));
    let mut events = Vec::new();
    let bytes = pack_with_progress(&input, format, &mut events).unwrap();
    let progress = shown(&events);
    assert!(progress.contains("compress: 100%"));
    assert!(progress.contains("pack: 100%"));
    assert!(bytes[8..512]
        .windows(b"PakDat v1.01".len())
        .any(|window| window == b"PakDat v1.01"));
    let obb_archive = Archive::open(&bytes).unwrap();
    assert_eq!(
        format!("{}\n", done_line("packed", obb_archive.entries().len())),
        "packed 3 files\n"
    );
    assert_eq!(obb_archive.version(), -5);
    assert_eq!(obb_archive.read("root.bin").unwrap(), b"root");

    input[2] = file("root.bin", b"changed");
    let mut events = Vec::new();
    let rebuilt = pack_with_progress(&input, format, &mut events).unwrap();
    let stderr = shown(&events);
    assert!(stderr.contains("compress: 100%"));
    assert!(stderr.contains("pack: 100%"));
    assert_eq!(
        Archive::open(&rebuilt).unwrap().read("root.bin").unwrap(),
        b"changed"
    );
}

#[test]
fn formats_follow_the_output_name() {
    assert_eq!(choose_format(None, Some("OBB")), Format::Obb);
    assert_eq!(choose_format(None, Some("dat")), Format::Pc);
    assert_eq!(choose_format(None, None), Format::Pc);
    assert_eq!(
        choose_format(Some(Format::Android), Some("obb")),
        Format::Android
    );
    assert!(is_obb(Some("oBb")));
    assert!(!is_obb(Some("obbs")));
}

#[test]
fn a_base_has_to_fit() {
    assert_eq!(
        check_base(Some(Format::Pc), Some("dat"), Some(Format::Obb)),
        Some("--format does not match the base archive")
    );
    assert_eq!(
        check_base(Some(Format::Pc), Some("dat"), None),
        Some("--format does not match the base archive")
    );
    assert_eq!(
        check_base(None, Some("obb"), Some(Format::Android)),
        Some("an .obb output requires an OBB base archive")
    );
    assert_eq!(check_base(None, Some("obb"), Some(Format::Obb)), None);
    assert_eq!(
        check_base(Some(Format::Android), Some("dat"), Some(Format::Android)),
        None
    );
    assert_eq!(check_base(None, Some("dat"), None), None);
    assert_eq!(check_jobs(Some(1)), None);
    assert_eq!(check_jobs(None), None);
}

#[test]
fn replacements_are_cut_at_the_first_equals_sign() {
    assert_eq!(
        split_put("A\\B.TXT=dir/é=x"),
        Some(("A\\B.TXT".to_owned(), "dir/é=x".to_owned()))
    );
    assert_eq!(split_put("=x"), Some(("".to_owned(), "x".to_owned())));
    assert_eq!(split_put("no sign"), None);
}

#[test]
fn listings_put_directories_first() {
    let input = vec![
        file("b.bin", &[0; 2000]),
        file("Zeta/one.bin", b"1"),
        file("alpha/sub/two.bin", b"22"),
        file("alpha/a.bin", b"333"),
    ];
    let archive = pack(&input, Format::Pc).unwrap();
    let dat = Archive::open(&archive).unwrap();
    let members = select(dat.entries(), None);
    assert_eq!(
        list_lines(dat.entries(), &members, false),
        vec![
            "alpha\\sub\\two.bin",
            "alpha\\a.bin",
            "Zeta\\one.bin",
            "b.bin"
        ]
    );
    assert_eq!(
        list_lines(dat.entries(), &members, true)[3],
        "      2000       2000 None b.bin"
    );
    assert_eq!(
        tree_lines(dat.entries(), &members, "x.dat", 3, true),
        vec![
            "x.dat (4 files, 2.0 KiB stored, 2.0 KiB decoded)",
            "├── alpha/ (2 files, 5 B stored, 5 B decoded)",
            "│   └── sub/ (1 file, 2 B stored, 2 B decoded)",
            "└── Zeta/ (1 file, 1 B stored, 1 B decoded)",
        ]
    );
    assert_eq!(
        tree_lines(dat.entries(), &members, "x.dat", 1, false),
        vec![
            "x.dat (4 files)",
            "├── alpha/ (2 files)",
            "└── Zeta/ (1 file)",
        ]
    );
    assert_eq!(
        tree_lines(dat.entries(), &members, "x.dat", 0, false).len(),
        1
    );
    assert_eq!(totals(dat.entries()), (2006, 2006));
    assert_eq!(select(dat.entries(), Some("ALPHA\\")).len(), 2);
    assert_eq!(select(dat.entries(), Some("nothing")).len(), 0);
}

#[test]
fn archives_are_told_of() {
    let image = pack(&vec![file("a.bin", b"12345"), file("b.bin", b"")], Format::Pc).unwrap();
    let dat = Archive::open(&image).unwrap();
    assert_eq!(
        info_lines(dat.version(), dat.entries()),
        vec!["version: -3", "files: 2", "stored bytes: 5", "decoded bytes: 5"]
    );
    assert_eq!(done_line("packed", 12), "packed 12 files");
    assert_eq!(check_edit(0, 0), Some("specify at least one --put or --remove"));
    assert_eq!(check_edit(1, 0), None);
    assert_eq!(check_edit(0, 1), None);
}

#[test]
fn long_paths_are_shortened() {
    let short = "x".repeat(48);
    assert_eq!(shorten(&short), short);
    let long = format!("é{}", "y".repeat(48));
    assert_eq!(shorten(&long), format!("…{}", "y".repeat(47)));
}

#[test]
fn reports_that_come_out_of_order_do_not_go_back() {
    let mut state = TransferState::new();
    let at = |completed, bytes| TransferReport {
        path: "p",
        completed,
        bytes,
        total_files: 2,
        total_bytes: 100,
    };
    let first = state.report("pack", &at(0, 5), false, false);
    assert!(first.bar.is_none());
    assert!(first.line.is_none());
    let second = state.report("pack", &at(1, 37), true, false);
    assert_eq!(second.bar, Some((37, "1/2 p".to_owned())));
    assert_eq!(
        second.line.as_deref(),
        Some("pack: 37% (1/2 files, 37/100 bytes)")
    );
    assert_eq!(state.next_report, 40);
    let third = state.report("pack", &at(0, 20), false, false);
    assert!(third.bar.is_none() && third.line.is_none());
    assert_eq!((state.files_seen, state.bytes_seen), (1, 37));
    let last = state.report("pack", &at(2, 38), false, false);
    assert_eq!(last.bar, Some((38, "2/2 p".to_owned())));
    assert_eq!(
        last.line.as_deref(),
        Some("pack: 38% (2/2 files, 38/100 bytes)")
    );
    let mut quiet = TransferState::new();
    assert!(quiet.report("pack", &at(2, 100), false, true).line.is_none());
    let mut big = TransferState::new();
    let report = TransferReport {
        path: "p",
        completed: 0,
        bytes: 1024 * 1024,
        total_files: 0,
        total_bytes: 0,
    };
    assert!(big.report("pack", &report, false, true).bar.is_some());
}

#[test]
fn percentages_that_cannot_be_counted_are_not_reported() {
    let state = TransferState::new();
    let of = |completed, bytes, total_bytes| TransferReport {
        path: "p",
        completed,
        bytes,
        total_files: 3,
        total_bytes,
    };
    assert!(state.can_report(&of(1, u64::MAX, 2), false));
    assert!(!state.can_report(&of(1, u64::MAX, 1), false));
    assert!(state.can_report(&of(1, u64::MAX, 1), true));
    assert!(state.can_report(&of(usize::MAX, 5, 10), false));
    assert!(!state.can_report(&of(usize::MAX, 0, 0), false));
    let mut far = TransferState::new();
    let shown = far.report("pack", &of(1, u64::MAX, u64::MAX), false, false);
    assert!(shown.line.is_none());
    let shown = far.report("pack", &of(2, u64::MAX, u64::MAX / 50), false, false);
    assert_eq!(
        shown.line.as_deref(),
        Some("pack: 50% (2/3 files, 18446744073709551615/368934881474191032 bytes)")
    );
    assert_eq!(far.next_report, 60);
}
