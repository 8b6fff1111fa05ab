use nudat::archive::{find_entry, MAX_READ};
use nudat::error::{IndexFault, IoFault, NudatError, RecordField};
use nudat::index::parse_index;
use nudat::order::sort_pending;
use nudat::pack::{check_unique, collect_file, make_prefix};
use nudat::pending::{Pending, Source};
use nudat::progress::Meter;
use nudat::size::format_size;
use nudat::text::{decimal_of, name_hash, normalize, to_slashes};
use nudat::tree::build_tree;
use nudat::writer::{align, plan_archive};
use nudat::{pack, Archive, Compression, Entry, Format, SourceFile};

fn file(path: &str, data: &[u8]) -> SourceFile {
    SourceFile {
        path: path.to_owned(),
        data: data.to_vec(),
    }
}

fn pending(path: &str) -> Pending {
    Pending {
        path: path.to_owned(),
        source: Source::Disk(0),
        size: 0,
        stored_size: 0,
        compression: Compression::Plain,
    }
}

fn error_of<T>(result: Result<T, NudatError>) -> String {
    match result {
        Ok(_) => panic!("this should have failed"),
        Err(error) => error.message(),
    }
}

fn sample() -> Vec<u8> {
    pack(&vec![file("a/b.txt", b"hello"), file("c.txt", b"world!")], Format::Pc).unwrap()
}

fn index_of(image: &[u8]) -> usize {
    u32::from_le_bytes(image[0..4].try_into().unwrap()) as usize
}

fn put_i32(image: &mut [u8], at: usize, value: i32) {
    image[at..at + 4].copy_from_slice(&value.to_le_bytes());
}

fn put_i16(image: &mut [u8], at: usize, value: i16) {
    image[at..at + 2].copy_from_slice(&value.to_le_bytes());
}

// The parts of the sample's index: two records, four nodes, their names, two hashes.
const RECORDS: usize = 8;
const NODES: usize = 8 + 2 * 16 + 4;
const TABLE: usize = NODES + 4 * 8 + 4;

fn opened_with(change: impl Fn(&mut Vec<u8>, usize)) -> String {
    let mut image = sample();
    let index = index_of(&image);
    change(&mut image, index);
    error_of(Archive::open(&image).map(|_| ()))
}

#[test]
fn the_sample_is_laid_out_as_described() {
    let image = sample();
    let index = index_of(&image);
    let dat = Archive::open(&image).unwrap();
    assert_eq!(dat.version(), -3);
    assert_eq!(dat.format(), Some(Format::Pc));
    assert_eq!(&image[1024..1029], dat.read(&dat.entries()[0].path).unwrap().get(..5).unwrap());
    assert_eq!(dat.entries()[0].offset, 1024);
    assert_eq!(dat.entries()[1].offset, 1280);
    assert_eq!(index as u32, 1280 + dat.entries()[1].stored_size);
    assert_eq!(&image[index + TABLE..index + TABLE + 15], b"\0a\0b.txt\0c.txt\0");
    assert_eq!(
        u32::from_le_bytes(image[4..8].try_into().unwrap()) as usize,
        image.len() - index
    );
    assert!(name_hash(&dat.entries()[0].path) < name_hash(&dat.entries()[1].path));
}

#[test]
fn damaged_archives_are_refused() {
    assert_eq!(
        error_of(Archive::open(&[0; 15]).map(|_| ())),
        "invalid DAT archive: file is too short to be a DAT archive"
    );
    let cases: Vec<(&str, Box<dyn Fn(&mut Vec<u8>, usize)>)> = vec![
        (
            "DAT index offset is outside the file",
            Box::new(|image, _| put_i32(image, 0, 7)),
        ),
        (
            "unsupported DAT version -4",
            Box::new(|image, index| put_i32(image, index, -4)),
        ),
        (
            "unsupported DAT version 17",
            Box::new(|image, index| put_i32(image, index, 17)),
        ),
        (
            "invalid DAT file count",
            Box::new(|image, index| put_i32(image, index + 4, -1)),
        ),
        (
            "invalid DAT file count",
            Box::new(|image, index| put_i32(image, index + 4, 1000)),
        ),
        (
            "unsupported compression mode 1",
            Box::new(|image, index| put_i32(image, index + RECORDS + 12, 1)),
        ),
        (
            "negative DAT entry offset or length",
            Box::new(|image, index| put_i32(image, index + RECORDS + 8, -1)),
        ),
        (
            "DAT entry extends into the index",
            Box::new(|image, index| put_i32(image, index + RECORDS + 4, 4096)),
        ),
        (
            "invalid DAT tree node count",
            Box::new(|image, index| put_i32(image, index + NODES - 4, 0)),
        ),
        (
            "invalid DAT tree node count",
            Box::new(|image, index| put_i32(image, index + NODES - 4, 0x8000)),
        ),
        (
            "truncated DAT tree",
            Box::new(|image, index| put_i32(image, index + NODES - 4, 0x7fff)),
        ),
        (
            "invalid DAT name table length",
            Box::new(|image, index| put_i32(image, index + TABLE - 4, -1)),
        ),
        (
            "invalid DAT name offset",
            Box::new(|image, index| put_i32(image, index + NODES + 12, 0x7fff_ffff)),
        ),
        (
            "unterminated DAT name",
            Box::new(|image, index| put_i32(image, index + NODES + 12, 15)),
        ),
        (
            "non-UTF-8 DAT filename",
            Box::new(|image, index| image[index + TABLE + 1] = 0xff),
        ),
        (
            "invalid DAT tree name",
            Box::new(|image, index| image[index + TABLE + 1] = b'/'),
        ),
        (
            "invalid DAT tree name",
            Box::new(|image, index| image[index + TABLE + 1] = b'.'),
        ),
        (
            "invalid or cyclic DAT tree",
            Box::new(|image, index| put_i16(image, index + NODES + 8, 1)),
        ),
        (
            "invalid or cyclic DAT tree",
            Box::new(|image, index| put_i16(image, index + NODES + 8 + 2, -1)),
        ),
        (
            "DAT tree index out of range",
            Box::new(|image, index| put_i16(image, index + NODES + 8 + 2, 4)),
        ),
        (
            "DAT file index out of range",
            Box::new(|image, index| put_i16(image, index + NODES + 16, -2)),
        ),
        (
            "DAT file index out of range",
            Box::new(|image, index| put_i16(image, index + NODES + 16, i16::MIN)),
        ),
        (
            "DAT tree does not name every file",
            Box::new(|image, index| put_i16(image, index + NODES + 8 + 2, 0)),
        ),
        (
            "DAT hashes are unsorted or collide",
            Box::new(|image, index| put_i32(image, index + TABLE + 15, -1)),
        ),
        (
            "DAT hash missing for a\\b.txt",
            Box::new(|image, index| image[index + TABLE + 3] = b'x'),
        ),
        (
            "invalid DAT hash-name table",
            Box::new(|image, index| put_i32(image, index + TABLE + 15 + 8, -1)),
        ),
        (
            "invalid DAT hash-name table",
            Box::new(|image, index| put_i32(image, index + TABLE + 15 + 12, 1)),
        ),
        (
            "unexpected trailing DAT index data",
            Box::new(|image, _| image.push(0)),
        ),
    ];
    for (expected, change) in &cases {
        let found = opened_with(change);
        if expected.starts_with("DAT hash missing") {
            assert_eq!(found, "invalid DAT archive: DAT hash missing for a\\x.txt");
        } else {
            assert_eq!(found, format!("invalid DAT archive: {expected}"));
        }
    }
}

#[test]
fn duplicate_file_numbers_are_refused() {
    let mut image = sample();
    let index = index_of(&image);
    let leaf = |image: &[u8], node: usize| {
        i16::from_le_bytes(
            image[index + NODES + 8 * node..index + NODES + 8 * node + 2]
                .try_into()
                .unwrap(),
        )
    };
    let other = leaf(&image, 3);
    put_i16(&mut image, index + NODES + 16, other);
    assert_eq!(
        error_of(Archive::open(&image).map(|_| ())),
        "invalid DAT archive: duplicate DAT file index"
    );
}

#[test]
fn two_paths_with_one_hash_are_refused() {
    // The name of the second file becomes that of the first, so both have one place.
    let image = pack(&vec![file("a.txt", b"1"), file("b.txt", b"2")], Format::Pc).unwrap();
    let index = index_of(&image);
    let mut image = image;
    let table = NODES + 3 * 8 + 4;
    assert_eq!(&image[index + table..index + table + 13], b"\0a.txt\0b.txt\0");
    image[index + table + 7] = b'A';
    assert_eq!(
        error_of(Archive::open(&image).map(|_| ())),
        "invalid DAT archive: duplicate DAT path hash"
    );
}

#[test]
fn archives_that_are_cut_short_are_refused() {
    let image = sample();
    let index = index_of(&image);
    let cut = |len: usize| match Archive::open(&image[..len]) {
        Ok(_) => panic!("this should have failed"),
        Err(error) => error,
    };
    assert!(matches!(
        cut(index + RECORDS + 31),
        NudatError::Binary(IndexFault::Record(RecordField::Compression))
    ));
    assert!(matches!(
        cut(index + RECORDS + 28),
        NudatError::Binary(IndexFault::Record(RecordField::Compression))
    ));
    assert!(matches!(
        cut(index + RECORDS + 27),
        NudatError::Binary(IndexFault::Record(RecordField::Size))
    ));
    assert!(matches!(
        cut(index + NODES - 1),
        NudatError::Binary(IndexFault::Number)
    ));
    assert!(matches!(
        cut(index + TABLE + 15 + 7),
        NudatError::Io(IoFault::UnexpectedEof)
    ));
    assert!(matches!(
        cut(index + TABLE + 15 + 8 + 7),
        NudatError::Binary(IndexFault::Number)
    ));
    let cause = std::io::Error::new(
        std::io::ErrorKind::UnexpectedEof,
        "failed to fill whole buffer",
    );
    let frame = "While parsing field 'size' in RawFileInfo";
    let expected = binrw::Error::Backtrace(binrw::error::Backtrace::new(
        binrw::Error::Io(cause),
        vec![binrw::error::BacktraceFrame::Full {
            code: None,
            message: frame.into(),
            file: "src/lib.rs",
            line: 60,
        }],
    ));
    assert_eq!(
        cut(index + RECORDS + 27).message(),
        format!("binary index error: {expected}")
    );
    assert_eq!(RecordField::Offset.line(), 58);
    assert_eq!(RecordField::Compression.line(), 61);
    assert_eq!(
        cut(index + NODES - 1).message(),
        "binary index error: failed to fill whole buffer"
    );
    assert_eq!(
        cut(index + TABLE + 15 + 7).message(),
        "I/O error: failed to fill whole buffer"
    );
}

#[test]
fn a_wrapper_may_not_be_too_long() {
    let mut image = sample();
    let index = index_of(&image);
    let tail = image.split_off(index);
    let far = 0x20_0000u32;
    let mut moved = vec![0u8; far as usize];
    moved.extend_from_slice(&tail);
    moved[0..4].copy_from_slice(&far.to_le_bytes());
    for record in 0..2 {
        put_i32(&mut moved, far as usize + RECORDS + 16 * record, 0x1800);
    }
    assert_eq!(
        error_of(Archive::open(&moved).map(|_| ())),
        "invalid DAT archive: invalid DAT wrapper length"
    );
    for record in 0..2 {
        put_i32(&mut moved, far as usize + RECORDS + 16 * record, 0);
    }
    assert_eq!(
        error_of(Archive::open(&moved).map(|_| ())),
        "invalid DAT archive: invalid DAT wrapper length"
    );
}

#[test]
fn indexes_are_read_without_the_payloads() {
    let image = sample();
    let index = index_of(&image);
    let parsed = parse_index(&image[index..], index as u64).unwrap();
    assert_eq!(parsed.version, -3);
    assert_eq!(parsed.prefix_len, 1024);
    let number = find_entry(&parsed.entries, "A/B.TXT").unwrap();
    assert_eq!(parsed.entries[number].path, "a\\b.txt");
    assert_eq!(find_entry(&parsed.entries, "a//b.txt"), None);
}

#[test]
fn entries_that_do_not_decode_are_named() {
    let mut image = sample();
    let index = index_of(&image);
    let path = Archive::open(&image).unwrap().entries()[1].path.clone();
    put_i32(&mut image, index + RECORDS + 16 + 8, 3);
    let dat = Archive::open(&image).unwrap();
    assert_eq!(
        error_of(dat.verify()),
        format!("failed to decode {path}: invalid DAT archive: uncompressed size mismatch")
    );
    assert_eq!(
        error_of(dat.unpack().map(|_| ())),
        "invalid DAT archive: uncompressed size mismatch"
    );
    let mut events = Vec::new();
    assert!(dat.unpack_with_progress(&mut events).is_err());
    assert_eq!(events.last().unwrap().files, 1);
    assert!(dat.extract(&path).is_err());
    assert_eq!(
        error_of(dat.extract("nothing")),
        "archive entry not found: nothing"
    );
}

#[test]
fn large_entries_are_not_read_as_a_whole() {
    let mut image = sample();
    let index = index_of(&image);
    let path = Archive::open(&image).unwrap().entries()[0].path.clone();
    put_i32(&mut image, index + RECORDS + 8, MAX_READ as i32 + 1);
    let dat = Archive::open(&image).unwrap();
    assert_eq!(
        error_of(dat.read(&path)),
        "invalid request: entry is too large for read; use copy_to instead"
    );
}

#[test]
fn paths_are_checked() {
    assert_eq!(normalize("a/B\\c.d").unwrap(), "a\\B\\c.d");
    assert_eq!(normalize("é/ü").unwrap(), "é\\ü");
    for bad in ["", "/a", "\\a", "c:\\x", "a\0b"] {
        assert_eq!(error_of(normalize(bad)), "invalid request: invalid archive path");
    }
    for bad in ["a//b", "a/", "./a", "a/../b"] {
        assert_eq!(
            error_of(normalize(bad)),
            "invalid request: invalid archive path component"
        );
    }
    assert_eq!(to_slashes("a\\é\\b/c"), "a/é/b/c");
}

#[test]
fn hashes_do_not_tell_upper_from_lower_case() {
    assert_eq!(name_hash(""), 0x811c_9dc5);
    assert_eq!(
        name_hash("a"),
        (0x811c_9dc5u32 ^ 0x41).wrapping_mul(0x19_9933)
    );
    assert_eq!(name_hash("Levels\\x.SCP"), name_hash("LEVELS\\X.scp"));
    assert_ne!(name_hash("é"), name_hash("É"));
}

#[test]
fn packing_refuses_bad_files() {
    assert_eq!(
        error_of(pack(&vec![file("a", b""), file("A", b"")], Format::Pc)),
        "invalid request: duplicate case-insensitive input path: A"
    );
    assert_eq!(
        error_of(pack(&vec![file("a", b""), file("A/b", b"")], Format::Pc)),
        "invalid request: file/directory path conflict"
    );
    assert_eq!(
        error_of(pack(&vec![file("a/b", b""), file("a", b"")], Format::Pc)),
        "invalid request: file/directory path conflict"
    );
    assert_eq!(
        error_of(pack(&vec![file("x:", b"")], Format::Pc)),
        "invalid request: invalid archive path"
    );
    assert_eq!(
        error_of(collect_file("a", 0x8000_0000, 0)),
        "invalid request: file exceeds DAT entry size limit"
    );
    assert_eq!(collect_file("a/b", 0x7fff_ffff, 3).unwrap().path, "a\\b");
    let many = (0..0x8000).map(|i| pending(&format!("f{i}"))).collect();
    assert_eq!(
        error_of(plan_archive(-3, 1024, &many)),
        "invalid request: too many DAT files"
    );
    assert_eq!(
        error_of(plan_archive(-3, 1024, &vec![pending("q"), pending("Q")])),
        "invalid request: duplicate archive path: q"
    );
    assert_eq!(
        error_of(plan_archive(-3, 1024, &vec![pending("q:")])),
        "invalid request: invalid archive path"
    );
    let deep = (0..20_000).map(|i| pending(&format!("d{i}\\f"))).collect();
    assert_eq!(
        error_of(build_tree(&deep)),
        "invalid request: too many DAT tree nodes"
    );
    assert!(check_unique(&vec![pending("a"), pending("b")]).is_ok());
}

#[test]
fn colliding_hashes_are_refused() {
    assert_eq!(name_hash("WEHGCVW"), 0xc93a_16a2);
    assert_eq!(name_hash("cfpihen"), 0xc93a_16a2);
    assert_eq!(
        error_of(plan_archive(-3, 1024, &vec![pending("WEHGCVW"), pending("CFPIHEN")])),
        "invalid request: DAT path hash collision: CFPIHEN and WEHGCVW"
    );
}

#[test]
fn files_are_ordered_by_hash() {
    let items: Vec<Pending> = ["zz", "b\\c", "A", "m.txt", "b\\a"].iter().map(|p| pending(p)).collect();
    let sorted = sort_pending(&items);
    assert_eq!(sorted.len(), 5);
    for pair in sorted.windows(2) {
        assert!(name_hash(&pair[0].path) < name_hash(&pair[1].path));
    }
    for item in &items {
        assert!(sorted.iter().any(|other| other.path == item.path));
    }
}

#[test]
fn trees_are_flattened_in_order() {
    let tree = build_tree(&vec![pending("B\\x"), pending("a"), pending("b\\Y")]).unwrap();
    let nodes: Vec<(i16, i16, &[u8])> = tree
        .nodes
        .iter()
        .map(|node| (node.child, node.sibling, node.name.as_slice()))
        .collect();
    assert_eq!(
        nodes,
        vec![
            (1, 0, b"".as_slice()),
            (-1, 2, b"a".as_slice()),
            (3, 0, b"B".as_slice()),
            (0, 4, b"x".as_slice()),
            (-2, 0, b"Y".as_slice()),
        ]
    );
    assert_eq!(tree.names, b"\0a\0B\0x\0Y\0");
    assert_eq!(tree.name_offsets, vec![0, 1, 3, 5, 7]);
}

#[test]
fn directories_keep_the_case_of_the_first_path() {
    let input = vec![file("Dir/one", b"1"), file("dIR/two", b"22")];
    let image = pack(&input, Format::Pc).unwrap();
    let dat = Archive::open(&image).unwrap();
    assert_eq!(dat.read("DIR\\ONE").unwrap(), b"1");
    assert_eq!(dat.read("dir/two").unwrap(), b"22");
    let first = &dat.entries()[0].path[..3];
    assert!(dat.entries().iter().all(|entry| &entry.path[..3] == first));
}

#[test]
fn nothing_can_be_packed() {
    for format in [Format::Pc, Format::Android, Format::Obb] {
        let image = pack(&vec![], format).unwrap();
        let dat = Archive::open(&image).unwrap();
        assert!(dat.entries().is_empty());
        assert_eq!(dat.format(), Some(format));
        assert_eq!(dat.version(), format.version());
        assert!(dat.rewrite(&vec![], &vec![]).unwrap() == image);
    }
}

#[test]
fn wrappers_hold_their_marker() {
    let prefix = make_prefix(Format::Android);
    assert_eq!(prefix.len(), 512);
    assert_eq!(
        &prefix[8..68],
        b"BEGIN_APP_ID_STRINGPakDat (TechRound) v1.1END_APP_ID_STRING\0".as_slice()
    );
    assert_eq!(make_prefix(Format::Pc).len(), 1024);
}

#[test]
fn rewriting_replaces_adds_and_removes() {
    let image = pack(
        &vec![file("Keep/Me.bin", b"kept"), file("gone", b"x"), file("swap", b"old")],
        Format::Android,
    )
    .unwrap();
    let dat = Archive::open(&image).unwrap();
    let changed = dat
        .rewrite(
            &vec![
                file("SWAP", b"first"),
                file("new/file", b"added"),
                file("Swap", b"second"),
                file("GONE", b"back"),
            ],
            &vec!["Gone".to_owned(), "never there".to_owned()],
        )
        .unwrap();
    let new = Archive::open(&changed).unwrap();
    assert_eq!(new.entries().len(), 4);
    assert_eq!(new.read("keep\\me.bin").unwrap(), b"kept");
    assert_eq!(new.read("swap").unwrap(), b"second");
    assert_eq!(new.entry("swap").unwrap().path, "swap");
    assert_eq!(new.read("new\\file").unwrap(), b"added");
    assert_eq!(new.entry("gone").unwrap().path, "gone");
    assert_eq!(new.read("gone").unwrap(), b"back");
    assert_eq!(new.format(), Some(Format::Android));
    assert_eq!(
        error_of(dat.rewrite(&vec![], &vec!["a//b".to_owned()])),
        "invalid request: invalid archive path component"
    );
    assert_eq!(
        error_of(dat.rewrite(&vec![file("", b"")], &vec![])),
        "invalid request: invalid archive path"
    );
}

#[test]
fn rewriting_nothing_changes_nothing() {
    let image = pack(
        &vec![file("Dir/one", b"1"), file("dIR/two.tex", &[5; 9000]), file("z", b"")],
        Format::Obb,
    )
    .unwrap();
    let dat = Archive::open(&image).unwrap();
    assert!(dat.rewrite(&vec![], &vec![]).unwrap() == image);
}

#[test]
fn repacking_refuses_duplicates() {
    let image = sample();
    let dat = Archive::open(&image).unwrap();
    assert_eq!(
        error_of(dat.repack(&vec![file("x", b""), file("X", b"")])),
        "invalid request: duplicate case-insensitive input path: X"
    );
    let same = dat.repack(&vec![file("A/B.TXT", b"hello"), file("C.txt", b"world?")]).unwrap();
    let new = Archive::open(&same).unwrap();
    assert_eq!(new.entry("a/b.txt").unwrap().path, "a\\b.txt");
    assert_eq!(new.read("c.txt").unwrap(), b"world?");
}

#[test]
fn sizes_are_rounded_to_one_digit() {
    assert_eq!(format_size(0), "0 B");
    assert_eq!(format_size(1023), "1023 B");
    assert_eq!(format_size(1024), "1.0 KiB");
    for size in [
        1025u64,
        1075,
        1076,
        1280,
        1536,
        1127,
        1792,
        1048575,
        1048576,
        1_500_000,
        1_073_741_823,
        1_073_741_824,
        5_000_000_000,
        1_099_511_627_775,
        1_099_511_627_776,
        9_007_199_254_740_993,
        9_223_372_036_854_775_807,
        u64::MAX,
    ] {
        let mut value = size as f64;
        let mut unit = "B";
        for next in ["KiB", "MiB", "GiB", "TiB"] {
            value /= 1024.0;
            unit = next;
            if value < 1024.0 {
                break;
            }
        }
        assert_eq!(format_size(size), format!("{value:.1} {unit}"), "{size}");
    }
}

#[test]
fn numbers_are_written_in_decimal() {
    assert_eq!(decimal_of(0), "0");
    assert_eq!(decimal_of(-5), "-5");
    assert_eq!(decimal_of(i32::MIN), "-2147483648");
    assert_eq!(decimal_of(1234567890), "1234567890");
    assert_eq!(align(0), 0);
    assert_eq!(align(1), 256);
    assert_eq!(align(256), 256);
    assert_eq!(align(257), 512);
}

#[test]
fn reports_are_due_every_mebibyte() {
    let mut meter = Meter::new();
    assert!(!meter.wrote(1024 * 1024 - 1));
    assert!(meter.wrote(1));
    assert!(!meter.wrote(0));
    assert!(meter.wrote(5 * 1024 * 1024));
}

#[test]
fn entries_have_public_fields() {
    let entry = Entry {
        path: "a".to_owned(),
        offset: 256,
        stored_size: 1,
        size: 1,
        compression: Compression::Plain,
    };
    let copy = entry.clone();
    assert_eq!(copy.path, "a");
    assert_eq!(copy.compression.raw(), 0);
    assert_eq!(Compression::from_raw(2).unwrap(), Compression::Lz2k);
    assert_eq!(Compression::from_raw(3).unwrap(), Compression::Deflate);
    assert_eq!(
        error_of(Compression::from_raw(-7)),
        "invalid DAT archive: unsupported compression mode -7"
    );
}

fn mixed() -> Vec<SourceFile> {
    vec![
        file("Levels/One/a.tex", &vec![7; 40_000]),
        file("levels/two/B.GSC", &(0..5000u32).map(|i| (i % 7) as u8).collect::<Vec<_>>()),
        file("LEVELS/one/c.txt", b"plain"),
        file("empty.tex", b""),
        file("\u{e9}t\u{e9}.pak", &vec![0; 100]),
    ]
}

#[test]
fn packing_what_was_unpacked_gives_the_same_archive() {
    for format in [Format::Pc, Format::Android, Format::Obb] {
        let image = pack(&mixed(), format).unwrap();
        let dat = Archive::open(&image).unwrap();
        let files = dat.unpack().unwrap();
        assert_eq!(files.len(), 5);
        assert!(pack(&files, format).unwrap() == image);
    }
}

#[test]
fn rebuilding_from_what_was_unpacked_gives_the_same_archive() {
    for format in [Format::Pc, Format::Android, Format::Obb] {
        let image = pack(&mixed(), format).unwrap();
        let dat = Archive::open(&image).unwrap();
        let files = dat.unpack().unwrap();
        assert!(dat.repack(&files).unwrap() == image);
        assert!(dat.rewrite(&Vec::new(), &Vec::new()).unwrap() == image);
    }
}

#[test]
fn unpacking_reports_every_write() {
    let image = pack(&vec![file("a.tex", &vec![7; 40_000])], Format::Obb).unwrap();
    let dat = Archive::open(&image).unwrap();
    assert_eq!(dat.entries()[0].compression, Compression::Deflate);
    let mut events = Vec::new();
    dat.unpack_with_progress(&mut events).unwrap();
    let seen: Vec<(usize, usize, u64)> =
        events.iter().map(|e| (e.entry, e.files, e.bytes)).collect();
    assert_eq!(
        seen,
        vec![(0, 0, 0), (0, 0, 16384), (0, 0, 32768), (0, 0, 40000), (0, 1, 40000)]
    );
    let image = pack(&vec![file("a.tex", &vec![7; 20_000])], Format::Pc).unwrap();
    let dat = Archive::open(&image).unwrap();
    let mut events = Vec::new();
    dat.unpack_with_progress(&mut events).unwrap();
    let seen: Vec<u64> = events.iter().map(|e| e.bytes).collect();
    assert_eq!(seen, vec![0, 8192, 16384, 20000, 20000]);
}

#[test]
fn files_that_are_put_are_stored_plain() {
    let image = pack(&mixed(), Format::Obb).unwrap();
    let dat = Archive::open(&image).unwrap();
    let old = dat.entry("levels/one/a.tex").unwrap();
    assert_eq!(old.compression, Compression::Deflate);
    let data = vec![7; 40_001];
    let puts = vec![
        file("LEVELS/ONE/A.TEX", b"first"),
        file("levels/one/a.tex", &data),
        file("new.gsc", &vec![0; 500]),
    ];
    let removals = vec!["EMPTY.tex".to_owned(), "not/there".to_owned()];
    let changed = dat.rewrite(&puts, &removals).unwrap();
    let new = Archive::open(&changed).unwrap();
    let mut names: Vec<String> = new.entries().iter().map(|e| e.path.to_uppercase()).collect();
    names.sort();
    assert_eq!(
        names,
        vec![
            "LEVELS\\ONE\\A.TEX",
            "LEVELS\\ONE\\C.TXT",
            "LEVELS\\TWO\\B.GSC",
            "NEW.GSC",
            "\u{c9}T\u{c9}.PAK",
        ]
    );
    for (path, expected) in [("levels/one/a.tex", data), ("new.gsc", vec![0; 500])] {
        let entry = new.entry(path).unwrap();
        assert_eq!(entry.compression, Compression::Plain);
        assert_eq!(entry.size as usize, expected.len());
        let at = entry.offset as usize;
        assert_eq!(changed[at..at + entry.stored_size as usize], expected);
    }
    assert_eq!(
        new.entry("levels/two/b.gsc").unwrap().compression,
        dat.entry("levels/two/b.gsc").unwrap().compression
    );
}
