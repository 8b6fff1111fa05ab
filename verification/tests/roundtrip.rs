use nudat::{
    pack, pack_with_progress, Archive, Compression, Format, NudatError, PackPhase, SourceFile,
};
use std::collections::HashSet;

fn file(path: &str, data: &[u8]) -> SourceFile {
    SourceFile {
        path: path.to_owned(),
        data: data.to_vec(),
    }
}

#[test]
fn pack_unpack_and_edit_all_wrappers() {
    for format in [Format::Pc, Format::Android, Format::Obb] {
        let input = vec![
            file("Levels/Episode_I/level.scp", b"level contents"),
            file("empty.bin", b""),
        ];
        let archive = pack(&input, format).unwrap();
        let dat = Archive::open(&archive).unwrap();
        assert_eq!(dat.entries().len(), 2);
        assert_eq!(
            dat.read("levels/episode_i/LEVEL.SCP").unwrap(),
            b"level contents"
        );
        assert_eq!(dat.read("empty.bin").unwrap(), b"");
        assert_eq!(
            dat.entry("LEVELS\\EPISODE_I\\LEVEL.SCP")
                .unwrap()
                .compression,
            Compression::Plain
        );
        dat.verify().unwrap();
        let unpacked = dat.unpack().unwrap();
        let level = unpacked
            .iter()
            .find(|file| file.path == "Levels/Episode_I/level.scp")
            .unwrap();
        assert_eq!(level.data, b"level contents");
        let edited = dat
            .rewrite(
                &vec![
                    file("Levels/Episode_I/level.scp", b"updated"),
                    file("added.bin", b""),
                ],
                &vec!["empty.bin".to_owned()],
            )
            .unwrap();
        let changed = Archive::open(&edited).unwrap();
        assert_eq!(changed.entries().len(), 2);
        assert_eq!(
            changed.read("levels/episode_i/level.scp").unwrap(),
            b"updated"
        );
        assert_eq!(changed.read("added.bin").unwrap(), b"");
        assert!(changed.entry("empty.bin").is_none());
        changed.verify().unwrap();
    }
}

#[test]
fn pc_tree_leaf_numbers_do_not_determine_payload_order() {
    let input = vec![
        file("alpha.txt", b"alpha content"),
        file("beta.txt", b"beta content"),
    ];
    let mut bytes = pack(&input, Format::Pc).unwrap();

    let index = u32::from_le_bytes(bytes[0..4].try_into().unwrap()) as usize;
    let nodes_start = index + 8 + 2 * 16 + 4;
    let count = i32::from_le_bytes(
        bytes[index + 8 + 2 * 16..index + 8 + 2 * 16 + 4]
            .try_into()
            .unwrap(),
    ) as usize;
    let leaves = (1..count)
        .map(|i| nodes_start + i * 8)
        .filter(|&at| i16::from_le_bytes(bytes[at..at + 2].try_into().unwrap()) <= 0)
        .collect::<Vec<_>>();
    assert_eq!(leaves.len(), 2);
    let first = bytes[leaves[0]..leaves[0] + 2].to_vec();
    let second = bytes[leaves[1]..leaves[1] + 2].to_vec();
    bytes[leaves[0]..leaves[0] + 2].copy_from_slice(&second);
    bytes[leaves[1]..leaves[1] + 2].copy_from_slice(&first);

    let dat = Archive::open(&bytes).unwrap();
    assert_eq!(dat.read("alpha.txt").unwrap(), b"alpha content");
    assert_eq!(dat.read("beta.txt").unwrap(), b"beta content");
}

#[test]
fn errors_distinguish_missing_entries_and_bad_indexes() {
    let mut bytes = pack(&vec![file("one.txt", b"one")], Format::Pc).unwrap();
    {
        let dat = Archive::open(&bytes).unwrap();
        assert!(matches!(
            dat.read("missing.txt"),
            Err(NudatError::MissingEntry(_))
        ));
    }
    bytes[0..4].copy_from_slice(&u32::MAX.to_le_bytes());
    assert!(matches!(
        Archive::open(&bytes),
        Err(NudatError::InvalidArchive(_))
    ));
}

#[test]
fn unpack_progress_reports_bytes_within_a_file() {
    let input = vec![
        file("large.bin", &vec![42; 128 * 1024]),
        file("small.bin", b"small"),
    ];
    let archive = pack(&input, Format::Pc).unwrap();
    let dat = Archive::open(&archive).unwrap();
    let total = dat
        .entries()
        .iter()
        .map(|entry| entry.size as u64)
        .sum::<u64>();
    let mut events = Vec::new();
    dat.unpack_with_progress(&mut events).unwrap();
    assert_eq!(events.first().unwrap().bytes, 0);
    assert_eq!(events.last().unwrap().files, 2);
    assert_eq!(events.last().unwrap().bytes, total);
    assert!(events
        .iter()
        .any(|event| event.files == 0 && event.bytes > 0 && event.bytes < total));
}

#[test]
fn parallel_pack_matches_sequential_writer_and_reports_progress() {
    let mut input = Vec::new();
    for index in 0..16 {
        input.push(file(
            &format!("file_{index:02}.bin"),
            &vec![index as u8; 64 * 1024],
        ));
    }
    input.push(file("large.bin", &vec![42; 3 * 1024 * 1024]));
    let mut events = Vec::new();
    let archive = pack_with_progress(&input, Format::Pc, &mut events).unwrap();
    let dat = Archive::open(&archive).unwrap();
    dat.verify().unwrap();
    let sequential = dat.rewrite(&vec![], &vec![]).unwrap();
    assert!(archive == sequential);

    let total_bytes = 4 * 1024 * 1024;
    assert_eq!(events.iter().map(|event| event.completed).max(), Some(17));
    assert_eq!(
        events.iter().map(|event| event.bytes).max(),
        Some(total_bytes)
    );
    assert!(events
        .iter()
        .all(|event| event.total_files == 17 && event.total_bytes == total_bytes));
    assert!(events
        .iter()
        .any(|event| event.path == "large.bin" && event.bytes > 0 && event.bytes < total_bytes));
}

#[test]
fn obb_repack_preserves_unchanged_files_and_reports_both_phases() {
    let input = vec![
        file("same.bin", &vec![b'A'; 300 * 1024]),
        file("changed.bin", b"before"),
        file("removed.bin", b"remove"),
    ];
    let base_bytes = pack(&input, Format::Obb).unwrap();
    let base = Archive::open(&base_bytes).unwrap();
    let input = vec![
        file("same.bin", &vec![b'A'; 300 * 1024]),
        file("changed.bin", b"after"),
        file("added.bin", b"added"),
    ];
    let mut events = Vec::new();
    let output = base.repack_with_progress(&input, &mut events).unwrap();
    assert!(events
        .iter()
        .all(|event| event.completed <= event.total_files));
    let dat = Archive::open(&output).unwrap();
    dat.verify().unwrap();
    assert_eq!(dat.format(), Some(Format::Obb));
    assert_eq!(dat.read("same.bin").unwrap(), vec![b'A'; 300 * 1024]);
    assert_eq!(dat.read("changed.bin").unwrap(), b"after");
    assert_eq!(dat.read("added.bin").unwrap(), b"added");
    assert!(dat.entry("removed.bin").is_none());
    let old = base.entry("same.bin").unwrap();
    let new = dat.entry("same.bin").unwrap();
    assert_eq!(old.compression, new.compression);
    assert_eq!(old.stored_size, new.stored_size);
    assert_eq!(
        &base_bytes[old.offset as usize..old.offset as usize + old.stored_size as usize],
        &output[new.offset as usize..new.offset as usize + new.stored_size as usize]
    );
    assert_eq!(
        events
            .iter()
            .map(|event| event.phase)
            .collect::<HashSet<_>>(),
        HashSet::from([PackPhase::Compare, PackPhase::Write])
    );
}

#[test]
fn pack_rejects_an_index_past_the_game_loader_limit() {
    let mut pending = Vec::new();
    for (number, name) in ["a.bin", "b.bin"].iter().enumerate() {
        pending.push(nudat::pack::collect_file(name, 1_200_000_000, number).unwrap());
    }
    let error = match nudat::writer::plan_archive(-3, 1024, &pending) {
        Ok(_) => panic!("the archive was laid out"),
        Err(error) => error,
    };
    assert!(error.message().contains("2 GiB loader limit"));
}

#[test]
fn parallel_unpack_uses_multiple_workers_and_preserves_files() {
    let expected = (0..16)
        .map(|index| {
            (
                format!("file_{index:02}.bin"),
                vec![index as u8; 64 * 1024],
            )
        })
        .collect::<Vec<_>>();
    let input = expected
        .iter()
        .map(|(name, contents)| file(name, contents))
        .collect::<Vec<_>>();
    let archive = pack(&input, Format::Pc).unwrap();
    let dat = Archive::open(&archive).unwrap();
    let mut events = Vec::new();
    let output = dat.unpack_with_progress(&mut events).unwrap();
    assert_eq!(
        events.iter().map(|event| event.files).max(),
        Some(expected.len())
    );
    assert_eq!(
        events.iter().map(|event| event.bytes).max(),
        Some(16 * 64 * 1024)
    );
    for (name, contents) in expected {
        let found = output.iter().find(|file| file.path == name).unwrap();
        assert_eq!(found.data, contents);
    }
}
