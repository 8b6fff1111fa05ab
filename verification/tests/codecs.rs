use nudat::bits::{BitWriter, Bits};
use nudat::dflt::{self, BLOCK_SIZE};
use nudat::entry::Compression;
use nudat::error::{IoFault, NudatError};
use nudat::lz2k;
use nudat::huffman::Huffman;
use nudat::lz2k::encoder::{write_literal, write_offset};
use nudat::payload::{decode_payload, take_inflated};
use nudat::{pack, Archive, Format, SourceFile};

fn frame(magic: &[u8; 4], first: u32, second: u32, block: &[u8]) -> Vec<u8> {
    let mut out = magic.to_vec();
    out.extend_from_slice(&first.to_le_bytes());
    out.extend_from_slice(&second.to_le_bytes());
    out.extend_from_slice(block);
    out
}

fn decode(compression: Compression, stored: &[u8], size: u32) -> Result<Vec<u8>, NudatError> {
    let mut out = Vec::new();
    let n = decode_payload(compression, stored, size, &mut out)?;
    assert_eq!(n, out.len() as u64);
    Ok(out)
}

fn message(result: Result<Vec<u8>, NudatError>) -> String {
    result.unwrap_err().message()
}

#[test]
fn fixed_huffman_blocks_are_decoded() {
    // Forty times the letter a, as one final block with fixed codes.
    let stream = [0x4b, 0x4c, 0x24, 0x0e, 0x00, 0x00];
    let stored = frame(b"DFLT", stream.len() as u32, 40, &stream);
    assert_eq!(
        decode(Compression::Deflate, &stored, 40).unwrap(),
        vec![b'a'; 40]
    );
}

#[test]
fn dynamic_blocks_carry_the_swapped_tag() {
    let stream: [u8; 86] = [
        181, 142, 219, 13, 128, 32, 16, 4, 91, 217, 10, 108, 192, 106, 68, 65, 78, 133, 19, 228,
        33, 84, 239, 197, 30, 248, 220, 204, 108, 50, 201, 106, 132, 76, 235, 9, 21, 185, 122, 24,
        126, 113, 100, 119, 63, 224, 162, 35, 146, 224, 107, 233, 13, 27, 239, 243, 191, 198, 200,
        247, 34, 158, 107, 80, 34, 85, 74, 22, 134, 138, 22, 212, 181, 199, 69, 33, 115, 148, 239,
        254, 76, 3, 19, 198, 244, 126,
    ];
    let once = format!(
        "{}{}",
        "the quick brown fox jumps over the lazy dog; ".repeat(3),
        "pack my box with five dozen liquor jugs. "
    );
    let text = once.repeat(2).into_bytes();
    let mut swapped = stream.to_vec();
    swapped[0] &= !4;
    let stored = frame(b"DFLT", 86, 352, &swapped);
    assert_eq!(decode(Compression::Deflate, &stored, 352).unwrap(), text);
    let plain = frame(b"DFLT", 86, 352, &stream);
    assert_eq!(decode(Compression::Deflate, &plain, 352).unwrap(), text);
}

#[test]
fn damaged_streams_are_told_apart() {
    let cut = frame(b"DFLT", 3, 40, &[0x4b, 0x4c, 0x24]);
    assert!(matches!(
        decode(Compression::Deflate, &cut, 40),
        Err(NudatError::Io(IoFault::IncompleteStream))
    ));
    let reserved = frame(b"DFLT", 2, 40, &[0x07, 0x00]);
    assert!(matches!(
        decode(Compression::Deflate, &reserved, 40),
        Err(NudatError::Io(IoFault::CorruptStream))
    ));
    assert_eq!(
        message(decode(Compression::Deflate, &cut, 40)),
        "I/O error: incomplete deflate stream"
    );
    assert_eq!(
        message(decode(Compression::Deflate, &reserved, 40)),
        "I/O error: corrupt deflate stream"
    );
    let short = frame(b"DFLT", 6, 39, &[0x4b, 0x4c, 0x24, 0x0e, 0x00, 0x00]);
    assert_eq!(
        message(decode(Compression::Deflate, &short, 39)),
        "invalid DAT archive: compressed block decoded size mismatch"
    );
}

#[test]
fn bad_payloads_are_refused() {
    assert_eq!(
        message(decode(Compression::Plain, b"abc", 4)),
        "invalid DAT archive: uncompressed size mismatch"
    );
    assert_eq!(
        message(decode(Compression::Lz2k, &[0; 11], 4)),
        "invalid DAT archive: truncated compressed block header"
    );
    assert_eq!(
        message(decode(Compression::Lz2k, &frame(b"DFLT", 1, 1, b"x"), 1)),
        "invalid DAT archive: invalid LZ2K block magic"
    );
    assert_eq!(
        message(decode(Compression::Deflate, &frame(b"LZ2K", 1, 1, b"x"), 1)),
        "invalid DAT archive: invalid DFLT block magic"
    );
    assert_eq!(
        message(decode(Compression::Deflate, &frame(b"DFLT", 2, 1, b"x"), 1)),
        "invalid DAT archive: compressed block exceeds entry"
    );
    assert_eq!(
        message(decode(Compression::Deflate, &frame(b"DFLT", 0, 1, b""), 1)),
        "invalid DAT archive: empty compressed block"
    );
    assert_eq!(
        message(decode(Compression::Deflate, &frame(b"DFLT", 1, 2, b"x"), 1)),
        "invalid DAT archive: decoded entry exceeds declared size"
    );
    assert_eq!(
        message(decode(Compression::Deflate, &frame(b"DFLT", 1, 1, b"x"), 2)),
        "invalid DAT archive: decoded entry size mismatch"
    );
    assert_eq!(
        message(decode(Compression::Lz2k, &frame(b"LZ2K", 4, 1, b"\0"), 4)),
        "invalid DAT archive: truncated LZ2K block"
    );
}

#[test]
fn what_was_decoded_before_an_error_stays() {
    let mut stored = frame(b"DFLT", 3, 3, b"abc");
    stored.extend_from_slice(b"junk");
    let mut out = b"x".to_vec();
    assert!(decode_payload(Compression::Deflate, &stored, 9, &mut out).is_err());
    assert_eq!(out, b"xabc");
}

#[test]
fn several_blocks_are_joined() {
    let mut stored = frame(b"LZ2K", 3, 3, b"abc");
    stored.extend_from_slice(&frame(b"LZ2K", 0, 0, b""));
    stored.extend_from_slice(&frame(b"LZ2K", 2, 2, b"de"));
    assert_eq!(decode(Compression::Lz2k, &stored, 5).unwrap(), b"abcde");
    assert_eq!(decode(Compression::Lz2k, b"", 0).unwrap(), b"");
}

#[test]
fn lz2k_blocks_are_read_back() {
    let input: Vec<u8> = (0..5000u32).map(|i| (i / 7 % 50) as u8).collect();
    let packed = lz2k::encoder::encode_block(&input);
    assert!(packed.len() < input.len());
    assert_eq!(lz2k::decode(&packed, input.len()).unwrap(), input);
    let stored = frame(b"LZ2K", input.len() as u32, packed.len() as u32, &packed);
    assert_eq!(
        decode(Compression::Lz2k, &stored, input.len() as u32).unwrap(),
        input
    );
}

#[test]
fn chunks_that_do_not_shrink_stay_as_they_are() {
    let noise: Vec<u8> = (0..600u32)
        .map(|i| (i.wrapping_mul(2_654_435_761) >> 13) as u8)
        .collect();
    assert_eq!(dflt::encode_block(&noise[..3]), &noise[..3]);
    let even = vec![7u8; 4096];
    let block = dflt::encode_block(&even);
    assert!(block.len() < even.len());
    assert_eq!(block[0] & 7, 3);
    assert_eq!(dflt::decode_block(&block, 4096).unwrap(), even);
    assert_eq!(
        dflt::choose_block(1, 4096, vec![0x05, 0x00], &even),
        even
    );
    assert_eq!(dflt::choose_block(0, 4096, vec![0x03], &even), even);
    assert_eq!(dflt::choose_block(1, 4095, vec![0x03], &even), even);
    assert_eq!(dflt::choose_block(1, 4096, vec![], &even), even);
    assert_eq!(dflt::choose_block(1, 4096, vec![0x03], &even), vec![0x03]);
}

#[test]
fn android_archives_hold_assets_compressed() {
    let data: Vec<u8> = (0..3 * BLOCK_SIZE as u32 + 5).map(|i| (i / 100) as u8).collect();
    let input = vec![
        SourceFile {
            path: "stuff/wall.TEX".to_owned(),
            data: data.clone(),
        },
        SourceFile {
            path: "stuff/notes.txt".to_owned(),
            data: data.clone(),
        },
        SourceFile {
            path: "stuff/empty.tex".to_owned(),
            data: Vec::new(),
        },
    ];
    for format in [Format::Android, Format::Obb] {
        let image = pack(&input, format).unwrap();
        let dat = Archive::open(&image).unwrap();
        let wall = dat.entry("stuff\\wall.tex").unwrap();
        assert_eq!(wall.compression, Compression::Deflate);
        assert!(wall.stored_size < wall.size);
        assert_eq!(dat.read("stuff\\wall.tex").unwrap(), data);
        let notes = dat.entry("stuff\\notes.txt").unwrap();
        assert_eq!(notes.compression, Compression::Plain);
        assert_eq!(dat.read("stuff\\notes.txt").unwrap(), data);
        assert_eq!(
            dat.entry("stuff\\empty.tex").unwrap().compression,
            Compression::Plain
        );
        dat.verify().unwrap();
    }
    let image = pack(&input, Format::Pc).unwrap();
    let dat = Archive::open(&image).unwrap();
    assert_eq!(
        dat.entry("stuff\\wall.tex").unwrap().compression,
        Compression::Plain
    );
}

#[test]
fn extensions_decide_what_is_compressed() {
    for path in ["a.tex", "A\\B.GSC", "x.y.pak", "q\\.ios_pcode", "a.android_etc1_tex"] {
        assert!(dflt::should_compress(path), "{path}");
    }
    for path in ["tex", "a.tex\\b", "a.txt", "a.tex ", ""] {
        assert!(!dflt::should_compress(path), "{path}");
    }
    assert!(lz2k::encoder::should_compress("a\\b.DDS"));
    assert!(!lz2k::encoder::should_compress("a\\b.tex"));
    assert!(!lz2k::encoder::should_compress("dds"));
}

#[test]
fn what_a_stream_decoded_to_is_checked() {
    assert_eq!(take_inflated(Ok(vec![1, 2, 3]), 3).unwrap(), vec![1, 2, 3]);
    assert_eq!(
        message(take_inflated(Ok(vec![1, 2]), 3)),
        "invalid DAT archive: compressed block decoded size mismatch"
    );
    assert_eq!(
        message(take_inflated(Err(true), 3)),
        "I/O error: incomplete deflate stream"
    );
    assert_eq!(
        message(take_inflated(Err(false), 3)),
        "I/O error: corrupt deflate stream"
    );
}

#[test]
fn bytes_behind_an_lz2k_chunk_are_ignored() {
    let input: Vec<u8> = (0..2000u32).map(|i| (i * i % 11) as u8).collect();
    let block = nudat::lz2k::encoder::encode_block(&input);
    assert!(block.len() < input.len());
    let mut longer = block.clone();
    longer.extend_from_slice(b"anything at all");
    assert_eq!(nudat::lz2k::decode(&longer, input.len()).unwrap(), input);
    let first = (1..input.len()).filter_map(|m| nudat::lz2k::decode(&longer, m).ok());
    let mut seen = 0;
    for part in first {
        assert_eq!(part, input[..part.len()]);
        seen += 1;
    }
    assert!(seen > 0);
}

#[test]
fn what_is_written_is_read_back_where_it_was_written() {
    let mut lengths = vec![8u8; 2];
    lengths.extend_from_slice(&[9; 508]);
    let literals = Huffman::new(&lengths).unwrap();
    let mut lengths = vec![3u8; 2];
    lengths.extend_from_slice(&[4; 12]);
    let offsets = Huffman::new(&lengths).unwrap();
    let mut writer = BitWriter::new(0);
    writer.put(5, 3);
    for symbol in [0u32, 1, 2, 255, 256, 509] {
        let pos = writer.bits;
        write_literal(&mut writer, symbol);
        assert_eq!(writer.bits - pos, if symbol < 2 { 8 } else { 9 });
        let mut bits = Bits { data: &writer.bytes, pos: pos as u64 };
        assert_eq!(literals.decode(&mut bits).unwrap() as u32, symbol);
        assert_eq!(bits.pos, writer.bits as u64);
    }
    for code in [0u32, 1, 2, 13] {
        let pos = writer.bits;
        write_offset(&mut writer, code);
        assert_eq!(writer.bits - pos, if code < 2 { 3 } else { 4 });
        let mut bits = Bits { data: &writer.bytes, pos: pos as u64 };
        assert_eq!(offsets.decode(&mut bits).unwrap() as u32, code);
        assert_eq!(bits.pos, writer.bits as u64);
    }
    let pos = writer.bits;
    writer.put(0x1abc, 13);
    let mut bits = Bits { data: &writer.bytes, pos: pos as u64 };
    assert_eq!(bits.get(13).unwrap(), 0x1abc);
    assert_eq!(writer.bytes.len(), (writer.bits + 7) / 8);
    let mut bits = Bits { data: &writer.bytes, pos: 0 };
    assert_eq!(bits.get(3).unwrap(), 5);
}
