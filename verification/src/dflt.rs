//! Nu's DFLT wrapper around raw DEFLATE streams.
//!
//! The game's decoder accepts fixed Huffman blocks (DEFLATE type 1), but its
//! dynamic-tree reader is not compatible with every standards-compliant encoder.
//! Each decoded chunk is small enough for a single final block, and a chunk is kept
//! verbatim whenever the encoder chooses another block type.

use crate::bytes::{append, le32, push_u32};
use crate::text::{extension_in, has_extension, texts};
use std::io::Read;
use vstd::prelude::*;
use vstd::utf8::encode_utf8;

verus! {

pub const BLOCK_SIZE: usize = 0x4000;

/// The strategy for which `create_comp_flags_from_zip_params` forces fixed Huffman blocks.
pub const FIXED_STRATEGY: i32 = 4;

/// The status with which `compress_to_output` ends a stream.
pub const DONE: i32 = 1;

/// Extensions of the asset types that Android archives hold compressed. Text, scripts, audio
/// and other streamed files stay uncompressed even where they would shrink.
pub open spec fn extensions() -> Seq<Seq<char>> {
    seq![
        "android_etc1_tex"@,
        "bsa"@,
        "cu2"@,
        "etc1"@,
        "fpk"@,
        "ghg"@,
        "gsc"@,
        "ios_pcode"@,
        "ios_vcode"@,
        "pak"@,
        "pvrnc"@,
        "ter"@,
        "tex"@,
    ]
}

/// Whether the file is of a type that Android archives hold compressed.
pub fn should_compress(path: &str) -> (res: bool)
    ensures
        res == has_extension(encode_utf8(path@), extensions()),
{
    let known: [&str; 13] = [
        "android_etc1_tex",
        "bsa",
        "cu2",
        "etc1",
        "fpk",
        "ghg",
        "gsc",
        "ios_pcode",
        "ios_vcode",
        "pak",
        "pvrnc",
        "ter",
        "tex",
    ];
    assert(texts(known@) =~= extensions());
    extension_in(path, known.as_slice())
}

/// How many matches the compressor tries at a level.
pub open spec fn probes(level: int) -> u32 {
    if level < 0 {
        128
    } else if level == 0 {
        0
    } else if level == 1 {
        1
    } else if level == 2 {
        6
    } else if level == 3 {
        32
    } else if level == 4 {
        16
    } else if level == 5 {
        32
    } else if level == 6 {
        128
    } else if level == 7 {
        256
    } else if level == 8 {
        512
    } else if level == 9 {
        768
    } else {
        1500
    }
}

/// The compressor's flags for zlib's level, window and strategy.
pub open spec fn zip_flags(level: i32, window_bits: i32, strategy: i32) -> u32 {
    let greedy: u32 = if level <= 3 {
        0x4000
    } else {
        0
    };
    let header: u32 = if window_bits > 0 {
        0x1000
    } else {
        0
    };
    let flags = probes(level as int) | greedy | header;
    if level == 0 {
        flags | 0x8_0000
    } else if strategy == 1 {
        flags | 0x2_0000
    } else if strategy == 2 {
        flags & !0xfffu32
    } else if strategy == FIXED_STRATEGY {
        flags | 0x4_0000
    } else if strategy == 3 {
        flags | 0x1_0000
    } else {
        flags
    }
}

/// `miniz_oxide::deflate::core::create_comp_flags_from_zip_params` joins the number of probes
/// for the level with the bits for greedy parsing, a zlib header and the strategy.
pub assume_specification[ miniz_oxide::deflate::core::create_comp_flags_from_zip_params ](
    level: i32,
    window_bits: i32,
    strategy: i32,
) -> (res: u32)
    ensures
        res == zip_flags(level, window_bits, strategy),
;

/// The flags for level 6, a raw stream and fixed Huffman blocks.
pub open spec fn block_flags() -> u32 {
    zip_flags(6, 0, FIXED_STRATEGY)
}

/// The bytes of a decoded stream; where decoding fails, whether the stream ended too early.
pub type Inflated = core::result::Result<Seq<u8>, bool>;

/// What the compressor makes of a whole input: its status, the bytes taken and the stream.
pub uninterp spec fn deflated(flags: u32, input: Seq<u8>) -> (int, nat, Seq<u8>);

/// What the decompressor reads from a stream, up to a limit.
pub uninterp spec fn inflated(data: Seq<u8>, limit: nat) -> Inflated;

/// `miniz_oxide::deflate::core::compress_to_output`, called once on the whole input with
/// `TDEFLFlush::Finish`: the status as a number, the count of the bytes taken and the joined
/// output. The outcome depends on the flags and the input alone. A stream made with the flags
/// for fixed Huffman blocks, ended and with all of the input taken, is a raw DEFLATE stream of
/// the input, which `flate2::read::DeflateDecoder` reads back. Which bytes a stream has is not
/// stated.
#[verifier::external_body]
fn deflate(flags: u32, input: &[u8]) -> (res: (i32, usize, Vec<u8>))
    ensures
        (res.0 as int, res.1 as nat, res.2@) == deflated(flags, input@),
        flags == block_flags() && res.0 == DONE && res.1 == input@.len() ==> inflated(
            res.2@,
            (input@.len() + 1) as nat,
        ) == Inflated::Ok(input@),
{
    let mut compressor = miniz_oxide::deflate::core::CompressorOxide::new(flags);
    let mut encoded: Vec<u8> = Vec::new();
    let (status, consumed) = miniz_oxide::deflate::core::compress_to_output(
        &mut compressor,
        input,
        miniz_oxide::deflate::core::TDEFLFlush::Finish,
        |part| append(&mut encoded, part),
    );
    (status as i32, consumed, encoded)
}

/// `flate2::read::DeflateDecoder`, read to its end or to a limit. The outcome depends on the
/// stream and the limit alone, and no more than the limit is read. An error of the kind
/// `UnexpectedEof` is one of a stream that ended too early. Which bytes come out is not stated.
#[verifier::external_body]
fn inflate(data: &[u8], limit: u64) -> (res: core::result::Result<Vec<u8>, bool>)
    ensures
        match res {
            Ok(out) => inflated(data@, limit as nat) == Inflated::Ok(out@) && out@.len() <= limit,
            Err(early) => inflated(data@, limit as nat)
                == Inflated::Err(early),
        },
{
    let mut out: Vec<u8> = Vec::new();
    match flate2::read::DeflateDecoder::new(data).take(limit).read_to_end(&mut out) {
        Ok(_) => Ok(out),
        Err(error) => Err(error.kind() == std::io::ErrorKind::UnexpectedEof),
    }
}

/// The stream is one final block with fixed Huffman codes that takes all of the input and is
/// shorter than it.
pub open spec fn usable(status: int, consumed: nat, encoded: Seq<u8>, input: Seq<u8>) -> bool {
    &&& status == DONE
    &&& consumed == input.len()
    &&& encoded.len() > 0
    &&& encoded[0] & 7 == 3
    &&& encoded.len() < input.len()
}

/// The bytes that stand for a chunk: the compressor's stream where it is usable, else the chunk.
pub open spec fn block_of(input: Seq<u8>) -> Seq<u8> {
    let (status, consumed, encoded) = deflated(block_flags(), input);
    if usable(status, consumed, encoded, input) {
        encoded
    } else {
        input
    }
}

/// Takes the compressor's stream where it is usable, else the chunk itself.
pub fn choose_block(status: i32, consumed: usize, encoded: Vec<u8>, input: &[u8]) -> (res: Vec<u8>)
    ensures
        res@ == (if usable(status as int, consumed as nat, encoded@, input@) {
            encoded@
        } else {
            input@
        }),
{
    if status == DONE && consumed == input.len() && encoded.len() > 0 && encoded[0] & 7 == 3
        && encoded.len() < input.len() {
        encoded
    } else {
        vstd::slice::slice_to_vec(input)
    }
}

/// Encodes one chunk.
pub fn encode_block(input: &[u8]) -> (res: Vec<u8>)
    ensures
        res@ == block_of(input@),
        readable(res@, input@),
{
    let flags: u32 = miniz_oxide::deflate::core::create_comp_flags_from_zip_params(
        6,
        0,
        FIXED_STRATEGY,
    );
    let (status, consumed, encoded) = deflate(flags, input);
    proof {
        if encoded@.len() > 0 {
            let first: u8 = encoded@[0];
            assert(first & 7 == 3 ==> first & 6 != 0) by (bit_vector);
        }
    }
    choose_block(status, consumed, encoded, input)
}

/// A stream with Nu's tag for dynamic blocks turned into DEFLATE's: the two tags of dynamic and
/// stored blocks are swapped, and game files use one final dynamic block.
pub open spec fn retagged(data: Seq<u8>) -> Seq<u8> {
    if data.len() > 0 && data[0] & 6 == 0 {
        data.update(0, data[0] | 4)
    } else {
        data
    }
}

/// What a block decodes to where the header claims `decoded` bytes.
pub open spec fn unblocked(data: Seq<u8>, decoded: nat) -> Inflated {
    inflated(retagged(data), (decoded + 1) as nat)
}

/// The block stands for the chunk: it is the chunk, or a shorter stream that decodes to it.
pub open spec fn readable(block: Seq<u8>, input: Seq<u8>) -> bool {
    ||| block == input
    ||| block.len() < input.len() && block.len() > 0 && unblocked(block, input.len())
        == Inflated::Ok(input)
}

/// Decodes a block whose header claims `decoded` bytes, reading at most one byte more.
pub fn decode_block(data: &[u8], decoded: u32) -> (res: core::result::Result<Vec<u8>, bool>)
    ensures
        match res {
            Ok(out) => unblocked(data@, decoded as nat) == Inflated::Ok(out@),
            Err(early) => unblocked(data@, decoded as nat) == Inflated::Err(early),
        },
{
    let limit: u64 = decoded as u64 + 1;
    if data.len() > 0 && data[0] & 6 == 0 {
        let mut copy: Vec<u8> = vstd::slice::slice_to_vec(data);
        copy.set(0, data[0] | 4);
        inflate(copy.as_slice(), limit)
    } else {
        inflate(data, limit)
    }
}

/// A block behind its header.
pub open spec fn framed(block: Seq<u8>, decoded: int) -> Seq<u8> {
    seq![0x44u8, 0x46, 0x4c, 0x54] + le32(block.len() as int) + le32(decoded) + block
}

/// The length of the chunk that starts at a position.
pub open spec fn chunk_len(input: Seq<u8>, from: int) -> int {
    if input.len() - from < BLOCK_SIZE {
        input.len() - from
    } else {
        BLOCK_SIZE as int
    }
}

/// The encoded chunks of a file from a position on.
pub open spec fn encoded_from(input: Seq<u8>, from: int) -> Seq<u8>
    decreases input.len() - from,
{
    if from < 0 || from >= input.len() {
        Seq::empty()
    } else {
        let n = chunk_len(input, from);
        framed(block_of(input.subrange(from, from + n)), n) + encoded_from(input, from + n)
    }
}

/// Appends the header and the block of one chunk.
pub fn encode_chunk(out: &mut Vec<u8>, chunk: &[u8])
    requires
        chunk@.len() <= BLOCK_SIZE,
    ensures
        final(out)@ == old(out)@ + framed(block_of(chunk@), chunk@.len() as int),
        block_of(chunk@).len() <= chunk@.len(),
        readable(block_of(chunk@), chunk@),
{
    let block: Vec<u8> = encode_block(chunk);
    out.push(0x44);
    out.push(0x46);
    out.push(0x4c);
    out.push(0x54);
    push_u32(out, block.len() as u32);
    push_u32(out, chunk.len() as u32);
    append(out, block.as_slice());
    assert(out@ =~= old(out)@ + framed(block@, chunk@.len() as int));
}

} // verus!
