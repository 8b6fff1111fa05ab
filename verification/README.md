# nudat

A verified Rust library for the archives of Traveller's Tales' Nu engine, with a command-line
tool around it. It reads, unpacks, checks, edits and writes PC `.DAT`, Android `.dat` and Android
`.obb` files.

The library under `src/` is written and proved in Verus. It works on bytes in memory, and on the
parts of an archive that the tool under `app/` reads from disk, so that the tool can stream large
archives. `app/` holds what touches files, threads and the terminal, and nothing else.

## Modules

| Module | What it does |
| --- | --- |
| `archive` | an opened archive: looking up, reading and checking entries |
| `index`, `walk` | reading an index and the directory tree in it |
| `payload`, `lz2k`, `dflt`, `huffman`, `bits` | decoding payloads, and encoding LZ2K and DFLT blocks |
| `pack`, `edit`, `unpack` | packing files, changing an archive, unpacking all files |
| `writer`, `tree`, `order`, `pending` | laying out and writing an archive |
| `progress`, `transfer` | reports on packing and unpacking, and what is shown of them |
| `listing`, `outline`, `size`, `cli` | what the command line prints and asks for |
| `text`, `bytes`, `entry`, `error` | paths, numbers, entries and errors |
| `laws` | what holds between writing and reading |

## What is proved

Every function has an exact contract: which bytes or which error it returns, for every input. On
top of that `laws` and `lz2k::roundtrip` prove, among other things:

- what is packed can be opened, passes verification, and every file is read back under its path,
  in any case and with slashes or backslashes;
- packing what was unpacked, rebuilding an archive from what was unpacked, and rewriting it without
  a change all give the same bytes;
- editing and rebuilding keep the wrapper and every untouched payload byte for byte, store what is
  put as it is, and change no other name;
- no path of an opened archive leads out of the directory that it is unpacked to;
- an LZ2K block decodes to what was encoded, whatever stands behind it;
- a listing names every selected entry once.

The laws on reading back leave out archives whose tree has one node more than a reader takes, and
those whose name table is longer than a 32-bit number can tell. A written archive that opens is
never one of these.

## What is not proved

`dflt` calls `miniz_oxide` and `flate2`. That their streams depend on their arguments alone, and
that the second reads back what the first wrote, is taken from them; so is what
`std::str::from_utf8` accepts. The contracts stand beside the calls.
