//! Opened archives.

use crate::entry::{detect_format, format_of, Entry, EntryView, Format};
use crate::error::{fails, input, ErrorView, NudatError, Result};
use crate::index::{
    by_hash, entry_views, find_index, index_of, index_start, lemma_index_sound, parse_index, Parsed,
    MAX_PREFIX,
};
use crate::payload::{decode_marked, decode_payload, decoded_to, payload_bytes, payload_marks};
use crate::pending::{pending_views, Pending};
use crate::text::{eq_ignore_case, normalize, normalized, same_name, views};
use crate::writer::{all_at_hand, write_archive, written};
use vstd::prelude::*;
use vstd::utf8::encode_utf8;

verus! {

/// Entries up to this size are read as a whole.
pub const MAX_READ: u32 = 0x2000_0000;

/// What an archive holds, and its bytes.
pub ghost struct ArchiveView {
    pub image: Seq<u8>,
    pub version: int,
    pub prefix: Seq<u8>,
    pub entries: Seq<EntryView>,
}

/// What the bytes of an archive hold.
pub open spec fn opened(image: Seq<u8>) -> core::result::Result<ArchiveView, ErrorView> {
    match index_start(image.len() as int, image) {
        Err(e) => Err(e),
        Ok(index) => match index_of(image.subrange(index, image.len() as int), index) {
            Err(e) => Err(e),
            Ok(view) => Ok(
                ArchiveView {
                    image,
                    version: view.version,
                    prefix: image.subrange(0, view.prefix_len),
                    entries: view.entries,
                },
            ),
        },
    }
}

/// The first entry from the `i`th on with this path, in any case.
pub open spec fn entry_from(entries: Seq<EntryView>, key: Seq<u8>, i: int) -> Option<int>
    decreases entries.len() - i,
{
    if i >= entries.len() {
        None
    } else if same_name(entries[i].path, key) {
        Some(i)
    } else {
        entry_from(entries, key, i + 1)
    }
}

pub proof fn lemma_entry_from(entries: Seq<EntryView>, key: Seq<u8>, i: int)
    requires
        0 <= i,
    ensures
        match entry_from(entries, key, i) {
            Some(k) => i <= k < entries.len() && same_name(entries[k].path, key),
            None => forall|k: int|
                i <= k < entries.len() ==> !same_name(#[trigger] entries[k].path, key),
        },
    decreases entries.len() - i,
{
    if i < entries.len() && !same_name(entries[i].path, key) {
        lemma_entry_from(entries, key, i + 1);
    }
}

/// The number of the entry with a path as a user writes it.
pub open spec fn entry_number(entries: Seq<EntryView>, path: Seq<u8>) -> Option<int> {
    match normalized(path) {
        Err(_) => None,
        Ok(key) => entry_from(entries, key, 0),
    }
}

/// The stored bytes of an entry.
pub open spec fn stored_bytes(image: Seq<u8>, entry: EntryView) -> Seq<u8> {
    image.subrange(entry.offset, entry.offset + entry.stored_size)
}

/// What decoding an entry gives, and the error that stops it, if one does.
pub open spec fn entry_bytes(image: Seq<u8>, entry: EntryView) -> (Seq<u8>, Option<ErrorView>) {
    payload_bytes(entry.compression, stored_bytes(image, entry), entry.size)
}

/// The lengths that the output reaches, write by write, as an entry is decoded.
pub open spec fn entry_marks(image: Seq<u8>, entry: EntryView) -> Seq<u64> {
    payload_marks(entry.compression, stored_bytes(image, entry), entry.size)
}

/// What decoding an entry gives, or the error that stops it.
pub open spec fn entry_result(image: Seq<u8>, entry: EntryView) -> core::result::Result<
    Seq<u8>,
    ErrorView,
> {
    match entry_bytes(image, entry).1 {
        None => Ok(entry_bytes(image, entry).0),
        Some(e) => Err(e),
    }
}

impl ArchiveView {
    /// What reading a path gives.
    pub open spec fn contents(self, path: Seq<char>) -> core::result::Result<Seq<u8>, ErrorView> {
        match entry_number(self.entries, encode_utf8(path)) {
            None => Err(ErrorView::MissingEntry(path)),
            Some(i) => entry_result(self.image, self.entries[i]),
        }
    }

    /// The payloads lie within the bytes, behind a wrapper of a fitting length.
    pub open spec fn sound(self) -> bool {
        &&& self.version == -3 || self.version == -5
        &&& 8 <= self.prefix.len() <= MAX_PREFIX
        &&& self.entries.len() <= i32::MAX
        &&& by_hash(self.entries)
        &&& forall|i: int|
            0 <= i < self.entries.len() ==> in_image(#[trigger] self.entries[i], self.image)
    }
}

/// The payload lies within the bytes.
pub open spec fn in_image(entry: EntryView, image: Seq<u8>) -> bool {
    &&& 0 <= entry.offset
    &&& 0 <= entry.stored_size <= i32::MAX
    &&& 0 <= entry.size <= i32::MAX
    &&& entry.offset + entry.stored_size <= image.len()
    &&& entry.offset <= u32::MAX
}

/// What is opened is sound.
pub proof fn lemma_opened_sound(image: Seq<u8>)
    requires
        opened(image) is Ok,
    ensures
        opened(image)->Ok_0.sound(),
{
    let index = index_start(image.len() as int, image)->Ok_0;
    let tail = image.subrange(index, image.len() as int);
    lemma_index_sound(tail, index);
    let view = index_of(tail, index)->Ok_0;
    assert forall|i: int| 0 <= i < view.entries.len() implies in_image(
        #[trigger] view.entries[i],
        image,
    ) by {
        assert(crate::index::entry_in_front(view.entries[i], index));
    }
}

/// The number of the first entry with this path, in any case.
pub fn find_entry(entries: &Vec<Entry>, path: &str) -> (res: Option<usize>)
    ensures
        match entry_number(entry_views(entries@), encode_utf8(path@)) {
            Some(i) => res matches Some(found) && found == i && found < entries@.len(),
            None => res is None,
        },
{
    let ghost all = entry_views(entries@);
    let key: String = match normalize(path) {
        Err(_) => {
            return None;
        },
        Ok(key) => key,
    };
    let ghost bytes = encode_utf8(key@);
    let mut i: usize = 0;
    while i < entries.len()
        invariant
            i <= entries@.len(),
            all == entry_views(entries@),
            bytes == encode_utf8(key@),
            entry_number(all, encode_utf8(path@)) == entry_from(all, bytes, 0),
            entry_from(all, bytes, 0) == entry_from(all, bytes, i as int),
        decreases entries@.len() - i,
    {
        assert(all[i as int] == entries@[i as int]@);
        if eq_ignore_case(entries[i].path.as_str().as_bytes(), key.as_str().as_bytes()) {
            return Some(i);
        }
        i = i + 1;
    }
    None
}

/// An opened archive.
pub struct Archive<'a> {
    image: &'a [u8],
    version: i32,
    prefix: Vec<u8>,
    entries: Vec<Entry>,
}

impl<'a> View for Archive<'a> {
    type V = ArchiveView;

    closed spec fn view(&self) -> ArchiveView {
        ArchiveView {
            image: self.image@,
            version: self.version as int,
            prefix: self.prefix@,
            entries: entry_views(self.entries@),
        }
    }
}

impl<'a> Archive<'a> {
    #[verifier::type_invariant]
    spec fn inv(self) -> bool {
        self@.sound()
    }

    pub(crate) fn entry_list(&self) -> (res: &Vec<Entry>)
        ensures
            entry_views(res@) == self@.entries,
            self@.sound(),
    {
        proof {
            use_type_invariant(self);
        }
        &self.entries
    }

    /// Writes an archive of these files in the wrapper of this one.
    pub(crate) fn write_with(&self, items: &Vec<Pending>, files: &Vec<Vec<u8>>) -> (res: Result<
        Vec<u8>,
    >)
        requires
            all_at_hand(pending_views(items@), self@.image, views(files@)),
        ensures
            match written(
                self@.version,
                self@.prefix,
                pending_views(items@),
                self@.image,
                views(files@),
            ) {
                Ok(image) => res matches Ok(found) && found@ == image,
                Err(e) => fails(res, e),
            },
    {
        proof {
            use_type_invariant(self);
        }
        write_archive(self.version, self.prefix.as_slice(), items, self.image, files)
    }

    /// Opens the archive with these bytes.
    pub fn open(image: &'a [u8]) -> (res: Result<Archive<'a>>)
        ensures
            match opened(image@) {
                Ok(view) => res matches Ok(archive) && archive@ == view,
                Err(e) => fails(res, e),
            },
    {
        let index: u64 = match find_index(image.len() as u64, image) {
            Err(e) => {
                return Err(e);
            },
            Ok(index) => index,
        };
        let tail: &[u8] = vstd::slice::slice_subrange(image, index as usize, image.len());
        let parsed: Parsed = match parse_index(tail, index) {
            Err(e) => {
                return Err(e);
            },
            Ok(parsed) => parsed,
        };
        proof {
            lemma_index_sound(tail@, index as int);
            lemma_opened_sound(image@);
        }
        let prefix: Vec<u8> = vstd::slice::slice_to_vec(
            vstd::slice::slice_subrange(image, 0, parsed.prefix_len),
        );
        Ok(Archive { image, version: parsed.version, prefix, entries: parsed.entries })
    }

    pub fn version(&self) -> (res: i32)
        ensures
            res == self@.version,
    {
        self.version
    }

    /// The format whose marker the wrapper holds.
    pub fn format(&self) -> (res: Option<Format>)
        ensures
            res == format_of(self@.prefix),
    {
        detect_format(self.prefix.as_slice())
    }

    pub fn entries(&self) -> (res: &[Entry])
        ensures
            entry_views(res@) == self@.entries,
    {
        self.entries.as_slice()
    }

    /// The entry with this path, in any case.
    pub fn entry(&self, path: &str) -> (res: Option<&Entry>)
        ensures
            match entry_number(self@.entries, encode_utf8(path@)) {
                Some(i) => res matches Some(entry) && entry@ == self@.entries[i],
                None => res is None,
            },
    {
        match find_entry(&self.entries, path) {
            None => None,
            Some(i) => Some(&self.entries[i]),
        }
    }

    /// The stored bytes of an entry.
    fn stored(&self, i: usize) -> (res: &[u8])
        requires
            i < self@.entries.len(),
        ensures
            res@ == stored_bytes(self@.image, self@.entries[i as int]),
            res@.len() <= i32::MAX,
    {
        proof {
            use_type_invariant(self);
            assert(in_image(self@.entries[i as int], self@.image));
        }
        let entry: &Entry = &self.entries[i];
        let len: usize = self.image.len();
        assert(entry.offset + entry.stored_size <= len);
        let start: usize = entry.offset as usize;
        let end: usize = start + entry.stored_size as usize;
        vstd::slice::slice_subrange(self.image, start, end)
    }

    /// Appends one decoded entry to a buffer.
    pub(crate) fn copy_entry_to(&self, i: usize, writer: &mut Vec<u8>) -> (res: Result<u64>)
        requires
            i < self@.entries.len(),
        ensures
            decoded_to(
                res,
                old(writer)@,
                final(writer)@,
                entry_bytes(self@.image, self@.entries[i as int]),
            ),
    {
        let entry: &Entry = &self.entries[i];
        decode_payload(entry.compression, self.stored(i), entry.size, writer)
    }

    /// Appends one decoded entry to a buffer, and to `marks` the lengths that the output reaches.
    pub(crate) fn copy_entry_marked(
        &self,
        i: usize,
        writer: &mut Vec<u8>,
        marks: &mut Vec<u64>,
    ) -> (res: Result<u64>)
        requires
            i < self@.entries.len(),
        ensures
            decoded_to(
                res,
                old(writer)@,
                final(writer)@,
                entry_bytes(self@.image, self@.entries[i as int]),
            ),
            final(marks)@ == old(marks)@ + entry_marks(self@.image, self@.entries[i as int]),
    {
        let entry: &Entry = &self.entries[i];
        decode_marked(entry.compression, self.stored(i), entry.size, writer, marks)
    }

    /// Appends one decoded file to a buffer, returning the number of bytes written. Where an
    /// error stops it, what was decoded before stays appended.
    pub fn copy_to(&self, path: &str, writer: &mut Vec<u8>) -> (res: Result<u64>)
        ensures
            match entry_number(self@.entries, encode_utf8(path@)) {
                None => fails(res, ErrorView::MissingEntry(path@)) && final(writer)@ == old(
                    writer,
                )@,
                Some(i) => decoded_to(
                    res,
                    old(writer)@,
                    final(writer)@,
                    entry_bytes(self@.image, self@.entries[i]),
                ),
            },
    {
        match find_entry(&self.entries, path) {
            None => Err(NudatError::MissingEntry(path.to_owned())),
            Some(i) => self.copy_entry_to(i, writer),
        }
    }

    /// Return decoded file bytes. For very large entries, use `copy_to` instead.
    pub fn read(&self, path: &str) -> (res: Result<Vec<u8>>)
        ensures
            match self@.contents(path@) {
                Ok(bytes) => bytes.len() <= 0x2000_0000 ==> (res matches Ok(found) && found@
                    == bytes),
                Err(_) => res is Err,
            },
            match entry_number(self@.entries, encode_utf8(path@)) {
                None => fails(res, ErrorView::MissingEntry(path@)),
                Some(i) => if self@.entries[i].size > MAX_READ {
                    fails(
                        res,
                        ErrorView::InvalidInput(
                            "entry is too large for read; use copy_to instead"@,
                        ),
                    )
                } else {
                    match entry_result(self@.image, self@.entries[i]) {
                        Ok(bytes) => res matches Ok(found) && found@ == bytes,
                        Err(e) => fails(res, e),
                    }
                },
            },
    {
        match find_entry(&self.entries, path) {
            None => Err(NudatError::MissingEntry(path.to_owned())),
            Some(i) => {
                proof {
                    crate::laws::decoding::lemma_entry_decoding(
                        self@.image,
                        self@.entries[i as int],
                    );
                    assert(self@.entries[i as int] == self.entries@[i as int]@);
                }
                if self.entries[i].size > MAX_READ {
                    return Err(input("entry is too large for read; use copy_to instead"));
                }
                self.decoded(i)
            },
        }
    }

    /// The decoded bytes of an entry.
    pub(crate) fn decoded(&self, i: usize) -> (res: Result<Vec<u8>>)
        requires
            i < self@.entries.len(),
        ensures
            match entry_result(self@.image, self@.entries[i as int]) {
                Ok(bytes) => res matches Ok(found) && found@ == bytes,
                Err(e) => fails(res, e),
            },
    {
        let mut bytes: Vec<u8> = Vec::new();
        match self.copy_entry_to(i, &mut bytes) {
            Err(e) => Err(e),
            Ok(_) => {
                let ghost expected = entry_bytes(self@.image, self@.entries[i as int]).0;
                assert(Seq::<u8>::empty() + expected =~= expected);
                Ok(bytes)
            },
        }
    }

    /// Decodes one file, however large.
    pub fn extract(&self, path: &str) -> (res: Result<Vec<u8>>)
        ensures
            match self@.contents(path@) {
                Ok(bytes) => res matches Ok(found) && found@ == bytes,
                Err(e) => fails(res, e),
            },
    {
        match find_entry(&self.entries, path) {
            None => Err(NudatError::MissingEntry(path.to_owned())),
            Some(i) => self.decoded(i),
        }
    }

    /// Decodes every entry; the first that fails is named in the error.
    pub fn verify(&self) -> (res: Result<()>)
        ensures
            match first_failure(self@, 0) {
                None => res is Ok,
                Some(e) => fails(res, e),
            },
            res is Ok <==> forall|i: int|
                0 <= i < self@.entries.len() ==> entry_bytes(
                    self@.image,
                    #[trigger] self@.entries[i],
                ).1 is None,
    {
        proof {
            crate::laws::decoding::lemma_verified(self@);
        }
        let mut i: usize = 0;
        while i < self.entries.len()
            invariant
                i <= self.entries@.len(),
                first_failure(self@, 0) == first_failure(self@, i as int),
            decreases self.entries@.len() - i,
        {
            let mut sink: Vec<u8> = Vec::new();
            match self.copy_entry_to(i, &mut sink) {
                Ok(_) => {},
                Err(e) => {
                    proof {
                        broadcast use vstd::utf8::encode_utf8_decode_utf8;

                        assert(self@.entries[i as int] == self.entries@[i as int]@);
                    }
                    return Err(
                        NudatError::Entry {
                            path: self.entries[i].path.clone(),
                            source: Box::new(e),
                        },
                    );
                },
            }
            i = i + 1;
        }
        Ok(())
    }
}

/// The error for the first entry from the `i`th on that does not decode.
pub open spec fn first_failure(archive: ArchiveView, i: int) -> Option<ErrorView>
    decreases archive.entries.len() - i,
{
    if i >= archive.entries.len() {
        None
    } else {
        match entry_bytes(archive.image, archive.entries[i]).1 {
            Some(e) => Some(
                ErrorView::Entry {
                    path: vstd::utf8::decode_utf8(archive.entries[i].path),
                    source: Box::new(e),
                },
            ),
            None => first_failure(archive, i + 1),
        }
    }
}

} // verus!
