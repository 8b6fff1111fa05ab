//! Listing the entries of an archive.

use crate::entry::{find, occurs, Compression, Entry, EntryView};
use crate::index::entry_views;
use crate::text::{digits, digits_of, eq_bytes, parts, split, to_upper, upper, views};
use crate::tree::{is_less, lex_less};
use vstd::prelude::*;
use vstd::utf8::{decode_utf8, encode_utf8};

verus! {

/// The entry is one that a filter lets through: the filter occurs in its path, in any case.
pub open spec fn passes(entry: EntryView, filter: Option<Seq<u8>>) -> bool {
    match filter {
        None => true,
        Some(text) => occurs(upper(entry.path), upper(text)),
    }
}

/// The bytes of an optional text.
pub open spec fn filter_bytes(filter: Option<&str>) -> Option<Seq<u8>> {
    match filter {
        Some(text) => Some(encode_utf8(text@)),
        None => None,
    }
}

/// Whether a filter lets an entry through.
pub fn matches_filter(entry: &Entry, filter: Option<&str>) -> (res: bool)
    ensures
        res == passes(entry@, filter_bytes(filter)),
{
    match filter {
        None => true,
        Some(text) => find(
            to_upper(entry.path.as_str().as_bytes()).as_slice(),
            to_upper(text.as_bytes()).as_slice(),
        ),
    }
}

/// The numbers of those of the first `n` entries that a filter lets through.
pub open spec fn selected(entries: Seq<EntryView>, filter: Option<Seq<u8>>, n: int) -> Seq<int>
    decreases n,
{
    if n <= 0 {
        Seq::empty()
    } else if passes(entries[n - 1], filter) {
        selected(entries, filter, n - 1).push(n - 1)
    } else {
        selected(entries, filter, n - 1)
    }
}

/// Numbers as integers.
pub open spec fn numbers(v: Seq<usize>) -> Seq<int> {
    Seq::new(v.len(), |i: int| v[i] as int)
}

/// The numbers of the entries that a filter lets through.
pub fn select(entries: &[Entry], filter: Option<&str>) -> (res: Vec<usize>)
    ensures
        numbers(res@) == selected(
            entry_views(entries@),
            filter_bytes(filter),
            entries@.len() as int,
        ),
        all_below(res@, entries@.len()),
        res@.len() <= entries@.len(),
{
    let ghost all = entry_views(entries@);
    let ghost text = filter_bytes(filter);
    let mut res: Vec<usize> = Vec::new();
    assert(numbers(res@) =~= Seq::<int>::empty());
    let mut i: usize = 0;
    while i < entries.len()
        invariant
            i <= entries@.len(),
            all == entry_views(entries@),
            text == filter_bytes(filter),
            numbers(res@) == selected(all, text, i as int),
            all_below(res@, entries@.len()),
            res@.len() <= i,
        decreases entries@.len() - i,
    {
        assert(all[i as int] == entries@[i as int]@);
        if matches_filter(&entries[i], filter) {
            let ghost before = numbers(res@);
            res.push(i);
            assert(numbers(res@) =~= before.push(i as int));
        }
        i = i + 1;
    }
    res
}

/// The numbers are those of entries.
pub open spec fn all_below(members: Seq<usize>, n: nat) -> bool {
    forall|i: int| 0 <= i < members.len() ==> (#[trigger] members[i]) < n
}

/// The components of the paths.
pub open spec fn components(entries: Seq<EntryView>) -> Seq<Seq<Seq<u8>>> {
    Seq::new(entries.len(), |i: int| parts(entries[i].path))
}

/// The entry lies in a directory below this level.
pub open spec fn in_dir(all: Seq<Seq<Seq<u8>>>, i: int, level: int) -> bool {
    all[i].len() > level + 1
}

/// The entry is a file on this level.
pub open spec fn on_level(all: Seq<Seq<Seq<u8>>>, i: int, level: int) -> bool {
    all[i].len() == level + 1
}

/// The name by which an entry is ordered on a level.
pub open spec fn key_of(all: Seq<Seq<Seq<u8>>>, i: int, level: int) -> Seq<u8> {
    upper(all[i][level])
}

/// How many keys, from the `k`th on, come before this one without a gap.
pub open spec fn key_slot(keys: Seq<Seq<u8>>, key: Seq<u8>, k: int) -> int
    decreases keys.len() - k,
{
    if k >= keys.len() || !lex_less(keys[k], key) {
        k
    } else {
        key_slot(keys, key, k + 1)
    }
}

pub proof fn lemma_key_slot(keys: Seq<Seq<u8>>, key: Seq<u8>, k: int)
    requires
        0 <= k <= keys.len(),
    ensures
        k <= key_slot(keys, key, k) <= keys.len(),
    decreases keys.len() - k,
{
    if k < keys.len() && lex_less(keys[k], key) {
        lemma_key_slot(keys, key, k + 1);
    }
}

/// The keys with one more, in order, each once.
pub open spec fn with_key(keys: Seq<Seq<u8>>, key: Seq<u8>) -> Seq<Seq<u8>> {
    let k = key_slot(keys, key, 0);
    if k < keys.len() && keys[k] == key {
        keys
    } else {
        keys.insert(k, key)
    }
}

/// The keys of the directories in which the first `n` members lie, in order.
pub open spec fn dir_keys(
    all: Seq<Seq<Seq<u8>>>,
    members: Seq<int>,
    level: int,
    n: int,
) -> Seq<Seq<u8>>
    decreases n,
{
    if n <= 0 {
        Seq::empty()
    } else if in_dir(all, members[n - 1], level) {
        with_key(dir_keys(all, members, level, n - 1), key_of(all, members[n - 1], level))
    } else {
        dir_keys(all, members, level, n - 1)
    }
}

/// Those of the first `n` members that lie in the directory with a key.
pub open spec fn under(
    all: Seq<Seq<Seq<u8>>>,
    members: Seq<int>,
    level: int,
    key: Seq<u8>,
    n: int,
) -> Seq<int>
    decreases n,
{
    if n <= 0 {
        Seq::empty()
    } else if in_dir(all, members[n - 1], level) && key_of(all, members[n - 1], level) == key {
        under(all, members, level, key, n - 1).push(members[n - 1])
    } else {
        under(all, members, level, key, n - 1)
    }
}

/// The keys of files.
pub open spec fn file_keys(all: Seq<Seq<Seq<u8>>>, files: Seq<int>, level: int) -> Seq<Seq<u8>> {
    Seq::new(files.len(), |i: int| key_of(all, files[i], level))
}

/// The files with one more, in the order of their keys; of two with one key the later.
pub open spec fn with_member(
    all: Seq<Seq<Seq<u8>>>,
    files: Seq<int>,
    level: int,
    i: int,
) -> Seq<int> {
    let key = key_of(all, i, level);
    let k = key_slot(file_keys(all, files, level), key, 0);
    if k < files.len() && key_of(all, files[k], level) == key {
        files.update(k, i)
    } else {
        files.insert(k, i)
    }
}

/// Those of the first `n` members that are files on this level, in order.
pub open spec fn level_files(
    all: Seq<Seq<Seq<u8>>>,
    members: Seq<int>,
    level: int,
    n: int,
) -> Seq<int>
    decreases n,
{
    if n <= 0 {
        Seq::empty()
    } else if on_level(all, members[n - 1], level) {
        with_member(all, level_files(all, members, level, n - 1), level, members[n - 1])
    } else {
        level_files(all, members, level, n - 1)
    }
}

/// How many components the longest of the first `n` paths has.
pub open spec fn deepest(all: Seq<Seq<Seq<u8>>>, n: int) -> int
    decreases n,
{
    if n <= 0 {
        0
    } else if all[n - 1].len() > deepest(all, n - 1) {
        all[n - 1].len() as int
    } else {
        deepest(all, n - 1)
    }
}

/// The members in the order of a listing: what lies in directories, one after the other, in
/// front of the files on this level.
pub open spec fn listed(
    all: Seq<Seq<Seq<u8>>>,
    members: Seq<int>,
    level: int,
    limit: int,
) -> Seq<int>
    decreases limit - level, dir_keys(all, members, level, members.len() as int).len() + 1,
{
    if level >= limit {
        Seq::empty()
    } else {
        let keys = dir_keys(all, members, level, members.len() as int);
        listed_dirs(all, members, level, limit, keys, keys.len() as int) + level_files(
            all,
            members,
            level,
            members.len() as int,
        )
    }
}

/// What lies in the first `n` of the directories with these keys.
pub open spec fn listed_dirs(
    all: Seq<Seq<Seq<u8>>>,
    members: Seq<int>,
    level: int,
    limit: int,
    keys: Seq<Seq<u8>>,
    n: int,
) -> Seq<int>
    decreases limit - level, n,
{
    if n <= 0 || level >= limit {
        Seq::empty()
    } else {
        listed_dirs(all, members, level, limit, keys, n - 1) + listed(
            all,
            under(all, members, level, keys[n - 1], members.len() as int),
            level + 1,
            limit,
        )
    }
}

/// The contents of the components of paths.
pub open spec fn component_views(v: Seq<Vec<Vec<u8>>>) -> Seq<Seq<Seq<u8>>> {
    Seq::new(v.len(), |i: int| views(v[i]@))
}

/// The components of the entries' paths.
pub(crate) fn split_all(entries: &[Entry]) -> (res: Vec<Vec<Vec<u8>>>)
    ensures
        component_views(res@) == components(entry_views(entries@)),
        res@.len() == entries@.len(),
{
    let mut res: Vec<Vec<Vec<u8>>> = Vec::with_capacity(entries.len());
    while res.len() < entries.len()
        invariant
            res@.len() <= entries@.len(),
            forall|i: int|
                0 <= i < res@.len() ==> views((#[trigger] res@[i])@) == parts(
                    entries@[i]@.path,
                ),
        decreases entries@.len() - res@.len(),
    {
        let n: usize = res.len();
        res.push(split(entries[n].path.as_str().as_bytes()));
    }
    assert(component_views(res@) =~= components(entry_views(entries@)));
    res
}

fn key_at(all: &Vec<Vec<Vec<u8>>>, i: usize, level: usize) -> (res: Vec<u8>)
    requires
        i < all@.len(),
        level < all@[i as int]@.len(),
    ensures
        res@ == key_of(component_views(all@), i as int, level as int),
{
    assert(component_views(all@)[i as int] == views(all@[i as int]@));
    assert(views(all@[i as int]@)[level as int] == all@[i as int]@[level as int]@);
    to_upper(all[i][level].as_slice())
}

fn slot_of(keys: &Vec<Vec<u8>>, key: &[u8]) -> (res: usize)
    ensures
        res == key_slot(views(keys@), key@, 0),
        res <= keys@.len(),
{
    let mut k: usize = 0;
    while k < keys.len() && is_less(keys[k].as_slice(), key)
        invariant
            k <= keys@.len(),
            key_slot(views(keys@), key@, 0) == key_slot(views(keys@), key@, k as int),
        decreases keys@.len() - k,
    {
        assert(views(keys@)[k as int] == keys@[k as int]@);
        k = k + 1;
    }
    assert(k < keys@.len() ==> views(keys@)[k as int] == keys@[k as int]@);
    assert(views(keys@).len() == keys@.len());
    k
}

pub(crate) fn keys_of(all: &Vec<Vec<Vec<u8>>>, members: &Vec<usize>, level: usize) -> (res: Vec<Vec<u8>>)
    requires
        all_below(members@, all@.len()),
        level < usize::MAX,
    ensures
        views(res@) == dir_keys(
            component_views(all@),
            numbers(members@),
            level as int,
            members@.len() as int,
        ),
{
    let ghost split = component_views(all@);
    let ghost inside = numbers(members@);
    let mut keys: Vec<Vec<u8>> = Vec::new();
    assert(views(keys@) =~= Seq::<Seq<u8>>::empty());
    let mut i: usize = 0;
    while i < members.len()
        invariant
            i <= members@.len(),
            split == component_views(all@),
            inside == numbers(members@),
            all_below(members@, all@.len()),
            level < usize::MAX,
            views(keys@) == dir_keys(split, inside, level as int, i as int),
        decreases members@.len() - i,
    {
        let m: usize = members[i];
        assert(inside[i as int] == m);
        assert(split[m as int] == views(all@[m as int]@));
        assert(split[m as int].len() == all@[m as int]@.len());
        if all[m].len() > level + 1 {
            let key: Vec<u8> = key_at(all, m, level);
            let k: usize = slot_of(&keys, key.as_slice());
            let ghost before = views(keys@);
            assert(k < keys@.len() ==> before[k as int] == keys@[k as int]@);
            assert(before.len() == keys@.len());
            if k == keys.len() || !eq_bytes(keys[k].as_slice(), key.as_slice()) {
                let ghost text = key@;
                keys.insert(k, key);
                assert(views(keys@) =~= before.insert(k as int, text));
            }
        }
        i = i + 1;
    }
    keys
}

pub(crate) fn members_under(all: &Vec<Vec<Vec<u8>>>, members: &Vec<usize>, level: usize, key: &[u8]) -> (res: Vec<
    usize,
>)
    requires
        all_below(members@, all@.len()),
        level < usize::MAX,
    ensures
        numbers(res@) == under(
            component_views(all@),
            numbers(members@),
            level as int,
            key@,
            members@.len() as int,
        ),
        all_below(res@, all@.len()),
        res@.len() <= members@.len(),
        forall|i: int|
            0 <= i < res@.len() ==> level + 1 < component_views(all@)[(#[trigger] res@[i])
                as int].len(),
{
    let ghost split = component_views(all@);
    let ghost inside = numbers(members@);
    let mut res: Vec<usize> = Vec::new();
    assert(numbers(res@) =~= Seq::<int>::empty());
    let mut i: usize = 0;
    while i < members.len()
        invariant
            i <= members@.len(),
            split == component_views(all@),
            inside == numbers(members@),
            all_below(members@, all@.len()),
            level < usize::MAX,
            numbers(res@) == under(split, inside, level as int, key@, i as int),
            all_below(res@, all@.len()),
            res@.len() <= i,
            forall|k: int|
                0 <= k < res@.len() ==> level + 1 < split[(#[trigger] res@[k]) as int].len(),
        decreases members@.len() - i,
    {
        let m: usize = members[i];
        assert(inside[i as int] == m);
        assert(split[m as int] == views(all@[m as int]@));
        assert(split[m as int].len() == all@[m as int]@.len());
        if all[m].len() > level + 1 && eq_bytes(key_at(all, m, level).as_slice(), key) {
            let ghost before = numbers(res@);
            res.push(m);
            assert(numbers(res@) =~= before.push(m as int));
        }
        i = i + 1;
    }
    res
}

fn files_on(all: &Vec<Vec<Vec<u8>>>, members: &Vec<usize>, level: usize) -> (res: Vec<usize>)
    requires
        all_below(members@, all@.len()),
        level < usize::MAX,
    ensures
        numbers(res@) == level_files(
            component_views(all@),
            numbers(members@),
            level as int,
            members@.len() as int,
        ),
        all_below(res@, all@.len()),
{
    let ghost split = component_views(all@);
    let ghost inside = numbers(members@);
    let mut files: Vec<usize> = Vec::new();
    let mut keys: Vec<Vec<u8>> = Vec::new();
    assert(numbers(files@) =~= Seq::<int>::empty());
    assert(views(keys@) =~= file_keys(split, numbers(files@), level as int));
    let mut i: usize = 0;
    while i < members.len()
        invariant
            i <= members@.len(),
            split == component_views(all@),
            inside == numbers(members@),
            all_below(members@, all@.len()),
            level < usize::MAX,
            numbers(files@) == level_files(split, inside, level as int, i as int),
            keys@.len() == files@.len(),
            views(keys@) == file_keys(split, numbers(files@), level as int),
            all_below(files@, all@.len()),
        decreases members@.len() - i,
    {
        let m: usize = members[i];
        assert(inside[i as int] == m);
        assert(split[m as int] == views(all@[m as int]@));
        assert(split[m as int].len() == all@[m as int]@.len());
        if all[m].len() == level + 1 {
            let key: Vec<u8> = key_at(all, m, level);
            let k: usize = slot_of(&keys, key.as_slice());
            let ghost before = numbers(files@);
            let ghost old_keys = views(keys@);
            let ghost text = key@;
            assert(k < keys@.len() ==> old_keys[k as int] == keys@[k as int]@);
            assert(k < keys@.len() ==> old_keys[k as int] == key_of(
                split,
                before[k as int],
                level as int,
            ));
            if k < keys.len() && eq_bytes(keys[k].as_slice(), key.as_slice()) {
                files.set(k, m);
                assert(numbers(files@) =~= before.update(k as int, m as int));
                assert(views(keys@) =~= file_keys(split, numbers(files@), level as int));
            } else {
                files.insert(k, m);
                keys.insert(k, key);
                assert(numbers(files@) =~= before.insert(k as int, m as int));
                assert(views(keys@) =~= old_keys.insert(k as int, text));
                assert(views(keys@) =~= file_keys(split, numbers(files@), level as int));
            }
        }
        i = i + 1;
    }
    files
}

fn list_into(
    all: &Vec<Vec<Vec<u8>>>,
    members: &Vec<usize>,
    level: usize,
    limit: usize,
    out: &mut Vec<usize>,
)
    requires
        all_below(members@, all@.len()),
        all_below(old(out)@, all@.len()),
    ensures
        numbers(final(out)@) == numbers(old(out)@) + listed(
            component_views(all@),
            numbers(members@),
            level as int,
            limit as int,
        ),
        all_below(final(out)@, all@.len()),
    decreases (if level < limit {
            limit - level
        } else {
            0
        }),
{
    let ghost split = component_views(all@);
    let ghost inside = numbers(members@);
    let ghost start = numbers(out@);
    assert(start + Seq::<int>::empty() =~= start);
    if level >= limit {
        return;
    }
    let keys: Vec<Vec<u8>> = keys_of(all, members, level);
    let ghost names = views(keys@);
    let mut k: usize = 0;
    while k < keys.len()
        invariant
            k <= keys@.len(),
            level < limit,
            split == component_views(all@),
            inside == numbers(members@),
            names == views(keys@),
            all_below(members@, all@.len()),
            all_below(out@, all@.len()),
            numbers(out@) == start + listed_dirs(
                split,
                inside,
                level as int,
                limit as int,
                names,
                k as int,
            ),
        decreases keys@.len() - k,
    {
        assert(names[k as int] == keys@[k as int]@);
        let below: Vec<usize> = members_under(all, members, level, keys[k].as_slice());
        let ghost held = numbers(out@);
        assert(inside.len() == members@.len());
        list_into(all, &below, level + 1, limit, out);
        assert(numbers(out@) =~= start + listed_dirs(
            split,
            inside,
            level as int,
            limit as int,
            names,
            k + 1,
        ));
        k = k + 1;
    }
    let files: Vec<usize> = files_on(all, members, level);
    let ghost dirs = numbers(out@);
    let mut i: usize = 0;
    assert(numbers(files@).take(0) =~= Seq::<int>::empty());
    assert(dirs + Seq::<int>::empty() =~= dirs);
    while i < files.len()
        invariant
            i <= files@.len(),
            all_below(files@, all@.len()),
            all_below(out@, all@.len()),
            numbers(out@) == dirs + numbers(files@).take(i as int),
        decreases files@.len() - i,
    {
        let ghost held = numbers(out@);
        out.push(files[i]);
        assert(numbers(out@) =~= held.push(files@[i as int] as int));
        assert(numbers(files@).take(i + 1) =~= numbers(files@).take(i as int).push(
            files@[i as int] as int,
        ));
        assert(numbers(out@) =~= dirs + numbers(files@).take(i + 1));
        i = i + 1;
    }
    assert(numbers(files@).take(i as int) =~= numbers(files@));
    assert(names.len() == keys@.len());
    assert(numbers(out@) =~= start + listed(split, inside, level as int, limit as int));
}

fn deepest_of(all: &Vec<Vec<Vec<u8>>>) -> (res: usize)
    ensures
        res == deepest(component_views(all@), all@.len() as int),
{
    let ghost split = component_views(all@);
    let mut res: usize = 0;
    let mut i: usize = 0;
    while i < all.len()
        invariant
            i <= all@.len(),
            split == component_views(all@),
            res == deepest(split, i as int),
        decreases all@.len() - i,
    {
        assert(split[i as int] == views(all@[i as int]@));
        assert(split[i as int].len() == all@[i as int]@.len());
        if all[i].len() > res {
            res = all[i].len();
        }
        i = i + 1;
    }
    res
}

/// A number behind as many spaces as make it ten characters wide.
pub open spec fn padded(text: Seq<char>) -> Seq<char> {
    if text.len() < 10 {
        Seq::new((10 - text.len()) as nat, |i: int| ' ') + text
    } else {
        text
    }
}

/// The name under which an encoding is shown.
pub open spec fn compression_name(compression: Compression) -> Seq<char> {
    match compression {
        Compression::Plain => "None"@,
        Compression::Lz2k => "Lz2k"@,
        Compression::Deflate => "Deflate"@,
    }
}

/// The line for an entry: its path, behind its sizes and its encoding in a long listing.
pub open spec fn list_line(entry: EntryView, long: bool) -> Seq<char> {
    if long {
        padded(digits(entry.size as nat)) + " "@ + padded(digits(entry.stored_size as nat)) + " "@
            + compression_name(entry.compression) + " "@ + decode_utf8(entry.path)
    } else {
        decode_utf8(entry.path)
    }
}

/// The lines of a listing.
pub open spec fn listing(entries: Seq<EntryView>, members: Seq<int>, long: bool) -> Seq<Seq<char>> {
    let all = components(entries);
    let order = listed(all, members, 0, deepest(all, all.len() as int));
    Seq::new(order.len(), |i: int| list_line(entries[order[i]], long))
}

/// The contents of lines.
pub open spec fn lines(v: Seq<String>) -> Seq<Seq<char>> {
    Seq::new(v.len(), |i: int| v[i]@)
}

fn pad(text: String) -> (res: String)
    ensures
        res@ == padded(text@),
{
    proof {
        reveal_strlit(" ");
    }
    let n: usize = text.as_str().unicode_len();
    if n >= 10 {
        return text;
    }
    let mut spaces: String = String::new();
    let mut left: usize = 10 - n;
    assert(spaces@ =~= Seq::new((10 - n - left) as nat, |i: int| ' '));
    while left > 0
        invariant
            n < 10,
            left <= 10 - n,
            " "@ == seq![' '],
            spaces@ == Seq::new((10 - n - left) as nat, |i: int| ' '),
        decreases left,
    {
        spaces = spaces.concat(" ");
        left = left - 1;
        assert(spaces@ =~= Seq::new((10 - n - left) as nat, |i: int| ' '));
    }
    spaces.concat(text.as_str())
}

fn line_of(entry: &Entry, long: bool) -> (res: String)
    ensures
        res@ == list_line(entry@, long),
{
    proof {
        broadcast use vstd::utf8::encode_utf8_decode_utf8;

        assert(decode_utf8(entry@.path) == entry.path@);
    }
    if long {
        let name: &str = match entry.compression {
            Compression::Plain => "None",
            Compression::Lz2k => "Lz2k",
            Compression::Deflate => "Deflate",
        };
        pad(digits_of(entry.size as u64)).concat(" ").concat(
            pad(digits_of(entry.stored_size as u64)).as_str(),
        ).concat(" ").concat(name).concat(" ").concat(entry.path.as_str())
    } else {
        entry.path.clone()
    }
}

/// The lines of a listing.
pub fn list_lines(entries: &[Entry], members: &Vec<usize>, long: bool) -> (res: Vec<String>)
    requires
        all_below(members@, entries@.len()),
    ensures
        lines(res@) == listing(entry_views(entries@), numbers(members@), long),
{
    let all: Vec<Vec<Vec<u8>>> = split_all(entries);
    let mut order: Vec<usize> = Vec::new();
    assert(numbers(order@) =~= Seq::<int>::empty());
    list_into(&all, members, 0, deepest_of(&all), &mut order);
    let ghost due = listing(entry_views(entries@), numbers(members@), long);
    assert(numbers(order@) =~= listed(
        component_views(all@),
        numbers(members@),
        0,
        deepest(component_views(all@), all@.len() as int),
    ));
    assert(component_views(all@).len() == all@.len());
    let mut res: Vec<String> = Vec::with_capacity(order.len());
    while res.len() < order.len()
        invariant
            res@.len() <= order@.len(),
            all_below(order@, entries@.len()),
            forall|i: int|
                0 <= i < res@.len() ==> (#[trigger] res@[i])@ == list_line(
                    entries@[order@[i] as int]@,
                    long,
                ),
        decreases order@.len() - res@.len(),
    {
        let n: usize = res.len();
        res.push(line_of(&entries[order[n]], long));
    }
    assert(lines(res@) =~= due) by {
        assert forall|i: int| 0 <= i < res@.len() implies lines(res@)[i] == due[i] by {
            assert(numbers(order@)[i] == order@[i]);
            assert(entry_views(entries@)[order@[i] as int] == entries@[order@[i] as int]@);
        }
    }
    res
}

} // verus!
