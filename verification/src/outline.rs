//! Summarizing the directories of an archive.

use crate::entry::{Entry, EntryView};
use crate::index::entry_views;
use crate::listing::{
    all_below, component_views, components, dir_keys, in_dir, keys_of, lines, members_under,
    numbers, split_all, under,
};
use crate::size::{format_size, size_text};
use crate::text::{digits, digits_of, parts, string_of, views};
use vstd::prelude::*;
use vstd::utf8::{decode_utf8, encode_utf8_valid_utf8};

verus! {

/// The stored bytes of the first `n` members.
pub open spec fn stored_sum(entries: Seq<EntryView>, members: Seq<int>, n: int) -> int
    decreases n,
{
    if n <= 0 {
        0
    } else {
        stored_sum(entries, members, n - 1) + entries[members[n - 1]].stored_size
    }
}

/// The decoded bytes of the first `n` members.
pub open spec fn decoded_sum(entries: Seq<EntryView>, members: Seq<int>, n: int) -> int
    decreases n,
{
    if n <= 0 {
        0
    } else {
        decoded_sum(entries, members, n - 1) + entries[members[n - 1]].size
    }
}

/// How many files there are, and in a long summary how large they are.
pub open spec fn summary_text(entries: Seq<EntryView>, members: Seq<int>, long: bool) -> Seq<char> {
    let n = members.len() as int;
    let count = digits(n as nat) + " "@ + if n == 1 {
        "file"@
    } else {
        "files"@
    };
    if long {
        count + ", "@ + size_text(stored_sum(entries, members, n)) + " stored, "@ + size_text(
            decoded_sum(entries, members, n),
        ) + " decoded"@
    } else {
        count
    }
}

/// The line for a directory.
pub open spec fn dir_line(
    prefix: Seq<char>,
    last: bool,
    name: Seq<char>,
    summary: Seq<char>,
) -> Seq<char> {
    prefix + if last {
        "└──"@
    } else {
        "├──"@
    } + " "@ + name + "/ ("@ + summary + ")"@
}

/// What stands in front of the lines below a directory.
pub open spec fn inner_prefix(prefix: Seq<char>, last: bool) -> Seq<char> {
    prefix + if last {
        "    "@
    } else {
        "│   "@
    }
}

/// The lines for the directories in which the members lie, down to a depth.
pub open spec fn outline(
    entries: Seq<EntryView>,
    members: Seq<int>,
    prefix: Seq<char>,
    level: int,
    depth: int,
    long: bool,
) -> Seq<Seq<char>>
    decreases
            depth - level,
            dir_keys(components(entries), members, level, members.len() as int).len() + 1,
{
    if level >= depth {
        Seq::empty()
    } else {
        let keys = dir_keys(components(entries), members, level, members.len() as int);
        outline_dirs(entries, members, prefix, level, depth, long, keys, keys.len() as int)
    }
}

/// The lines for the first `n` of the directories with these keys. A directory has the name that
/// the first of its members gives it.
pub open spec fn outline_dirs(
    entries: Seq<EntryView>,
    members: Seq<int>,
    prefix: Seq<char>,
    level: int,
    depth: int,
    long: bool,
    keys: Seq<Seq<u8>>,
    n: int,
) -> Seq<Seq<char>>
    decreases depth - level, n,
{
    if n <= 0 || level >= depth {
        Seq::empty()
    } else {
        let all = components(entries);
        let below = under(all, members, level, keys[n - 1], members.len() as int);
        let last = n == keys.len();
        outline_dirs(entries, members, prefix, level, depth, long, keys, n - 1) + seq![
            dir_line(
                prefix,
                last,
                decode_utf8(all[below[0]][level]),
                summary_text(entries, below, long),
            ),
        ] + outline(entries, below, inner_prefix(prefix, last), level + 1, depth, long)
    }
}

/// How many files there are, and in a long summary how large they are.
pub fn summary(entries: &[Entry], members: &Vec<usize>, long: bool) -> (res: String)
    requires
        all_below(members@, entries@.len()),
        members@.len() <= u32::MAX,
    ensures
        res@ == summary_text(entry_views(entries@), numbers(members@), long),
{
    let ghost all = entry_views(entries@);
    let ghost inside = numbers(members@);
    let count: String = digits_of(members.len() as u64).concat(" ").concat(
        if members.len() == 1 {
            "file"
        } else {
            "files"
        },
    );
    if !long {
        return count;
    }
    let mut stored: u64 = 0;
    let mut decoded: u64 = 0;
    let mut i: usize = 0;
    while i < members.len()
        invariant
            i <= members@.len() <= u32::MAX,
            all == entry_views(entries@),
            inside == numbers(members@),
            all_below(members@, entries@.len()),
            stored == stored_sum(all, inside, i as int),
            decoded == decoded_sum(all, inside, i as int),
            stored <= i * u32::MAX,
            decoded <= i * u32::MAX,
        decreases members@.len() - i,
    {
        assert(i * u32::MAX + u32::MAX <= u64::MAX) by (nonlinear_arith)
            requires
                i < u32::MAX,
        ;
        assert(inside[i as int] == members@[i as int]);
        let entry: &Entry = &entries[members[i]];
        assert(all[members@[i as int] as int] == entry@);
        stored = stored + entry.stored_size as u64;
        decoded = decoded + entry.size as u64;
        i = i + 1;
    }
    count.concat(", ").concat(format_size(stored).as_str()).concat(" stored, ").concat(
        format_size(decoded).as_str(),
    ).concat(" decoded")
}

/// The keys are those of directories in which members lie.
proof fn lemma_keys_have_members(
    all: Seq<Seq<Seq<u8>>>,
    members: Seq<int>,
    level: int,
    n: int,
    k: int,
)
    requires
        0 <= n <= members.len(),
        0 <= k < dir_keys(all, members, level, n).len(),
    ensures
        under(all, members, level, dir_keys(all, members, level, n)[k], n).len() > 0,
    decreases n,
{
    if n > 0 {
        let before = dir_keys(all, members, level, n - 1);
        let after = dir_keys(all, members, level, n);
        let m = members[n - 1];
        if in_dir(all, m, level) {
            let key = crate::listing::key_of(all, m, level);
            let s = crate::listing::key_slot(before, key, 0);
            crate::listing::lemma_key_slot(before, key, 0);
            if after[k] != key {
                let j = if after.len() == before.len() || k < s {
                    k
                } else {
                    k - 1
                };
                assert(before[j] == after[k]);
                lemma_keys_have_members(all, members, level, n - 1, j);
            }
        } else {
            lemma_keys_have_members(all, members, level, n - 1, k);
        }
    }
}

fn outline_into(
    entries: &[Entry],
    all: &Vec<Vec<Vec<u8>>>,
    members: &Vec<usize>,
    prefix: &str,
    level: usize,
    depth: usize,
    long: bool,
    out: &mut Vec<String>,
)
    requires
        component_views(all@) == components(entry_views(entries@)),
        all@.len() == entries@.len(),
        all_below(members@, entries@.len()),
        members@.len() <= u32::MAX,
    ensures
        lines(final(out)@) == lines(old(out)@) + outline(
            entry_views(entries@),
            numbers(members@),
            prefix@,
            level as int,
            depth as int,
            long,
        ),
    decreases (if level < depth {
            depth - level
        } else {
            0
        }),
{
    let ghost views_all = entry_views(entries@);
    let ghost split = component_views(all@);
    let ghost inside = numbers(members@);
    let ghost start = lines(out@);
    assert(start + Seq::<Seq<char>>::empty() =~= start);
    if level >= depth {
        return;
    }
    let keys: Vec<Vec<u8>> = keys_of(all, members, level);
    let ghost names = views(keys@);
    assert(names.len() == keys@.len());
    assert(inside.len() == members@.len());
    let mut k: usize = 0;
    while k < keys.len()
        invariant
            k <= keys@.len(),
            level < depth,
            views_all == entry_views(entries@),
            split == component_views(all@),
            split == components(views_all),
            inside == numbers(members@),
            inside.len() == members@.len(),
            names == views(keys@),
            names.len() == keys@.len(),
            names == dir_keys(split, inside, level as int, inside.len() as int),
            all@.len() == entries@.len(),
            all_below(members@, entries@.len()),
            members@.len() <= u32::MAX,
            lines(out@) == start + outline_dirs(
                views_all,
                inside,
                prefix@,
                level as int,
                depth as int,
                long,
                names,
                k as int,
            ),
        decreases keys@.len() - k,
    {
        assert(names[k as int] == keys@[k as int]@);
        let below: Vec<usize> = members_under(all, members, level, keys[k].as_slice());
        let ghost below_view = numbers(below@);
        proof {
            lemma_keys_have_members(split, inside, level as int, inside.len() as int, k as int);
            assert(below_view.len() == below@.len());
            assert(below_view[0] == below@[0]);
        }
        let first: usize = below[0];
        let last: bool = k == keys.len() - 1;
        proof {
            assert(level + 1 < split[first as int].len());
            assert(split[first as int] == views(all@[first as int]@));
            assert(split[first as int][level as int] == all@[first as int]@[level as int]@);
            encode_utf8_valid_utf8(entries@[first as int].path@);
            assert(split[first as int] == parts(entries@[first as int]@.path));
            crate::laws::paths::lemma_parts_texts(entries@[first as int]@.path, 0);
        }
        let name: String = string_of(all[first][level].as_slice());
        let text: String = prefix.to_owned().concat(
            if last {
                "└──"
            } else {
                "├──"
            },
        ).concat(" ").concat(name.as_str()).concat("/ (").concat(
            summary(entries, &below, long).as_str(),
        ).concat(")");
        let next: String = prefix.to_owned().concat(
            if last {
                "    "
            } else {
                "│   "
            },
        );
        let ghost held = lines(out@);
        out.push(text);
        assert(lines(out@) =~= held.push(text@));
        outline_into(entries, all, &below, next.as_str(), level + 1, depth, long, out);
        assert(lines(out@) =~= start + outline_dirs(
            views_all,
            inside,
            prefix@,
            level as int,
            depth as int,
            long,
            names,
            k + 1,
        ));
        k = k + 1;
    }
}

/// The lines of an outline: the title with a summary, then the directories down to a depth.
pub fn tree_lines(
    entries: &[Entry],
    members: &Vec<usize>,
    title: &str,
    depth: usize,
    long: bool,
) -> (res: Vec<String>)
    requires
        all_below(members@, entries@.len()),
        members@.len() <= u32::MAX,
    ensures
        ({
            let all = entry_views(entries@);
            let inside = numbers(members@);
            lines(res@) == seq![title@ + " ("@ + summary_text(all, inside, long) + ")"@] + outline(
                all,
                inside,
                ""@,
                0,
                depth as int,
                long,
            )
        }),
{
    let all: Vec<Vec<Vec<u8>>> = split_all(entries);
    let mut out: Vec<String> = Vec::new();
    out.push(
        title.to_owned().concat(" (").concat(summary(entries, members, long).as_str()).concat(")"),
    );
    let ghost head = lines(out@);
    assert(head =~= seq![
        title@ + " ("@ + summary_text(entry_views(entries@), numbers(members@), long) + ")"@,
    ]);
    outline_into(entries, &all, members, "", 0, depth, long, &mut out);
    out
}

} // verus!
