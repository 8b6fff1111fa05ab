//! In what order a listing names entries.

use super::listing::{keys_in_order, lemma_dir_keys, lemma_parts_nonempty, lemma_with_key};
use crate::bytes::holds_at;
use crate::entry::{occurs, EntryView};
use crate::listing::{
    components, deepest, dir_keys, file_keys, in_dir, key_of, key_slot, lemma_key_slot,
    level_files, listed, listed_dirs, on_level, padded, passes, selected, under, with_key, with_member,
};
use crate::text::{parts, same_name, upper};
use crate::tree::lex_less;
use vstd::prelude::*;

verus! {

/// A path comes before another: they have the same directories, in any case, up to the `k`th
/// component. There the one goes on to a directory and the other ends, or both do the same, and the
/// one has the lesser name in upper case.
pub open spec fn comes_first(a: Seq<Seq<u8>>, b: Seq<Seq<u8>>, k: int) -> bool {
    &&& 0 <= k < a.len()
    &&& k < b.len()
    &&& forall|i: int| 0 <= i < k ==> upper(#[trigger] a[i]) == upper(b[i])
    &&& {
        ||| k + 1 < a.len() && k + 1 == b.len()
        ||| (k + 1 == a.len() <==> k + 1 == b.len()) && lex_less(upper(a[k]), upper(b[k]))
    }
}

/// The path with the number `x` comes before that with the number `y`.
pub open spec fn ahead(all: Seq<Seq<Seq<u8>>>, x: int, y: int) -> bool {
    exists|k: int| #[trigger] comes_first(all[x], all[y], k)
}

/// Each path comes before those behind it.
pub open spec fn sorted(all: Seq<Seq<Seq<u8>>>, order: Seq<int>) -> bool {
    forall|i: int, j: int|
        #![trigger order[i], order[j]]
        0 <= i < j < order.len() ==> ahead(all, order[i], order[j])
}

/// The members reach this level and have the same directories up to it.
spec fn alike(all: Seq<Seq<Seq<u8>>>, members: Seq<int>, level: int) -> bool {
    &&& forall|i: int| 0 <= i < members.len() ==> level < all[#[trigger] members[i]].len()
    &&& forall|i: int, j: int, k: int|
        #![trigger all[members[i]][k], all[members[j]]]
        0 <= i < members.len() && 0 <= j < members.len() && 0 <= k < level ==> upper(
            all[members[i]][k],
        ) == upper(all[members[j]][k])
}

proof fn lemma_under_members(
    all: Seq<Seq<Seq<u8>>>,
    members: Seq<int>,
    level: int,
    key: Seq<u8>,
    n: int,
)
    requires
        0 <= n <= members.len(),
    ensures
        ({
            let below = under(all, members, level, key, n);
            forall|i: int|
                0 <= i < below.len() ==> members.contains(#[trigger] below[i]) && in_dir(
                    all,
                    below[i],
                    level,
                ) && key_of(all, below[i], level) == key
        }),
    decreases n,
{
    if n > 0 {
        lemma_under_members(all, members, level, key, n - 1);
        assert(members.contains(members[n - 1]));
        let before = under(all, members, level, key, n - 1);
        let below = under(all, members, level, key, n);
        assert forall|i: int| 0 <= i < below.len() implies members.contains(#[trigger] below[i])
            && in_dir(all, below[i], level) && key_of(all, below[i], level) == key by {
            if i < before.len() {
                assert(below[i] == before[i]);
            }
        }
    }
}

proof fn lemma_under_alike(
    all: Seq<Seq<Seq<u8>>>,
    members: Seq<int>,
    level: int,
    key: Seq<u8>,
)
    requires
        0 <= level,
        alike(all, members, level),
    ensures
        alike(all, under(all, members, level, key, members.len() as int), level + 1),
{
    let below = under(all, members, level, key, members.len() as int);
    lemma_under_members(all, members, level, key, members.len() as int);
    assert forall|i: int, j: int, k: int|
        #![trigger all[below[i]][k], all[below[j]]]
        0 <= i < below.len() && 0 <= j < below.len() && 0 <= k < level + 1 implies upper(
        all[below[i]][k],
    ) == upper(all[below[j]][k]) by {
        assert(members.contains(below[i]) && members.contains(below[j]));
        assert(key_of(all, below[i], level) == key_of(all, below[j], level));
        if k < level {
            let a = choose|a: int| 0 <= a < members.len() && members[a] == below[i];
            let b = choose|b: int| 0 <= b < members.len() && members[b] == below[j];
            assert(upper(all[members[a]][k]) == upper(all[members[b]][k]));
        }
    }
}

proof fn lemma_files_sorted(all: Seq<Seq<Seq<u8>>>, members: Seq<int>, level: int, n: int)
    requires
        0 <= n <= members.len(),
    ensures
        ({
            let files = level_files(all, members, level, n);
            &&& keys_in_order(file_keys(all, files, level))
            &&& forall|i: int|
                0 <= i < files.len() ==> members.contains(#[trigger] files[i]) && on_level(
                    all,
                    files[i],
                    level,
                )
        }),
    decreases n,
{
    if n > 0 {
        lemma_files_sorted(all, members, level, n - 1);
        let m = members[n - 1];
        assert(members.contains(m));
        if on_level(all, m, level) {
            let files = level_files(all, members, level, n - 1);
            let keys = file_keys(all, files, level);
            let key = key_of(all, m, level);
            let k = key_slot(keys, key, 0);
            lemma_key_slot(keys, key, 0);
            lemma_with_key(keys, key);
            let after = with_member(all, files, level, m);
            assert(file_keys(all, after, level) =~= with_key(keys, key));
            assert forall|i: int| 0 <= i < after.len() implies members.contains(
                #[trigger] after[i],
            ) && on_level(all, after[i], level) by {
                if k < files.len() && key_of(all, files[k], level) == key {
                    if i != k {
                        assert(after[i] == files[i]);
                    }
                } else if i < k {
                    assert(after[i] == files[i]);
                } else if i > k {
                    assert(after[i] == files[i - 1]);
                }
            }
        }
    }
}

proof fn lemma_level_first(
    all: Seq<Seq<Seq<u8>>>,
    members: Seq<int>,
    level: int,
    x: int,
    y: int,
)
    requires
        0 <= level,
        alike(all, members, level),
        members.contains(x),
        members.contains(y),
        (in_dir(all, x, level) && on_level(all, y, level)) || ((in_dir(all, x, level) <==> in_dir(
            all,
            y,
            level,
        )) && lex_less(key_of(all, x, level), key_of(all, y, level))),
    ensures
        ahead(all, x, y),
{
    let a = choose|a: int| 0 <= a < members.len() && members[a] == x;
    let b = choose|b: int| 0 <= b < members.len() && members[b] == y;
    assert(level < all[members[a]].len() && level < all[members[b]].len());
    assert forall|i: int| 0 <= i < level implies upper(#[trigger] all[x][i]) == upper(
        all[y][i],
    ) by {
        assert(upper(all[members[a]][i]) == upper(all[members[b]][i]));
    }
    assert(comes_first(all[x], all[y], level));
}

proof fn lemma_dirs_sorted(
    all: Seq<Seq<Seq<u8>>>,
    members: Seq<int>,
    level: int,
    limit: int,
    keys: Seq<Seq<u8>>,
    n: int,
)
    requires
        0 <= level,
        alike(all, members, level),
        keys_in_order(keys),
        0 <= n <= keys.len(),
    ensures
        ({
            let dirs = listed_dirs(all, members, level, limit, keys, n);
            &&& sorted(all, dirs)
            &&& forall|i: int|
                0 <= i < dirs.len() ==> members.contains(#[trigger] dirs[i]) && in_dir(
                    all,
                    dirs[i],
                    level,
                ) && keys.take(n).contains(key_of(all, dirs[i], level))
        }),
    decreases limit - level, n,
{
    if n > 0 && level < limit {
        let key = keys[n - 1];
        let below = under(all, members, level, key, members.len() as int);
        let front = listed_dirs(all, members, level, limit, keys, n - 1);
        let back = listed(all, below, level + 1, limit);
        let dirs = listed_dirs(all, members, level, limit, keys, n);
        lemma_under_members(all, members, level, key, members.len() as int);
        lemma_under_alike(all, members, level, key);
        lemma_dirs_sorted(all, members, level, limit, keys, n - 1);
        lemma_listed_sorted(all, below, level + 1, limit);
        assert(dirs == front + back);
        assert forall|i: int| 0 <= i < dirs.len() implies members.contains(#[trigger] dirs[i])
            && in_dir(all, dirs[i], level) && keys.take(n).contains(
            key_of(all, dirs[i], level),
        ) by {
            if i < front.len() {
                assert(dirs[i] == front[i]);
                let p = choose|p: int|
                    0 <= p < n - 1 && #[trigger] keys.take(n - 1)[p] == key_of(all, dirs[i], level);
                assert(keys.take(n)[p] == key_of(all, dirs[i], level));
            } else {
                assert(dirs[i] == back[i - front.len()]);
                assert(below.contains(dirs[i]));
                let p = choose|p: int| 0 <= p < below.len() && below[p] == dirs[i];
                assert(members.contains(below[p]));
                assert(keys.take(n)[n - 1] == key_of(all, dirs[i], level));
            }
        }
        assert forall|i: int, j: int|
            #![trigger dirs[i], dirs[j]]
            0 <= i < j < dirs.len() implies ahead(all, dirs[i], dirs[j]) by {
            if j < front.len() {
                assert(dirs[i] == front[i] && dirs[j] == front[j]);
            } else if i >= front.len() {
                assert(dirs[i] == back[i - front.len()] && dirs[j] == back[j - front.len()]);
            } else {
                assert(dirs[i] == front[i] && dirs[j] == back[j - front.len()]);
                let p = choose|p: int|
                    0 <= p < n - 1 && #[trigger] keys.take(n - 1)[p] == key_of(all, front[i], level);
                assert(below.contains(dirs[j]));
                let q = choose|q: int| 0 <= q < below.len() && below[q] == dirs[j];
                assert(key_of(all, below[q], level) == key);
                assert(lex_less(keys[p], keys[n - 1]));
                lemma_level_first(all, members, level, dirs[i], dirs[j]);
            }
        }
    }
}

proof fn lemma_listed_sorted(all: Seq<Seq<Seq<u8>>>, members: Seq<int>, level: int, limit: int)
    requires
        0 <= level,
        alike(all, members, level),
    ensures
        ({
            let order = listed(all, members, level, limit);
            &&& sorted(all, order)
            &&& forall|i: int| 0 <= i < order.len() ==> members.contains(#[trigger] order[i])
        }),
    decreases limit - level, dir_keys(all, members, level, members.len() as int).len() + 1,
{
    if level < limit {
        let n = members.len() as int;
        let keys = dir_keys(all, members, level, n);
        let front = listed_dirs(all, members, level, limit, keys, keys.len() as int);
        let files = level_files(all, members, level, n);
        let order = listed(all, members, level, limit);
        lemma_dir_keys(all, members, level, n);
        lemma_dirs_sorted(all, members, level, limit, keys, keys.len() as int);
        lemma_files_sorted(all, members, level, n);
        assert(order == front + files);
        assert forall|i: int| 0 <= i < order.len() implies members.contains(
            #[trigger] order[i],
        ) by {
            if i < front.len() {
                assert(order[i] == front[i]);
            } else {
                assert(order[i] == files[i - front.len()]);
            }
        }
        assert forall|i: int, j: int|
            #![trigger order[i], order[j]]
            0 <= i < j < order.len() implies ahead(all, order[i], order[j]) by {
            if j < front.len() {
                assert(order[i] == front[i] && order[j] == front[j]);
            } else if i >= front.len() {
                let a = i - front.len();
                let b = j - front.len();
                let names = file_keys(all, files, level);
                assert(order[i] == files[a] && order[j] == files[b]);
                assert(lex_less(names[a], names[b]));
                lemma_level_first(all, members, level, order[i], order[j]);
            } else {
                assert(order[i] == front[i] && order[j] == files[j - front.len()]);
                lemma_level_first(all, members, level, order[i], order[j]);
            }
        }
    }
}

/// A listing names what is in a directory in front of the files beside it, and directories and
/// files by their names in upper case.
pub proof fn lemma_listing_sorted(entries: Seq<EntryView>, members: Seq<int>)
    requires
        forall|i: int| 0 <= i < members.len() ==> 0 <= #[trigger] members[i] < entries.len(),
    ensures
        ({
            let all = components(entries);
            sorted(all, listed(all, members, 0, deepest(all, all.len() as int)))
        }),
{
    let all = components(entries);
    assert forall|i: int| 0 <= i < members.len() implies 0 < all[#[trigger] members[i]].len() by {
        lemma_parts_nonempty(entries[members[i]].path, 0);
        assert(all[members[i]] == parts(entries[members[i]].path));
    }
    lemma_listed_sorted(all, members, 0, deepest(all, all.len() as int));
}

/// A filter lets an entry through whose path has it somewhere, in any case.
pub proof fn lemma_selected_members(entries: Seq<EntryView>, filter: Option<Seq<u8>>, n: int, x: int)
    requires
        0 <= n <= entries.len(),
    ensures
        selected(entries, filter, n).contains(x) <==> {
            &&& 0 <= x < n
            &&& filter matches Some(text) ==> exists|at: int|
                0 <= at <= entries[x].path.len() - text.len() && same_name(
                    #[trigger] entries[x].path.subrange(at, at + text.len()),
                    text,
                )
        },
    decreases n,
{
    let now = selected(entries, filter, n);
    if n > 0 {
        lemma_selected_members(entries, filter, n - 1, x);
        let before = selected(entries, filter, n - 1);
        if x == n - 1 {
            lemma_passes(entries[x], filter);
        }
        if passes(entries[n - 1], filter) {
            assert(now == before.push(n - 1));
            assert(now[before.len() as int] == n - 1);
            if before.contains(x) {
                let i = choose|i: int| 0 <= i < before.len() && before[i] == x;
                assert(now[i] == x);
            }
            if now.contains(x) {
                let i = choose|i: int| 0 <= i < now.len() && now[i] == x;
                if i < before.len() {
                    assert(before[i] == x);
                }
            }
        }
    }
}

proof fn lemma_passes(entry: EntryView, filter: Option<Seq<u8>>)
    ensures
        passes(entry, filter) <==> (filter matches Some(text) ==> exists|at: int|
            0 <= at <= entry.path.len() - text.len() && same_name(
                #[trigger] entry.path.subrange(at, at + text.len()),
                text,
            )),
{
    if let Some(text) = filter {
        let a = upper(entry.path);
        let b = upper(text);
        assert forall|at: int| 0 <= at <= entry.path.len() - text.len() implies upper(
            #[trigger] entry.path.subrange(at, at + text.len()),
        ) =~= a.subrange(at, at + b.len()) by {}
        if occurs(a, b) {
            let at = choose|at: int| #[trigger] holds_at(a, at, b);
            assert(same_name(entry.path.subrange(at, at + text.len()), text));
        }
        assert forall|at: int|
            0 <= at <= entry.path.len() - text.len() && same_name(
                #[trigger] entry.path.subrange(at, at + text.len()),
                text,
            ) implies occurs(a, b) by {
            assert(holds_at(a, at, b));
        }
    }
}

/// A text is shown in ten characters, behind spaces, or in as many as it has where these are more.
pub proof fn lemma_padded(text: Seq<char>)
    ensures
        padded(text).len() == if text.len() < 10 {
            10
        } else {
            text.len()
        },
        padded(text).subrange(padded(text).len() - text.len(), padded(text).len() as int) == text,
        forall|i: int|
            0 <= i < padded(text).len() - text.len() ==> (#[trigger] padded(text)[i]) as u32
                == 0x20,
{
    let p = padded(text);
    assert(p.subrange(p.len() - text.len(), p.len() as int) =~= text);
}

} // verus!
