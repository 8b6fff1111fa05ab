//! A listing names every entry once.

use crate::archive::ArchiveView;
use crate::index::by_hash;
use crate::listing::{
    components, deepest, dir_keys, file_keys, in_dir, key_of, key_slot, level_files, lemma_key_slot,
    listed, listed_dirs, on_level, selected, under, with_key,
};
use crate::text::{
    lemma_next_separator, lemma_same_name_hash, next_separator, parts, parts_from, path_hash,
    same_name, upper,
};
use crate::tree::lex_less;
use vstd::prelude::*;

verus! {

proof fn lemma_less_or_greater(a: Seq<u8>, b: Seq<u8>)
    requires
        a != b,
        !lex_less(a, b),
    ensures
        lex_less(b, a),
    decreases a.len(),
{
    if a.len() == 0 && b.len() == 0 {
        assert(a =~= b);
    }
    if a.len() > 0 && b.len() > 0 && a[0] == b[0] {
        if a.drop_first() == b.drop_first() {
            assert(a =~= seq![a[0]] + a.drop_first());
            assert(b =~= seq![b[0]] + b.drop_first());
        }
        lemma_less_or_greater(a.drop_first(), b.drop_first());
    }
}

proof fn lemma_less_transitive(a: Seq<u8>, b: Seq<u8>, c: Seq<u8>)
    requires
        lex_less(a, b),
        lex_less(b, c),
    ensures
        lex_less(a, c),
    decreases a.len(),
{
    if a.len() > 0 && b.len() > 0 && c.len() > 0 && a[0] == b[0] && b[0] == c[0] {
        lemma_less_transitive(a.drop_first(), b.drop_first(), c.drop_first());
    }
}

proof fn lemma_not_less_itself(a: Seq<u8>)
    ensures
        !lex_less(a, a),
    decreases a.len(),
{
    if a.len() > 0 {
        lemma_not_less_itself(a.drop_first());
    }
}

/// Every key comes before those behind it.
pub open spec fn keys_in_order(keys: Seq<Seq<u8>>) -> bool {
    forall|i: int, j: int|
        #![trigger keys[i], keys[j]]
        0 <= i < j < keys.len() ==> lex_less(keys[i], keys[j])
}

proof fn lemma_slot_less(keys: Seq<Seq<u8>>, key: Seq<u8>, k: int)
    requires
        0 <= k <= keys.len(),
    ensures
        k <= key_slot(keys, key, k) <= keys.len(),
        forall|i: int| k <= i < key_slot(keys, key, k) ==> lex_less(#[trigger] keys[i], key),
        key_slot(keys, key, k) < keys.len() ==> !lex_less(keys[key_slot(keys, key, k)], key),
    decreases keys.len() - k,
{
    if k < keys.len() && lex_less(keys[k], key) {
        lemma_slot_less(keys, key, k + 1);
    }
}

pub proof fn lemma_with_key(keys: Seq<Seq<u8>>, key: Seq<u8>)
    requires
        keys_in_order(keys),
    ensures
        keys_in_order(with_key(keys, key)),
        with_key(keys, key).contains(key),
        forall|other: Seq<u8>| keys.contains(other) ==> with_key(keys, key).contains(other),
{
    let k = key_slot(keys, key, 0);
    let after = with_key(keys, key);
    lemma_slot_less(keys, key, 0);
    if k < keys.len() && keys[k] == key {
    } else {
        assert(after[k] == key);
        assert forall|other: Seq<u8>| keys.contains(other) implies after.contains(other) by {
            let i = choose|i: int| 0 <= i < keys.len() && keys[i] == other;
            if i < k {
                assert(after[i] == other);
            } else {
                assert(after[i + 1] == other);
            }
        }
        assert forall|i: int, j: int|
            #![trigger after[i], after[j]]
            0 <= i < j < after.len() implies lex_less(after[i], after[j]) by {
            if j < k {
                assert(lex_less(keys[i], keys[j]));
            } else if i > k {
                assert(lex_less(keys[i - 1], keys[j - 1]));
            } else if j == k {
                assert(lex_less(keys[i], key));
            } else {
                lemma_less_or_greater(keys[k], key);
                assert(lex_less(key, keys[k]));
                if i == k {
                    if j - 1 > k {
                        assert(lex_less(keys[k], keys[j - 1]));
                        lemma_less_transitive(key, keys[k], keys[j - 1]);
                    }
                } else {
                    assert(lex_less(keys[i], keys[j - 1]));
                }
            }
        }
    }
}

pub proof fn lemma_dir_keys(all: Seq<Seq<Seq<u8>>>, members: Seq<int>, level: int, n: int)
    requires
        0 <= n <= members.len(),
    ensures
        keys_in_order(dir_keys(all, members, level, n)),
        forall|i: int|
            0 <= i < n && in_dir(all, #[trigger] members[i], level) ==> dir_keys(
                all,
                members,
                level,
                n,
            ).contains(key_of(all, members[i], level)),
    decreases n,
{
    if n > 0 {
        lemma_dir_keys(all, members, level, n - 1);
        let before = dir_keys(all, members, level, n - 1);
        if in_dir(all, members[n - 1], level) {
            lemma_with_key(before, key_of(all, members[n - 1], level));
        }
    }
}

/// The members of a directory are those that lie in it, each once.
proof fn lemma_under(
    all: Seq<Seq<Seq<u8>>>,
    members: Seq<int>,
    level: int,
    key: Seq<u8>,
    n: int,
)
    requires
        0 <= n <= members.len(),
        members.no_duplicates(),
    ensures
        under(all, members, level, key, n).no_duplicates(),
        forall|x: int|
            #[trigger] under(all, members, level, key, n).contains(x) <==> members.take(n).contains(
                x,
            ) && in_dir(all, x, level) && key_of(all, x, level) == key,
    decreases n,
{
    let now = under(all, members, level, key, n);
    if n > 0 {
        lemma_under(all, members, level, key, n - 1);
        let before = under(all, members, level, key, n - 1);
        let m = members[n - 1];
        assert(members.take(n) =~= members.take(n - 1).push(m));
        assert(!members.take(n - 1).contains(m)) by {
            if members.take(n - 1).contains(m) {
                let i = choose|i: int|
                    0 <= i < n - 1 && #[trigger] members.take(n - 1)[i] == m;
                assert(members[i] == members[n - 1]);
            }
        }
        let taken = in_dir(all, m, level) && key_of(all, m, level) == key;
        assert forall|x: int| #[trigger] now.contains(x) <==> members.take(n).contains(x) && in_dir(
            all,
            x,
            level,
        ) && key_of(all, x, level) == key by {
            lemma_push_contains(members.take(n - 1), m, x);
            if taken {
                lemma_push_contains(before, m, x);
            }
            assert(before.contains(x) <==> members.take(n - 1).contains(x) && in_dir(
                all,
                x,
                level,
            ) && key_of(all, x, level) == key);
        }
        if taken {
            assert(!before.contains(m));
            assert(now.no_duplicates()) by {
                assert forall|i: int, j: int|
                    0 <= i < now.len() && 0 <= j < now.len() && i != j implies now[i]
                    != now[j] by {
                    if i == now.len() - 1 {
                        assert(before.contains(before[j]));
                    } else if j == now.len() - 1 {
                        assert(before.contains(before[i]));
                    }
                }
            }
        }
    } else {
        assert(members.take(0) =~= Seq::<int>::empty());
    }
}

proof fn lemma_push_contains(s: Seq<int>, m: int, x: int)
    ensures
        s.push(m).contains(x) <==> s.contains(x) || x == m,
{
    let t = s.push(m);
    if t.contains(x) {
        let i = choose|i: int| 0 <= i < t.len() && t[i] == x;
        if i < s.len() {
            assert(s[i] == x);
        }
    }
    if s.contains(x) {
        let i = choose|i: int| 0 <= i < s.len() && s[i] == x;
        assert(t[i] == x);
    }
    assert(t[s.len() as int] == m);
}

proof fn lemma_insert_contains(s: Seq<int>, k: int, m: int, x: int)
    requires
        0 <= k <= s.len(),
    ensures
        s.insert(k, m).contains(x) <==> s.contains(x) || x == m,
{
    let t = s.insert(k, m);
    if t.contains(x) {
        let i = choose|i: int| 0 <= i < t.len() && t[i] == x;
        if i < k {
            assert(s[i] == x);
        } else if i > k {
            assert(s[i - 1] == x);
        }
    }
    if s.contains(x) {
        let i = choose|i: int| 0 <= i < s.len() && s[i] == x;
        if i < k {
            assert(t[i] == x);
        } else {
            assert(t[i + 1] == x);
        }
    }
    assert(t[k] == m);
}

proof fn lemma_concat_contains(a: Seq<int>, b: Seq<int>, x: int)
    ensures
        (a + b).contains(x) <==> a.contains(x) || b.contains(x),
{
    let t = a + b;
    if t.contains(x) {
        let i = choose|i: int| 0 <= i < t.len() && t[i] == x;
        if i < a.len() {
            assert(a[i] == x);
        } else {
            assert(b[i - a.len()] == x);
        }
    }
    if a.contains(x) {
        let i = choose|i: int| 0 <= i < a.len() && a[i] == x;
        assert(t[i] == x);
    }
    if b.contains(x) {
        let i = choose|i: int| 0 <= i < b.len() && b[i] == x;
        assert(t[a.len() + i] == x);
    }
}

proof fn lemma_concat_distinct(a: Seq<int>, b: Seq<int>)
    requires
        a.no_duplicates(),
        b.no_duplicates(),
        forall|x: int| a.contains(x) ==> !#[trigger] b.contains(x),
    ensures
        (a + b).no_duplicates(),
{
    let t = a + b;
    assert forall|i: int, j: int| 0 <= i < t.len() && 0 <= j < t.len() && i != j implies t[i]
        != t[j] by {
        if i < a.len() && j >= a.len() {
            assert(a.contains(a[i]));
            assert(b.contains(b[j - a.len()]));
        } else if j < a.len() && i >= a.len() {
            assert(a.contains(a[j]));
            assert(b.contains(b[i - a.len()]));
        }
    }
}

/// The two entries have different components, in any case, from this level on.
pub open spec fn differ(all: Seq<Seq<Seq<u8>>>, a: int, b: int, level: int) -> bool {
    all[a].len() != all[b].len() || exists|k: int|
        level <= k < all[a].len() && upper(#[trigger] all[a][k]) != upper(all[b][k])
}

/// The members have different paths that reach this level and none beyond the limit.
spec fn distinct_at(
    all: Seq<Seq<Seq<u8>>>,
    members: Seq<int>,
    level: int,
    limit: int,
) -> bool {
    &&& members.no_duplicates()
    &&& forall|i: int|
        0 <= i < members.len() ==> level < all[#[trigger] members[i]].len() <= limit
    &&& forall|x: int, y: int|
        #![trigger members.contains(x), members.contains(y)]
        members.contains(x) && members.contains(y) && x != y ==> differ(all, x, y, level)
}

/// The files on a level are the members that are such, each once.
proof fn lemma_level_files(all: Seq<Seq<Seq<u8>>>, members: Seq<int>, level: int, limit: int, n: int)
    requires
        0 <= n <= members.len(),
        0 <= level,
        distinct_at(all, members, level, limit),
    ensures
        level_files(all, members, level, n).no_duplicates(),
        forall|x: int|
            #[trigger] level_files(all, members, level, n).contains(x) <==> members.take(
                n,
            ).contains(x) && on_level(all, x, level),
    decreases n,
{
    let now = level_files(all, members, level, n);
    if n > 0 {
        lemma_level_files(all, members, level, limit, n - 1);
        let before = level_files(all, members, level, n - 1);
        let m = members[n - 1];
        assert(members.take(n) =~= members.take(n - 1).push(m));
        assert(members.contains(m));
        assert(!members.take(n - 1).contains(m)) by {
            if members.take(n - 1).contains(m) {
                let i = choose|i: int|
                    0 <= i < n - 1 && #[trigger] members.take(n - 1)[i] == m;
                assert(members[i] == members[n - 1]);
            }
        }
        if on_level(all, m, level) {
            let key = key_of(all, m, level);
            let keys = file_keys(all, before, level);
            let k = key_slot(keys, key, 0);
            lemma_key_slot(keys, key, 0);
            assert(!(k < before.len() && key_of(all, before[k], level) == key)) by {
                if k < before.len() && key_of(all, before[k], level) == key {
                    let x = before[k];
                    assert(before.contains(x));
                    assert(members.take(n - 1).contains(x));
                    let i = choose|i: int|
                    0 <= i < n - 1 && #[trigger] members.take(n - 1)[i] == x;
                    assert(members[i] == x);
                    assert(members.contains(x));
                    assert(x != m);
                    assert(differ(all, x, m, level));
                    let c = choose|c: int|
                        level <= c < all[x].len() && upper(#[trigger] all[x][c]) != upper(
                            all[m][c],
                        );
                    assert(c == level);
                }
            }
            assert(now == before.insert(k, m));
            assert(!before.contains(m));
            assert(now.no_duplicates()) by {
                assert forall|i: int, j: int|
                    0 <= i < now.len() && 0 <= j < now.len() && i != j implies now[i]
                    != now[j] by {
                    let a = if i < k {
                        i
                    } else {
                        i - 1
                    };
                    let b = if j < k {
                        j
                    } else {
                        j - 1
                    };
                    if i == k {
                        assert(before.contains(before[b]));
                    } else if j == k {
                        assert(before.contains(before[a]));
                    } else {
                        assert(before[a] != before[b]);
                    }
                }
            }
            assert forall|x: int| #[trigger] now.contains(x) <==> members.take(n).contains(x)
                && on_level(all, x, level) by {
                lemma_push_contains(members.take(n - 1), m, x);
                lemma_insert_contains(before, k, m, x);
                assert(before.contains(x) <==> members.take(n - 1).contains(x) && on_level(
                    all,
                    x,
                    level,
                ));
            }
        } else {
            assert forall|x: int| #[trigger] now.contains(x) <==> members.take(n).contains(x)
                && on_level(all, x, level) by {
                lemma_push_contains(members.take(n - 1), m, x);
                assert(before.contains(x) <==> members.take(n - 1).contains(x) && on_level(
                    all,
                    x,
                    level,
                ));
            }
        }
    } else {
        assert(members.take(0) =~= Seq::<int>::empty());
    }
}

/// A directory's members have different paths on the next level too.
proof fn lemma_under_distinct(
    all: Seq<Seq<Seq<u8>>>,
    members: Seq<int>,
    level: int,
    limit: int,
    key: Seq<u8>,
)
    requires
        0 <= level,
        distinct_at(all, members, level, limit),
    ensures
        distinct_at(
            all,
            under(all, members, level, key, members.len() as int),
            level + 1,
            limit,
        ),
{
    let n = members.len() as int;
    let below = under(all, members, level, key, n);
    lemma_under(all, members, level, key, n);
    assert(members.take(n) =~= members);
    assert forall|i: int| 0 <= i < below.len() implies level + 1 < all[#[trigger] below[i]].len()
        <= limit by {
        assert(below.contains(below[i]));
        let m = choose|m: int| 0 <= m < members.len() && members[m] == below[i];
        assert(level < all[members[m]].len() <= limit);
    }
    assert forall|x: int, y: int|
        #![trigger below.contains(x), below.contains(y)]
        below.contains(x) && below.contains(y) && x != y implies differ(all, x, y, level + 1) by {
        assert(members.contains(x) && members.contains(y));
        assert(differ(all, x, y, level));
        if all[x].len() == all[y].len() {
            let k = choose|k: int|
                level <= k < all[x].len() && upper(#[trigger] all[x][k]) != upper(all[y][k]);
            assert(k != level);
            assert(upper(all[x][k]) != upper(all[y][k]));
        }
    }
}

/// Listing members gives each of them once.
pub proof fn lemma_listed(
    all: Seq<Seq<Seq<u8>>>,
    members: Seq<int>,
    level: int,
    limit: int,
)
    requires
        0 <= level,
        members.no_duplicates(),
        forall|i: int|
            0 <= i < members.len() ==> level < all[#[trigger] members[i]].len() <= limit,
        forall|x: int, y: int|
            #![trigger members.contains(x), members.contains(y)]
            members.contains(x) && members.contains(y) && x != y ==> differ(all, x, y, level),
    ensures
        listed(all, members, level, limit).no_duplicates(),
        forall|x: int|
            #[trigger] listed(all, members, level, limit).contains(x) <==> members.contains(x),
    decreases limit - level, 1int, 0int,
{
    let n = members.len() as int;
    assert(distinct_at(all, members, level, limit));
    assert(members.take(n) =~= members);
    if level >= limit {
        assert(members =~= Seq::<int>::empty()) by {
            if n > 0 {
                assert(level < all[members[0]].len() <= limit);
            }
        }
        assert forall|x: int| #[trigger]
            listed(all, members, level, limit).contains(x) <==> members.contains(x) by {}
    } else {
        let keys = dir_keys(all, members, level, n);
        let dirs = listed_dirs(all, members, level, limit, keys, keys.len() as int);
        let files = level_files(all, members, level, n);
        let now = listed(all, members, level, limit);
        lemma_dir_keys(all, members, level, n);
        lemma_level_files(all, members, level, limit, n);
        lemma_listed_dirs(all, members, level, limit, keys, keys.len() as int);
        assert(now == dirs + files);
        assert forall|x: int| dirs.contains(x) implies !#[trigger] files.contains(x) by {}
        lemma_concat_distinct(dirs, files);
        assert forall|x: int| #[trigger] now.contains(x) <==> members.contains(x) by {
            lemma_concat_contains(dirs, files, x);
            if members.contains(x) {
                let i = choose|i: int| 0 <= i < members.len() && members[i] == x;
                assert(level < all[members[i]].len());
                if in_dir(all, x, level) {
                    assert(keys.contains(key_of(all, members[i], level)));
                    let k = choose|k: int|
                        0 <= k < keys.len() && keys[k] == key_of(all, x, level);
                    assert(keys[k] == key_of(all, x, level));
                    assert(dirs.contains(x));
                } else {
                    assert(files.contains(x));
                }
            }
        }
    }
}

/// What lies in directories is listed, each member once.
proof fn lemma_listed_dirs(
    all: Seq<Seq<Seq<u8>>>,
    members: Seq<int>,
    level: int,
    limit: int,
    keys: Seq<Seq<u8>>,
    n: int,
)
    requires
        0 <= level < limit,
        0 <= n <= keys.len(),
        distinct_at(all, members, level, limit),
        keys_in_order(keys),
    ensures
        listed_dirs(all, members, level, limit, keys, n).no_duplicates(),
        forall|x: int|
            #[trigger] listed_dirs(all, members, level, limit, keys, n).contains(x) <==> (
            members.contains(x) && in_dir(all, x, level) && exists|k: int|
                0 <= k < n && #[trigger] keys[k] == key_of(all, x, level)),
    decreases limit - level, 0int, n,
{
    let now = listed_dirs(all, members, level, limit, keys, n);
    if n > 0 {
        lemma_listed_dirs(all, members, level, limit, keys, n - 1);
        let before = listed_dirs(all, members, level, limit, keys, n - 1);
        let key = keys[n - 1];
        let below = under(all, members, level, key, members.len() as int);
        let own = listed(all, below, level + 1, limit);
        lemma_under(all, members, level, key, members.len() as int);
        lemma_under_distinct(all, members, level, limit, key);
        lemma_listed(all, below, level + 1, limit);
        assert(members.take(members.len() as int) =~= members);
        assert(now == before + own);
        assert forall|x: int| before.contains(x) implies !#[trigger] own.contains(x) by {
            if own.contains(x) {
                assert(below.contains(x));
                let k = choose|k: int|
                    0 <= k < n - 1 && #[trigger] keys[k] == key_of(all, x, level);
                assert(lex_less(keys[k], keys[n - 1]));
                lemma_not_less_itself(key);
            }
        }
        lemma_concat_distinct(before, own);
        assert forall|x: int| #[trigger] now.contains(x) <==> (members.contains(x) && in_dir(
            all,
            x,
            level,
        ) && exists|k: int| 0 <= k < n && #[trigger] keys[k] == key_of(all, x, level)) by {
            lemma_concat_contains(before, own, x);
            if own.contains(x) {
                assert(below.contains(x));
                assert(keys[n - 1] == key_of(all, x, level));
            }
            if members.contains(x) && in_dir(all, x, level) && exists|k: int|
                0 <= k < n && #[trigger] keys[k] == key_of(all, x, level) {
                let k = choose|k: int| 0 <= k < n && #[trigger] keys[k] == key_of(all, x, level);
                if k == n - 1 {
                    assert(below.contains(x));
                }
            }
        }
    }
}

/// What a filter selects is selected once, in ascending order.
proof fn lemma_selected(archive: ArchiveView, filter: Option<Seq<u8>>, n: int)
    requires
        0 <= n <= archive.entries.len(),
    ensures
        selected(archive.entries, filter, n).no_duplicates(),
        forall|i: int|
            0 <= i < selected(archive.entries, filter, n).len() ==> 0 <= #[trigger] selected(
                archive.entries,
                filter,
                n,
            )[i] < n,
    decreases n,
{
    if n > 0 {
        lemma_selected(archive, filter, n - 1);
    }
}

proof fn lemma_deepest(all: Seq<Seq<Seq<u8>>>, n: int)
    requires
        0 <= n <= all.len(),
    ensures
        forall|i: int| 0 <= i < n ==> (#[trigger] all[i]).len() <= deepest(all, n),
        0 <= deepest(all, n),
    decreases n,
{
    if n > 0 {
        lemma_deepest(all, n - 1);
    }
}

/// Paths with the same components, in any case, differ at most in case.
proof fn lemma_same_parts(a: Seq<u8>, b: Seq<u8>)
    requires
        parts(a).len() == parts(b).len(),
        forall|k: int|
            0 <= k < parts(a).len() ==> upper(#[trigger] parts(a)[k]) == upper(parts(b)[k]),
    ensures
        same_name(a, b),
{
    lemma_same_parts_from(a, 0, b, 0);
    assert(a.subrange(0, a.len() as int) =~= a);
    assert(b.subrange(0, b.len() as int) =~= b);
}

proof fn lemma_same_parts_from(a: Seq<u8>, i: int, b: Seq<u8>, j: int)
    requires
        0 <= i <= a.len(),
        0 <= j <= b.len(),
        parts_from(a, i).len() == parts_from(b, j).len(),
        forall|k: int|
            0 <= k < parts_from(a, i).len() ==> upper(
                #[trigger] parts_from(a, i)[k],
            ) == upper(parts_from(b, j)[k]),
    ensures
        same_name(a.subrange(i, a.len() as int), b.subrange(j, b.len() as int)),
    decreases a.len() - i,
{
    let pa = parts_from(a, i);
    let pb = parts_from(b, j);
    lemma_next_separator(a, i);
    lemma_next_separator(b, j);
    let ea = next_separator(a, i);
    let eb = next_separator(b, j);
    lemma_parts_nonempty(a, i);
    lemma_parts_nonempty(b, j);
    assert(upper(pa[0]) == upper(pb[0]));
    assert(pa[0] =~= a.subrange(i, ea));
    assert(pb[0] =~= b.subrange(j, eb));
    let ua = upper(a.subrange(i, ea));
    let ub = upper(b.subrange(j, eb));
    assert(ua.len() == ea - i && ub.len() == eb - j);
    if ea < a.len() {
        let ra = parts_from(a, ea + 1);
        lemma_parts_nonempty(a, ea + 1);
        assert(pa.len() == 1 + ra.len());
        assert(eb < b.len());
        let rb = parts_from(b, eb + 1);
        assert forall|k: int| 0 <= k < ra.len() implies upper(#[trigger] ra[k]) == upper(
            rb[k],
        ) by {
            assert(pa[k + 1] == ra[k]);
            assert(pb[k + 1] == rb[k]);
            assert(upper(pa[k + 1]) == upper(pb[k + 1]));
        }
        lemma_same_parts_from(a, ea + 1, b, eb + 1);
        let sa = a.subrange(i, a.len() as int);
        let sb = b.subrange(j, b.len() as int);
        let ta = upper(a.subrange(ea + 1, a.len() as int));
        let tb = upper(b.subrange(eb + 1, b.len() as int));
        assert(ta.len() == a.len() - ea - 1 && tb.len() == b.len() - eb - 1);
        assert forall|k: int| 0 <= k < sa.len() implies upper(sa)[k] == upper(sb)[k] by {
            if k < ea - i {
                assert(ua[k] == ub[k]);
            } else if k > ea - i {
                assert(ta[k - (ea - i) - 1] == tb[k - (ea - i) - 1]);
            }
        }
        assert(upper(sa) =~= upper(sb));
    } else {
        if eb < b.len() {
            lemma_parts_nonempty(b, eb + 1);
            assert(pb.len() == 1 + parts_from(b, eb + 1).len());
        }
    }
}

pub proof fn lemma_parts_nonempty(s: Seq<u8>, from: int)
    ensures
        parts_from(s, from).len() >= 1,
{
}

/// A listing names every entry that the filter lets through, each once.
pub proof fn lemma_listing_complete(archive: ArchiveView, filter: Option<Seq<u8>>)
    requires
        archive.sound(),
    ensures
        ({
            let all = components(archive.entries);
            let members = selected(archive.entries, filter, archive.entries.len() as int);
            let order = listed(all, members, 0, deepest(all, all.len() as int));
            &&& order.no_duplicates()
            &&& forall|x: int| #[trigger] order.contains(x) <==> members.contains(x)
        }),
{
    let n = archive.entries.len() as int;
    let all = components(archive.entries);
    let members = selected(archive.entries, filter, n);
    lemma_selected(archive, filter, n);
    lemma_deepest(all, n);
    assert forall|i: int| 0 <= i < members.len() implies 0 < all[#[trigger] members[i]].len()
        <= deepest(all, n) by {
        lemma_parts_nonempty(archive.entries[members[i]].path, 0);
    }
    assert forall|x: int, y: int|
        #![trigger members.contains(x), members.contains(y)]
        members.contains(x) && members.contains(y) && x != y implies differ(all, x, y, 0) by {
        let i = choose|i: int| 0 <= i < members.len() && members[i] == x;
        let j = choose|j: int| 0 <= j < members.len() && members[j] == y;
        assert(0 <= members[i] < n && 0 <= members[j] < n);
        let a = archive.entries[x].path;
        let b = archive.entries[y].path;
        if !differ(all, x, y, 0) {
            assert forall|k: int| 0 <= k < parts(a).len() implies upper(#[trigger] parts(a)[k])
                == upper(parts(b)[k]) by {
                assert(all[x][k] == parts(a)[k]);
            }
            lemma_same_parts(a, b);
            lemma_same_name_hash(a, b);
            assert(by_hash(archive.entries));
            if x < y {
                assert(path_hash(archive.entries[x].path) < path_hash(archive.entries[y].path));
            } else {
                assert(path_hash(archive.entries[y].path) < path_hash(archive.entries[x].path));
            }
        }
    }
    lemma_listed(all, members, 0, deepest(all, n));
}

} // verus!
