//! Paths and their components.

use crate::error::ErrorView;
use crate::text::{
    backslashed, bad_part, lemma_next_separator, next_separator, normalized, parts, parts_from,
    same_name, upper, upper_byte, BACKSLASH, SLASH,
};
use crate::walk::{bad_name, join};
use vstd::prelude::*;
use vstd::utf8::{
    is_char_boundary, is_char_boundary_iff_not_is_continuation_byte,
    is_char_boundary_start_end_of_seq, valid_utf8, valid_utf8_split,
};

verus! {

/// A name that a node of a written tree has.
pub open spec fn good_name(name: Seq<u8>) -> bool {
    !bad_name(name) && !name.contains(0) && valid_utf8(name)
}

/// A path that is stored as it is given.
pub open spec fn clean(path: Seq<u8>) -> bool {
    valid_utf8(path) && !path.contains(SLASH)
}

/// No component of the path is empty, `.` or `..`.
pub open spec fn proper(path: Seq<u8>) -> bool {
    forall|i: int| 0 <= i < parts(path).len() ==> !bad_part(#[trigger] parts(path)[i])
}

pub proof fn lemma_separator_at(s: Seq<u8>, from: int, end: int)
    requires
        0 <= from <= end <= s.len(),
        end < s.len() ==> s[end] == BACKSLASH,
        forall|i: int| from <= i < end ==> s[i] != BACKSLASH,
    ensures
        next_separator(s, from) == end,
    decreases end - from,
{
    if from < end {
        lemma_separator_at(s, from + 1, end);
    }
}

/// A name below a directory is one component more.
proof fn lemma_parts_join(parent: Seq<u8>, name: Seq<u8>, from: int)
    requires
        0 <= from <= parent.len(),
        !name.contains(BACKSLASH),
    ensures
        parts_from(parent + seq![BACKSLASH] + name, from) == parts_from(parent, from).push(name),
    decreases parent.len() - from,
{
    let s = parent + seq![BACKSLASH] + name;
    let end = next_separator(parent, from);
    lemma_next_separator(parent, from);
    assert forall|i: int| from <= i < end implies s[i] != BACKSLASH by {
        assert(s[i] == parent[i]);
    }
    lemma_separator_at(s, from, end);
    assert(s.subrange(from, end) =~= parent.subrange(from, end));
    if end < parent.len() {
        lemma_parts_join(parent, name, end + 1);
        assert(parts_from(s, from) =~= parts_from(parent, from).push(name));
    } else {
        let at = parent.len() as int + 1;
        assert forall|i: int| at <= i < s.len() implies s[i] != BACKSLASH by {
            assert(name.contains(name[i - at]));
        }
        lemma_separator_at(s, at, s.len() as int);
        assert(s.subrange(at, s.len() as int) =~= name);
        assert(parts_from(s, at) =~= seq![name]);
        assert(parts_from(s, from) =~= parts_from(parent, from).push(name));
    }
}

/// A name that a node may have makes a proper path below a proper one, or below the root.
pub proof fn lemma_join_proper(parent: Seq<u8>, name: Seq<u8>)
    requires
        parent.len() == 0 || proper(parent),
        !bad_name(name),
    ensures
        proper(join(parent, name)),
        join(parent, name).len() > 0,
{
    let path = join(parent, name);
    if parent.len() == 0 {
        assert forall|i: int| 0 <= i < name.len() implies name[i] != BACKSLASH by {
            assert(name.contains(name[i]));
        }
        lemma_separator_at(name, 0, name.len() as int);
        assert(name.subrange(0, name.len() as int) =~= name);
        assert(parts(path) =~= seq![name]);
    } else {
        lemma_parts_join(parent, name, 0);
        let before = parts(parent);
        assert(parts(path) == before.push(name));
        assert forall|i: int| 0 <= i < parts(path).len() implies !bad_part(
            #[trigger] parts(path)[i],
        ) by {
            if i < before.len() {
                assert(!bad_part(before[i]));
            }
        }
    }
}

/// Components below a directory.
pub open spec fn joined(parent: Seq<u8>, path: Seq<Seq<u8>>) -> Seq<u8>
    decreases path.len(),
{
    if path.len() == 0 {
        parent
    } else {
        joined(join(parent, path[0]), path.drop_first())
    }
}

/// A path without slashes is left as it is.
pub proof fn lemma_clean_normalized(path: Seq<u8>)
    requires
        !path.contains(SLASH),
    ensures
        normalized(path) matches Ok(p) ==> p == path,
{
    assert(backslashed(path) =~= path) by {
        assert forall|i: int| 0 <= i < path.len() implies backslashed(path)[i] == path[i] by {
            assert(path.contains(path[i]));
        }
    }
}

/// What `normalized` makes of a path has no slashes, and is left as it is by a second turn.
pub proof fn lemma_normalized(path: Seq<u8>)
    ensures
        normalized(path) matches Ok(p) ==> !p.contains(SLASH) && normalized(p) == Ok::<
            Seq<u8>,
            ErrorView,
        >(p),
{
    let s = backslashed(path);
    assert(!s.contains(SLASH)) by {
        assert forall|i: int| 0 <= i < s.len() implies s[i] != SLASH by {}
    }
    lemma_clean_normalized(s);
    assert(backslashed(s) =~= s) by {
        assert forall|i: int| 0 <= i < s.len() implies backslashed(s)[i] == s[i] by {
            assert(s.contains(s[i]));
        }
    }
}

/// A text cut at two places that stand in front of ASCII bytes or at its ends is a text.
pub proof fn lemma_cut_text(s: Seq<u8>, from: int, end: int)
    requires
        valid_utf8(s),
        0 <= from <= end <= s.len(),
        from > 0 ==> s[from - 1] < 0x80,
        end < s.len() ==> s[end] < 0x80,
    ensures
        valid_utf8(s.subrange(from, end)),
{
    let head = s.subrange(0, end);
    if end < s.len() {
        is_char_boundary_iff_not_is_continuation_byte(s, end);
    } else {
        is_char_boundary_start_end_of_seq(s);
    }
    valid_utf8_split(s, end);
    if from > 0 {
        lemma_boundary_behind(head, from);
    } else {
        is_char_boundary_start_end_of_seq(head);
    }
    valid_utf8_split(head, from);
    assert(head.subrange(from, head.len() as int) =~= s.subrange(from, end));
}

/// Behind an ASCII byte a character ends.
proof fn lemma_boundary_behind(s: Seq<u8>, at: int)
    requires
        valid_utf8(s),
        0 < at <= s.len(),
        s[at - 1] < 0x80,
    ensures
        is_char_boundary(s, at),
    decreases s.len(),
{
    let n = vstd::utf8::length_of_first_scalar(s);
    let rest = vstd::utf8::pop_first_scalar(s);
    reveal_with_fuel(is_char_boundary, 2);
    if at < n {
        assert(s[at - 1] >= 0x80);
    } else if at > n {
        lemma_boundary_behind(rest, at - n);
    }
}

/// The components of a path that may be stored are names that nodes may have.
pub proof fn lemma_parts_good(s: Seq<u8>, from: int)
    requires
        clean(s),
        !s.contains(0),
        0 <= from <= s.len(),
        from > 0 ==> s[from - 1] == BACKSLASH,
        forall|i: int|
            0 <= i < parts_from(s, from).len() ==> !bad_part(#[trigger] parts_from(s, from)[i]),
    ensures
        parts_from(s, from).len() > 0,
        forall|i: int|
            0 <= i < parts_from(s, from).len() ==> good_name(#[trigger] parts_from(s, from)[i]),
    decreases s.len() - from,
{
    lemma_next_separator(s, from);
    let end = next_separator(s, from);
    let all = parts_from(s, from);
    let name = s.subrange(from, end);
    assert(all[0] == name);
    lemma_cut_text(s, from, end);
    assert(good_name(name)) by {
        assert forall|i: int| 0 <= i < name.len() implies name[i] != SLASH && name[i] != BACKSLASH
            && name[i] != 0 by {
            assert(name[i] == s[from + i]);
            assert(s.contains(s[from + i]));
        }
        assert(!bad_part(all[0]));
    }
    if end < s.len() {
        let rest = parts_from(s, end + 1);
        assert(all == seq![name] + rest);
        assert forall|i: int| 0 <= i < rest.len() implies !bad_part(#[trigger] rest[i]) by {
            assert(all[i + 1] == rest[i]);
        }
        lemma_parts_good(s, end + 1);
        assert forall|i: int| 0 <= i < all.len() implies good_name(#[trigger] all[i]) by {
            if i > 0 {
                assert(all[i] == rest[i - 1]);
            }
        }
    }
}

/// The components of a text are texts.
pub proof fn lemma_parts_texts(s: Seq<u8>, from: int)
    requires
        valid_utf8(s),
        0 <= from <= s.len(),
        from > 0 ==> s[from - 1] == BACKSLASH,
    ensures
        forall|i: int|
            0 <= i < parts_from(s, from).len() ==> valid_utf8(#[trigger] parts_from(s, from)[i]),
    decreases s.len() - from,
{
    lemma_next_separator(s, from);
    let end = next_separator(s, from);
    let all = parts_from(s, from);
    lemma_cut_text(s, from, end);
    if end < s.len() {
        let rest = parts_from(s, end + 1);
        lemma_parts_texts(s, end + 1);
        assert forall|i: int| 0 <= i < all.len() implies valid_utf8(#[trigger] all[i]) by {
            if i > 0 {
                assert(all[i] == rest[i - 1]);
            }
        }
    }
}

/// The components of a path make the path.
pub proof fn lemma_parts_joined(s: Seq<u8>, from: int, parent: Seq<u8>)
    requires
        0 <= from <= s.len(),
        forall|i: int|
            0 <= i < parts_from(s, from).len() ==> (#[trigger] parts_from(s, from)[i]).len() > 0,
    ensures
        joined(parent, parts_from(s, from)) == join(parent, s.subrange(from, s.len() as int)),
    decreases s.len() - from,
{
    lemma_next_separator(s, from);
    let end = next_separator(s, from);
    let all = parts_from(s, from);
    let name = s.subrange(from, end);
    reveal_with_fuel(joined, 2);
    if end >= s.len() {
        assert(all.drop_first() =~= Seq::<Seq<u8>>::empty());
        assert(name =~= s.subrange(from, s.len() as int));
    } else {
        let rest = parts_from(s, end + 1);
        assert(all =~= seq![name] + rest);
        assert(all[0] == name);
        assert(all.drop_first() =~= rest);
        assert forall|i: int| 0 <= i < rest.len() implies (#[trigger] rest[i]).len() > 0 by {
            assert(all[i + 1] == rest[i]);
        }
        lemma_parts_joined(s, end + 1, join(parent, name));
        assert(name.len() > 0);
        assert(join(parent, name).len() > 0);
        assert(join(join(parent, name), s.subrange(end + 1, s.len() as int)) =~= join(
            parent,
            s.subrange(from, s.len() as int),
        ));
    }
}

/// Names that differ only in case make paths that differ only in case.
pub proof fn lemma_join_same(a: Seq<u8>, b: Seq<u8>, name: Seq<u8>, other: Seq<u8>)
    requires
        same_name(a, b),
        same_name(name, other),
    ensures
        same_name(join(a, name), join(b, other)),
{
    assert(upper(a).len() == a.len() && upper(b).len() == b.len());
    assert(upper(name).len() == name.len() && upper(other).len() == other.len());
    let x = join(a, name);
    let y = join(b, other);
    assert forall|i: int| 0 <= i < x.len() implies upper_byte(x[i]) == upper_byte(y[i]) by {
        let n = if a.len() == 0 {
            0
        } else {
            a.len() as int + 1
        };
        if i < a.len() {
            assert(upper(a)[i] == upper(b)[i]);
        } else if i >= n {
            assert(upper(name)[i - n] == upper(other)[i - n]);
        }
    }
    assert(upper(x) =~= upper(y));
}

/// The same components below directories that differ only in case.
pub proof fn lemma_joined_same(a: Seq<u8>, b: Seq<u8>, path: Seq<Seq<u8>>)
    requires
        same_name(a, b),
    ensures
        same_name(joined(a, path), joined(b, path)),
    decreases path.len(),
{
    if path.len() > 0 {
        lemma_join_same(a, b, path[0], path[0]);
        lemma_joined_same(join(a, path[0]), join(b, path[0]), path.drop_first());
    }
}

} // verus!
