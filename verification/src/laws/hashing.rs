//! The game's hash of a path, byte by byte, and the paths that name one file.

use crate::text::{
    lemma_next_separator, next_separator, normalized, parts, parts_from, path_hash, same_name,
    upper,
};
use vstd::prelude::*;

verus! {

/// The hash goes on from byte to byte: a byte, a small letter taken as its capital, is mixed in
/// by exclusive or, and the outcome is multiplied modulo 2 to the power 32. That holds of every
/// byte, a separator of directories among them.
pub proof fn lemma_hash_step(path: Seq<u8>, byte: u8)
    ensures
        path_hash(Seq::empty()) == 0x811c_9dc5u32,
        byte < 0x61 || byte > 0x7a ==> path_hash(path.push(byte)) == ((path_hash(path) ^ (
        byte as u32)) * 0x19_9933) % 0x1_0000_0000,
        0x61 <= byte <= 0x7a ==> path_hash(path.push(byte)) == ((path_hash(path) ^ ((byte
            - 0x20) as u32)) * 0x19_9933) % 0x1_0000_0000,
{
    assert(path.push(byte).drop_last() =~= path);
    assert(path.push(byte).last() == byte);
}

/// Two paths are the same name where they have the same length and differ, if at all, in places
/// where one has a small letter and the other its capital.
pub proof fn lemma_same_name(a: Seq<u8>, b: Seq<u8>)
    ensures
        same_name(a, b) <==> a.len() == b.len() && forall|i: int|
            0 <= i < a.len() ==> (#[trigger] a[i]) == b[i] || (0x41 <= a[i] <= 0x5a && b[i] == a[i]
                + 0x20) || (0x61 <= a[i] <= 0x7a && b[i] == a[i] - 0x20),
{
    let x = upper(a);
    let y = upper(b);
    if same_name(a, b) {
        assert(x.len() == y.len());
        assert forall|i: int| 0 <= i < a.len() implies (#[trigger] a[i]) == b[i] || (0x41 <= a[i]
            <= 0x5a && b[i] == a[i] + 0x20) || (0x61 <= a[i] <= 0x7a && b[i] == a[i] - 0x20) by {
            assert(x[i] == y[i]);
        }
    }
    if a.len() == b.len() && forall|i: int|
        0 <= i < a.len() ==> (#[trigger] a[i]) == b[i] || (0x41 <= a[i] <= 0x5a && b[i] == a[i]
            + 0x20) || (0x61 <= a[i] <= 0x7a && b[i] == a[i] - 0x20) {
        assert forall|i: int| 0 <= i < a.len() implies x[i] == y[i] by {
            assert(a[i] == b[i] || (0x41 <= a[i] <= 0x5a && b[i] == a[i] + 0x20) || (0x61 <= a[i]
                <= 0x7a && b[i] == a[i] - 0x20));
        }
        assert(x =~= y);
    }
}

/// Components joined by backslashes.
pub open spec fn rejoined(components: Seq<Seq<u8>>) -> Seq<u8>
    decreases components.len(),
{
    if components.len() == 0 {
        Seq::empty()
    } else if components.len() == 1 {
        components[0]
    } else {
        components[0] + seq![0x5cu8] + rejoined(components.drop_first())
    }
}

/// The components of a path have no backslash, and joined by backslashes they are the path.
pub proof fn lemma_parts_rejoined(path: Seq<u8>)
    ensures
        parts(path).len() >= 1,
        rejoined(parts(path)) == path,
        forall|i: int, k: int|
            0 <= i < parts(path).len() && 0 <= k < parts(path)[i].len() ==> #[trigger] parts(
                path,
            )[i][k] != 0x5c,
{
    lemma_parts_from_rejoined(path, 0);
    assert(path.subrange(0, path.len() as int) =~= path);
}

proof fn lemma_parts_from_rejoined(path: Seq<u8>, from: int)
    requires
        0 <= from <= path.len(),
    ensures
        parts_from(path, from).len() >= 1,
        rejoined(parts_from(path, from)) == path.subrange(from, path.len() as int),
        forall|i: int, k: int|
            0 <= i < parts_from(path, from).len() && 0 <= k < parts_from(path, from)[i].len()
                ==> #[trigger] parts_from(path, from)[i][k] != 0x5c,
    decreases path.len() - from,
{
    let end = next_separator(path, from);
    let all = parts_from(path, from);
    lemma_next_separator(path, from);
    if end < path.len() {
        let rest = parts_from(path, end + 1);
        lemma_parts_from_rejoined(path, end + 1);
        assert(all == seq![path.subrange(from, end)] + rest);
        assert(all.drop_first() =~= rest);
        assert(rejoined(all) =~= path.subrange(from, path.len() as int));
        assert forall|i: int, k: int|
            0 <= i < all.len() && 0 <= k < all[i].len() implies #[trigger] all[i][k] != 0x5c by {
            if i > 0 {
                assert(all[i] == rest[i - 1]);
            }
        }
    } else {
        assert(all =~= seq![path.subrange(from, path.len() as int)]);
    }
}

/// A path is taken where it is not empty, has neither a colon nor a zero byte, and has no
/// component that is empty, `.` or `..`, with slashes taken as backslashes. What comes out has
/// backslashes for slashes and is otherwise the same.
pub proof fn lemma_normalized_paths(path: Seq<u8>)
    ensures
        ({
            let s = Seq::new(
                path.len(),
                |i: int|
                    if path[i] == 0x2f {
                        0x5cu8
                    } else {
                        path[i]
                    },
            );
            &&& normalized(path) matches Ok(found) ==> found == s
            &&& normalized(path) is Ok <==> path.len() > 0 && !path.contains(0x3a)
                && !path.contains(0) && forall|i: int|
                0 <= i < parts(s).len() ==> (#[trigger] parts(s)[i]).len() > 0 && parts(s)[i]
                    != seq![0x2eu8] && parts(s)[i] != seq![0x2eu8, 0x2eu8]
        }),
{
    let s = Seq::new(
        path.len(),
        |i: int|
            if path[i] == 0x2f {
                0x5cu8
            } else {
                path[i]
            },
    );
    assert(crate::text::backslashed(path) =~= s);
    assert(s.contains(0x3a) == path.contains(0x3a)) by {
        if s.contains(0x3a) {
            let i = choose|i: int| 0 <= i < s.len() && s[i] == 0x3a;
            assert(path[i] == 0x3a);
        }
        if path.contains(0x3a) {
            let i = choose|i: int| 0 <= i < path.len() && path[i] == 0x3a;
            assert(s[i] == 0x3a);
        }
    }
    assert(s.contains(0) == path.contains(0)) by {
        if s.contains(0) {
            let i = choose|i: int| 0 <= i < s.len() && s[i] == 0;
            assert(path[i] == 0);
        }
        if path.contains(0) {
            let i = choose|i: int| 0 <= i < path.len() && path[i] == 0;
            assert(s[i] == 0);
        }
    }
    if s.len() > 0 && s[0] == 0x5c {
        lemma_next_separator(s, 0);
        assert(next_separator(s, 0) == 0);
        assert(parts(s)[0].len() == 0);
    }
}

} // verus!
