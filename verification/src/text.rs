//! Byte-string primitives shared by the query engine and the indexes: case
//! folding, substring search, and the handful of path operations that the rest
//! of the crate is written in.

use vstd::prelude::*;
use vstd::slice::slice_subrange;

verus! {

/// The path separator.
pub const SLASH: u8 = 0x2f;

/// ASCII case folding of one byte. Bytes outside `A..=Z`, and so every byte of a
/// multi-byte UTF-8 sequence, stay as they are.
pub open spec fn lower_byte(b: u8) -> u8 {
    if 0x41 <= b <= 0x5a {
        (b + 0x20) as u8
    } else {
        b
    }
}

/// ASCII case folding of a byte string.
pub open spec fn lowered(s: Seq<u8>) -> Seq<u8> {
    s.map_values(|b: u8| lower_byte(b))
}

/// `s` holds no upper-case ASCII letter.
pub open spec fn is_lowered(s: Seq<u8>) -> bool {
    forall|i: int| 0 <= i < s.len() ==> lower_byte(#[trigger] s[i]) == s[i]
}

/// `needle` stands in `hay` at position `i`.
pub open spec fn occurs_at(hay: Seq<u8>, needle: Seq<u8>, i: int) -> bool {
    &&& 0 <= i
    &&& i + needle.len() <= hay.len()
    &&& hay.subrange(i, i + needle.len()) == needle
}

/// `needle` stands somewhere in `hay`.
pub open spec fn occurs(hay: Seq<u8>, needle: Seq<u8>) -> bool {
    exists|i: int| occurs_at(hay, needle, i)
}

/// The path of the entry `name` inside the directory `dir`: one separator
/// between the two, unless `dir` already ends in one.
pub open spec fn join(dir: Seq<u8>, name: Seq<u8>) -> Seq<u8> {
    if dir.len() > 0 && dir.last() == SLASH {
        dir + name
    } else {
        dir.push(SLASH) + name
    }
}

/// `path` is `root` or lies below it. A name that merely begins like the last name of
/// `root` does not.
pub open spec fn within(root: Seq<u8>, path: Seq<u8>) -> bool {
    path == root || (root.is_prefix_of(path) && (root.len() == 0 || root.last() == SLASH
        || path[root.len() as int] == SLASH))
}

/// Position of the last separator in `path`, or -1.
pub open spec fn last_slash_at(path: Seq<u8>) -> int
    decreases path.len(),
{
    if path.len() == 0 {
        -1
    } else if path.last() == SLASH {
        path.len() - 1
    } else {
        last_slash_at(path.drop_last())
    }
}

/// The directory that `path` lies in, `None` where `path` holds no separator.
pub open spec fn parent_of(path: Seq<u8>) -> Option<Seq<u8>> {
    let cut = last_slash_at(path);
    if cut < 0 {
        None
    } else if cut == 0 {
        Some(seq![SLASH])
    } else {
        Some(path.take(cut))
    }
}

/// What stands after the last separator of `path`; all of it where there is none.
pub open spec fn leaf(path: Seq<u8>) -> Seq<u8> {
    path.subrange(last_slash_at(path) + 1, path.len() as int)
}

pub proof fn lemma_lowered(s: Seq<u8>)
    ensures
        lowered(s).len() == s.len(),
        forall|i: int| 0 <= i < s.len() ==> #[trigger] lowered(s)[i] == lower_byte(s[i]),
        is_lowered(lowered(s)),
{
}

/// Folding twice is folding once.
pub proof fn law_folding_is_idempotent(s: Seq<u8>)
    ensures
        lowered(lowered(s)) == lowered(s),
{
    assert(lowered(lowered(s)) =~= lowered(s));
}

pub proof fn lemma_last_slash(path: Seq<u8>)
    ensures
        -1 <= last_slash_at(path) < path.len(),
        last_slash_at(path) >= 0 ==> path[last_slash_at(path)] == SLASH,
        forall|i: int| last_slash_at(path) < i < path.len() ==> path[i] != SLASH,
    decreases path.len(),
{
    if path.len() > 0 && path.last() != SLASH {
        lemma_last_slash(path.drop_last());
        assert forall|i: int| last_slash_at(path) < i < path.len() implies path[i] != SLASH by {
            if i < path.len() - 1 {
                assert(path.drop_last()[i] == path[i]);
            }
        }
    }
}

/// The first occurrence of `needle` in `haystack`.
///
/// Trusted: `memchr::memmem::find` returns the index of the first occurrence of
/// the needle, and `None` exactly where there is none.
pub assume_specification[ memchr::memmem::find ](haystack: &[u8], needle: &[u8]) -> (r: Option<
    usize,
>)
    ensures
        match r {
            Some(i) => occurs_at(haystack@, needle@, i as int) && forall|j: int|
                j < i ==> !occurs_at(haystack@, needle@, j),
            None => !occurs(haystack@, needle@),
        },
;

/// Folds one byte to lower case.
pub fn lower(b: u8) -> (r: u8)
    ensures
        r == lower_byte(b),
{
    if b >= 0x41 && b <= 0x5a {
        b + 0x20
    } else {
        b
    }
}

/// A folded copy of `s`.
pub fn to_lower(s: &[u8]) -> (r: Vec<u8>)
    ensures
        r@ == lowered(s@),
{
    let mut out: Vec<u8> = Vec::with_capacity(s.len());
    for i in 0..s.len()
        invariant
            out@ =~= lowered(s@).take(i as int),
    {
        out.push(lower(s[i]));
    }
    out
}

/// Appends `s` to `v`.
pub fn extend(v: &mut Vec<u8>, s: &[u8])
    ensures
        final(v)@ == old(v)@ + s@,
{
    v.extend_from_slice(s);
    assert(v@ =~= old(v)@ + s@);
}

/// A copy of `s`.
pub fn copy(s: &[u8]) -> (r: Vec<u8>)
    ensures
        r@ == s@,
{
    vstd::slice::slice_to_vec(s)
}

/// Byte-wise equality.
pub fn bytes_eq(a: &[u8], b: &[u8]) -> (r: bool)
    ensures
        r == (a@ == b@),
{
    if a.len() != b.len() {
        return false;
    }
    for i in 0..a.len()
        invariant
            a@.len() == b@.len(),
            forall|j: int| 0 <= j < i ==> a@[j] == b@[j],
    {
        if a[i] != b[i] {
            return false;
        }
    }
    assert(a@ =~= b@);
    true
}

/// Whether `s` begins with `prefix`.
pub fn starts_with(s: &[u8], prefix: &[u8]) -> (r: bool)
    ensures
        r == prefix@.is_prefix_of(s@),
{
    if prefix.len() > s.len() {
        return false;
    }
    let r = bytes_eq(slice_subrange(s, 0, prefix.len()), prefix);
    r
}

/// Whether `path` is `root` or lies below it.
pub fn is_within(root: &[u8], path: &[u8]) -> (r: bool)
    ensures
        r == within(root@, path@),
{
    if !starts_with(path, root) {
        assert(path@ == root@ ==> root@.is_prefix_of(path@)) by {
            assert(root@.subrange(0, root@.len() as int) =~= root@);
        }
        return false;
    }
    let n = root.len();
    if path.len() == n {
        assert(path@ =~= root@) by {
            assert(path@.subrange(0, n as int) =~= path@);
        }
        return true;
    }
    n == 0 || root[n - 1] == SLASH || path[n] == SLASH
}

/// The directory that `path` lies in.
pub fn parent_path(path: &[u8]) -> (r: Option<Vec<u8>>)
    ensures
        match r {
            Some(p) => parent_of(path@) == Some(p@),
            None => parent_of(path@) is None,
        },
{
    proof {
        lemma_last_slash(path@);
    }
    match last_slash(path) {
        Some(cut) => {
            let keep = if cut == 0 {
                1
            } else {
                cut
            };
            let p = copy(slice_subrange(path, 0, keep));
            assert(p@ =~= parent_of(path@)->Some_0);
            Some(p)
        },
        None => None,
    }
}

/// Whether `b` occurs in `s`.
pub fn has_byte(s: &[u8], b: u8) -> (r: bool)
    ensures
        r == s@.contains(b),
{
    for i in 0..s.len()
        invariant
            forall|j: int| 0 <= j < i ==> s@[j] != b,
    {
        if s[i] == b {
            return true;
        }
    }
    false
}

/// Case-insensitive substring test. `needle` is compared as it stands, so it has
/// to be in lower case to match anything that holds a letter.
pub fn contains_ci(hay: &[u8], needle: &[u8]) -> (r: bool)
    ensures
        r == occurs(lowered(hay@), needle@),
{
    let n = needle.len();
    if n > hay.len() {
        return false;
    }
    if n == 0 {
        assert(lowered(hay@).subrange(0, 0) =~= needle@);
        assert(occurs_at(lowered(hay@), needle@, 0));
        return true;
    }
    let first = needle[0];
    let last = hay.len() - n;
    let mut i: usize = 0;
    while i <= last
        invariant
            0 < n == needle@.len() <= hay@.len(),
            last == hay@.len() - n,
            first == needle@[0],
            0 <= i <= last + 1,
            forall|k: int| 0 <= k < i ==> !occurs_at(lowered(hay@), needle@, k),
        decreases last + 1 - i,
    {
        let ghost low = lowered(hay@);
        if lower(hay[i]) == first {
            let mut j: usize = 1;
            while j < n && lower(hay[i + j]) == needle[j]
                invariant
                    0 < n == needle@.len() <= hay@.len(),
                    i + n <= hay.len(),
                    1 <= j <= n,
                    forall|k: int| 0 <= k < j ==> lower_byte(hay@[i + k]) == needle@[k],
                decreases n - j,
            {
                j += 1;
            }
            if j == n {
                assert(low.subrange(i as int, i + n) =~= needle@);
                assert(occurs_at(low, needle@, i as int));
                return true;
            }
            assert(low.subrange(i as int, i + n)[j as int] != needle@[j as int]);
        } else {
            assert(low.subrange(i as int, i + n)[0] != needle@[0]);
        }
        if i == last {
            assert forall|k: int| !occurs_at(low, needle@, k) by {}
            return false;
        }
        i += 1;
    }
    false
}

/// Position of the last separator in `path`.
pub fn last_slash(path: &[u8]) -> (r: Option<usize>)
    ensures
        match r {
            Some(p) => p == last_slash_at(path@),
            None => last_slash_at(path@) == -1,
        },
{
    let mut i = path.len();
    assert(path@.take(i as int) =~= path@);
    while i > 0
        invariant
            i <= path@.len(),
            last_slash_at(path@) == last_slash_at(path@.take(i as int)),
        decreases i,
    {
        assert(path@.take(i as int).drop_last() =~= path@.take(i - 1));
        if path[i - 1] == SLASH {
            return Some(i - 1);
        }
        i -= 1;
    }
    None
}

/// The entry's own name: what stands after the last separator.
pub fn leaf_name(path: &[u8]) -> (r: Vec<u8>)
    ensures
        r@ == leaf(path@),
{
    proof {
        lemma_last_slash(path@);
    }
    match last_slash(path) {
        Some(p) => {
            let n = path.len();
            copy(slice_subrange(path, p + 1, n))
        },
        None => {
            assert(leaf(path@) =~= path@);
            copy(path)
        },
    }
}

/// The path of the entry `name` in the directory `dir`.
pub fn join_path(dir: &[u8], name: &[u8]) -> (r: Vec<u8>)
    ensures
        r@ == join(dir@, name@),
{
    let mut out: Vec<u8> = Vec::with_capacity(dir.len());
    extend(&mut out, dir);
    if dir.len() == 0 || dir[dir.len() - 1] != SLASH {
        out.push(SLASH);
    }
    extend(&mut out, name);
    assert(out@ =~= join(dir@, name@));
    out
}

// --- laws ---

/// Folding turns the 26 capital letters into the small ones, leaves every other byte as it
/// is, and goes byte by byte.
pub proof fn law_folding_touches_letters_only(a: Seq<u8>, b: u8)
    ensures
        forall|k: int| 0 <= k < 26 ==> #[trigger] lower_byte((0x41 + k) as u8) == 0x61 + k,
        b < 0x41 || b > 0x5a ==> lower_byte(b) == b,
        lowered(a.push(b)) == lowered(a).push(lower_byte(b)),
        lowered(Seq::<u8>::empty()) == Seq::<u8>::empty(),
{
    assert(lowered(a.push(b)) =~= lowered(a).push(lower_byte(b)));
    assert(lowered(Seq::<u8>::empty()) =~= Seq::<u8>::empty());
}

/// A text occurs in another exactly where the other is the text with something in front and
/// something behind.
pub proof fn law_occurring_is_being_a_part(hay: Seq<u8>, needle: Seq<u8>)
    ensures
        occurs(hay, needle) <==> exists|a: Seq<u8>, b: Seq<u8>| hay == #[trigger] (a + needle + b),
{
    if occurs(hay, needle) {
        let i = choose|i: int| occurs_at(hay, needle, i);
        let (a, b) = (hay.take(i), hay.skip(i + needle.len()));
        assert(hay.subrange(i, i + needle.len()) == needle);
        assert forall|k: int| 0 <= k < hay.len() implies hay[k] == (a + needle + b)[k] by {
            if i <= k < i + needle.len() {
                assert(needle[k - i] == hay.subrange(i, i + needle.len())[k - i]);
            }
        }
        assert(hay =~= a + needle + b);
    }
    if exists|a: Seq<u8>, b: Seq<u8>| hay == #[trigger] (a + needle + b) {
        let (a, b) = choose|a: Seq<u8>, b: Seq<u8>| hay == #[trigger] (a + needle + b);
        let i = a.len() as int;
        assert(hay.subrange(i, i + needle.len()) =~= needle);
        assert(occurs_at(hay, needle, i));
    }
}

/// A path is the directory, one separator and the name; a directory that ends in a separator
/// gets no second one.
pub proof fn law_joining_puts_one_separator(dir: Seq<u8>, name: Seq<u8>)
    ensures
        dir.len() == 0 || dir.last() != 0x2f ==> join(dir, name) == dir + seq![0x2fu8] + name,
        dir.len() > 0 && dir.last() == 0x2f ==> join(dir, name) == dir + name,
{
    assert(dir.push(0x2f) + name =~= dir + seq![0x2fu8] + name);
}

/// Below a root lies what is the root and a path joined to it, and nothing else.
pub proof fn law_within_is_joined_to(root: Seq<u8>, path: Seq<u8>)
    requires
        root.len() > 0,
    ensures
        within(root, path) <==> path == root || exists|rest: Seq<u8>| path == #[trigger] join(
            root,
            rest,
        ),
{
    let n = root.len() as int;
    if within(root, path) && path != root {
        assert(path.subrange(0, n) == root);
        if path.len() == n {
            assert(path =~= root);
        }
        let rest = if root.last() == 0x2f {
            path.skip(n)
        } else {
            path.skip(n + 1)
        };
        assert forall|k: int| 0 <= k < n implies path[k] == root[k] by {
            assert(path.subrange(0, n)[k] == path[k]);
        }
        assert(path =~= join(root, rest));
    }
    if exists|rest: Seq<u8>| path == #[trigger] join(root, rest) {
        let rest = choose|rest: Seq<u8>| path == #[trigger] join(root, rest);
        assert(path.subrange(0, n) =~= root);
    }
}

proof fn lemma_last_slash_is(path: Seq<u8>, k: int)
    requires
        -1 <= k < path.len(),
        k >= 0 ==> path[k] == 0x2f,
        forall|i: int| k < i < path.len() ==> path[i] != 0x2f,
    ensures
        last_slash_at(path) == k,
{
    lemma_last_slash(path);
    let j = last_slash_at(path);
    if j > k {
        assert(path[j] != 0x2f);
    }
    if k > j {
        assert(path[k] != SLASH);
    }
}

/// A path is taken apart at its last separator: in front of it stands the directory, `/` where
/// that is nothing, and behind it the name.
pub proof fn law_paths_come_apart(dir: Seq<u8>, name: Seq<u8>)
    requires
        !name.contains(0x2f),
    ensures
        leaf(dir + seq![0x2fu8] + name) == name,
        leaf(name) == name,
        dir.len() > 0 ==> parent_of(dir + seq![0x2fu8] + name) == Some(dir),
        parent_of(seq![0x2fu8] + name) == Some(seq![0x2fu8]),
        parent_of(name) is None,
{
    let path = dir + seq![0x2fu8] + name;
    let top = seq![0x2fu8] + name;
    let n = dir.len() as int;
    assert forall|i: int| 0 <= i < name.len() implies #[trigger] name[i] != 0x2f by {
        assert(name.contains(name[i]));
    }
    assert forall|i: int| n < i < path.len() implies path[i] != 0x2f by {
        assert(path[i] == name[i - n - 1]);
    }
    assert forall|i: int| 0 < i < top.len() implies top[i] != 0x2f by {
        assert(top[i] == name[i - 1]);
    }
    lemma_last_slash_is(path, n);
    lemma_last_slash_is(top, 0);
    lemma_last_slash_is(name, -1);
    assert(leaf(path) =~= name);
    assert(leaf(name) =~= name);
    assert(path.take(n) =~= dir);
}

} // verus!
