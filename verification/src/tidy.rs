//! What every update keeps of an index.
//!
//! A tidy index is a tree: directory 0 is its root, no directory lies below itself, no two
//! entries of one kind in one directory bear one name, and the names of subdirectories are
//! names. The index of a scan is tidy, and so is what listings, removals and subtrees that
//! are put in place make of a tidy index.

use vstd::prelude::*;

#[allow(unused_imports)]
use crate::index::{in_use, parent_ok};
#[allow(unused_imports)]
use crate::laws::{
    below, child_of, file_of, grafted_dirs, grafted_files, grown, law_graft_puts_all_in_place,
    law_lists_are_complete, law_removal_stays_below, law_updates_mark_and_append,
    lemma_kill_files, lemma_new_files_grown, lemma_removals_grown, named_apart, reached, rooted,
};
#[allow(unused_imports)]
use crate::listing_laws::{
    law_listing_is_taken_over, law_listing_twice_is_listing_once, lemma_bears, lemma_first_listed,
    listable, names_distinct, proper_listing,
};
#[allow(unused_imports)]
use crate::order::{before, law_stable_order_exists, stable_order};
#[allow(unused_imports)]
use crate::reader::{
    begun, dirs_under, entries_of, files_under, law_reading_finds_what_is_there,
    lemma_read_keeps_first, others, path_at, subdirs, tree_ok, Progress,
};
#[allow(unused_imports)]
use crate::scan::{
    dir_item, found_dir, ids_below, ids_distinct, kept, law_merge_adds_no_dirs,
    law_merge_keeps_dirs, law_merge_keeps_the_root, merged_names, merged_nodes, node_ok,
    root_spared, DirItem, Listed, ScanResult, WorkerOut,
};
#[allow(unused_imports)]
use crate::text::SLASH;
#[allow(unused_imports)]
use crate::tree::{fresh, lists, State};
#[allow(unused_imports)]
use crate::update::lemma_gone_valid;
#[allow(unused_imports)]
use crate::writer::{
    all_names, files_by_parent, image, law_built_index_holds_the_scan,
    law_built_index_is_consistent, law_gathering_keeps_the_files, parents, scan_fits, scan_sound,
    scanned_files, shard_files,
};

verus! {

/// The name of an entry: not empty, and without separators.
pub open spec fn plain(name: Seq<u8>) -> bool {
    name.len() > 0 && !name.contains(SLASH)
}

/// No directory lies below itself.
pub open spec fn acyclic(s: State) -> bool {
    forall|d: u32, c: u32| #[trigger] child_of(s, d, c) ==> !below(s, c, d)
}

/// The subdirectories have plain names.
pub open spec fn plain_names(s: State) -> bool {
    forall|d: u32, c: u32| #[trigger] child_of(s, d, c) ==> plain(s.dirs[c as int].name)
}

/// An index that is a tree of entries with names of their own.
pub open spec fn tidy(s: State) -> bool {
    &&& s.sound()
    &&& rooted(s)
    &&& acyclic(s)
    &&& plain_names(s)
    &&& forall|is_dir: bool, d: u32| #[trigger] names_distinct(s, is_dir, d)
}

/// A tidy index meets what looking up paths and listing directories ask of it.
pub proof fn law_tidy_index_can_be_used(s: State, dir: u32, es: Seq<Listed>)
    requires
        tidy(s),
    ensures
        named_apart(s),
        dir < s.dirs.len() && s.files.len() + es.len() < u32::MAX && proper_listing(es) ==> listable(
            s,
            dir,
            es,
        ),
{
    assert(names_distinct(s, true, dir) && names_distinct(s, false, dir));
    assert forall|p: u32, a: u32, b: u32| #[trigger]
        child_of(s, p, a) && #[trigger] child_of(s, p, b) && s.dirs[a as int].name
            == s.dirs[b as int].name implies a == b by {
        assert(names_distinct(s, true, p));
        law_lists_are_complete(s, p);
        assert(s.known(true, p).contains(a) && s.known(true, p).contains(b));
    }
}

// --- entries and their names ---

/// Entry `x` of this kind is there and lies in `d`.
spec fn entry_of(s: State, is_dir: bool, d: u32, x: u32) -> bool {
    if is_dir {
        child_of(s, d, x)
    } else {
        file_of(s, d, x)
    }
}

proof fn lemma_known(s: State, is_dir: bool, d: u32)
    requires
        s.sound(),
    ensures
        forall|x: u32| #[trigger] s.known(is_dir, d).contains(x) <==> entry_of(s, is_dir, d, x),
{
    law_lists_are_complete(s, d);
}

/// Where every entry of `t` is one of `s`, of the same name, names stay distinct.
proof fn lemma_fewer_names(s: State, t: State, is_dir: bool, d: u32)
    requires
        s.sound(),
        t.sound(),
        names_distinct(s, is_dir, d),
        forall|x: u32| #[trigger]
            entry_of(t, is_dir, d, x) ==> entry_of(s, is_dir, d, x) && s.name_of(is_dir, x)
                == t.name_of(is_dir, x),
    ensures
        names_distinct(t, is_dir, d),
{
    lemma_known(s, is_dir, d);
    lemma_known(t, is_dir, d);
    assert forall|a: u32, b: u32|
        #![trigger t.known(is_dir, d).contains(a), t.known(is_dir, d).contains(b)]
        t.known(is_dir, d).contains(a) && t.known(is_dir, d).contains(b) && a != b implies t.name_of(
        is_dir,
        a,
    ) != t.name_of(is_dir, b) by {
        assert(entry_of(t, is_dir, d, a) && entry_of(t, is_dir, d, b));
        assert(s.known(is_dir, d).contains(a) && s.known(is_dir, d).contains(b));
    }
}

// --- no directory below itself ---

/// Below a directory that was added lie only directories that were added later.
proof fn lemma_added_rise(s: State, c: u32, d: u32, steps: nat)
    requires
        s.sound(),
        s.base_dirs <= c < s.dirs.len(),
        reached(s, c, d, steps),
    ensures
        c <= d < s.dirs.len(),
    decreases steps,
{
    if steps > 0 {
        let p = choose|p: u32| reached(s, c, p, (steps - 1) as nat) && #[trigger] child_of(s, p, d);
        lemma_added_rise(s, c, p, (steps - 1) as nat);
        assert(parent_ok(s.dirs[d as int].parent, d as int));
    }
}

/// Between directories of the base, an update adds no way.
proof fn lemma_base_ways(s: State, t: State, c: u32, d: u32, steps: nat)
    requires
        grown(s, t),
        s.base_dirs <= s.dirs.len(),
        d < s.base_dirs,
        reached(t, c, d, steps),
    ensures
        reached(s, c, d, steps),
    decreases steps,
{
    if steps > 0 {
        let p = choose|p: u32| reached(t, c, p, (steps - 1) as nat) && #[trigger] child_of(t, p, d);
        lemma_base_ways(s, t, c, p, (steps - 1) as nat);
        assert(t.dirs.take(s.dirs.len() as int)[d as int] == t.dirs[d as int]);
        assert(t.dir_alive[d as int]);
        assert(child_of(s, p, d));
    }
}

/// However an index has grown, no directory has come to lie below itself.
pub proof fn law_no_update_makes_a_cycle(s: State, t: State)
    requires
        s.sound(),
        t.sound(),
        grown(s, t),
        acyclic(s),
    ensures
        acyclic(t),
{
    assert forall|d: u32, c: u32| #[trigger] child_of(t, d, c) implies !below(t, c, d) by {
        if below(t, c, d) {
            let k = choose|k: nat| reached(t, c, d, k);
            if c >= t.base_dirs {
                lemma_added_rise(t, c, d, k);
                assert(parent_ok(t.dirs[c as int].parent, c as int));
            } else {
                lemma_base_ways(s, t, c, d, k);
                assert(t.dirs.take(s.dirs.len() as int)[c as int] == t.dirs[c as int]);
                assert(t.dir_alive[c as int]);
                assert(child_of(s, d, c));
                assert(below(s, c, d));
            }
        }
    }
}

/// However an index has grown, its root has stayed.
pub proof fn law_no_update_moves_the_root(s: State, t: State)
    requires
        grown(s, t),
        rooted(s),
    ensures
        rooted(t),
{
    assert(t.dirs.take(s.dirs.len() as int)[0] == t.dirs[0]);
}

// --- removals ---

/// Removing a subtree keeps an index tidy.
pub proof fn law_removal_keeps_tidy(s: State, id: u32)
    requires
        tidy(s),
        id < s.dirs.len(),
    ensures
        tidy(s.remove_subtree(id)),
{
    let t = s.remove_subtree(id);
    law_removal_stays_below(s, id);
    assert(t.dirs.take(s.dirs.len() as int) =~= s.dirs);
    assert(t.files.take(s.files.len() as int) =~= s.files);
    assert(grown(s, t));
    law_no_update_makes_a_cycle(s, t);
    law_no_update_moves_the_root(s, t);
    assert forall|d: u32, c: u32| #[trigger] child_of(t, d, c) implies child_of(s, d, c) by {
        assert(t.dir_alive[c as int]);
    }
    assert forall|d: u32, c: u32| #[trigger] child_of(t, d, c) implies plain(
        t.dirs[c as int].name,
    ) by {
        assert(child_of(s, d, c));
    }
    assert forall|is_dir: bool, d: u32| #[trigger] names_distinct(t, is_dir, d) by {
        assert(names_distinct(s, is_dir, d));
        assert forall|x: u32| #[trigger] entry_of(t, is_dir, d, x) implies entry_of(
            s,
            is_dir,
            d,
            x,
        ) && s.name_of(is_dir, x) == t.name_of(is_dir, x) by {
            if is_dir {
                assert(child_of(t, d, x));
            } else {
                assert(t.file_alive[x as int]);
            }
        }
        lemma_fewer_names(s, t, is_dir, d);
    }
}

// --- listings ---

/// The files that a listing adds have names that nothing known bears, and that differ.
proof fn lemma_new_names(s: State, dir: u32, es: Seq<Listed>, k: int)
    requires
        s.sound(),
        dir < s.dirs.len(),
        s.files.len() + es.len() < u32::MAX,
        proper_listing(es),
        0 <= k <= es.len(),
    ensures
        ({
            let u = s.with_new_files(dir, es, k);
            let n = s.files.len();
            &&& forall|f: int|
                n <= f < u.files.len() ==> (#[trigger] u.files[f]).parent == dir && lists(
                    es.take(k),
                    false,
                    u.files[f].name,
                ) && !s.bears(false, s.known(false, dir), u.files[f].name)
            &&& forall|f: int, g: int|
                n <= f < g < u.files.len() ==> (#[trigger] u.files[f]).name != (
                #[trigger] u.files[g]).name
        }),
    decreases k,
{
    if k > 0 {
        lemma_new_names(s, dir, es, k - 1);
        lemma_first_listed(es, k - 1);
        lemma_new_files_grown(s, dir, es, k - 1);
        let n = s.files.len();
        let t = s.with_new_files(dir, es, k - 1);
        let u = s.with_new_files(dir, es, k);
        let e = es[k - 1];
        assert(e.name.len() <= u16::MAX);
        assert(kept(e.name) =~= e.name);
        assert(es.take(k)[k - 1] == e);
        assert forall|f: int| n <= f < u.files.len() implies (#[trigger] u.files[f]).parent == dir
            && lists(es.take(k), false, u.files[f].name) && !s.bears(
            false,
            s.known(false, dir),
            u.files[f].name,
        ) by {
            if f < t.files.len() {
                assert(u.files[f] == t.files[f]);
                let front = es.take(k - 1);
                let i = choose|i: int|
                    0 <= i < front.len() && (#[trigger] front[i]).is_dir == false && front[i].name
                        == t.files[f].name;
                assert(es.take(k)[i] == front[i]);
            }
        }
        assert forall|f: int, g: int| n <= f < g < u.files.len() implies (
        #[trigger] u.files[f]).name != (#[trigger] u.files[g]).name by {
            assert(u.files[f] == t.files[f]);
            if g < t.files.len() {
                assert(u.files[g] == t.files[g]);
            }
        }
    }
}

/// What a listing leaves.
proof fn lemma_listed(s: State, dir: u32, es: Seq<Listed>)
    requires
        s.sound(),
        dir < s.dirs.len(),
        s.files.len() + es.len() < u32::MAX,
    ensures
        ({
            let t = s.listed(dir, es);
            let u = s.with_new_files(dir, es, es.len() as int);
            &&& t.sound()
            &&& grown(s, t)
            &&& t.dirs == s.dirs
            &&& t.files == u.files
        }),
{
    let u = s.with_new_files(dir, es, es.len() as int);
    let gf = s.gone(false, dir, es);
    let gd = s.gone(true, dir, es);
    let one = seq![(u32::MAX, Seq::<u8>::empty())];
    law_updates_mark_and_append(s, dir, es, 0, one, Seq::empty());
    lemma_new_files_grown(s, dir, es, es.len() as int);
    lemma_gone_valid(s, false, dir, es);
    lemma_gone_valid(s, true, dir, es);
    lemma_kill_files(u, gf);
    lemma_removals_grown(u.kill_files(gf), gd);
}

/// Listing a directory keeps names distinct, in it and elsewhere.
#[verifier::rlimit(60)]
pub proof fn law_listing_keeps_names_distinct(
    s: State,
    dir: u32,
    es: Seq<Listed>,
    is_dir: bool,
    d: u32,
)
    requires
        s.sound(),
        dir < s.dirs.len(),
        s.files.len() + es.len() < u32::MAX,
        proper_listing(es),
        names_distinct(s, is_dir, d),
    ensures
        names_distinct(s.listed(dir, es), is_dir, d),
{
    let t = s.listed(dir, es);
    let n = s.files.len();
    lemma_listed(s, dir, es);
    if is_dir {
        assert forall|x: u32| #[trigger] entry_of(t, true, d, x) implies entry_of(s, true, d, x)
            && s.name_of(true, x) == t.name_of(true, x) by {
            assert(t.dir_alive[x as int]);
        }
        lemma_fewer_names(s, t, true, d);
    } else {
        lemma_new_names(s, dir, es, es.len() as int);
        lemma_known(s, false, d);
        lemma_known(t, false, d);
        assert forall|x: u32| x < n && #[trigger] entry_of(t, false, d, x) implies entry_of(
            s,
            false,
            d,
            x,
        ) && s.name_of(false, x) == t.name_of(false, x) by {
            assert(t.files.take(n as int)[x as int] == t.files[x as int]);
            assert(t.file_alive[x as int]);
        }
        assert forall|a: u32, b: u32|
            a < b && entry_of(t, false, d, a) && entry_of(t, false, d, b) implies #[trigger] t.name_of(
            false,
            a,
        ) != #[trigger] t.name_of(false, b) by {
            if b < n {
                assert(s.known(false, d).contains(a) && s.known(false, d).contains(b));
            } else if a < n {
                assert(t.files[b as int].parent == dir);
                lemma_bears(s, false, s.known(false, d), s.name_of(false, a));
                assert(s.known(false, d).contains(a));
            } else {
                assert(t.files[a as int].name != t.files[b as int].name);
            }
        }
        assert forall|a: u32, b: u32|
            #![trigger t.known(false, d).contains(a), t.known(false, d).contains(b)]
            t.known(false, d).contains(a) && t.known(false, d).contains(b) && a
                != b implies t.name_of(false, a) != t.name_of(false, b) by {
            if a < b {
                assert(t.name_of(false, a) != t.name_of(false, b));
            } else {
                assert(t.name_of(false, b) != t.name_of(false, a));
            }
        }
    }
}

/// Listing a directory, or finding that it is gone, keeps an index tidy.
pub proof fn law_listing_keeps_tidy(s: State, dir: u32, es: Seq<Listed>)
    requires
        tidy(s),
        dir < s.dirs.len(),
        s.files.len() + es.len() < u32::MAX,
        proper_listing(es),
    ensures
        tidy(s.applied(dir, Some(es))),
        tidy(s.applied(dir, None)),
{
    let t = s.listed(dir, es);
    law_removal_keeps_tidy(s, dir);
    lemma_listed(s, dir, es);
    law_no_update_makes_a_cycle(s, t);
    law_no_update_moves_the_root(s, t);
    assert forall|d: u32, c: u32| #[trigger] child_of(t, d, c) implies plain(
        t.dirs[c as int].name,
    ) by {
        assert(t.dir_alive[c as int]);
        assert(child_of(s, d, c));
    }
    assert forall|is_dir: bool, d: u32| #[trigger] names_distinct(t, is_dir, d) by {
        assert(names_distinct(s, is_dir, d));
        law_listing_keeps_names_distinct(s, dir, es, is_dir, d);
    }
}

/// Listing a directory of a tidy index twice does no harm: the second time nothing changes,
/// and the same subdirectories are returned as new.
pub proof fn law_listing_tidy_index_twice(s: State, dir: u32, es: Seq<Listed>)
    requires
        tidy(s),
        dir < s.dirs.len(),
        s.files.len() + es.len() < u32::MAX,
        proper_listing(es),
    ensures
        ({
            let t = s.applied(dir, Some(es));
            let n = es.len() as int;
            &&& t.applied(dir, Some(es)) == t
            &&& t.new_dirs(dir, es, n) == s.new_dirs(dir, es, n)
        }),
{
    law_tidy_index_can_be_used(s, dir, es);
    law_listing_twice_is_listing_once(s, dir, es);
}

// --- subtrees ---

/// A subtree whose entries have names of their own: no two of one kind in one directory bear
/// one name, none is longer than can be counted, and those of directories are plain.
pub open spec fn tree_tidy(dirs: Seq<(u32, Seq<u8>)>, files: Seq<(u32, Seq<u8>, bool)>) -> bool {
    &&& forall|i: int, j: int|
        1 <= i < j < dirs.len() && (#[trigger] dirs[i]).0 == (#[trigger] dirs[j]).0 ==> dirs[i].1
            != dirs[j].1
    &&& forall|i: int, j: int|
        0 <= i < j < files.len() && (#[trigger] files[i]).0 == (#[trigger] files[j]).0
            ==> files[i].1 != files[j].1
    &&& forall|i: int|
        0 <= i < dirs.len() ==> (#[trigger] dirs[i]).1.len() <= u16::MAX && plain(dirs[i].1)
    &&& forall|i: int| 0 <= i < files.len() ==> (#[trigger] files[i]).1.len() <= u16::MAX
}

/// No subdirectory of `parent` bears the name.
pub open spec fn new_below(s: State, parent: u32, name: Seq<u8>) -> bool {
    forall|c: u32| #[trigger] child_of(s, parent, c) ==> s.dirs[c as int].name != name
}

/// What a subtree that is put in place leaves.
#[verifier::rlimit(60)]
proof fn lemma_grafted(
    s: State,
    parent: u32,
    dirs: Seq<(u32, Seq<u8>)>,
    files: Seq<(u32, Seq<u8>, bool)>,
)
    requires
        s.sound(),
        parent_ok(parent, s.dirs.len() as int),
        tree_ok(dirs, files),
        tree_tidy(dirs, files),
        s.dirs.len() + dirs.len() < u32::MAX,
        s.files.len() + files.len() < u32::MAX,
    ensures
        ({
            let t = s.graft(parent, dirs, files);
            let (n, m) = (s.dirs.len() as int, s.files.len() as int);
            &&& t.sound()
            &&& grown(s, t)
            &&& t.dirs.len() == n + dirs.len()
            &&& t.files.len() == m + files.len()
            &&& forall|c: int| 0 <= c < n ==> #[trigger] t.dirs[c] == s.dirs[c]
            &&& forall|c: int|
                n <= c < n + dirs.len() ==> (#[trigger] t.dirs[c]).name == dirs[c - n].1
                    && t.dirs[c].parent == if c == n {
                    parent as int
                } else {
                    n + dirs[c - n].0
                }
            &&& forall|f: int| 0 <= f < m ==> #[trigger] t.files[f] == s.files[f]
            &&& forall|f: int|
                m <= f < m + files.len() ==> (#[trigger] t.files[f]).name == files[f - m].1
                    && t.files[f].parent == n + files[f - m].0
            &&& forall|c: int| 0 <= c < n ==> #[trigger] t.dir_alive[c] == s.dir_alive[c]
            &&& forall|f: int| 0 <= f < m ==> #[trigger] t.file_alive[f] == s.file_alive[f]
        }),
{
    let t = s.graft(parent, dirs, files);
    let (n, m) = (s.dirs.len() as int, s.files.len() as int);
    law_graft_puts_all_in_place(s, parent, dirs, files);
    let ds = grafted_dirs(n, parent, dirs);
    let fs = grafted_files(n, files);
    assert forall|c: int| n <= c < n + dirs.len() implies (#[trigger] t.dirs[c]).name == dirs[c
        - n].1 && t.dirs[c].parent == if c == n {
        parent as int
    } else {
        n + dirs[c - n].0
    } by {
        let i = c - n;
        assert(t.dirs[c] == ds[i]);
        assert(dirs[i].1.len() <= u16::MAX);
        assert(kept(dirs[i].1) =~= dirs[i].1);
        if i >= 1 {
            assert(dirs[i].0 < i);
        }
    }
    assert forall|f: int| m <= f < m + files.len() implies (#[trigger] t.files[f]).name == files[f
        - m].1 && t.files[f].parent == n + files[f - m].0 by {
        let i = f - m;
        assert(t.files[f] == fs[i]);
        assert(files[i].1.len() <= u16::MAX);
        assert(kept(files[i].1) =~= files[i].1);
        assert(files[i].0 < dirs.len());
    }
    assert(t.dirs.take(n) =~= s.dirs);
    assert(t.files.take(m) =~= s.files);
    assert forall|c: int| 0 <= c < n implies #[trigger] t.dirs[c] == s.dirs[c] by {}
    assert forall|f: int| 0 <= f < m implies #[trigger] t.files[f] == s.files[f] by {}
    assert(t.sound()) by {
        assert forall|i: int| 0 <= i < t.dirs.len() implies parent_ok(
            (#[trigger] t.dirs[i]).parent,
            t.dirs.len() as int,
        ) && (t.base_dirs <= i ==> parent_ok(t.dirs[i].parent, i)) by {
            if i < n {
                assert(t.dirs[i] == s.dirs[i]);
            } else if i > n {
                assert(dirs[i - n].0 < i - n);
            }
        }
        assert forall|i: int| 0 <= i < t.files.len() implies parent_ok(
            (#[trigger] t.files[i]).parent,
            t.dirs.len() as int,
        ) by {
            if i < m {
                assert(t.files[i] == s.files[i]);
            } else {
                assert(files[i - m].0 < dirs.len());
            }
        }
    }
}

/// Putting a subtree in place keeps names distinct, where no subdirectory of its parent has
/// its name.
#[verifier::rlimit(60)]
pub proof fn law_graft_keeps_names_distinct(
    s: State,
    parent: u32,
    dirs: Seq<(u32, Seq<u8>)>,
    files: Seq<(u32, Seq<u8>, bool)>,
    is_dir: bool,
    d: u32,
)
    requires
        s.sound(),
        parent_ok(parent, s.dirs.len() as int),
        tree_ok(dirs, files),
        tree_tidy(dirs, files),
        new_below(s, parent, dirs[0].1),
        s.dirs.len() + dirs.len() < u32::MAX,
        s.files.len() + files.len() < u32::MAX,
        names_distinct(s, is_dir, d),
    ensures
        names_distinct(s.graft(parent, dirs, files), is_dir, d),
{
    let t = s.graft(parent, dirs, files);
    let (n, m) = (s.dirs.len() as int, s.files.len() as int);
    lemma_grafted(s, parent, dirs, files);
    lemma_known(s, is_dir, d);
    lemma_known(t, is_dir, d);
    assert forall|a: u32, b: u32|
        a < b && entry_of(t, is_dir, d, a) && entry_of(t, is_dir, d, b) implies #[trigger] t.name_of(
        is_dir,
        a,
    ) != #[trigger] t.name_of(is_dir, b) by {
        let (x, y) = (a as int, b as int);
        if is_dir {
            if x < n {
                assert(t.dirs[x] == s.dirs[x]);
                assert(t.dir_alive[x] == s.dir_alive[x]);
                assert(child_of(s, d, a));
                assert(parent_ok(s.dirs[x].parent, n));
                if y < n {
                    assert(t.dirs[y] == s.dirs[y]);
                    assert(t.dir_alive[y] == s.dir_alive[y]);
                    assert(s.known(true, d).contains(a) && s.known(true, d).contains(b));
                } else if y > n {
                    assert(dirs[y - n].0 < y - n);
                }
            } else {
                assert(dirs[y - n].0 < y - n);
                if x > n {
                    assert(dirs[x - n].0 == dirs[y - n].0);
                }
            }
        } else {
            if x < m {
                assert(t.files[x] == s.files[x]);
                assert(parent_ok(s.files[x].parent, n));
                assert(t.file_alive[x] == s.file_alive[x]);
            }
            if y < m {
                assert(t.files[y] == s.files[y]);
                assert(t.file_alive[y] == s.file_alive[y]);
                assert(s.known(false, d).contains(a) && s.known(false, d).contains(b));
            } else {
                assert(files[y - m].0 < dirs.len());
                if x >= m {
                    assert(files[x - m].0 == files[y - m].0);
                }
            }
        }
    }
    assert forall|a: u32, b: u32|
        #![trigger t.known(is_dir, d).contains(a), t.known(is_dir, d).contains(b)]
        t.known(is_dir, d).contains(a) && t.known(is_dir, d).contains(b) && a != b implies t.name_of(
        is_dir,
        a,
    ) != t.name_of(is_dir, b) by {
        if a < b {
            assert(t.name_of(is_dir, a) != t.name_of(is_dir, b));
        } else {
            assert(t.name_of(is_dir, b) != t.name_of(is_dir, a));
        }
    }
}

/// Putting a tidy subtree in place keeps an index tidy, where no subdirectory of its parent
/// has its name.
pub proof fn law_graft_keeps_tidy(
    s: State,
    parent: u32,
    dirs: Seq<(u32, Seq<u8>)>,
    files: Seq<(u32, Seq<u8>, bool)>,
)
    requires
        tidy(s),
        parent_ok(parent, s.dirs.len() as int),
        tree_ok(dirs, files),
        tree_tidy(dirs, files),
        new_below(s, parent, dirs[0].1),
        s.dirs.len() + dirs.len() < u32::MAX,
        s.files.len() + files.len() < u32::MAX,
    ensures
        tidy(s.graft(parent, dirs, files)),
{
    let t = s.graft(parent, dirs, files);
    let n = s.dirs.len() as int;
    lemma_grafted(s, parent, dirs, files);
    law_no_update_makes_a_cycle(s, t);
    law_no_update_moves_the_root(s, t);
    assert forall|d: u32, c: u32| #[trigger] child_of(t, d, c) implies plain(
        t.dirs[c as int].name,
    ) by {
        if c < n {
            assert(t.dirs[c as int] == s.dirs[c as int]);
            assert(t.dir_alive[c as int] == s.dir_alive[c as int]);
            assert(child_of(s, d, c));
        } else {
            assert(plain(dirs[c - n].1));
        }
    }
    assert forall|is_dir: bool, d: u32| #[trigger] names_distinct(t, is_dir, d) by {
        assert(names_distinct(s, is_dir, d));
        law_graft_keeps_names_distinct(s, parent, dirs, files, is_dir, d);
    }
}

/// Reading a subdirectory anew keeps an index tidy: the subtree that was read takes the place
/// of the directory whose name it has.
pub proof fn law_rescan_keeps_tidy(
    s: State,
    id: u32,
    dirs: Seq<(u32, Seq<u8>)>,
    files: Seq<(u32, Seq<u8>, bool)>,
)
    requires
        tidy(s),
        id < s.dirs.len(),
        child_of(s, s.dirs[id as int].parent, id),
        tree_ok(dirs, files),
        tree_tidy(dirs, files),
        dirs[0].1 == s.dirs[id as int].name,
        s.dirs.len() + dirs.len() < u32::MAX,
        s.files.len() + files.len() < u32::MAX,
    ensures
        tidy(s.rescan(id, dirs, files)),
{
    let parent = s.dirs[id as int].parent;
    let u = s.remove_subtree(id);
    law_removal_keeps_tidy(s, id);
    law_removal_stays_below(s, id);
    law_tidy_index_can_be_used(s, id, Seq::empty());
    assert(parent_ok(s.dirs[id as int].parent, s.dirs.len() as int));
    assert(new_below(u, parent, dirs[0].1)) by {
        assert forall|c: u32| #[trigger] child_of(u, parent, c) implies u.dirs[c as int].name
            != dirs[0].1 by {
            assert(u.dir_alive[c as int]);
            assert(child_of(s, parent, c));
        }
    }
    law_graft_keeps_tidy(u, parent, dirs, files);
}

proof fn lemma_new_dirs(s: State, dir: u32, es: Seq<Listed>, k: int)
    requires
        proper_listing(es),
        0 <= k <= es.len(),
    ensures
        ({
            let new = s.new_dirs(dir, es, k);
            &&& forall|i: int|
                0 <= i < new.len() ==> lists(es.take(k), true, #[trigger] new[i]) && !s.bears(
                    true,
                    s.known(true, dir),
                    new[i],
                )
            &&& new.no_duplicates()
        }),
    decreases k,
{
    if k > 0 {
        lemma_new_dirs(s, dir, es, k - 1);
        lemma_first_listed(es, k - 1);
        let front = s.new_dirs(dir, es, k - 1);
        let new = s.new_dirs(dir, es, k);
        assert(es.take(k)[k - 1] == es[k - 1]);
        assert forall|i: int| 0 <= i < new.len() implies lists(es.take(k), true, #[trigger] new[i])
            && !s.bears(true, s.known(true, dir), new[i]) by {
            if i < front.len() {
                assert(new[i] == front[i]);
                let t = es.take(k - 1);
                let j = choose|j: int|
                    0 <= j < t.len() && (#[trigger] t[j]).is_dir == true && t[j].name == front[i];
                assert(es.take(k)[j] == t[j]);
            }
        }
        assert forall|i: int, j: int|
            0 <= i < new.len() && 0 <= j < new.len() && i != j implies new[i] != new[j] by {
            if i < front.len() {
                assert(new[i] == front[i]);
            }
            if j < front.len() {
                assert(new[j] == front[j]);
            }
        }
    }
}

/// The subdirectories that a listing returns as new can be put in place: none of them is
/// there, and they bear distinct names.
pub proof fn law_new_subdirectories_are_new(s: State, dir: u32, es: Seq<Listed>)
    requires
        listable(s, dir, es),
    ensures
        s.new_dirs(dir, es, es.len() as int).no_duplicates(),
        forall|i: int|
            0 <= i < s.new_dirs(dir, es, es.len() as int).len() ==> new_below(
                s.listed(dir, es),
                dir,
                #[trigger] s.new_dirs(dir, es, es.len() as int)[i],
            ),
{
    let t = s.listed(dir, es);
    let new = s.new_dirs(dir, es, es.len() as int);
    lemma_new_dirs(s, dir, es, es.len() as int);
    lemma_listed(s, dir, es);
    assert forall|i: int| 0 <= i < new.len() implies new_below(t, dir, #[trigger] new[i]) by {
        law_listing_is_taken_over(s, dir, es, new[i]);
        lemma_bears(t, true, t.known(true, dir), new[i]);
        lemma_known(t, true, dir);
        assert forall|c: u32| #[trigger] child_of(t, dir, c) implies t.dirs[c as int].name
            != new[i] by {
            assert(entry_of(t, true, dir, c));
            assert(t.known(true, dir).contains(c));
            assert(t.name_of(true, c) == t.dirs[c as int].name);
        }
    }
}

// --- what was read of a file system ---

/// A listing in which directories have plain names.
pub open spec fn plain_listing(es: Seq<Listed>) -> bool {
    forall|i: int| 0 <= i < es.len() && (#[trigger] es[i]).is_dir ==> plain(es[i].name)
}

/// No two of the files have one name.
spec fn apart_by_name(files: Seq<(Seq<u8>, bool)>) -> bool {
    forall|i: int, j: int|
        0 <= i < j < files.len() ==> (#[trigger] files[i]).0 != (#[trigger] files[j]).0
}

proof fn lemma_listing_front(es: Seq<Listed>)
    requires
        es.len() > 0,
        proper_listing(es),
        plain_listing(es),
    ensures
        proper_listing(es.drop_last()),
        plain_listing(es.drop_last()),
{
    let front = es.drop_last();
    assert forall|i: int| 0 <= i < front.len() implies front[i] == #[trigger] es[i] by {}
    assert forall|i: int, j: int|
        0 <= i < j < front.len() && (#[trigger] front[i]).is_dir == (
        #[trigger] front[j]).is_dir implies front[i].name != front[j].name by {
        assert(es[i].name != es[j].name);
    }
}

proof fn lemma_listing_parts(es: Seq<Listed>)
    requires
        proper_listing(es),
        plain_listing(es),
    ensures
        subdirs(es).no_duplicates(),
        apart_by_name(others(es)),
        forall|i: int|
            0 <= i < subdirs(es).len() ==> lists(es, true, #[trigger] subdirs(es)[i]) && plain(
                subdirs(es)[i],
            ) && subdirs(es)[i].len() <= u16::MAX,
        forall|i: int|
            0 <= i < others(es).len() ==> lists(es, false, (#[trigger] others(es)[i]).0) && others(
                es,
            )[i].0.len() <= u16::MAX,
    decreases es.len(),
{
    if es.len() > 0 {
        let front = es.drop_last();
        let last = es.len() - 1;
        let e = es[last];
        lemma_listing_front(es);
        lemma_listing_parts(front);
        lemma_first_listed(es, last);
        assert(es.take(last) =~= front);
        assert(e.name.len() <= u16::MAX);
        let (ds, fs) = (subdirs(front), others(front));
        assert forall|is_dir: bool, name: Seq<u8>| #[trigger]
            lists(front, is_dir, name) implies lists(es, is_dir, name) by {
            let k = choose|k: int|
                0 <= k < front.len() && (#[trigger] front[k]).is_dir == is_dir && front[k].name
                    == name;
            assert(es[k] == front[k]);
        }
        assert(lists(es, e.is_dir, e.name));
        assert forall|i: int| 0 <= i < subdirs(es).len() implies lists(
            es,
            true,
            #[trigger] subdirs(es)[i],
        ) && plain(subdirs(es)[i]) && subdirs(es)[i].len() <= u16::MAX by {
            if i < ds.len() {
                assert(subdirs(es)[i] == ds[i]);
                assert(lists(front, true, ds[i]));
            }
        }
        assert forall|i: int, j: int|
            0 <= i < subdirs(es).len() && 0 <= j < subdirs(es).len() && i != j implies subdirs(es)[i]
            != subdirs(es)[j] by {
            if i < ds.len() {
                assert(lists(front, true, ds[i]));
            }
            if j < ds.len() {
                assert(lists(front, true, ds[j]));
            }
        }
        assert forall|i: int| 0 <= i < others(es).len() implies lists(
            es,
            false,
            (#[trigger] others(es)[i]).0,
        ) && others(es)[i].0.len() <= u16::MAX by {
            if i < fs.len() {
                assert(others(es)[i] == fs[i]);
                assert(lists(front, false, fs[i].0));
            }
        }
        assert forall|i: int, j: int| 0 <= i < j < others(es).len() implies (
        #[trigger] others(es)[i]).0 != (#[trigger] others(es)[j]).0 by {
            assert(others(es)[i] == fs[i]);
            assert(lists(front, false, fs[i].0));
            if j < fs.len() {
                assert(others(es)[j] == fs[j]);
            }
        }
    }
}

proof fn lemma_dir_under(dirs: Seq<(u32, Seq<u8>)>, i: int)
    requires
        0 <= i < dirs.len(),
    ensures
        dirs_under(dirs, dirs[i].0).contains(dirs[i].1),
    decreases dirs.len(),
{
    let front = dirs.drop_last();
    let id = dirs[i].0;
    let all = dirs_under(dirs, id);
    let few = dirs_under(front, id);
    if i < front.len() {
        lemma_dir_under(front, i);
        let k = choose|k: int| 0 <= k < few.len() && few[k] == dirs[i].1;
        assert(all[k] == dirs[i].1);
    } else {
        assert(all[few.len() as int] == dirs[i].1);
    }
}

proof fn lemma_dirs_apart(dirs: Seq<(u32, Seq<u8>)>, i: int, j: int)
    requires
        0 <= i < j < dirs.len(),
        dirs[i].0 == dirs[j].0,
        dirs_under(dirs, dirs[i].0).no_duplicates(),
    ensures
        dirs[i].1 != dirs[j].1,
    decreases dirs.len(),
{
    let front = dirs.drop_last();
    let id = dirs[i].0;
    let all = dirs_under(dirs, id);
    let few = dirs_under(front, id);
    assert forall|k: int| 0 <= k < few.len() implies all[k] == #[trigger] few[k] by {}
    if j < front.len() {
        assert forall|x: int, y: int| 0 <= x < few.len() && 0 <= y < few.len() && x != y implies few[x]
            != few[y] by {
            assert(all[x] != all[y]);
        }
        lemma_dirs_apart(front, i, j);
    } else {
        lemma_dir_under(front, i);
        let k = choose|k: int| 0 <= k < few.len() && few[k] == dirs[i].1;
        assert(all[k] != all[few.len() as int]);
    }
}

proof fn lemma_file_under(files: Seq<(u32, Seq<u8>, bool)>, i: int)
    requires
        0 <= i < files.len(),
    ensures
        files_under(files, files[i].0).contains((files[i].1, files[i].2)),
    decreases files.len(),
{
    let front = files.drop_last();
    let id = files[i].0;
    let all = files_under(files, id);
    let few = files_under(front, id);
    if i < front.len() {
        lemma_file_under(front, i);
        let k = choose|k: int| 0 <= k < few.len() && few[k] == (files[i].1, files[i].2);
        assert(all[k] == few[k]);
    } else {
        assert(all[few.len() as int] == (files[i].1, files[i].2));
    }
}

proof fn lemma_files_apart(files: Seq<(u32, Seq<u8>, bool)>, i: int, j: int)
    requires
        0 <= i < j < files.len(),
        files[i].0 == files[j].0,
        apart_by_name(files_under(files, files[i].0)),
    ensures
        files[i].1 != files[j].1,
    decreases files.len(),
{
    let front = files.drop_last();
    let id = files[i].0;
    let all = files_under(files, id);
    let few = files_under(front, id);
    assert forall|k: int| 0 <= k < few.len() implies all[k] == #[trigger] few[k] by {}
    if j < front.len() {
        lemma_files_apart(front, i, j);
    } else {
        lemma_file_under(front, i);
        let k = choose|k: int| 0 <= k < few.len() && few[k] == (files[i].1, files[i].2);
        assert(all[k].0 != all[few.len() as int].0);
    }
}

/// What is read of a file system is a tidy subtree, where the file system lists no name of
/// one kind twice and names directories plainly.
#[verifier::rlimit(60)]
pub proof fn law_what_is_read_is_tidy(
    fs: spec_fn(Seq<u8>) -> Option<Seq<Listed>>,
    path: Seq<u8>,
    name: Seq<u8>,
    left: nat,
)
    requires
        begun(path, name).read(fs, left).dirs.len() <= u32::MAX,
        plain(name),
        name.len() <= u16::MAX,
        forall|at: Seq<u8>|
            proper_listing(entries_of(#[trigger] fs(at))) && plain_listing(entries_of(fs(at))),
    ensures
        ({
            let p = begun(path, name).read(fs, left);
            &&& tree_ok(p.dirs, p.files)
            &&& tree_tidy(p.dirs, p.files)
            &&& p.dirs[0].1 == name
        }),
{
    let p = begun(path, name).read(fs, left);
    law_reading_finds_what_is_there(fs, path, name, left);
    lemma_read_keeps_first(begun(path, name), fs, left);
    assert forall|q: int| 0 <= q < p.dirs.len() implies {
        let ds = dirs_under(p.dirs, q as u32);
        let fl = #[trigger] files_under(p.files, q as u32);
        &&& ds.no_duplicates()
        &&& apart_by_name(fl)
        &&& forall|k: int| 0 <= k < ds.len() ==> plain(#[trigger] ds[k]) && ds[k].len() <= u16::MAX
        &&& forall|k: int| 0 <= k < fl.len() ==> (#[trigger] fl[k]).0.len() <= u16::MAX
    } by {
        let es = p.due(fs, path, q);
        assert(p.holds(q, es));
        assert(proper_listing(entries_of(fs(path_at(p.dirs, path, q)))));
        lemma_listing_parts(es);
    }
    assert forall|i: int| 0 <= i < p.dirs.len() implies (#[trigger] p.dirs[i]).1.len() <= u16::MAX
        && plain(p.dirs[i].1) by {
        if i >= 1 {
            let id = p.dirs[i].0;
            assert(id < i);
            let fl = files_under(p.files, (id as int) as u32);
            let ds = dirs_under(p.dirs, id);
            lemma_dir_under(p.dirs, i);
            let k = choose|k: int| 0 <= k < ds.len() && ds[k] == p.dirs[i].1;
            assert(plain(ds[k]));
        }
    }
    assert forall|i: int, j: int|
        1 <= i < j < p.dirs.len() && (#[trigger] p.dirs[i]).0 == (
        #[trigger] p.dirs[j]).0 implies p.dirs[i].1 != p.dirs[j].1 by {
        let id = p.dirs[i].0;
        assert(id < i);
        let fl = files_under(p.files, (id as int) as u32);
        lemma_dirs_apart(p.dirs, i, j);
    }
    assert forall|i: int| 0 <= i < p.files.len() implies (#[trigger] p.files[i]).1.len()
        <= u16::MAX by {
        let id = p.files[i].0;
        assert(id < p.dirs.len());
        let fl = files_under(p.files, (id as int) as u32);
        lemma_file_under(p.files, i);
        let k = choose|k: int| 0 <= k < fl.len() && fl[k] == (p.files[i].1, p.files[i].2);
        assert(fl[k].0.len() <= u16::MAX);
    }
    assert forall|i: int, j: int|
        0 <= i < j < p.files.len() && (#[trigger] p.files[i]).0 == (
        #[trigger] p.files[j]).0 implies p.files[i].1 != p.files[j].1 by {
        let id = p.files[i].0;
        assert(id < p.dirs.len());
        let fl = files_under(p.files, (id as int) as u32);
        lemma_files_apart(p.files, i, j);
    }
}

// --- scans ---

/// What directory `i` of a scan is.
pub open spec fn scanned_dir(scan: ScanResult, i: int) -> DirItem {
    dir_item(scan.dirs.names@, scan.dirs.nodes@[i])
}

/// A scan of a tree: directory 0 is its root, whose path begins the names; the directories
/// below it have plain names; no two entries of one kind in one directory bear one name; and
/// each directory was found later than the one that it lies in. `found` gives the moments.
pub open spec fn scan_tidy(scan: ScanResult, found: spec_fn(int) -> int) -> bool {
    let nodes = scan.dirs.nodes@;
    let files = scanned_files(scan.shards@);
    &&& nodes.len() > 0
    &&& nodes[0].name_off == 0
    &&& nodes[0].parent == u32::MAX
    &&& nodes[0].name_len > 0
    &&& forall|i: int|
        1 <= i < nodes.len() && nodes[i].name_len > 0 ==> plain(
            (#[trigger] scanned_dir(scan, i)).name,
        )
    &&& forall|i: int, j: int|
        1 <= i < j < nodes.len() && nodes[i].name_len > 0 && nodes[j].name_len > 0 && (
        #[trigger] scanned_dir(scan, i)).parent == (#[trigger] scanned_dir(scan, j)).parent
            ==> scanned_dir(scan, i).name != scanned_dir(scan, j).name
    &&& forall|i: int|
        1 <= i < nodes.len() && nodes[i].name_len > 0 && nodes[i].parent != u32::MAX ==> found(
            nodes[i].parent as int,
        ) < #[trigger] found(i)
    &&& forall|i: int, j: int|
        0 <= i < j < files.len() && (#[trigger] files[i]).parent == (#[trigger] files[j]).parent
            ==> files[i].name != files[j].name
}

proof fn lemma_later(s: State, found: spec_fn(int) -> int, c: u32, d: u32, steps: nat)
    requires
        forall|p: u32, x: u32| #[trigger] child_of(s, p, x) ==> found(p as int) < found(x as int),
        reached(s, c, d, steps),
    ensures
        found(c as int) <= found(d as int),
    decreases steps,
{
    if steps > 0 {
        let p = choose|p: u32| reached(s, c, p, (steps - 1) as nat) && #[trigger] child_of(s, p, d);
        lemma_later(s, found, c, p, (steps - 1) as nat);
    }
}

/// The index of a scan of a tree is tidy.
#[verifier::rlimit(60)]
pub proof fn law_index_of_a_scan_is_tidy(
    scan: ScanResult,
    found: spec_fn(int) -> int,
    event_id: u64,
    dev_uuid: Seq<u8>,
    scan_time: i64,
)
    requires
        scan_fits(scan),
        scan_sound(scan),
        scan_tidy(scan, found),
    ensures
        tidy(fresh(image(scan, event_id, dev_uuid, scan_time))),
{
    let c = image(scan, event_id, dev_uuid, scan_time);
    let s = fresh(c);
    let nodes = scan.dirs.nodes@;
    let items = scanned_files(scan.shards@);
    let order = stable_order(parents(items));
    law_built_index_holds_the_scan(scan, event_id, dev_uuid, scan_time);
    law_built_index_is_consistent(scan, event_id, dev_uuid, scan_time);
    law_stable_order_exists(parents(items));
    assert(s.sound());
    assert(rooted(s)) by {
        assert(node_ok(c.dir_names, nodes[0]));
        assert(s.dirs[0].name =~= c.root);
    }
    assert forall|d: u32, x: u32| #[trigger] child_of(s, d, x) implies 1 <= x < nodes.len()
        && nodes[x as int].name_len > 0 && nodes[x as int].parent == d && d != u32::MAX
        && s.dirs[x as int] == scanned_dir(scan, x as int) by {
        let k = choose|k: int| 0 <= k < s.by_parent.len() && s.by_parent[k] == x;
        assert(in_use(c.nodes, c.by_parent[k] as int));
    }
    assert(plain_names(s));
    assert forall|p: u32, x: u32| #[trigger] child_of(s, p, x) implies found(p as int) < found(
        x as int,
    ) by {}
    assert forall|d: u32, x: u32| #[trigger] child_of(s, d, x) implies !below(s, x, d) by {
        if below(s, x, d) {
            let k = choose|k: nat| reached(s, x, d, k);
            lemma_later(s, found, x, d, k);
        }
    }
    assert forall|i: int| 0 <= i < s.files.len() implies #[trigger] s.files[i]
        == items[order[i] as int] by {
        assert(c.files()[i] == files_by_parent(items)[i]);
    }
    assert forall|is_dir: bool, d: u32| #[trigger] names_distinct(s, is_dir, d) by {
        lemma_known(s, is_dir, d);
        assert forall|a: u32, b: u32|
            a < b && entry_of(s, is_dir, d, a) && entry_of(
                s,
                is_dir,
                d,
                b,
            ) implies #[trigger] s.name_of(is_dir, a) != #[trigger] s.name_of(is_dir, b) by {
            if is_dir {
                assert(child_of(s, d, a) && child_of(s, d, b));
                assert(scanned_dir(scan, a as int).parent == scanned_dir(scan, b as int).parent);
            } else {
                let (x, y) = (order[a as int] as int, order[b as int] as int);
                assert(before(parents(items), x, y));
                assert(x != y);
                assert(s.files[a as int] == items[x]);
                assert(s.files[b as int] == items[y]);
                if x < y {
                    assert(items[x].name != items[y].name);
                } else {
                    assert(items[y].name != items[x].name);
                }
            }
        }
        assert forall|a: u32, b: u32|
            #![trigger s.known(is_dir, d).contains(a), s.known(is_dir, d).contains(b)]
            s.known(is_dir, d).contains(a) && s.known(is_dir, d).contains(b) && a
                != b implies s.name_of(is_dir, a) != s.name_of(is_dir, b) by {
            if a < b {
                assert(s.name_of(is_dir, a) != s.name_of(is_dir, b));
            } else {
                assert(s.name_of(is_dir, b) != s.name_of(is_dir, a));
            }
        }
    }
}

/// What the workers found of a tree: directories with plain names, no two entries of one kind
/// and one parent with one name, and each directory later than the one that it lies in.
/// `found` gives the moments.
pub open spec fn outs_tidy(outs: Seq<WorkerOut>, found: spec_fn(int) -> int) -> bool {
    let files = shard_files(outs.map_values(|o: WorkerOut| o.files));
    &&& forall|k: int, j: int|
        0 <= k < outs.len() && 0 <= j < outs[k].dir_nodes@.len() ==> {
            let d = #[trigger] found_dir(outs, k, j);
            &&& plain(d.name)
            &&& d.parent != u32::MAX ==> found(d.parent as int) < found(
                outs[k].dir_nodes@[j].0 as int,
            )
        }
    &&& forall|k: int, j: int, l: int, m: int|
        0 <= k < outs.len() && 0 <= j < outs[k].dir_nodes@.len() && 0 <= l < outs.len() && 0 <= m
            < outs[l].dir_nodes@.len() && !(k == l && j == m) && (
        #[trigger] found_dir(outs, k, j)).parent == (#[trigger] found_dir(outs, l, m)).parent
            ==> found_dir(outs, k, j).name != found_dir(outs, l, m).name
    &&& forall|i: int, j: int|
        0 <= i < j < files.len() && (#[trigger] files[i]).parent == (#[trigger] files[j]).parent
            ==> files[i].name != files[j].name
}

/// What the workers found of a tree, once merged, is a scan of a tree.
#[verifier::rlimit(60)]
pub proof fn law_merged_scan_is_tidy(
    root: Seq<u8>,
    total_ids: nat,
    outs: Seq<WorkerOut>,
    scan: ScanResult,
    found: spec_fn(int) -> int,
)
    requires
        total_ids > 0,
        root.len() % 0x1_0000 > 0,
        forall|k: int| 0 <= k < outs.len() ==> (#[trigger] outs[k]).wf(),
        ids_below(outs, total_ids as int),
        ids_distinct(outs),
        root_spared(outs),
        merged_names(root, outs).len() <= u32::MAX,
        scan.dirs.names@ == merged_names(root, outs),
        scan.dirs.nodes@ == merged_nodes(root, total_ids, outs),
        scan.shards@ == outs.map_values(|o: WorkerOut| o.files),
        all_names(scan.shards@).len() <= u32::MAX,
        outs_tidy(outs, found),
    ensures
        scan_tidy(scan, found),
{
    let nodes = scan.dirs.nodes@;
    let shards = scan.shards@;
    law_merge_keeps_the_root(root, total_ids, outs);
    assert forall|k: int| 0 <= k < shards.len() implies (#[trigger] shards[k]).wf() by {
        assert(outs[k].wf());
    }
    law_gathering_keeps_the_files(shards);
    assert forall|i: int| 1 <= i < nodes.len() && nodes[i].name_len > 0 implies plain(
        (#[trigger] scanned_dir(scan, i)).name,
    ) by {
        let (k, j) = lemma_finder(root, total_ids, outs, scan, i);
        assert(plain(found_dir(outs, k, j).name));
    }
    assert forall|i: int|
        1 <= i < nodes.len() && nodes[i].name_len > 0 && nodes[i].parent != u32::MAX implies found(
        nodes[i].parent as int,
    ) < #[trigger] found(i) by {
        let (k, j) = lemma_finder(root, total_ids, outs, scan, i);
        assert(scanned_dir(scan, i).parent == nodes[i].parent);
        assert(found_dir(outs, k, j).parent == nodes[i].parent);
    }
    assert forall|a: int, b: int|
        1 <= a < b < nodes.len() && nodes[a].name_len > 0 && nodes[b].name_len > 0 && (
        #[trigger] scanned_dir(scan, a)).parent == (
        #[trigger] scanned_dir(scan, b)).parent implies scanned_dir(scan, a).name != scanned_dir(
        scan,
        b,
    ).name by {
        let (k, j) = lemma_finder(root, total_ids, outs, scan, a);
        let (l, m) = lemma_finder(root, total_ids, outs, scan, b);
        assert(found_dir(outs, k, j).name != found_dir(outs, l, m).name);
    }
}

/// The worker that found directory `i`.
proof fn lemma_finder(
    root: Seq<u8>,
    total_ids: nat,
    outs: Seq<WorkerOut>,
    scan: ScanResult,
    i: int,
) -> (r: (int, int))
    requires
        total_ids > 0,
        forall|k: int| 0 <= k < outs.len() ==> (#[trigger] outs[k]).wf(),
        ids_below(outs, total_ids as int),
        ids_distinct(outs),
        merged_names(root, outs).len() <= u32::MAX,
        scan.dirs.names@ == merged_names(root, outs),
        scan.dirs.nodes@ == merged_nodes(root, total_ids, outs),
        1 <= i < total_ids,
        scan.dirs.nodes@[i].name_len > 0,
    ensures
        0 <= r.0 < outs.len(),
        0 <= r.1 < outs[r.0].dir_nodes@.len(),
        outs[r.0].dir_nodes@[r.1].0 == i,
        scanned_dir(scan, i) == found_dir(outs, r.0, r.1),
{
    law_merge_adds_no_dirs(root, total_ids, outs, i);
    let (k, j) = choose|k: int, j: int|
        0 <= k < outs.len() && 0 <= j < outs[k].dir_nodes@.len() && (
        #[trigger] outs[k].dir_nodes@[j]).0 == i;
    law_merge_keeps_dirs(root, total_ids, outs, k, j);
    (k, j)
}

} // verus!
