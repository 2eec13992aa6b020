//! What updates do to a live index, said of its entries one by one.

use vstd::prelude::*;
#[allow(unused_imports)]
use vstd::set_lib::lemma_len_subset;

#[allow(unused_imports)]
use crate::batch::{after_listings, after_trees, found_in, to_read, Refresh};
#[allow(unused_imports)]
use crate::bitset::{law_marks_count_once, trues};
#[allow(unused_imports)]
use crate::index::{dir_path_of, parent_ok, Contents, MAX_CLIMB};
#[allow(unused_imports)]
use crate::laws::{
    below, child_of, file_below, file_of, grafted_dirs, grafted_files, law_graft_puts_all_in_place,
    law_lists_are_complete, law_removal_stays_below, law_removal_takes_the_subtree, lemma_kill_files, lemma_new_files_grown,
    lemma_removals_grown, lemma_subtree_finite, reached, subtree,
};
#[allow(unused_imports)]
use crate::listing_laws::{
    law_listing_is_taken_over, lemma_bears, lemma_below_less, lemma_first_listed, lemma_gone,
    lemma_removals, listable, proper_listing,
};
#[allow(unused_imports)]
use crate::pick::{lemma_picked_contains, picked};
#[allow(unused_imports)]
use crate::reader::tree_ok;
#[allow(unused_imports)]
use crate::scan::{kept, link_flags, listing_of, DirItem, FileItem, Listed};
#[allow(unused_imports)]
use crate::text::{join, SLASH};
#[allow(unused_imports)]
use crate::tree::{first_named, fresh, lists, Counts, State, MAX_ANCESTORS, REMOVE_LIMIT};
#[allow(unused_imports)]
use crate::update::{dirs_of, files_of, Subtree};

verus! {

// --- what is where ---

/// A directory holds the directories and the files that name it as their parent and that are
/// there. Entries of the snapshot lie in directories of the snapshot, and its directories are
/// found by way of its list of them.
pub proof fn law_entries_lie_where_they_say(s: State, d: u32, x: u32)
    requires
        s.sound(),
    ensures
        s.child_dirs(d).contains(x) <==> x < s.dirs.len() && s.dirs[x as int].parent == d
            && s.dir_alive[x as int] && (x >= s.base_dirs || d < s.base_dirs && x != d
            && s.by_parent.contains(x)),
        s.files_in_dir(d).contains(x) <==> x < s.files.len() && s.files[x as int].parent == d
            && s.file_alive[x as int] && (x >= s.base_files || d < s.base_dirs),
{
    law_lists_are_complete(s, d);
    assert(s.child_dirs(d).contains(x) <==> child_of(s, d, x));
    assert(s.files_in_dir(d).contains(x) <==> file_of(s, d, x));
}

/// A live index begins with all that its snapshot holds, and ignores nothing.
pub proof fn law_an_index_begins_as_its_snapshot(c: Contents, i: int)
    ensures
        ({
            let s = fresh(c);
            &&& s.root == c.root
            &&& s.ignores.len() == 0
            &&& s.by_parent == c.by_parent
            &&& s.base_dirs == c.nodes.len()
            &&& s.base_files == c.recs.len()
            &&& s.dirs.len() == c.nodes.len()
            &&& s.files.len() == c.recs.len()
            &&& s.dir_alive.len() == c.nodes.len()
            &&& s.file_alive.len() == c.recs.len()
            &&& 0 <= i < c.nodes.len() ==> s.dir_alive[i] && s.dirs[i].parent == c.nodes[i].parent
                && s.dirs[i].name == c.dir_names.subrange(
                c.nodes[i].name_off as int,
                c.nodes[i].name_off + c.nodes[i].name_len,
            )
            &&& 0 <= i < c.recs.len() ==> s.file_alive[i] && s.files[i].parent == c.recs[i].parent
                && s.files[i].flags == c.recs[i].flags && s.files[i].name
                == c.file_names.subrange(
                c.recs[i].name_off as int,
                c.recs[i].name_off + c.recs[i].name_len,
            )
        }),
{
}

/// How far paths are followed and removals go.
pub proof fn law_how_far_is_gone()
    ensures
        MAX_CLIMB == 256,
        MAX_ANCESTORS == 64,
        REMOVE_LIMIT == 2_000_000,
{
}

// --- counts ---

/// Each entry that is there counts once, and so does each that was added, and each of the
/// snapshot that is gone.
pub proof fn law_entries_are_counted(s: State, name: Seq<u8>, parent: u32, link: bool, i: int)
    requires
        s.sound(),
    ensures
        ({
            let c = s.counts();
            let d = s.push_dir(name, parent).counts();
            let f = s.push_file(name, parent, link).counts();
            &&& d.dirs == c.dirs + 1 && d.files == c.files && d.added == c.added + 1 && d.removed
                == c.removed
            &&& f.dirs == c.dirs && f.files == c.files + 1 && f.added == c.added + 1 && f.removed
                == c.removed
        }),
        0 <= i < s.dirs.len() && s.dir_alive[i] ==> {
            let c = s.counts();
            let t = (State { dir_alive: s.dir_alive.update(i, false), ..s }).counts();
            &&& t.dirs == c.dirs - 1 && t.files == c.files && t.added == c.added
            &&& t.removed == c.removed + if i < s.base_dirs {
                1int
            } else {
                0
            }
        },
        0 <= i < s.files.len() && s.file_alive[i] ==> {
            let c = s.counts();
            let t = (State { file_alive: s.file_alive.update(i, false), ..s }).counts();
            &&& t.dirs == c.dirs && t.files == c.files - 1 && t.added == c.added
            &&& t.removed == c.removed + if i < s.base_files {
                1int
            } else {
                0
            }
        },
{
    let nd = s.base_dirs as int;
    let nf = s.base_files as int;
    law_marks_count_once(s.dir_alive, i);
    law_marks_count_once(s.file_alive, i);
    law_marks_count_once(s.dir_alive.take(nd), i);
    law_marks_count_once(s.file_alive.take(nf), i);
    assert(s.dir_alive.push(true).take(nd) =~= s.dir_alive.take(nd));
    assert(s.file_alive.push(true).take(nf) =~= s.file_alive.take(nf));
    if 0 <= i < s.dirs.len() {
        let t = s.dir_alive.update(i, false);
        if i < nd {
            assert(t.take(nd) =~= s.dir_alive.take(nd).update(i, false));
        } else {
            assert(t.take(nd) =~= s.dir_alive.take(nd));
        }
    }
    if 0 <= i < s.files.len() {
        let t = s.file_alive.update(i, false);
        if i < nf {
            assert(t.take(nf) =~= s.file_alive.take(nf).update(i, false));
        } else {
            assert(t.take(nf) =~= s.file_alive.take(nf));
        }
    }
}

proof fn lemma_all_count(n: nat)
    ensures
        trues(Seq::new(n, |i: int| true)) == n,
    decreases n,
{
    let s = Seq::new(n, |i: int| true);
    if n > 0 {
        let m = (n - 1) as nat;
        lemma_all_count(m);
        assert(s.drop_last() =~= Seq::new(m, |i: int| true));
    }
}

/// Of a live index that has just been made, all entries of the snapshot are there, and no
/// others.
pub proof fn law_counts_begin_with_the_snapshot(c: Contents)
    ensures
        fresh(c).counts() == (Counts {
            dirs: c.nodes.len(),
            files: c.recs.len(),
            added: 0,
            removed: 0,
        }),
{
    let s = fresh(c);
    lemma_all_count(c.nodes.len());
    lemma_all_count(c.recs.len());
    assert(s.dir_alive.take(c.nodes.len() as int) =~= s.dir_alive);
    assert(s.file_alive.take(c.recs.len() as int) =~= s.file_alive);
}

// --- removals ---

proof fn lemma_ids_below(n: int)
    requires
        0 <= n <= u32::MAX,
    ensures
        Set::new(|d: u32| d < n).finite(),
        Set::new(|d: u32| d < n).len() == n,
    decreases n,
{
    let s = Set::new(|d: u32| d < n);
    if n == 0 {
        assert(s =~= Set::empty());
    } else {
        let t = Set::new(|d: u32| d < n - 1);
        lemma_ids_below(n - 1);
        assert(s =~= t.insert((n - 1) as u32));
        assert(!t.contains((n - 1) as u32));
    }
}

proof fn lemma_subtree_small(s: State, id: u32)
    requires
        s.sound(),
    ensures
        subtree(s, id).len() <= s.dirs.len(),
{
    let n = s.dirs.len() as int;
    lemma_ids_below(n);
    lemma_subtree_finite(s, id);
    assert(subtree(s, id).subset_of(Set::new(|d: u32| d < n)));
    lemma_len_subset(subtree(s, id), Set::new(|d: u32| d < n));
}

proof fn lemma_reached_is_there(s: State, id: u32, d: u32, steps: nat)
    requires
        id < s.dirs.len(),
        reached(s, id, d, steps),
    ensures
        d < s.dirs.len(),
        d == id || s.dir_alive[d as int],
{
    if steps > 0 {
        let p = choose|p: u32|
            reached(s, id, p, (steps - 1) as nat) && #[trigger] child_of(s, p, d);
        assert(child_of(s, p, d));
    }
}

proof fn lemma_removal(s: State, id: u32)
    requires
        s.sound(),
        id < s.dirs.len() <= 2_000_000,
    ensures
        ({
            let t = s.remove_subtree(id);
            &&& t == (State { dir_alive: t.dir_alive, file_alive: t.file_alive, ..s })
            &&& t.sound()
            &&& !t.dir_alive[id as int]
            &&& forall|d: int|
                0 <= d < s.dirs.len() && #[trigger] t.dir_alive[d] ==> s.dir_alive[d]
            &&& forall|f: int|
                0 <= f < s.files.len() && #[trigger] t.file_alive[f] ==> s.file_alive[f]
            &&& forall|p: u32, c: u32| #[trigger]
                child_of(s, p, c) && p < s.dirs.len() && !t.dir_alive[p as int] && (
                s.dir_alive[p as int] || p == id) ==> !t.dir_alive[c as int]
            &&& forall|p: u32, f: u32| #[trigger]
                file_of(s, p, f) && p < s.dirs.len() && !t.dir_alive[p as int] && (
                s.dir_alive[p as int] || p == id) ==> !t.file_alive[f as int]
            &&& forall|c: u32|
                c < s.dirs.len() && c != id && s.dir_alive[c as int] && !(
                #[trigger] t.dir_alive[c as int]) ==> {
                    let p = s.dirs[c as int].parent;
                    &&& p < s.dirs.len() && child_of(s, p, c) && !t.dir_alive[p as int]
                    &&& p == id || s.dir_alive[p as int]
                }
            &&& forall|f: u32|
                f < s.files.len() && s.file_alive[f as int] && !(#[trigger] t.file_alive[f as int])
                    ==> {
                    let p = s.files[f as int].parent;
                    &&& p < s.dirs.len() && file_of(s, p, f) && !t.dir_alive[p as int]
                    &&& p == id || s.dir_alive[p as int]
                }
        }),
{
    let t = s.remove_subtree(id);
    lemma_subtree_small(s, id);
    law_removal_takes_the_subtree(s, id);
    assert(reached(s, id, id, 0));
    assert(below(s, id, id));
    assert forall|p: u32, c: u32| #[trigger]
        child_of(s, p, c) && p < s.dirs.len() && !t.dir_alive[p as int] && (s.dir_alive[p as int]
            || p == id) implies !t.dir_alive[c as int] by {
        assert(below(s, id, p));
        let steps = choose|steps: nat| reached(s, id, p, steps);
        assert(reached(s, id, c, steps + 1));
        assert(below(s, id, c));
    }
    assert forall|p: u32, f: u32| #[trigger]
        file_of(s, p, f) && p < s.dirs.len() && !t.dir_alive[p as int] && (s.dir_alive[p as int] || p
            == id) implies !t.file_alive[f as int] by {
        assert(below(s, id, p));
        assert(file_below(s, id, f));
    }
    assert forall|c: u32|
        c < s.dirs.len() && c != id && s.dir_alive[c as int] && !(
        #[trigger] t.dir_alive[c as int]) implies {
        let p = s.dirs[c as int].parent;
        &&& p < s.dirs.len() && child_of(s, p, c) && !t.dir_alive[p as int]
        &&& p == id || s.dir_alive[p as int]
    } by {
        assert(below(s, id, c));
        let steps = choose|steps: nat| reached(s, id, c, steps);
        assert(steps > 0);
        let p = choose|p: u32|
            reached(s, id, p, (steps - 1) as nat) && #[trigger] child_of(s, p, c);
        lemma_reached_is_there(s, id, p, (steps - 1) as nat);
        assert(below(s, id, p));
    }
    assert forall|f: u32|
        f < s.files.len() && s.file_alive[f as int] && !(
        #[trigger] t.file_alive[f as int]) implies {
        let p = s.files[f as int].parent;
        &&& p < s.dirs.len() && file_of(s, p, f) && !t.dir_alive[p as int]
        &&& p == id || s.dir_alive[p as int]
    } by {
        assert(file_below(s, id, f));
        let p = choose|p: u32| below(s, id, p) && #[trigger] file_of(s, p, f);
        let steps = choose|steps: nat| reached(s, id, p, steps);
        lemma_reached_is_there(s, id, p, steps);
    }
}

/// Removing a directory leaves nothing behind in what it removes, and removes nothing else:
/// what goes is the directory, and with any directory that goes all that lies in it. Nothing
/// is moved or renamed.
pub proof fn law_removal_is_by_directory(s: State, id: u32, p: u32, x: u32)
    requires
        s.sound(),
        id < s.dirs.len() <= 2_000_000,
        p < s.dirs.len(),
    ensures
        ({
            let t = s.remove_subtree(id);
            &&& t == (State { dir_alive: t.dir_alive, file_alive: t.file_alive, ..s })
            &&& !t.dir_alive[id as int]
            &&& s.child_dirs(p).contains(x) && (s.dir_alive[p as int] || p == id) ==> (
            t.dir_alive[x as int] <==> x != id && t.dir_alive[p as int])
            &&& s.files_in_dir(p).contains(x) && (s.dir_alive[p as int] || p == id) ==> (
            t.file_alive[x as int] <==> t.dir_alive[p as int])
            &&& x < s.dirs.len() && t.dir_alive[x as int] ==> s.dir_alive[x as int]
            &&& x < s.files.len() && t.file_alive[x as int] ==> s.file_alive[x as int]
            &&& p != id && !s.dir_alive[p as int] ==> (s.child_dirs(p).contains(x) && x != id
                ==> t.dir_alive[x as int]) && (s.files_in_dir(p).contains(x)
                ==> t.file_alive[x as int])
        }),
{
    lemma_removal(s, id);
    law_lists_are_complete(s, p);
    assert(s.child_dirs(p).contains(x) <==> child_of(s, p, x));
    assert(s.files_in_dir(p).contains(x) <==> file_of(s, p, x));
}

proof fn lemma_removals_one_by_one(s: State, ids: Seq<u32>)
    requires
        s.sound(),
        s.dirs.len() <= 2_000_000,
        forall|i: int| 0 <= i < ids.len() ==> (#[trigger] ids[i]) < s.dirs.len(),
    ensures
        ({
            let t = s.remove_subtrees(ids);
            &&& t == (State { dir_alive: t.dir_alive, file_alive: t.file_alive, ..s })
            &&& t.sound()
            &&& forall|i: int| 0 <= i < ids.len() ==> !t.dir_alive[(#[trigger] ids[i]) as int]
            &&& forall|d: int|
                0 <= d < s.dirs.len() && #[trigger] t.dir_alive[d] ==> s.dir_alive[d]
            &&& forall|f: int|
                0 <= f < s.files.len() && #[trigger] t.file_alive[f] ==> s.file_alive[f]
            &&& forall|p: u32, c: u32| #[trigger]
                child_of(s, p, c) && p < s.dirs.len() && s.dir_alive[p as int]
                    && !t.dir_alive[p as int] ==> !t.dir_alive[c as int]
            &&& forall|p: u32, f: u32| #[trigger]
                file_of(s, p, f) && p < s.dirs.len() && s.dir_alive[p as int]
                    && !t.dir_alive[p as int] ==> !t.file_alive[f as int]
            &&& forall|c: u32|
                c < s.dirs.len() && !ids.contains(c) && s.dir_alive[c as int] && !(
                #[trigger] t.dir_alive[c as int]) ==> {
                    let p = s.dirs[c as int].parent;
                    p < s.dirs.len() && !t.dir_alive[p as int]
                }
            &&& forall|f: u32|
                f < s.files.len() && s.file_alive[f as int] && !(#[trigger] t.file_alive[f as int])
                    ==> {
                    let p = s.files[f as int].parent;
                    p < s.dirs.len() && !t.dir_alive[p as int]
                }
        }),
    decreases ids.len(),
{
    if ids.len() > 0 {
        let front = ids.drop_last();
        let id = ids.last();
        assert(id == ids[ids.len() - 1]);
        assert forall|i: int| 0 <= i < front.len() implies (#[trigger] front[i]) < s.dirs.len() by {
            assert(front[i] == ids[i]);
        }
        lemma_removals_one_by_one(s, front);
        let u = s.remove_subtrees(front);
        lemma_removal(u, id);
        let t = u.remove_subtree(id);
        assert forall|i: int| 0 <= i < ids.len() implies !t.dir_alive[(#[trigger] ids[i]) as int] by {
            if i < front.len() {
                assert(!u.dir_alive[front[i] as int]);
                assert(front[i] == ids[i]);
            }
        }
        assert forall|p: u32, c: u32| #[trigger]
            child_of(s, p, c) && p < s.dirs.len() && s.dir_alive[p as int]
                && !t.dir_alive[p as int] implies !t.dir_alive[c as int] by {
            if u.dir_alive[p as int] && u.dir_alive[c as int] {
                assert(child_of(u, p, c));
            }
        }
        assert forall|p: u32, f: u32| #[trigger]
            file_of(s, p, f) && p < s.dirs.len() && s.dir_alive[p as int]
                && !t.dir_alive[p as int] implies !t.file_alive[f as int] by {
            if u.dir_alive[p as int] && u.file_alive[f as int] {
                assert(file_of(u, p, f));
            }
        }
        assert forall|c: u32|
            c < s.dirs.len() && !ids.contains(c) && s.dir_alive[c as int] && !(
            #[trigger] t.dir_alive[c as int]) implies {
            let p = s.dirs[c as int].parent;
            p < s.dirs.len() && !t.dir_alive[p as int]
        } by {
            assert(c != id);
            if front.contains(c) {
                let i = choose|i: int| 0 <= i < front.len() && front[i] == c;
                assert(ids[i] == c);
            }
        }
    }
}

// --- listings ---

proof fn lemma_files_pushed(s: State, dir: u32, es: Seq<Listed>, k: int)
    requires
        0 <= k <= es.len(),
    ensures
        ({
            let u = s.with_new_files(dir, es, k);
            let n = s.files.len();
            &&& u == (State { files: u.files, file_alive: u.file_alive, ..s })
            &&& n <= u.files.len()
            &&& u.files.take(n as int) == s.files
            &&& forall|f: int|
                n <= f < u.files.len() ==> (#[trigger] u.files[f]).parent == dir && exists|j: int|
                    0 <= j < k && !(#[trigger] es[j]).is_dir && u.files[f].name == kept(es[j].name)
                        && u.files[f].flags == link_flags(es[j].is_link)
        }),
    decreases k,
{
    let n = s.files.len() as int;
    if k > 0 {
        lemma_files_pushed(s, dir, es, k - 1);
        let v = s.with_new_files(dir, es, k - 1);
        let u = s.with_new_files(dir, es, k);
        assert(u.files.take(n) =~= v.files.take(n));
        assert forall|f: int| n <= f < u.files.len() implies (#[trigger] u.files[f]).parent == dir
            && exists|j: int|
            0 <= j < k && !(#[trigger] es[j]).is_dir && u.files[f].name == kept(es[j].name)
                && u.files[f].flags == link_flags(es[j].is_link) by {
            if f < v.files.len() {
                assert(u.files[f] == v.files[f]);
                let j = choose|j: int|
                    0 <= j < k - 1 && !(#[trigger] es[j]).is_dir && v.files[f].name == kept(
                        es[j].name,
                    ) && v.files[f].flags == link_flags(es[j].is_link);
                assert(!es[j].is_dir);
            } else {
                assert(!es[k - 1].is_dir);
            }
        }
    } else {
        assert(s.files.take(n) =~= s.files);
    }
}

/// A file that a listing adds lies in the directory that was listed, has the name that was
/// listed, and is marked as a link where it was listed as one, and only there.
pub proof fn law_listed_files_are_added_as_listed(s: State, dir: u32, es: Seq<Listed>, f: int)
    requires
        s.sound(),
        dir < s.dirs.len(),
        s.files.len() + es.len() < u32::MAX,
        forall|i: int| 0 <= i < es.len() ==> (#[trigger] es[i]).name.len() <= 0xffff,
        s.files.len() <= f < s.applied(dir, Some(es)).files.len(),
    ensures
        ({
            let t = s.applied(dir, Some(es));
            &&& t.files[f].parent == dir
            &&& exists|k: int|
                0 <= k < es.len() && !(#[trigger] es[k]).is_dir && t.files[f].name == es[k].name
                    && t.files[f].flags == if es[k].is_link {
                    1u16
                } else {
                    0
                }
        }),
{
    let n = es.len() as int;
    let u = s.with_new_files(dir, es, n);
    lemma_files_pushed(s, dir, es, n);
    lemma_new_files_grown(s, dir, es, n);
    lemma_gone_inside(s, dir, es);
    let v = u.kill_files(s.gone(false, dir, es));
    lemma_kill_files(u, s.gone(false, dir, es));
    lemma_removals_grown(v, s.gone(true, dir, es));
    let k = choose|k: int|
        0 <= k < n && !(#[trigger] es[k]).is_dir && u.files[f].name == kept(es[k].name)
            && u.files[f].flags == link_flags(es[k].is_link);
    assert(es[k].name.len() <= 0xffff);
    assert(es[k].name.take(es[k].name.len() as int) =~= es[k].name);
    assert(!es[k].is_dir);
}

proof fn lemma_gone_inside(s: State, dir: u32, es: Seq<Listed>)
    requires
        s.sound(),
    ensures
        forall|i: int|
            0 <= i < s.gone(false, dir, es).len() ==> (#[trigger] s.gone(false, dir, es)[i])
                < s.files.len(),
        forall|i: int|
            0 <= i < s.gone(true, dir, es).len() ==> (#[trigger] s.gone(true, dir, es)[i])
                < s.dirs.len(),
        forall|x: u32| #[trigger]
            s.gone(false, dir, es).contains(x) ==> file_of(s, dir, x) && !lists(
                es,
                false,
                s.files[x as int].name,
            ),
        forall|x: u32| #[trigger]
            s.gone(true, dir, es).contains(x) ==> child_of(s, dir, x) && !lists(
                es,
                true,
                s.dirs[x as int].name,
            ),
{
    law_lists_are_complete(s, dir);
    let files = s.known(false, dir);
    let dirs = s.known(true, dir);
    let a = |id: u32|
        s.last_bearer(false, files, s.name_of(false, id)) == Some(id) && !lists(
            es,
            false,
            s.name_of(false, id),
        );
    let b = |id: u32|
        s.last_bearer(true, dirs, s.name_of(true, id)) == Some(id) && !lists(
            es,
            true,
            s.name_of(true, id),
        );
    lemma_picked_contains(files, a);
    lemma_picked_contains(dirs, b);
    assert forall|x: u32| #[trigger] s.gone(false, dir, es).contains(x) implies file_of(s, dir, x)
        && !lists(es, false, s.files[x as int].name) by {
        assert(picked(files, a).contains(x));
        assert(s.files_in_dir(dir).contains(x));
    }
    assert forall|x: u32| #[trigger] s.gone(true, dir, es).contains(x) implies child_of(s, dir, x)
        && !lists(es, true, s.dirs[x as int].name) by {
        assert(picked(dirs, b).contains(x));
        assert(s.child_dirs(dir).contains(x));
    }
    assert forall|i: int| 0 <= i < s.gone(false, dir, es).len() implies (
    #[trigger] s.gone(false, dir, es)[i]) < s.files.len() by {
        assert(s.gone(false, dir, es).contains(s.gone(false, dir, es)[i]));
    }
    assert forall|i: int| 0 <= i < s.gone(true, dir, es).len() implies (
    #[trigger] s.gone(true, dir, es)[i]) < s.dirs.len() by {
        assert(s.gone(true, dir, es).contains(s.gone(true, dir, es)[i]));
    }
}

/// The listing of a directory is taken over entry by entry. Of the files and the
/// subdirectories that it held, those stay whose names are listed, each as what it is, and no
/// others; every listed file is in it afterwards, and no file is that was not listed. What
/// lies in another directory stays as long as that directory does, and goes with it.
#[verifier::rlimit(60)]
pub proof fn law_listings_are_taken_over_by_entry(
    s: State,
    dir: u32,
    es: Seq<Listed>,
    p: u32,
    x: u32,
    name: Seq<u8>,
)
    requires
        listable(s, dir, es),
        s.dirs.len() <= 2_000_000,
        p < s.dirs.len(),
    ensures
        ({
            let t = s.applied(dir, Some(es));
            &&& t.dirs == s.dirs
            &&& t.files.take(s.files.len() as int) == s.files
            &&& s.files_in_dir(dir).contains(x) ==> (t.file_alive[x as int] <==> exists|k: int|
                0 <= k < es.len() && !(#[trigger] es[k]).is_dir && es[k].name
                    == s.files[x as int].name)
            &&& s.child_dirs(dir).contains(x) ==> (t.dir_alive[x as int] <==> exists|k: int|
                0 <= k < es.len() && (#[trigger] es[k]).is_dir && es[k].name
                    == s.dirs[x as int].name)
            &&& (exists|k: int|
                0 <= k < es.len() && !(#[trigger] es[k]).is_dir && es[k].name == name)
                <==> exists|f: u32| #[trigger]
                t.files_in_dir(dir).contains(f) && t.files[f as int].name == name
            &&& p != dir && s.files_in_dir(p).contains(x) && s.dir_alive[p as int] ==> (
            t.file_alive[x as int] <==> t.dir_alive[p as int])
            &&& p != dir && s.child_dirs(p).contains(x) && s.dir_alive[p as int] ==> (
            t.dir_alive[x as int] <==> t.dir_alive[p as int])
        }),
{
    let n = es.len() as int;
    let u = s.with_new_files(dir, es, n);
    let gf = s.gone(false, dir, es);
    let gd = s.gone(true, dir, es);
    let v = u.kill_files(gf);
    let t = v.remove_subtrees(gd);
    lemma_new_files_grown(s, dir, es, n);
    lemma_files_pushed(s, dir, es, n);
    lemma_gone(s, false, dir, es);
    lemma_gone(s, true, dir, es);
    lemma_gone_inside(s, dir, es);
    lemma_kill_files(u, gf);
    law_lists_are_complete(s, dir);
    law_lists_are_complete(s, p);
    assert(s.files_in_dir(dir).contains(x) <==> file_of(s, dir, x));
    assert(s.child_dirs(dir).contains(x) <==> child_of(s, dir, x));
    assert(s.files_in_dir(p).contains(x) <==> file_of(s, p, x));
    assert(s.child_dirs(p).contains(x) <==> child_of(s, p, x));
    assert forall|i: int| 0 <= i < gd.len() implies (#[trigger] gd[i]) < v.dirs.len()
        && v.dirs[gd[i] as int].parent == dir && !below(v, gd[i], dir) by {
        assert(gd.contains(gd[i]));
        assert(s.child_dirs(dir).contains(gd[i]));
        assert(child_of(s, dir, gd[i]));
        if below(v, gd[i], dir) {
            let k = choose|k: nat| reached(v, gd[i], dir, k);
            lemma_below_less(s, v, gd[i], dir, k);
            assert(below(s, gd[i], dir));
        }
    }
    lemma_removals(v, gd, dir);
    lemma_removals_one_by_one(v, gd);
    assert(t.files == u.files);
    if file_of(s, dir, x) {
        assert(u.files[x as int] == s.files[x as int]) by {
            assert(u.files.take(s.files.len() as int)[x as int] == u.files[x as int]);
        }
        assert(s.known(false, dir).contains(x));
        assert(gf.contains(x) <==> !lists(es, false, s.files[x as int].name));
        assert(v.file_alive[x as int] == (u.file_alive[x as int] && !gf.contains(x)));
        assert(t.file_alive[x as int] == v.file_alive[x as int]);
        if lists(es, false, s.files[x as int].name) {
            let k = choose|k: int|
                0 <= k < es.len() && (#[trigger] es[k]).is_dir == false && es[k].name
                    == s.files[x as int].name;
            assert(!es[k].is_dir);
        }
    }
    if child_of(s, dir, x) {
        assert(s.known(true, dir).contains(x));
        assert(gd.contains(x) <==> !lists(es, true, s.dirs[x as int].name));
        assert(t.dir_alive[x as int] == (v.dir_alive[x as int] && !gd.contains(x)));
        if lists(es, true, s.dirs[x as int].name) {
            let k = choose|k: int|
                0 <= k < es.len() && (#[trigger] es[k]).is_dir == true && es[k].name
                    == s.dirs[x as int].name;
            assert(es[k].is_dir);
        }
    }
    law_listing_is_taken_over(s, dir, es, name);
    lemma_bears(t, false, t.known(false, dir), name);
    if lists(es, false, name) {
        let f = choose|f: u32| #[trigger]
            t.known(false, dir).contains(f) && t.name_of(false, f) == name;
        assert(t.files_in_dir(dir).contains(f) && t.files[f as int].name == name);
        let k = choose|k: int|
            0 <= k < es.len() && (#[trigger] es[k]).is_dir == false && es[k].name == name;
        assert(!es[k].is_dir);
    } else if exists|f: u32| #[trigger]
        t.files_in_dir(dir).contains(f) && t.files[f as int].name == name {
        let f = choose|f: u32| #[trigger]
            t.files_in_dir(dir).contains(f) && t.files[f as int].name == name;
        assert(t.known(false, dir).contains(f) && t.name_of(false, f) == name);
    }
    if p != dir && file_of(s, p, x) && s.dir_alive[p as int] {
        assert(u.files[x as int] == s.files[x as int]) by {
            assert(u.files.take(s.files.len() as int)[x as int] == u.files[x as int]);
        }
        assert(!gf.contains(x)) by {
            if gf.contains(x) {
                assert(file_of(s, dir, x));
            }
        }
        assert(v.file_alive[x as int]);
        assert(file_of(v, p, x));
    }
    if p != dir && child_of(s, p, x) && s.dir_alive[p as int] {
        assert(!gd.contains(x)) by {
            if gd.contains(x) {
                assert(child_of(s, dir, x));
            }
        }
        assert(child_of(v, p, x));
        assert(v.dir_alive[x as int]);
    }
}

/// The subdirectories that a listing returns as new are those of its directories whose names
/// no subdirectory has.
pub proof fn law_unknown_subdirectories_are_returned(
    s: State,
    dir: u32,
    es: Seq<Listed>,
    name: Seq<u8>,
)
    requires
        proper_listing(es),
    ensures
        s.new_dirs(dir, es, es.len() as int).contains(name) <==> (exists|k: int|
            0 <= k < es.len() && (#[trigger] es[k]).is_dir && es[k].name == name) && !(exists|
            c: u32,
        | #[trigger]
            s.child_dirs(dir).contains(c) && s.dirs[c as int].name == name),
{
    lemma_new_dirs_are(s, dir, es, es.len() as int, name);
    let ids = s.child_dirs(dir);
    lemma_bears(s, true, ids, name);
    assert(s.known(true, dir) == ids);
    if s.bears(true, ids, name) {
        let c = choose|c: u32| #[trigger] ids.contains(c) && s.name_of(true, c) == name;
        assert(ids.contains(c) && s.dirs[c as int].name == name);
    } else if exists|c: u32| #[trigger] ids.contains(c) && s.dirs[c as int].name == name {
        let c = choose|c: u32| #[trigger] ids.contains(c) && s.dirs[c as int].name == name;
        assert(s.name_of(true, c) == name);
    }
}

proof fn lemma_new_dirs_are(s: State, dir: u32, es: Seq<Listed>, k: int, name: Seq<u8>)
    requires
        proper_listing(es),
        0 <= k <= es.len(),
    ensures
        s.new_dirs(dir, es, k).contains(name) <==> (exists|j: int|
            0 <= j < k && (#[trigger] es[j]).is_dir && es[j].name == name) && !s.bears(
            true,
            s.known(true, dir),
            name,
        ),
    decreases k,
{
    if k > 0 {
        lemma_new_dirs_are(s, dir, es, k - 1, name);
        lemma_first_listed(es, k - 1);
        let front = s.new_dirs(dir, es, k - 1);
        let new = s.new_dirs(dir, es, k);
        if front.contains(name) {
            let i = choose|i: int| 0 <= i < front.len() && front[i] == name;
            assert(new[i] == name);
        }
        if es[k - 1].is_dir && es[k - 1].name == name && !s.bears(true, s.known(true, dir), name) {
            assert(new[front.len() as int] == name);
        }
        if new.contains(name) {
            let i = choose|i: int| 0 <= i < new.len() && new[i] == name;
            if i < front.len() {
                assert(front[i] == name);
            } else {
                assert(es[k - 1].is_dir && es[k - 1].name == name);
            }
        }
    }
}

/// A directory that could not be listed goes, with all below it; the root stays whatever
/// happens.
pub proof fn law_directories_that_are_gone_go(s: State, dir: u32)
    requires
        s.sound(),
        dir < s.dirs.len(),
    ensures
        s.applied(0, None) == s,
        dir != 0 ==> !s.applied(dir, None).dir_alive[dir as int] && s.applied(dir, None)
            == s.remove_subtree(dir),
{
    law_removal_stays_below(s, dir);
}

// --- subtrees ---

/// A subtree that was read is put in place as it was read: its first directory in the
/// directory that is given, every other entry in the directory that it was found in, with
/// its name and its mark. What was there before is as it was.
pub proof fn law_subtrees_are_put_in_place(
    s: State,
    parent: u32,
    dirs: Seq<(u32, Seq<u8>)>,
    files: Seq<(u32, Seq<u8>, bool)>,
    i: int,
)
    requires
        s.sound(),
        dirs.len() > 0,
        forall|i: int| 1 <= i < dirs.len() ==> (#[trigger] dirs[i]).0 < i,
        forall|i: int| 0 <= i < files.len() ==> (#[trigger] files[i]).0 < dirs.len(),
        s.dirs.len() + dirs.len() <= u32::MAX,
    ensures
        ({
            let t = s.graft(parent, dirs, files);
            let (n, m) = (s.dirs.len() as int, s.files.len() as int);
            &&& t.dirs.len() == n + dirs.len() && t.files.len() == m + files.len()
            &&& t.dir_alive.len() == n + dirs.len() && t.file_alive.len() == m + files.len()
            &&& t.root == s.root && t.ignores == s.ignores && t.by_parent == s.by_parent
            &&& t.base_dirs == s.base_dirs && t.base_files == s.base_files
            &&& 0 <= i < n ==> t.dirs[i] == s.dirs[i] && t.dir_alive[i] == s.dir_alive[i]
            &&& 0 <= i < m ==> t.files[i] == s.files[i] && t.file_alive[i] == s.file_alive[i]
            &&& t.dirs[n].parent == parent
            &&& 1 <= i < dirs.len() ==> t.dirs[n + i].parent == n + dirs[i].0
            &&& 0 <= i < dirs.len() ==> t.dir_alive[n + i] && (dirs[i].1.len() <= 0xffff
                ==> t.dirs[n + i].name == dirs[i].1)
            &&& 0 <= i < files.len() ==> t.file_alive[m + i] && t.files[m + i].parent == n
                + files[i].0 && (files[i].1.len() <= 0xffff ==> t.files[m + i].name == files[i].1)
                && t.files[m + i].flags == if files[i].2 {
                1u16
            } else {
                0
            }
        }),
{
    law_graft_puts_all_in_place(s, parent, dirs, files);
    if 0 <= i < dirs.len() && dirs[i].1.len() <= 0xffff {
        assert(dirs[i].1.take(dirs[i].1.len() as int) =~= dirs[i].1);
    }
    if 0 <= i < files.len() && files[i].1.len() <= 0xffff {
        assert(files[i].1.take(files[i].1.len() as int) =~= files[i].1);
    }
}

/// A subtree that was read anew takes the place of the old one: that is removed, and the new
/// one is put into the directory that the old one lay in.
pub proof fn law_subtrees_are_replaced(
    s: State,
    id: u32,
    dirs: Seq<(u32, Seq<u8>)>,
    files: Seq<(u32, Seq<u8>, bool)>,
)
    requires
        id < s.dirs.len(),
    ensures
        s.rescan(id, dirs, files) == s.remove_subtree(id).graft(
            s.dirs[id as int].parent,
            dirs,
            files,
        ),
{
}

// --- batches ---

/// The subtrees of a batch replace the old ones one after the other, each under the directory
/// that it is named with; and its listings are taken over one after the other.
pub proof fn law_batches_go_one_by_one(
    s: State,
    trees: Seq<(u32, Subtree)>,
    tree: (u32, Subtree),
    ls: Seq<Refresh>,
    l: Refresh,
)
    ensures
        after_trees(s, Seq::empty()) == s,
        after_trees(s, trees.push(tree)) == after_trees(s, trees).rescan(
            tree.0,
            tree.1.dirs@.map_values(|d: (u32, Vec<u8>)| (d.0, d.1@)),
            tree.1.files@.map_values(|f: (u32, Vec<u8>, bool)| (f.0, f.1@, f.2)),
        ),
        after_listings(s, Seq::empty()) == s,
        after_listings(s, ls.push(l)) == after_listings(s, ls).applied(l.0, listing_of(l.2)),
{
    assert(trees.push(tree).drop_last() =~= trees);
    assert(ls.push(l).drop_last() =~= ls);
}

/// Of every listing of a batch, the new subdirectories are to be read, each under its
/// directory and at its path.
pub proof fn law_new_subdirectories_are_to_be_read(s: State, ls: Seq<Refresh>, l: Refresh, i: int)
    ensures
        to_read(s, Seq::empty()).len() == 0,
        ({
            let before = to_read(s, ls);
            let all = to_read(s, ls.push(l));
            let mid = after_listings(s, ls);
            &&& all.take(before.len() as int) == before
            &&& l.2 is None ==> all == before
            &&& listing_of(l.2) matches Some(es) ==> {
                let new = mid.new_dirs(l.0, es, es.len() as int);
                &&& all.len() == before.len() + new.len()
                &&& 0 <= i < new.len() ==> all[before.len() + i].0 == l.0 && all[before.len() + i].1
                    == join(l.1@, new[i])
            }
        }),
{
    let before = to_read(s, ls);
    let all = to_read(s, ls.push(l));
    assert(ls.push(l).drop_last() =~= ls);
    assert(all.take(before.len() as int) =~= before);
    if l.2 is None {
        assert(all =~= before);
    }
}

// --- names ---

/// Of several directories of one name, the first is found.
pub proof fn law_the_first_of_a_name_is_found(
    dirs: Seq<DirItem>,
    ids: Seq<u32>,
    name: Seq<u8>,
    i: int,
)
    requires
        0 <= i < ids.len(),
        dirs[ids[i] as int].name == name,
        forall|j: int| 0 <= j < i ==> dirs[(#[trigger] ids[j]) as int].name != name,
    ensures
        first_named(dirs, ids, name) == Some(ids[i]),
    decreases ids.len(),
{
    if i > 0 {
        let rest = ids.skip(1);
        assert(dirs[ids[0] as int].name != name);
        assert forall|j: int| 0 <= j < i - 1 implies dirs[(#[trigger] rest[j]) as int].name
            != name by {
            assert(rest[j] == ids[j + 1]);
        }
        law_the_first_of_a_name_is_found(dirs, rest, name, i - 1);
    }
}

/// Of several known entries of one name, the last stands for it in a listing.
pub proof fn law_the_last_of_a_name_stands_for_it(
    s: State,
    is_dir: bool,
    ids: Seq<u32>,
    name: Seq<u8>,
    i: int,
)
    requires
        0 <= i < ids.len(),
        s.name_of(is_dir, ids[i]) == name,
        forall|j: int| i < j < ids.len() ==> s.name_of(is_dir, #[trigger] ids[j]) != name,
    ensures
        s.last_bearer(is_dir, ids, name) == Some(ids[i]),
        is_dir ==> s.name_of(is_dir, ids[i]) == s.dirs[ids[i] as int].name,
        !is_dir ==> s.name_of(is_dir, ids[i]) == s.files[ids[i] as int].name,
    decreases ids.len(),
{
    if i < ids.len() - 1 {
        let front = ids.drop_last();
        assert(s.name_of(is_dir, ids[ids.len() - 1]) != name);
        assert forall|j: int| i < j < front.len() implies s.name_of(is_dir, #[trigger] front[j])
            != name by {
            assert(front[j] == ids[j]);
        }
        law_the_last_of_a_name_stands_for_it(s, is_dir, front, name, i);
    }
}

/// A listed entry is new where nothing known of its kind has its name, and where the listing
/// has named it before; not otherwise.
pub proof fn law_what_is_new(s: State, dir: u32, es: Seq<Listed>, k: int)
    requires
        0 <= k < es.len(),
    ensures
        s.is_new(dir, es, k) <==> (exists|j: int|
            0 <= j < k && (#[trigger] es[j]).is_dir == es[k].is_dir && es[j].name == es[k].name) || {
            if es[k].is_dir {
                forall|i: int|
                    0 <= i < s.child_dirs(dir).len() ==> s.dirs[(
                    #[trigger] s.child_dirs(dir)[i]) as int].name != es[k].name
            } else {
                forall|i: int|
                    0 <= i < s.files_in_dir(dir).len() ==> s.files[(
                    #[trigger] s.files_in_dir(dir)[i]) as int].name != es[k].name
            }
        },
{
    let t = es.take(k);
    assert(forall|j: int| 0 <= j < k ==> #[trigger] t[j] == es[j]);
    if lists(t, es[k].is_dir, es[k].name) {
        let j = choose|j: int|
            0 <= j < t.len() && (#[trigger] t[j]).is_dir == es[k].is_dir && t[j].name == es[k].name;
        assert(es[j].is_dir == es[k].is_dir && es[j].name == es[k].name);
    }
    if exists|j: int|
        0 <= j < k && (#[trigger] es[j]).is_dir == es[k].is_dir && es[j].name == es[k].name {
        let j = choose|j: int|
            0 <= j < k && (#[trigger] es[j]).is_dir == es[k].is_dir && es[j].name == es[k].name;
        assert(t[j] == es[j]);
    }
    let ids = s.known(es[k].is_dir, dir);
    if s.bears(es[k].is_dir, ids, es[k].name) {
        let i = choose|i: int|
            0 <= i < ids.len() && s.name_of(es[k].is_dir, #[trigger] ids[i]) == es[k].name;
        if es[k].is_dir {
            assert(s.dirs[s.child_dirs(dir)[i] as int].name == es[k].name);
        } else {
            assert(s.files[s.files_in_dir(dir)[i] as int].name == es[k].name);
        }
    } else {
        if es[k].is_dir {
            assert forall|i: int| 0 <= i < s.child_dirs(dir).len() implies s.dirs[(
            #[trigger] s.child_dirs(dir)[i]) as int].name != es[k].name by {
                assert(s.name_of(true, ids[i]) != es[k].name);
            }
        } else {
            assert forall|i: int| 0 <= i < s.files_in_dir(dir).len() implies s.files[(
            #[trigger] s.files_in_dir(dir)[i]) as int].name != es[k].name by {
                assert(s.name_of(false, ids[i]) != es[k].name);
            }
        }
    }
}

proof fn lemma_graft_front(s: State, parent: u32, dirs: Seq<(u32, Seq<u8>)>, x: (u32, Seq<u8>), k: int)
    requires
        0 <= k <= dirs.len(),
    ensures
        s.graft_ids(dirs.push(x), k) == s.graft_ids(dirs, k),
        s.graft_dirs(parent, dirs.push(x), k) == s.graft_dirs(parent, dirs, k),
        s.graft_ids(dirs, k).len() <= k,
    decreases k,
{
    if k > 0 {
        lemma_graft_front(s, parent, dirs, x, k - 1);
        assert(dirs.push(x)[k - 1] == dirs[k - 1]);
    }
}

proof fn lemma_graft_files_front(
    s: State,
    ids: Seq<u32>,
    files: Seq<(u32, Seq<u8>, bool)>,
    x: (u32, Seq<u8>, bool),
    k: int,
)
    requires
        0 <= k <= files.len(),
    ensures
        s.graft_files(ids, files.push(x), k) == s.graft_files(ids, files, k),
    decreases k,
{
    if k > 0 {
        lemma_graft_files_front(s, ids, files, x, k - 1);
        assert(files.push(x)[k - 1] == files[k - 1]);
    }
}

/// What names a directory of a subtree that does not stand before it is passed over.
pub proof fn law_strays_are_passed_over(
    s: State,
    parent: u32,
    dirs: Seq<(u32, Seq<u8>)>,
    files: Seq<(u32, Seq<u8>, bool)>,
    up: u32,
    name: Seq<u8>,
    link: bool,
)
    requires
        up >= dirs.len(),
    ensures
        dirs.len() > 0 ==> s.graft(parent, dirs.push((up, name)), files) == s.graft(
            parent,
            dirs,
            files,
        ),
        s.graft(parent, dirs, files.push((up, name, link))) == s.graft(parent, dirs, files),
{
    let x = (up, name);
    let y = (up, name, link);
    let n = dirs.len() as int;
    lemma_graft_front(s, parent, dirs, x, n);
    assert(dirs.push(x)[n] == x);
    let ids = s.graft_ids(dirs, n);
    let t = s.graft_dirs(parent, dirs, n);
    lemma_graft_files_front(t, ids, files, y, files.len() as int);
    assert(files.push(y)[files.len() as int] == y);
}

} // verus!
