//! What holds after a directory has been listed again.

use vstd::prelude::*;

#[allow(unused_imports)]
use crate::laws::{
    below, child_of, file_of, law_lists_are_complete, law_removal_stays_below, lemma_kill_files,
    lemma_new_files_grown, reached,
};
#[allow(unused_imports)]
use crate::pick::{lemma_picked_contains, lemma_picked_none};
#[allow(unused_imports)]
use crate::scan::{kept, Listed};
#[allow(unused_imports)]
use crate::tree::{lists, State};
#[allow(unused_imports)]
use crate::update::lemma_gone_valid;

verus! {

/// No two of the known entries of one kind bear one name.
pub open spec fn names_distinct(s: State, is_dir: bool, dir: u32) -> bool {
    forall|a: u32, b: u32|
        #![trigger s.known(is_dir, dir).contains(a), s.known(is_dir, dir).contains(b)]
        s.known(is_dir, dir).contains(a) && s.known(is_dir, dir).contains(b) && a != b
            ==> s.name_of(is_dir, a) != s.name_of(is_dir, b)
}

/// A listing as a file system gives it: no name twice among the entries of one kind, no
/// name longer than can be counted.
pub open spec fn proper_listing(es: Seq<Listed>) -> bool {
    &&& forall|i: int, j: int|
        0 <= i < j < es.len() && (#[trigger] es[i]).is_dir == (#[trigger] es[j]).is_dir
            ==> es[i].name != es[j].name
    &&& forall|i: int| 0 <= i < es.len() ==> (#[trigger] es[i]).name.len() <= u16::MAX
}

/// A directory that can be listed again: its entries bear distinct names, it does not lie
/// below one of its own subdirectories, and there is room.
pub open spec fn listable(s: State, dir: u32, es: Seq<Listed>) -> bool {
    &&& s.sound()
    &&& dir < s.dirs.len()
    &&& s.files.len() + es.len() < u32::MAX
    &&& names_distinct(s, false, dir)
    &&& names_distinct(s, true, dir)
    &&& proper_listing(es)
    &&& forall|c: u32| #[trigger] child_of(s, dir, c) ==> !below(s, c, dir)
}

// --- removing several subdirectories ---

pub proof fn lemma_below_less(s: State, t: State, id: u32, d: u32, steps: nat)
    requires
        t.dirs == s.dirs,
        t.base_dirs == s.base_dirs,
        t.by_parent == s.by_parent,
        forall|i: int| 0 <= i < s.dirs.len() && #[trigger] t.dir_alive[i] ==> s.dir_alive[i],
        reached(t, id, d, steps),
    ensures
        reached(s, id, d, steps),
    decreases steps,
{
    if steps > 0 {
        let p = choose|p: u32|
            reached(t, id, p, (steps - 1) as nat) && #[trigger] child_of(t, p, d);
        lemma_below_less(s, t, id, p, (steps - 1) as nat);
        assert(t.dir_alive[d as int]);
        assert(child_of(s, p, d));
    }
}

/// Subdirectories of `dir` are removed: the files of `dir` stay, and so do its other
/// subdirectories.
#[verifier::rlimit(60)]
pub proof fn lemma_removals(s: State, ids: Seq<u32>, dir: u32)
    requires
        s.sound(),
        forall|i: int|
            0 <= i < ids.len() ==> (#[trigger] ids[i]) < s.dirs.len() && s.dirs[ids[i] as int].parent
                == dir && !below(s, ids[i], dir),
    ensures
        ({
            let t = s.remove_subtrees(ids);
            &&& t == (State { dir_alive: t.dir_alive, file_alive: t.file_alive, ..s })
            &&& t.sound()
            &&& forall|f: int|
                0 <= f < s.files.len() && s.files[f].parent == dir ==> #[trigger] t.file_alive[f]
                    == s.file_alive[f]
            &&& forall|d: int|
                0 <= d < s.dirs.len() && s.dirs[d].parent == dir ==> #[trigger] t.dir_alive[d] == (
                s.dir_alive[d] && !ids.contains(d as u32))
            &&& forall|d: int| 0 <= d < s.dirs.len() && #[trigger] t.dir_alive[d] ==> s.dir_alive[d]
        }),
    decreases ids.len(),
{
    let t = s.remove_subtrees(ids);
    if ids.len() == 0 {
        assert(ids =~= Seq::empty());
    } else {
        let front = ids.drop_last();
        let c = ids.last();
        assert(ids[ids.len() - 1] == c);
        assert forall|i: int| 0 <= i < front.len() implies (#[trigger] front[i]) < s.dirs.len()
            && s.dirs[front[i] as int].parent == dir && !below(s, front[i], dir) by {
            assert(front[i] == ids[i]);
        }
        lemma_removals(s, front, dir);
        let x = s.remove_subtrees(front);
        law_removal_stays_below(x, c);
        assert(!below(x, c, dir)) by {
            if below(x, c, dir) {
                let k = choose|k: nat| reached(x, c, dir, k);
                lemma_below_less(s, x, c, dir, k);
                assert(below(s, c, dir));
            }
        }
        assert forall|f: int|
            0 <= f < s.files.len() && s.files[f].parent == dir implies #[trigger] t.file_alive[f]
            == s.file_alive[f] by {
            if x.file_alive[f] && !t.file_alive[f] {
                let d = choose|d: u32| below(x, c, d) && #[trigger] file_of(x, d, f as u32);
                assert(d == dir);
            }
        }
        assert forall|d: int|
            0 <= d < s.dirs.len() && s.dirs[d].parent == dir implies #[trigger] t.dir_alive[d] == (
        s.dir_alive[d] && !ids.contains(d as u32)) by {
            let y = d as u32;
            if y == c {
                assert(ids.contains(c));
            } else {
                if x.dir_alive[d] && !t.dir_alive[d] {
                    let k = choose|k: nat| reached(x, c, y, k);
                    let p = choose|p: u32|
                        reached(x, c, p, (k - 1) as nat) && #[trigger] child_of(x, p, y);
                    assert(p == dir);
                    assert(below(x, c, dir));
                }
                if front.contains(y) {
                    let i = choose|i: int| 0 <= i < front.len() && front[i] == y;
                    assert(ids[i] == y);
                }
                if ids.contains(y) {
                    let i = choose|i: int| 0 <= i < ids.len() && ids[i] == y;
                    assert(front[i] == y);
                }
            }
        }
        assert forall|d: int|
            0 <= d < s.dirs.len() && #[trigger] t.dir_alive[d] implies s.dir_alive[d] by {
            assert(x.dir_alive[d]);
        }
    }
}

// --- names ---

/// What it is for one of `ids` to bear a name.
pub proof fn lemma_bears(s: State, is_dir: bool, ids: Seq<u32>, name: Seq<u8>)
    ensures
        s.bears(is_dir, ids, name) <==> exists|id: u32| #[trigger]
            ids.contains(id) && s.name_of(is_dir, id) == name,
{
    if s.bears(is_dir, ids, name) {
        let i = choose|i: int| 0 <= i < ids.len() && s.name_of(is_dir, #[trigger] ids[i]) == name;
        assert(ids.contains(ids[i]));
    }
    if exists|id: u32| #[trigger] ids.contains(id) && s.name_of(is_dir, id) == name {
        let id = choose|id: u32| #[trigger] ids.contains(id) && s.name_of(is_dir, id) == name;
        let i = choose|i: int| 0 <= i < ids.len() && ids[i] == id;
        assert(s.name_of(is_dir, ids[i]) == name);
    }
}

proof fn lemma_last_bearer(s: State, is_dir: bool, ids: Seq<u32>, id: u32)
    requires
        ids.contains(id),
        forall|a: u32, b: u32|
            #![trigger ids.contains(a), ids.contains(b)]
            ids.contains(a) && ids.contains(b) && a != b ==> s.name_of(is_dir, a) != s.name_of(
                is_dir,
                b,
            ),
    ensures
        s.last_bearer(is_dir, ids, s.name_of(is_dir, id)) == Some(id),
    decreases ids.len(),
{
    let i = choose|i: int| 0 <= i < ids.len() && ids[i] == id;
    let last = ids.last();
    assert(ids[ids.len() - 1] == last);
    assert(ids.contains(last));
    if last != id {
        let front = ids.drop_last();
        assert(front[i] == id);
        assert forall|a: u32, b: u32|
            #![trigger front.contains(a), front.contains(b)]
            front.contains(a) && front.contains(b) && a != b implies s.name_of(is_dir, a)
            != s.name_of(is_dir, b) by {
            let j = choose|j: int| 0 <= j < front.len() && front[j] == a;
            let k = choose|k: int| 0 <= k < front.len() && front[k] == b;
            assert(ids[j] == a && ids[k] == b);
            assert(ids.contains(a) && ids.contains(b));
        }
        lemma_last_bearer(s, is_dir, front, id);
    }
}

/// Where names are distinct, what is gone is what is known and not listed.
pub proof fn lemma_gone(s: State, is_dir: bool, dir: u32, es: Seq<Listed>)
    requires
        names_distinct(s, is_dir, dir),
    ensures
        forall|id: u32| #[trigger]
            s.gone(is_dir, dir, es).contains(id) <==> s.known(is_dir, dir).contains(id) && !lists(
                es,
                is_dir,
                s.name_of(is_dir, id),
            ),
{
    let ids = s.known(is_dir, dir);
    lemma_picked_contains(
        ids,
        |id: u32|
            s.last_bearer(is_dir, ids, s.name_of(is_dir, id)) == Some(id) && !lists(
                es,
                is_dir,
                s.name_of(is_dir, id),
            ),
    );
    assert forall|id: u32| #[trigger] s.gone(is_dir, dir, es).contains(id) <==> ids.contains(id)
        && !lists(es, is_dir, s.name_of(is_dir, id)) by {
        if ids.contains(id) {
            lemma_last_bearer(s, is_dir, ids, id);
        }
    }
}

/// No entry of a listing repeats an earlier one.
pub proof fn lemma_first_listed(es: Seq<Listed>, k: int)
    requires
        proper_listing(es),
        0 <= k < es.len(),
    ensures
        !lists(es.take(k), es[k].is_dir, es[k].name),
{
    if lists(es.take(k), es[k].is_dir, es[k].name) {
        let t = es.take(k);
        let i = choose|i: int|
            0 <= i < t.len() && (#[trigger] t[i]).is_dir == es[k].is_dir && t[i].name == es[k].name;
        assert(es[i] == t[i]);
        assert(es[i].name != es[k].name);
    }
}

/// The files that a listing adds are the listed ones that were not known.
proof fn lemma_new_files(s: State, dir: u32, es: Seq<Listed>, k: int)
    requires
        listable(s, dir, es),
        0 <= k <= es.len(),
    ensures
        forall|f: int|
            s.files.len() <= f < s.with_new_files(dir, es, k).files.len() ==> (
            #[trigger] s.with_new_files(dir, es, k).files[f]).parent == dir && lists(
                es,
                false,
                s.with_new_files(dir, es, k).files[f].name,
            ),
        forall|i: int|
            0 <= i < k && !(#[trigger] es[i]).is_dir && !s.bears(
                false,
                s.known(false, dir),
                es[i].name,
            ) ==> exists|f: int|
                s.files.len() <= f < s.with_new_files(dir, es, k).files.len() && (
                #[trigger] s.with_new_files(dir, es, k).files[f]).name == es[i].name,
    decreases k,
{
    if k > 0 {
        lemma_new_files(s, dir, es, k - 1);
        lemma_first_listed(es, k - 1);
        lemma_new_files_grown(s, dir, es, k - 1);
        let t = s.with_new_files(dir, es, k - 1);
        let u = s.with_new_files(dir, es, k);
        let e = es[k - 1];
        assert(e.name.len() <= u16::MAX);
        assert(kept(e.name) =~= e.name);
        assert forall|f: int| s.files.len() <= f < u.files.len() implies (
        #[trigger] u.files[f]).parent == dir && lists(es, false, u.files[f].name) by {
            if f < t.files.len() {
                assert(u.files[f] == t.files[f]);
            } else {
                assert(es[k - 1].name == u.files[f].name);
            }
        }
        assert forall|i: int|
            0 <= i < k && !(#[trigger] es[i]).is_dir && !s.bears(
                false,
                s.known(false, dir),
                es[i].name,
            ) implies exists|f: int|
            s.files.len() <= f < u.files.len() && (#[trigger] u.files[f]).name == es[i].name by {
            if i < k - 1 {
                let f = choose|f: int|
                    s.files.len() <= f < t.files.len() && (#[trigger] t.files[f]).name
                        == es[i].name;
                assert(u.files[f] == t.files[f]);
            } else {
                assert(u.files[t.files.len() as int].name == es[i].name);
            }
        }
    }
}

// --- the laws ---

/// After a directory has been listed, its files are the listed ones; its subdirectories
/// are those of the listed ones that were known, and the others are returned as new.
#[verifier::rlimit(60)]
pub proof fn law_listing_is_taken_over(s: State, dir: u32, es: Seq<Listed>, name: Seq<u8>)
    requires
        listable(s, dir, es),
    ensures
        ({
            let t = s.listed(dir, es);
            &&& t.sound()
            &&& t.dirs == s.dirs
            &&& t.bears(false, t.known(false, dir), name) <==> lists(es, false, name)
            &&& t.bears(true, t.known(true, dir), name) <==> lists(es, true, name) && s.bears(
                true,
                s.known(true, dir),
                name,
            )
        }),
{
    let n = es.len() as int;
    let u = s.with_new_files(dir, es, n);
    let gf = s.gone(false, dir, es);
    let gd = s.gone(true, dir, es);
    let v = u.kill_files(gf);
    let t = v.remove_subtrees(gd);
    lemma_new_files_grown(s, dir, es, n);
    lemma_new_files(s, dir, es, n);
    lemma_gone(s, false, dir, es);
    lemma_gone(s, true, dir, es);
    lemma_gone_valid(s, false, dir, es);
    lemma_gone_valid(s, true, dir, es);
    lemma_kill_files(u, gf);
    law_lists_are_complete(s, dir);
    assert(v.sound());
    assert forall|i: int| 0 <= i < gd.len() implies (#[trigger] gd[i]) < v.dirs.len()
        && v.dirs[gd[i] as int].parent == dir && !below(v, gd[i], dir) by {
        assert(gd.contains(gd[i]));
        assert(s.child_dirs(dir).contains(gd[i]));
        assert(child_of(s, dir, gd[i]));
        if below(v, gd[i], dir) {
            let k = choose|k: nat| reached(v, gd[i], dir, k);
            lemma_below_less(s, v, gd[i], dir, k);
            assert(below(s, gd[i], dir));
        }
    }
    lemma_removals(v, gd, dir);
    law_lists_are_complete(t, dir);
    lemma_bears(t, false, t.known(false, dir), name);
    lemma_bears(t, true, t.known(true, dir), name);
    lemma_bears(s, false, s.known(false, dir), name);
    lemma_bears(s, true, s.known(true, dir), name);
    assert forall|f: int| 0 <= f < s.files.len() implies u.files[f] == #[trigger] s.files[f] by {
        assert(u.files.take(s.files.len() as int)[f] == u.files[f]);
    }
    // Files.
    if t.bears(false, t.known(false, dir), name) {
        let f = choose|f: u32| #[trigger]
            t.known(false, dir).contains(f) && t.name_of(false, f) == name;
        assert(file_of(t, dir, f));
        assert(t.file_alive[f as int] == v.file_alive[f as int]);
        if f < s.files.len() {
            assert(u.files[f as int] == s.files[f as int]);
            assert(v.file_alive[f as int] == (u.file_alive[f as int] && !gf.contains(f)));
            assert(u.file_alive[f as int] == s.file_alive[f as int]);
            assert(file_of(s, dir, f));
            assert(s.known(false, dir).contains(f));
        } else {
            assert(lists(es, false, u.files[f as int].name));
        }
    }
    if lists(es, false, name) {
        let k = choose|k: int|
            0 <= k < es.len() && (#[trigger] es[k]).is_dir == false && es[k].name == name;
        if s.bears(false, s.known(false, dir), name) {
            let f = choose|f: u32| #[trigger]
                s.known(false, dir).contains(f) && s.name_of(false, f) == name;
            assert(file_of(s, dir, f));
            assert(u.files[f as int] == s.files[f as int]);
            assert(!gf.contains(f));
            assert(v.file_alive[f as int]);
            assert(t.file_alive[f as int]);
            assert(file_of(t, dir, f));
            assert(t.known(false, dir).contains(f));
            assert(t.name_of(false, f) == name);
        } else {
            let f = choose|f: int|
                s.files.len() <= f < u.files.len() && (#[trigger] u.files[f]).name == es[k].name;
            let g = f as u32;
            assert(!gf.contains(g)) by {
                if gf.contains(g) {
                    let i = choose|i: int| 0 <= i < gf.len() && gf[i] == g;
                    assert(gf[i] < s.files.len());
                }
            }
            assert(u.file_alive[f]);
            assert(v.file_alive[f]);
            assert(t.file_alive[f]);
            assert(file_of(t, dir, g));
            assert(t.known(false, dir).contains(g));
            assert(t.name_of(false, g) == name);
        }
    }
    // Subdirectories.
    if t.bears(true, t.known(true, dir), name) {
        let c = choose|c: u32| #[trigger]
            t.known(true, dir).contains(c) && t.name_of(true, c) == name;
        assert(child_of(t, dir, c));
        assert(t.dir_alive[c as int] == (v.dir_alive[c as int] && !gd.contains(c)));
        assert(child_of(s, dir, c));
        assert(s.known(true, dir).contains(c));
        assert(s.name_of(true, c) == name);
    }
    if lists(es, true, name) && s.bears(true, s.known(true, dir), name) {
        let c = choose|c: u32| #[trigger]
            s.known(true, dir).contains(c) && s.name_of(true, c) == name;
        assert(child_of(s, dir, c));
        assert(!gd.contains(c));
        assert(t.dir_alive[c as int] == (v.dir_alive[c as int] && !gd.contains(c)));
        assert(child_of(t, dir, c));
        assert(t.known(true, dir).contains(c));
        assert(t.name_of(true, c) == name);
    }
}

proof fn lemma_nothing_new(s: State, dir: u32, es: Seq<Listed>, k: int)
    requires
        0 <= k <= es.len(),
        proper_listing(es),
        forall|i: int|
            0 <= i < es.len() && !(#[trigger] es[i]).is_dir ==> s.bears(
                false,
                s.known(false, dir),
                es[i].name,
            ),
    ensures
        s.with_new_files(dir, es, k) == s,
    decreases k,
{
    if k > 0 {
        lemma_nothing_new(s, dir, es, k - 1);
        lemma_first_listed(es, k - 1);
        assert(!es[k - 1].is_dir ==> s.bears(false, s.known(false, dir), es[k - 1].name));
    }
}

proof fn lemma_none_gone(s: State, is_dir: bool, dir: u32, es: Seq<Listed>)
    requires
        forall|name: Seq<u8>|
            s.bears(is_dir, s.known(is_dir, dir), name) ==> #[trigger] lists(es, is_dir, name),
    ensures
        s.gone(is_dir, dir, es) == Seq::<u32>::empty(),
{
    let ids = s.known(is_dir, dir);
    let left = |id: u32|
        s.last_bearer(is_dir, ids, s.name_of(is_dir, id)) == Some(id) && !lists(
            es,
            is_dir,
            s.name_of(is_dir, id),
        );
    assert forall|i: int| 0 <= i < ids.len() implies !left(#[trigger] ids[i]) by {
        let name = s.name_of(is_dir, ids[i]);
        assert(s.bears(is_dir, ids, name));
        assert(lists(es, is_dir, name));
    }
    lemma_picked_none(ids, left);
}

proof fn lemma_same_new_dirs(s: State, t: State, dir: u32, es: Seq<Listed>, k: int)
    requires
        0 <= k <= es.len(),
        forall|i: int|
            0 <= i < es.len() && (#[trigger] es[i]).is_dir ==> t.bears(
                true,
                t.known(true, dir),
                es[i].name,
            ) == s.bears(true, s.known(true, dir), es[i].name),
    ensures
        t.new_dirs(dir, es, k) == s.new_dirs(dir, es, k),
    decreases k,
{
    if k > 0 {
        lemma_same_new_dirs(s, t, dir, es, k - 1);
        assert(es[k - 1].is_dir ==> t.bears(true, t.known(true, dir), es[k - 1].name) == s.bears(
            true,
            s.known(true, dir),
            es[k - 1].name,
        ));
    }
}

/// Listing a directory twice does no harm: the second time nothing changes, and the same
/// subdirectories are returned as new.
pub proof fn law_listing_twice_is_listing_once(s: State, dir: u32, es: Seq<Listed>)
    requires
        listable(s, dir, es),
    ensures
        s.listed(dir, es).listed(dir, es) == s.listed(dir, es),
        s.listed(dir, es).new_dirs(dir, es, es.len() as int) == s.new_dirs(
            dir,
            es,
            es.len() as int,
        ),
{
    let t = s.listed(dir, es);
    let n = es.len() as int;
    assert forall|name: Seq<u8>| #[trigger]
        lists(es, false, name) == t.bears(false, t.known(false, dir), name) by {
        law_listing_is_taken_over(s, dir, es, name);
    }
    assert forall|name: Seq<u8>|
        t.bears(true, t.known(true, dir), name) implies #[trigger] lists(es, true, name) by {
        law_listing_is_taken_over(s, dir, es, name);
    }
    assert forall|i: int|
        0 <= i < es.len() && !(#[trigger] es[i]).is_dir implies t.bears(
        false,
        t.known(false, dir),
        es[i].name,
    ) by {
        assert(lists(es, false, es[i].name));
    }
    lemma_nothing_new(t, dir, es, n);
    lemma_none_gone(t, false, dir, es);
    lemma_none_gone(t, true, dir, es);
    assert(t.kill_files(Seq::empty()) == t);
    assert(t.remove_subtrees(Seq::empty()) == t);
    assert forall|i: int| 0 <= i < es.len() && (#[trigger] es[i]).is_dir implies t.bears(
        true,
        t.known(true, dir),
        es[i].name,
    ) == s.bears(true, s.known(true, dir), es[i].name) by {
        assert(lists(es, true, es[i].name));
        law_listing_is_taken_over(s, dir, es, es[i].name);
    }
    lemma_same_new_dirs(s, t, dir, es, n);
}

} // verus!
