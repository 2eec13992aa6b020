//! What holds of a live index as a whole.

use vstd::prelude::*;

#[allow(unused_imports)]
use crate::index::{parent_ok, path_to, Contents, MAX_CLIMB};
#[allow(unused_imports)]
use crate::live_search::{hit_list, Hit};
#[allow(unused_imports)]
use crate::pick::{
    at_most, between, lemma_between_contains, lemma_between_same, lemma_picked_contains,
};
#[allow(unused_imports)]
use crate::query::Parsed;
#[allow(unused_imports)]
use crate::reader::tree_ok;
#[allow(unused_imports)]
use crate::scan::{kept, link_flags, node_ok, DirItem, FileItem, Listed};
#[allow(unused_imports)]
use crate::search::{dir_hit, file_hit};
#[allow(unused_imports)]
use crate::text::{join, parent_of, SLASH};
#[allow(unused_imports)]
use crate::tree::{first_named, fresh, lists, segment_end, State, MAX_ANCESTORS, REMOVE_LIMIT};

verus! {

// --- searching ---

/// Being a directory that is there, is in use, and that the query accepts.
spec fn dir_found(s: State, q: Parsed) -> spec_fn(int) -> bool {
    |id: int|
        s.dir_alive[id] && (id >= s.base_dirs || s.dirs[id].name.len() > 0) && dir_hit(
            s.dirs,
            q,
            id,
        )
}

/// Whether the service runs or not, a query finds the same: a live index that has just
/// been made finds what a search of the index file finds, in the same order.
pub proof fn law_service_and_file_agree(c: Contents, q: Parsed)
    requires
        c.consistent(),
    ensures
        fresh(c).dir_hits(q) == c.dir_hits(q),
        fresh(c).file_hits(q) == c.file_hits(q),
{
    let s = fresh(c);
    let in_file = |id: int| c.nodes[id].name_len > 0 && dir_hit(c.dirs(), q, id);
    assert forall|id: int| 0 <= id < c.nodes.len() implies #[trigger] dir_found(s, q)(id)
        == in_file(id) by {
        assert(node_ok(c.dir_names, c.nodes[id]));
        assert(s.dirs[id].name.len() == c.nodes[id].name_len);
    }
    lemma_between_same(0, c.nodes.len() as int, dir_found(s, q), in_file);
    let file_in_file = |i: int| file_hit(c.dirs(), c.files(), q, i);
    assert forall|i: int| 0 <= i < c.recs.len() implies #[trigger] s.found(q)(i)
        == file_in_file(i) by {}
    lemma_between_same(0, c.recs.len() as int, s.found(q), file_in_file);
}

/// A search finds an entry exactly where it is there and the query accepts it.
pub proof fn law_search_finds_what_is_there(s: State, q: Parsed, id: u32)
    requires
        s.sound(),
        !q.is_empty(),
    ensures
        q.files() ==> (s.file_hits(q).contains(id) <==> id < s.files.len()
            && s.file_alive[id as int] && file_hit(s.dirs, s.files, q, id as int)),
        q.dirs() ==> (s.dir_hits(q).contains(id) <==> id < s.dirs.len() && s.dir_alive[id as int]
            && (id >= s.base_dirs || s.dirs[id as int].name.len() > 0) && dir_hit(
            s.dirs,
            q,
            id as int,
        )),
        !q.files() ==> s.file_hits(q).len() == 0,
        !q.dirs() ==> s.dir_hits(q).len() == 0,
{
    lemma_between_contains(0, s.files.len() as int, s.found(q));
    lemma_between_contains(0, s.dirs.len() as int, dir_found(s, q));
    if q.dirs() {
        assert(s.dir_hits(q) == between(0, s.dirs.len() as int, dir_found(s, q)));
    }
}

/// The limit is for directories and files together, and directories come first: no file
/// is listed where directories fill the limit, and no file stands before a directory.
pub proof fn law_directories_come_first(s: State, q: Parsed, limit: int)
    requires
        limit >= 0,
    ensures
        hit_list(s, q, limit).len() <= limit,
        s.dir_hits(q).len() >= limit ==> forall|k: int|
            0 <= k < hit_list(s, q, limit).len() ==> #[trigger] hit_list(s, q, limit)[k] is Dir,
        forall|j: int, k: int|
            0 <= j < k < hit_list(s, q, limit).len() && #[trigger] hit_list(s, q, limit)[j] is File
                ==> #[trigger] hit_list(s, q, limit)[k] is File,
        limit >= s.dir_hits(q).len() + s.file_hits(q).len() ==> hit_list(s, q, limit).len()
            == s.dir_hits(q).len() + s.file_hits(q).len(),
{
    let dirs = at_most(s.dir_hits(q), limit);
    let files = at_most(s.file_hits(q), limit - dirs.len());
    let hits = hit_list(s, q, limit);
    assert forall|k: int| 0 <= k < hits.len() implies (#[trigger] hits[k] is Dir <==> k
        < dirs.len()) by {
        if k < dirs.len() {
            assert(hits[k] == Hit::Dir(dirs[k]));
        } else {
            assert(hits[k] == Hit::File(files[k - dirs.len()]));
        }
    }
}

/// Without keywords nothing is found.
pub proof fn law_empty_query_finds_nothing(s: State, q: Parsed, limit: int)
    requires
        q.is_empty(),
        limit >= 0,
    ensures
        hit_list(s, q, limit) == Seq::<Hit>::empty(),
{
    assert(hit_list(s, q, limit) =~= Seq::<Hit>::empty());
}

// --- updating ---

/// `t` has come out of `s` by marking entries as gone and appending new ones.
pub open spec fn grown(s: State, t: State) -> bool {
    &&& t.root == s.root
    &&& t.base_dirs == s.base_dirs
    &&& t.base_files == s.base_files
    &&& t.by_parent == s.by_parent
    &&& t.ignores == s.ignores
    &&& s.dirs.len() <= t.dirs.len()
    &&& t.dirs.take(s.dirs.len() as int) == s.dirs
    &&& s.files.len() <= t.files.len()
    &&& t.files.take(s.files.len() as int) == s.files
    &&& t.dir_alive.len() - t.dirs.len() == s.dir_alive.len() - s.dirs.len()
    &&& t.file_alive.len() - t.files.len() == s.file_alive.len() - s.files.len()
    &&& forall|i: int|
        0 <= i < s.dirs.len() && #[trigger] t.dir_alive[i] ==> s.dir_alive[i]
    &&& forall|i: int|
        0 <= i < s.files.len() && #[trigger] t.file_alive[i] ==> s.file_alive[i]
}

proof fn lemma_grown_same(s: State)
    ensures
        grown(s, s),
{
    assert(s.dirs.take(s.dirs.len() as int) =~= s.dirs);
    assert(s.files.take(s.files.len() as int) =~= s.files);
}

proof fn lemma_grown_twice(s: State, t: State, u: State)
    requires
        s.dir_alive.len() == s.dirs.len(),
        s.file_alive.len() == s.files.len(),
        grown(s, t),
        grown(t, u),
    ensures
        grown(s, u),
{
    assert(u.dirs.take(s.dirs.len() as int) =~= t.dirs.take(s.dirs.len() as int)) by {
        assert forall|i: int| 0 <= i < s.dirs.len() implies u.dirs[i] == t.dirs[i] by {
            assert(u.dirs.take(t.dirs.len() as int)[i] == t.dirs[i]);
        }
    }
    assert(u.files.take(s.files.len() as int) =~= t.files.take(s.files.len() as int)) by {
        assert forall|i: int| 0 <= i < s.files.len() implies u.files[i] == t.files[i] by {
            assert(u.files.take(t.files.len() as int)[i] == t.files[i]);
        }
    }
    assert forall|i: int| 0 <= i < s.dirs.len() && #[trigger] u.dir_alive[i] implies s.dir_alive[i] by {
        assert(t.dir_alive[i]);
    }
    assert forall|i: int|
        0 <= i < s.files.len() && #[trigger] u.file_alive[i] implies s.file_alive[i] by {
        assert(t.file_alive[i]);
    }
}

/// What marking files as gone does.
pub proof fn lemma_kill_files(s: State, ids: Seq<u32>)
    requires
        s.file_alive.len() == s.files.len(),
        s.files.len() <= u32::MAX,
        forall|i: int| 0 <= i < ids.len() ==> (#[trigger] ids[i]) < s.files.len(),
    ensures
        s.kill_files(ids) == (State { file_alive: s.kill_files(ids).file_alive, ..s }),
        s.kill_files(ids).file_alive.len() == s.files.len(),
        forall|f: int|
            0 <= f < s.files.len() ==> #[trigger] s.kill_files(ids).file_alive[f] == (
            s.file_alive[f] && !ids.contains(f as u32)),
    decreases ids.len(),
{
    if ids.len() > 0 {
        let front = ids.drop_last();
        assert forall|i: int| 0 <= i < front.len() implies (#[trigger] front[i]) < s.files.len() by {
            assert(front[i] == ids[i]);
        }
        lemma_kill_files(s, front);
        let last = ids.last();
        assert(ids[ids.len() - 1] == last);
        let t = s.kill_files(ids);
        assert forall|f: int| 0 <= f < s.files.len() implies #[trigger] t.file_alive[f] == (
        s.file_alive[f] && !ids.contains(f as u32)) by {
            let before = s.kill_files(front);
            assert(before.file_alive[f] == (s.file_alive[f] && !front.contains(f as u32)));
            if front.contains(f as u32) {
                let i = choose|i: int| 0 <= i < front.len() && front[i] == f as u32;
                assert(ids[i] == f as u32);
            }
            if ids.contains(f as u32) && f != last {
                let i = choose|i: int| 0 <= i < ids.len() && ids[i] == f as u32;
                assert(front[i] == f as u32);
            }
        }
    }
}

// --- what lies below a directory ---

/// Directory `c` is there and is a subdirectory of `d`.
pub open spec fn child_of(s: State, d: u32, c: u32) -> bool {
    c < s.dirs.len() && s.is_child(d, c as int) && if c < s.base_dirs {
        d < s.base_dirs && s.by_parent.contains(c) && c != d
    } else {
        true
    }
}

/// File `f` is there and lies in `d`.
pub open spec fn file_of(s: State, d: u32, f: u32) -> bool {
    f < s.files.len() && s.is_inside(d, f as int) && (d < s.base_dirs || f >= s.base_files)
}

/// `d` is reached from `id` in `steps` steps from a directory to a subdirectory.
pub open spec fn reached(s: State, id: u32, d: u32, steps: nat) -> bool
    decreases steps,
{
    if steps == 0 {
        d == id
    } else {
        exists|p: u32| reached(s, id, p, (steps - 1) as nat) && #[trigger] child_of(s, p, d)
    }
}

/// `d` is `id` or lies below it.
pub open spec fn below(s: State, id: u32, d: u32) -> bool {
    exists|steps: nat| reached(s, id, d, steps)
}

/// Directory `id` and those below it.
pub open spec fn subtree(s: State, id: u32) -> Set<u32> {
    Set::new(|d: u32| d < s.dirs.len() && below(s, id, d))
}

/// File `f` lies in `id` or below it.
pub open spec fn file_below(s: State, id: u32, f: u32) -> bool {
    exists|d: u32| below(s, id, d) && #[trigger] file_of(s, d, f)
}

/// The lists of a directory hold its subdirectories and its files, all of them.
#[verifier::rlimit(60)]
pub proof fn law_lists_are_complete(s: State, d: u32)
    requires
        s.sound(),
    ensures
        forall|c: u32| #[trigger] s.child_dirs(d).contains(c) <==> child_of(s, d, c),
        forall|f: u32| #[trigger] s.files_in_dir(d).contains(f) <==> file_of(s, d, f),
{
    let a = s.base_children(d);
    let b = s.added_children(d);
    lemma_picked_contains(s.by_parent, s.other_child(d));
    lemma_between_contains(
        s.base_dirs as int,
        s.dirs.len() as int,
        |id: int| s.is_child(d, id),
    );
    let all = s.child_dirs(d);
    assert forall|c: u32| #[trigger] all.contains(c) <==> child_of(s, d, c) by {
        if all.contains(c) {
            let k = choose|k: int| 0 <= k < all.len() && all[k] == c;
            if k < a.len() {
                assert(a[k] == c);
                assert(a.contains(c));
                assert(s.by_parent.contains(c));
                let j = choose|j: int| 0 <= j < s.by_parent.len() && s.by_parent[j] == c;
                assert(s.by_parent[j] < s.base_dirs);
            } else {
                assert(b[k - a.len()] == c);
                assert(b.contains(c));
            }
        }
        if child_of(s, d, c) {
            if c < s.base_dirs {
                assert(s.other_child(d)(c));
                assert(a.contains(c));
                let k = choose|k: int| 0 <= k < a.len() && a[k] == c;
                assert(all[k] == c);
            } else {
                assert(b.contains(c));
                let k = choose|k: int| 0 <= k < b.len() && b[k] == c;
                assert(all[a.len() + k] == c);
            }
        }
    }
    let lo = if d < s.base_dirs {
        0
    } else {
        s.base_files as int
    };
    lemma_between_contains(lo, s.files.len() as int, |i: int| s.is_inside(d, i));
}

/// There are finitely many directories.
pub proof fn lemma_subtree_finite(s: State, id: u32)
    ensures
        subtree(s, id).finite(),
{
    lemma_below_finite(s.dirs.len() as int);
    let all = Set::new(|d: u32| d < s.dirs.len());
    assert(subtree(s, id).subset_of(all));
    vstd::set_lib::lemma_set_subset_finite(all, subtree(s, id));
}

proof fn lemma_below_finite(n: int)
    requires
        0 <= n,
    ensures
        Set::new(|d: u32| d < n).finite(),
    decreases n,
{
    let all = Set::new(|d: u32| d < n);
    if n == 0 {
        assert(all =~= Set::empty());
    } else {
        lemma_below_finite(n - 1);
        let front = Set::new(|d: u32| d < n - 1);
        if n <= u32::MAX + 1 {
            assert(all =~= front.insert((n - 1) as u32));
        } else {
            assert(all =~= front);
        }
    }
}

/// After some visits of a removal that began at `id`: `v` are the directories that were
/// visited, `t` is what is left.
spec fn swept(s: State, id: u32, v: Set<u32>, t: State, stack: Seq<u32>) -> bool {
    &&& t == (State { dir_alive: t.dir_alive, file_alive: t.file_alive, ..s })
    &&& t.dir_alive.len() == s.dirs.len()
    &&& t.file_alive.len() == s.files.len()
    &&& v.finite()
    &&& forall|d: int|
        0 <= d < s.dirs.len() ==> #[trigger] t.dir_alive[d] == (s.dir_alive[d] && !v.contains(
            d as u32,
        ))
    &&& forall|f: int|
        0 <= f < s.files.len() ==> #[trigger] t.file_alive[f] == (s.file_alive[f] && !in_some(
            s,
            v,
            f as u32,
        ))
    &&& forall|d: u32| #[trigger] v.contains(d) ==> d < s.dirs.len() && below(s, id, d)
    &&& forall|i: int|
        0 <= i < stack.len() ==> (#[trigger] stack[i]) < s.dirs.len() && below(s, id, stack[i])
            && !v.contains(stack[i])
    &&& stack.no_duplicates()
    &&& forall|i: int|
        0 <= i < stack.len() && stack[i] != id ==> v.contains(
            s.dirs[(#[trigger] stack[i]) as int].parent,
        )
    &&& forall|d: u32, c: u32|
        v.contains(d) && #[trigger] child_of(s, d, c) ==> v.contains(c) || stack.contains(c)
    &&& if v.contains(id) {
        true
    } else {
        v =~= Set::empty() && stack =~= seq![id]
    }
}

/// File `f` lies in one of the directories `v`.
spec fn in_some(s: State, v: Set<u32>, f: u32) -> bool {
    exists|d: u32| v.contains(d) && #[trigger] file_of(s, d, f)
}

proof fn lemma_swept_sound(s: State, id: u32, v: Set<u32>, t: State, stack: Seq<u32>)
    requires
        s.sound(),
        swept(s, id, v, t, stack),
    ensures
        t.sound(),
        forall|d: u32, c: u32| #[trigger]
            child_of(t, d, c) <==> child_of(s, d, c) && !v.contains(c),
        forall|d: u32, f: u32| #[trigger]
            file_of(t, d, f) <==> file_of(s, d, f) && !in_some(s, v, f),
{
    assert forall|d: u32, c: u32| #[trigger] child_of(t, d, c) <==> child_of(s, d, c)
        && !v.contains(c) by {
        if c < s.dirs.len() {
            assert(t.dir_alive[c as int] == (s.dir_alive[c as int] && !v.contains(c)));
        }
    }
    assert forall|d: u32, f: u32| #[trigger] file_of(t, d, f) <==> file_of(s, d, f) && !in_some(
        s,
        v,
        f,
    ) by {
        if f < s.files.len() {
            assert(t.file_alive[f as int] == (s.file_alive[f as int] && !in_some(s, v, f)));
        }
    }
}

proof fn lemma_below_child(s: State, id: u32, d: u32, c: u32)
    requires
        below(s, id, d),
        child_of(s, d, c),
    ensures
        below(s, id, c),
{
    let k = choose|k: nat| reached(s, id, d, k);
    assert(reached(s, id, c, (k + 1) as nat));
}

/// One visit.
#[verifier::rlimit(60)]
proof fn lemma_visit(s: State, id: u32, v: Set<u32>, t: State, stack: Seq<u32>)
    requires
        s.sound(),
        swept(s, id, v, t, stack),
        stack.len() > 0,
    ensures
        swept(
            s,
            id,
            v.insert(stack.last()),
            t.kill_files(t.files_in_dir(stack.last())).kill_dir(stack.last()),
            stack.drop_last() + t.child_dirs(stack.last()),
        ),
        !v.contains(stack.last()),
{
    let d = stack.last();
    let last = stack.len() - 1;
    let rest = stack.drop_last();
    let kids = t.child_dirs(d);
    let files = t.files_in_dir(d);
    let t1 = t.kill_files(files);
    let t2 = t1.kill_dir(d);
    let v2 = v.insert(d);
    let stack2 = rest + kids;
    assert(stack[last] == d);
    lemma_swept_sound(s, id, v, t, stack);
    law_lists_are_complete(t, d);
    crate::update::lemma_child_dirs_distinct(t, d);
    crate::update::lemma_files_in_dir_distinct(t, d);
    lemma_kill_files(t, files);
    assert forall|x: int| 0 <= x < s.dirs.len() implies #[trigger] t2.dir_alive[x] == (
    s.dir_alive[x] && !v2.contains(x as u32)) by {
        assert(t.dir_alive[x] == (s.dir_alive[x] && !v.contains(x as u32)));
    }
    assert forall|f: int| 0 <= f < s.files.len() implies #[trigger] t2.file_alive[f] == (
    s.file_alive[f] && !in_some(s, v2, f as u32)) by {
        let g = f as u32;
        assert(t.file_alive[f] == (s.file_alive[f] && !in_some(s, v, g)));
        assert(t1.file_alive[f] == (t.file_alive[f] && !files.contains(g)));
        assert(files.contains(g) <==> file_of(t, d, g));
        if in_some(s, v, g) {
            let x = choose|x: u32| v.contains(x) && #[trigger] file_of(s, x, g);
            assert(v2.contains(x));
        }
        if file_of(s, d, g) {
            assert(v2.contains(d));
        }
        if in_some(s, v2, g) {
            let x = choose|x: u32| v2.contains(x) && #[trigger] file_of(s, x, g);
            if x != d {
                assert(v.contains(x));
            }
        }
    }
    assert forall|i: int| 0 <= i < kids.len() implies child_of(t, d, #[trigger] kids[i])
        && child_of(s, d, kids[i]) && !v.contains(kids[i]) && kids[i] != d by {
        assert(kids.contains(kids[i]));
        if kids[i] == d {
            assert(d >= s.base_dirs);
            assert(parent_ok(s.dirs[d as int].parent, d as int));
        }
    }
    assert forall|i: int| 0 <= i < stack2.len() implies (#[trigger] stack2[i]) < s.dirs.len()
        && below(s, id, stack2[i]) && !v2.contains(stack2[i]) by {
        if i < rest.len() {
            assert(stack2[i] == stack[i]);
            assert(stack[i] != stack[last]);
        } else {
            let c = kids[i - rest.len()];
            assert(stack2[i] == c);
            lemma_below_child(s, id, d, c);
        }
    }
    assert forall|i: int, j: int|
        0 <= i < rest.len() && 0 <= j < kids.len() implies rest[i] != kids[j] by {
        assert(rest[i] == stack[i]);
        if rest[i] == kids[j] {
            // Its parent is `d`, which was not visited before.
            assert(s.dirs[kids[j] as int].parent == d);
            if stack[i] == id {
                assert(!v.contains(id));
                assert(stack =~= seq![id]);
            }
        }
    }
    assert forall|i: int, j: int|
        0 <= i < stack2.len() && 0 <= j < stack2.len() && i != j implies stack2[i] != stack2[j] by {
        if i < rest.len() && j < rest.len() {
            assert(stack[i] != stack[j]);
        } else if i < rest.len() {
            assert(rest[i] != kids[j - rest.len()]);
        } else if j < rest.len() {
            assert(rest[j] != kids[i - rest.len()]);
        } else {
            assert(kids[i - rest.len()] != kids[j - rest.len()]);
        }
    }
    assert forall|i: int| 0 <= i < stack2.len() && stack2[i] != id implies v2.contains(
        s.dirs[(#[trigger] stack2[i]) as int].parent,
    ) by {
        if i < rest.len() {
            assert(stack2[i] == stack[i]);
            assert(v.contains(s.dirs[stack[i] as int].parent));
        } else {
            assert(stack2[i] == kids[i - rest.len()]);
        }
    }
    assert forall|x: u32, c: u32|
        v2.contains(x) && #[trigger] child_of(s, x, c) implies v2.contains(c) || stack2.contains(c) by {
        if x == d {
            if !v.contains(c) {
                assert(child_of(t, d, c));
                assert(kids.contains(c));
                let k = choose|k: int| 0 <= k < kids.len() && kids[k] == c;
                assert(stack2[rest.len() + k] == c);
            }
        } else {
            assert(v.contains(x));
            if !v.contains(c) && c != d {
                assert(stack.contains(c));
                let k = choose|k: int| 0 <= k < stack.len() && stack[k] == c;
                assert(stack2[k] == c);
            }
        }
    }
    assert(v2.contains(id)) by {
        if !v.contains(id) {
            assert(stack =~= seq![id]);
        }
    }
}

/// A removal that visits enough directories visits all.
proof fn lemma_sweep(s: State, id: u32, v: Set<u32>, t: State, stack: Seq<u32>, visits: nat) -> (w:
    Set<u32>)
    requires
        s.sound(),
        swept(s, id, v, t, stack),
        v.len() + visits >= subtree(s, id).len(),
    ensures
        swept(s, id, w, t.sweep(stack, visits), Seq::empty()),
    decreases visits,
{
    if stack.len() == 0 {
        assert(stack =~= Seq::empty());
        v
    } else {
        let d = stack.last();
        lemma_visit(s, id, v, t, stack);
        assert(stack[stack.len() - 1] == d);
        if visits == 0 {
            let w = v.insert(d);
            lemma_subtree_finite(s, id);
            assert(w.subset_of(subtree(s, id)));
            vstd::set_lib::lemma_len_subset(w, subtree(s, id));
            v
        } else {
            lemma_sweep(
                s,
                id,
                v.insert(d),
                t.kill_files(t.files_in_dir(d)).kill_dir(d),
                stack.drop_last() + t.child_dirs(d),
                (visits - 1) as nat,
            )
        }
    }
}

proof fn lemma_closed(s: State, id: u32, w: Set<u32>, d: u32, steps: nat)
    requires
        w.contains(id),
        forall|x: u32, c: u32| w.contains(x) && #[trigger] child_of(s, x, c) ==> w.contains(c),
        reached(s, id, d, steps),
    ensures
        w.contains(d),
    decreases steps,
{
    if steps > 0 {
        let p = choose|p: u32|
            reached(s, id, p, (steps - 1) as nat) && #[trigger] child_of(s, p, d);
        lemma_closed(s, id, w, p, (steps - 1) as nat);
    }
}

/// Removing a directory removes it, all directories below it and their files, and
/// nothing else.
///
/// The number of visits is limited; this speaks of subtrees that stay within the limit.
#[verifier::rlimit(60)]
pub proof fn law_removal_takes_the_subtree(s: State, id: u32)
    requires
        s.sound(),
        id < s.dirs.len(),
        subtree(s, id).len() <= REMOVE_LIMIT,
    ensures
        ({
            let t = s.remove_subtree(id);
            &&& t == (State { dir_alive: t.dir_alive, file_alive: t.file_alive, ..s })
            &&& t.sound()
            &&& forall|d: int|
                0 <= d < s.dirs.len() ==> #[trigger] t.dir_alive[d] == (s.dir_alive[d] && !below(
                    s,
                    id,
                    d as u32,
                ))
            &&& forall|f: int|
                0 <= f < s.files.len() ==> #[trigger] t.file_alive[f] == (s.file_alive[f]
                    && !file_below(s, id, f as u32))
        }),
{
    let t = s.remove_subtree(id);
    let none = Set::<u32>::empty();
    assert(reached(s, id, id, 0));
    assert(swept(s, id, none, s, seq![id]));
    let w = lemma_sweep(s, id, none, s, seq![id], REMOVE_LIMIT as nat);
    lemma_swept_sound(s, id, w, t, Seq::empty());
    assert(w.contains(id)) by {
        if !w.contains(id) {
            assert(Seq::<u32>::empty().len() == seq![id].len());
        }
    }
    assert forall|x: u32, c: u32| w.contains(x) && #[trigger] child_of(s, x, c) implies w.contains(
        c,
    ) by {
        assert(!Seq::<u32>::empty().contains(c));
    }
    assert forall|d: u32| below(s, id, d) == #[trigger] w.contains(d) by {
        if below(s, id, d) {
            let k = choose|k: nat| reached(s, id, d, k);
            lemma_closed(s, id, w, d, k);
        }
    }
    assert forall|f: u32| #[trigger] in_some(s, w, f) == file_below(s, id, f) by {
        if in_some(s, w, f) {
            let d = choose|d: u32| w.contains(d) && #[trigger] file_of(s, d, f);
            assert(below(s, id, d));
        }
        if file_below(s, id, f) {
            let d = choose|d: u32| below(s, id, d) && #[trigger] file_of(s, d, f);
            assert(w.contains(d));
        }
    }
    assert forall|d: int| 0 <= d < s.dirs.len() implies #[trigger] t.dir_alive[d] == (
    s.dir_alive[d] && !below(s, id, d as u32)) by {
        assert(w.contains(d as u32) == below(s, id, d as u32));
    }
    assert forall|f: int| 0 <= f < s.files.len() implies #[trigger] t.file_alive[f] == (
    s.file_alive[f] && !file_below(s, id, f as u32)) by {
        assert(in_some(s, w, f as u32) == file_below(s, id, f as u32));
    }
}

/// A removal, however far it got.
proof fn lemma_part_swept(s: State, id: u32, v: Set<u32>, t: State, stack: Seq<u32>, visits: nat) -> (r:
    (Set<u32>, Seq<u32>))
    requires
        s.sound(),
        swept(s, id, v, t, stack),
    ensures
        swept(s, id, r.0, t.sweep(stack, visits), r.1),
        v.contains(id) || visits > 0 ==> r.0.contains(id),
    decreases visits,
{
    if stack.len() == 0 || visits == 0 {
        if !v.contains(id) && visits > 0 {
            assert(stack.len() == seq![id].len());
        }
        (v, stack)
    } else {
        let d = stack.last();
        lemma_visit(s, id, v, t, stack);
        if !v.contains(id) {
            assert(stack =~= seq![id]);
            assert(d == id);
        }
        lemma_part_swept(
            s,
            id,
            v.insert(d),
            t.kill_files(t.files_in_dir(d)).kill_dir(d),
            stack.drop_last() + t.child_dirs(d),
            (visits - 1) as nat,
        )
    }
}

/// Removing a directory removes the directory itself, whatever the size of its subtree, and
/// nothing outside the subtree.
pub proof fn law_removal_stays_below(s: State, id: u32)
    requires
        s.sound(),
        id < s.dirs.len(),
    ensures
        ({
            let t = s.remove_subtree(id);
            &&& t == (State { dir_alive: t.dir_alive, file_alive: t.file_alive, ..s })
            &&& t.sound()
            &&& !t.dir_alive[id as int]
            &&& forall|d: int|
                0 <= d < s.dirs.len() && #[trigger] t.dir_alive[d] ==> s.dir_alive[d]
            &&& forall|d: int|
                0 <= d < s.dirs.len() && !(#[trigger] t.dir_alive[d]) && s.dir_alive[d] ==> below(
                    s,
                    id,
                    d as u32,
                )
            &&& forall|f: int|
                0 <= f < s.files.len() && #[trigger] t.file_alive[f] ==> s.file_alive[f]
            &&& forall|f: int|
                0 <= f < s.files.len() && !(#[trigger] t.file_alive[f]) && s.file_alive[f]
                    ==> file_below(s, id, f as u32)
        }),
{
    let t = s.remove_subtree(id);
    let none = Set::<u32>::empty();
    assert(reached(s, id, id, 0));
    assert(swept(s, id, none, s, seq![id]));
    let (w, rest) = lemma_part_swept(s, id, none, s, seq![id], REMOVE_LIMIT as nat);
    lemma_swept_sound(s, id, w, t, rest);
    assert(t.dir_alive[id as int] == (s.dir_alive[id as int] && !w.contains(id)));
    assert forall|f: int|
        0 <= f < s.files.len() && !(#[trigger] t.file_alive[f])
            && s.file_alive[f] implies file_below(s, id, f as u32) by {
        assert(in_some(s, w, f as u32));
        let d = choose|d: u32| w.contains(d) && #[trigger] file_of(s, d, f as u32);
        assert(below(s, id, d));
    }
}

// --- putting a subtree in place ---

/// The directories of a subtree as they stand in an index that had `n` directories.
pub open spec fn grafted_dirs(n: int, parent: u32, dirs: Seq<(u32, Seq<u8>)>) -> Seq<DirItem> {
    Seq::new(
        dirs.len(),
        |i: int|
            DirItem {
                name: kept(dirs[i].1),
                parent: if i == 0 {
                    parent
                } else {
                    (n + dirs[i].0) as u32
                },
            },
    )
}

/// The files of a subtree as they stand in an index that had `n` directories.
pub open spec fn grafted_files(n: int, files: Seq<(u32, Seq<u8>, bool)>) -> Seq<FileItem> {
    Seq::new(
        files.len(),
        |i: int|
            FileItem {
                name: kept(files[i].1),
                parent: (n + files[i].0) as u32,
                flags: link_flags(files[i].2),
            },
    )
}

/// `n` times true.
pub open spec fn all_true(n: nat) -> Seq<bool> {
    Seq::new(n, |i: int| true)
}

proof fn lemma_graft_dirs(s: State, parent: u32, dirs: Seq<(u32, Seq<u8>)>, k: int)
    requires
        0 <= k <= dirs.len(),
        s.dirs.len() + dirs.len() <= u32::MAX,
        forall|i: int| 1 <= i < dirs.len() ==> (#[trigger] dirs[i]).0 < i,
    ensures
        s.graft_ids(dirs, k) == Seq::new(k as nat, |i: int| (s.dirs.len() + i) as u32),
        s.graft_dirs(parent, dirs, k) == (State {
            dirs: s.dirs + grafted_dirs(s.dirs.len() as int, parent, dirs).take(k),
            dir_alive: s.dir_alive + all_true(k as nat),
            ..s
        }),
    decreases k,
{
    let all = grafted_dirs(s.dirs.len() as int, parent, dirs);
    if k == 0 {
        assert(s.graft_ids(dirs, k) =~= Seq::new(0, |i: int| (s.dirs.len() + i) as u32));
        assert(s.dirs + all.take(0) =~= s.dirs);
        assert(s.dir_alive + all_true(0) =~= s.dir_alive);
    } else {
        lemma_graft_dirs(s, parent, dirs, k - 1);
        let ids = s.graft_ids(dirs, k - 1);
        if k > 1 {
            assert(dirs[k - 1].0 < k - 1);
        }
        assert(s.graft_ids(dirs, k) =~= Seq::new(
            k as nat,
            |i: int| (s.dirs.len() + i) as u32,
        ));
        let t = s.graft_dirs(parent, dirs, k);
        assert(t.dirs =~= s.dirs + all.take(k));
        assert(t.dir_alive =~= s.dir_alive + all_true(k as nat));
    }
}

proof fn lemma_graft_files(
    s: State,
    n: int,
    ids: Seq<u32>,
    files: Seq<(u32, Seq<u8>, bool)>,
    k: int,
)
    requires
        0 <= k <= files.len(),
        forall|i: int| 0 <= i < files.len() ==> (#[trigger] files[i]).0 < ids.len(),
        ids == Seq::new(ids.len(), |i: int| (n + i) as u32),
    ensures
        s.graft_files(ids, files, k) == (State {
            files: s.files + grafted_files(n, files).take(k),
            file_alive: s.file_alive + all_true(k as nat),
            ..s
        }),
    decreases k,
{
    let all = grafted_files(n, files);
    if k == 0 {
        assert(s.files + all.take(0) =~= s.files);
        assert(s.file_alive + all_true(0) =~= s.file_alive);
    } else {
        lemma_graft_files(s, n, ids, files, k - 1);
        assert(files[k - 1].0 < ids.len());
        let t = s.graft_files(ids, files, k);
        assert(t.files =~= s.files + all.take(k));
        assert(t.file_alive =~= s.file_alive + all_true(k as nat));
    }
}

/// A subtree that was read is put in place whole: every directory and every file is
/// there, under the directory that it was found in, and nothing else has changed.
#[verifier::rlimit(60)]
pub proof fn law_graft_puts_all_in_place(
    s: State,
    parent: u32,
    dirs: Seq<(u32, Seq<u8>)>,
    files: Seq<(u32, Seq<u8>, bool)>,
)
    requires
        tree_ok(dirs, files),
        s.dirs.len() + dirs.len() <= u32::MAX,
    ensures
        s.graft(parent, dirs, files) == (State {
            dirs: s.dirs + grafted_dirs(s.dirs.len() as int, parent, dirs),
            dir_alive: s.dir_alive + all_true(dirs.len()),
            files: s.files + grafted_files(s.dirs.len() as int, files),
            file_alive: s.file_alive + all_true(files.len()),
            ..s
        }),
{
    let n = s.dirs.len() as int;
    let nd = dirs.len() as int;
    let nf = files.len() as int;
    lemma_graft_dirs(s, parent, dirs, nd);
    let ids = s.graft_ids(dirs, nd);
    assert(ids.len() == nd);
    assert(ids =~= Seq::new(ids.len(), |i: int| (n + i) as u32));
    let mid = s.graft_dirs(parent, dirs, nd);
    lemma_graft_files(mid, n, ids, files, nf);
    assert(grafted_dirs(n, parent, dirs).take(nd) =~= grafted_dirs(n, parent, dirs));
    assert(grafted_files(n, files).take(nf) =~= grafted_files(n, files));
}

// --- every update marks and appends, and does nothing else ---

#[verifier::rlimit(60)]
proof fn lemma_sweep_grown(s: State, stack: Seq<u32>, visits: nat)
    requires
        s.sound(),
        forall|i: int| 0 <= i < stack.len() ==> (#[trigger] stack[i]) < s.dirs.len(),
    ensures
        grown(s, s.sweep(stack, visits)),
        s.sweep(stack, visits).sound(),
        s.sweep(stack, visits).dirs == s.dirs,
        s.sweep(stack, visits).files == s.files,
    decreases visits,
{
    lemma_grown_same(s);
    if stack.len() > 0 && visits > 0 {
        let d = stack.last();
        assert(stack[stack.len() - 1] == d);
        let files = s.files_in_dir(d);
        let kids = s.child_dirs(d);
        crate::update::lemma_child_dirs_distinct(s, d);
        crate::update::lemma_files_in_dir_distinct(s, d);
        lemma_kill_files(s, files);
        let t = s.kill_files(files).kill_dir(d);
        assert(t.sound());
        assert(grown(s, t)) by {
            assert(t.dirs.take(s.dirs.len() as int) =~= s.dirs);
            assert(t.files.take(s.files.len() as int) =~= s.files);
        }
        let next = stack.drop_last() + kids;
        assert forall|i: int| 0 <= i < next.len() implies (#[trigger] next[i]) < t.dirs.len() by {
            if i < stack.len() - 1 {
                assert(next[i] == stack[i]);
            } else {
                assert(next[i] == kids[i - (stack.len() - 1)]);
            }
        }
        lemma_sweep_grown(t, next, (visits - 1) as nat);
        lemma_grown_twice(s, t, t.sweep(next, (visits - 1) as nat));
    }
}

/// What removing directories does.
pub proof fn lemma_removals_grown(s: State, ids: Seq<u32>)
    requires
        s.sound(),
        forall|i: int| 0 <= i < ids.len() ==> (#[trigger] ids[i]) < s.dirs.len(),
    ensures
        grown(s, s.remove_subtrees(ids)),
        s.remove_subtrees(ids).sound(),
        s.remove_subtrees(ids).dirs == s.dirs,
        s.remove_subtrees(ids).files == s.files,
    decreases ids.len(),
{
    if ids.len() == 0 {
        lemma_grown_same(s);
    } else {
        let front = ids.drop_last();
        assert forall|i: int| 0 <= i < front.len() implies (#[trigger] front[i]) < s.dirs.len() by {
            assert(front[i] == ids[i]);
        }
        lemma_removals_grown(s, front);
        let t = s.remove_subtrees(front);
        assert(ids[ids.len() - 1] == ids.last());
        lemma_sweep_grown(t, seq![ids.last()], REMOVE_LIMIT as nat);
        lemma_grown_twice(s, t, s.remove_subtrees(ids));
    }
}

/// What adding files does.
#[verifier::rlimit(60)]
pub proof fn lemma_new_files_grown(s: State, dir: u32, es: Seq<Listed>, k: int)
    requires
        s.sound(),
        0 <= k <= es.len(),
        dir < s.dirs.len(),
        s.files.len() + es.len() < u32::MAX,
    ensures
        grown(s, s.with_new_files(dir, es, k)),
        s.with_new_files(dir, es, k).sound(),
        s.with_new_files(dir, es, k).dirs == s.dirs,
        s.with_new_files(dir, es, k).dir_alive == s.dir_alive,
        s.with_new_files(dir, es, k).files.len() <= s.files.len() + k,
        forall|f: int|
            0 <= f < s.files.len() ==> #[trigger] s.with_new_files(dir, es, k).file_alive[f]
                == s.file_alive[f],
        forall|f: int|
            s.files.len() <= f < s.with_new_files(dir, es, k).files.len()
                ==> #[trigger] s.with_new_files(dir, es, k).file_alive[f],
    decreases k,
{
    lemma_grown_same(s);
    if k > 0 {
        lemma_new_files_grown(s, dir, es, k - 1);
        let t = s.with_new_files(dir, es, k - 1);
        let u = s.with_new_files(dir, es, k);
        let e = es[k - 1];
        if !e.is_dir && s.is_new(dir, es, k - 1) {
            assert(u == t.push_file(e.name, dir, e.is_link));
            assert forall|f: int| 0 <= f < u.files.len() implies parent_ok(
                (#[trigger] u.files[f]).parent,
                u.dirs.len() as int,
            ) by {
                if f < t.files.len() {
                    assert(u.files[f] == t.files[f]);
                }
            }
            assert(u.sound());
            assert(u.files.take(s.files.len() as int) =~= t.files.take(s.files.len() as int));
            assert forall|f: int|
                0 <= f < s.files.len() implies #[trigger] u.file_alive[f] == s.file_alive[f] by {
                assert(u.file_alive[f] == t.file_alive[f]);
            }
            assert forall|f: int|
                s.files.len() <= f < u.files.len() implies #[trigger] u.file_alive[f] by {
                if f < t.files.len() {
                    assert(u.file_alive[f] == t.file_alive[f]);
                }
            }
        }
    }
}

/// No update moves, renames or revives an entry: ids stay valid, and what was gone stays
/// gone.
#[verifier::rlimit(60)]
pub proof fn law_updates_mark_and_append(
    s: State,
    dir: u32,
    es: Seq<Listed>,
    parent: u32,
    dirs: Seq<(u32, Seq<u8>)>,
    files: Seq<(u32, Seq<u8>, bool)>,
)
    requires
        s.sound(),
        dir < s.dirs.len(),
        s.files.len() + es.len() < u32::MAX,
        tree_ok(dirs, files),
        s.dirs.len() + dirs.len() <= u32::MAX,
    ensures
        grown(s, s.applied(dir, Some(es))),
        grown(s, s.applied(dir, None)),
        grown(s, s.graft(parent, dirs, files)),
        grown(s, s.rescan(dir, dirs, files)),
{
    let n = es.len() as int;
    lemma_grown_same(s);
    lemma_sweep_grown(s, seq![dir], REMOVE_LIMIT as nat);
    // A listing.
    lemma_new_files_grown(s, dir, es, n);
    let u = s.with_new_files(dir, es, n);
    let gf = s.gone(false, dir, es);
    let gd = s.gone(true, dir, es);
    crate::update::lemma_gone_valid(s, false, dir, es);
    crate::update::lemma_gone_valid(s, true, dir, es);
    lemma_kill_files(u, gf);
    let v = u.kill_files(gf);
    assert(grown(u, v)) by {
        lemma_grown_same(u);
    }
    assert(v.sound());
    lemma_grown_twice(s, u, v);
    lemma_removals_grown(v, gd);
    lemma_grown_twice(s, v, v.remove_subtrees(gd));
    // A subtree.
    law_graft_puts_all_in_place(s, parent, dirs, files);
    let g = s.graft(parent, dirs, files);
    assert(g.dirs.take(s.dirs.len() as int) =~= s.dirs);
    assert(g.files.take(s.files.len() as int) =~= s.files);
    let t = s.remove_subtree(dir);
    let up = s.dirs[dir as int].parent;
    law_graft_puts_all_in_place(t, up, dirs, files);
    let h = t.graft(up, dirs, files);
    assert(h.dirs.take(t.dirs.len() as int) =~= t.dirs);
    assert(h.files.take(t.files.len() as int) =~= t.files);
    lemma_grown_twice(s, t, h);
}

// --- paths ---

/// Directory 0 is the root, and its name is the path of the root.
pub open spec fn rooted(s: State) -> bool {
    s.dirs.len() > 0 && s.dirs[0].parent == u32::MAX && s.dirs[0].name == s.root && s.root.len() > 0
}

/// Directory `id` can be found by its path: each directory on the way down from the root
/// has a name and is the first of that name.
pub open spec fn filed(s: State, id: u32, levels: nat) -> bool
    decreases levels,
{
    if id == 0 {
        rooted(s)
    } else {
        let d = s.dirs[id as int];
        levels > 0 && id < s.dirs.len() && d.name.len() > 0 && !d.name.contains(SLASH)
            && first_named(s.dirs, s.child_dirs(d.parent), d.name) == Some(id) && filed(
            s,
            d.parent,
            (levels - 1) as nat,
        )
    }
}

proof fn lemma_segment_end(path: Seq<u8>, from: int)
    requires
        0 <= from <= path.len(),
    ensures
        from <= segment_end(path, from) <= path.len(),
        forall|i: int| from <= i < segment_end(path, from) ==> path[i] != SLASH,
        segment_end(path, from) < path.len() ==> path[segment_end(path, from)] == SLASH,
    decreases path.len() - from,
{
    if from < path.len() && path[from] != SLASH {
        lemma_segment_end(path, from + 1);
    }
}

proof fn lemma_segment_is(path: Seq<u8>, k: int)
    requires
        0 <= k <= path.len(),
        forall|i: int| 0 <= i < k ==> path[i] != SLASH,
        k < path.len() ==> path[k] == SLASH,
    ensures
        segment_end(path, 0) == k,
{
    lemma_segment_end(path, 0);
    let e = segment_end(path, 0);
    if e < k {
        assert(path[e] != SLASH);
    }
}

/// Going down a path in two parts.
#[verifier::rlimit(60)]
proof fn lemma_descend(s: State, cur: u32, a: Seq<u8>, b: Seq<u8>)
    ensures
        s.descend(cur, a + seq![SLASH] + b) == match s.descend(cur, a) {
            Some(id) => s.descend(id, b),
            None => None,
        },
    decreases a.len(),
{
    let all = a + seq![SLASH] + b;
    lemma_segment_end(a, 0);
    let k = segment_end(a, 0);
    assert forall|i: int| 0 <= i < k implies all[i] != SLASH by {
        assert(all[i] == a[i]);
    }
    assert(all[k] == SLASH) by {
        if k < a.len() {
            assert(all[k] == a[k]);
        }
    }
    lemma_segment_is(all, k);
    assert(all.take(k) =~= a.take(k));
    if k < a.len() {
        let rest = a.skip(k + 1);
        assert(all.skip(k + 1) =~= rest + seq![SLASH] + b);
        if k == 0 {
            lemma_descend(s, cur, rest, b);
        } else {
            match first_named(s.dirs, s.child_dirs(cur), a.take(k)) {
                Some(id) => {
                    lemma_descend(s, id, rest, b);
                },
                None => {},
            }
        }
    } else {
        assert(all.skip(k + 1) =~= b);
        if a.len() > 0 {
            assert(a.take(k) =~= a);
            match first_named(s.dirs, s.child_dirs(cur), a) {
                Some(id) => {
                    assert(s.descend(id, Seq::empty()) == Some(id));
                },
                None => {},
            }
        }
    }
}

proof fn lemma_descend_name(s: State, cur: u32, name: Seq<u8>)
    requires
        name.len() > 0,
        !name.contains(SLASH),
    ensures
        s.descend(cur, name) == first_named(s.dirs, s.child_dirs(cur), name),
{
    assert forall|i: int| 0 <= i < name.len() implies name[i] != SLASH by {
        assert(name.contains(name[i]));
    }
    lemma_segment_is(name, name.len() as int);
    assert(name.take(name.len() as int) =~= name);
    match first_named(s.dirs, s.child_dirs(cur), name) {
        Some(id) => {
            assert(s.descend(id, Seq::empty()) == Some(id));
        },
        None => {},
    }
}

#[verifier::rlimit(60)]
proof fn lemma_lookup(s: State, id: u32, k: nat, levels: nat)
    requires
        s.dirs.len() < u32::MAX,
        filed(s, id, k),
        levels > k,
    ensures
        s.lookup(path_to(s.dirs, id, levels)) == Some(id),
        path_to(s.dirs, id, levels).len() > 0,
        path_to(s.dirs, id, levels).last() == SLASH ==> path_to(s.dirs, id, levels) == s.root && id
            == 0,
    decreases k,
{
    let path = path_to(s.dirs, id, levels);
    if id == 0 {
        assert(path_to(s.dirs, u32::MAX, (levels - 1) as nat) =~= Seq::empty());
        assert(path == s.root);
        assert(path.skip(s.root.len() as int) =~= Seq::empty());
        assert(s.root.is_prefix_of(path)) by {
            assert(path.subrange(0, s.root.len() as int) =~= s.root);
        }
    } else {
        let d = s.dirs[id as int];
        let up = d.parent;
        let above = path_to(s.dirs, up, (levels - 1) as nat);
        lemma_lookup(s, up, (k - 1) as nat, (levels - 1) as nat);
        assert(path == join(above, d.name));
        let n = s.root.len() as int;
        assert(s.root.is_prefix_of(above));
        assert(above.subrange(0, n) == s.root);
        assert(path.subrange(0, n) =~= above.subrange(0, n));
        lemma_descend_name(s, up, d.name);
        if above.last() == SLASH {
            assert(path.skip(n) =~= d.name);
        } else {
            assert(path.skip(n) =~= above.skip(n) + seq![SLASH] + d.name);
            lemma_descend(s, 0, above.skip(n), d.name);
        }
        assert(path.last() == d.name.last());
        assert(d.name.contains(d.name.last()));
    }
}

/// A directory is found by its path.
pub proof fn law_directories_are_found_by_path(s: State, id: u32, levels: nat)
    requires
        s.sound(),
        filed(s, id, levels),
        levels < MAX_CLIMB,
    ensures
        s.lookup(s.dir_path(id)) == Some(id),
        s.resolve(s.dir_path(id)) == Some((id, s.dir_path(id))),
{
    lemma_lookup(s, id, levels, MAX_CLIMB as nat);
}

/// No directory lies so deep that its path is cut short.
pub open spec fn shallow(s: State) -> bool {
    forall|d: u32, steps: nat| #[trigger] reached(s, 0, d, steps) ==> steps < MAX_CLIMB
}

/// Subdirectories have names without separators, and no two of one directory have the
/// same.
pub open spec fn named_apart(s: State) -> bool {
    &&& forall|p: u32, c: u32| #[trigger]
        child_of(s, p, c) ==> s.dirs[c as int].name.len() > 0 && !s.dirs[c as int].name.contains(
            SLASH,
        )
    &&& forall|p: u32, a: u32, b: u32| #[trigger]
        child_of(s, p, a) && #[trigger] child_of(s, p, b) && s.dirs[a as int].name
            == s.dirs[b as int].name ==> a == b
}

/// No two separators stand next to each other, and none at the end.
pub open spec fn no_gaps(path: Seq<u8>) -> bool {
    &&& path.len() > 0 ==> path.last() != SLASH
    &&& forall|i: int, j: int|
        0 <= i && j == i + 1 && j < path.len() && #[trigger] path[i] == SLASH
            ==> #[trigger] path[j] != SLASH
}

/// `d` is reached from the root in `steps` steps, and `path` is its path.
spec fn placed(s: State, d: u32, steps: nat, path: Seq<u8>) -> bool {
    reached(s, 0, d, steps) && forall|levels: nat|
        levels > steps ==> #[trigger] path_to(s.dirs, d, levels) == path
}

proof fn lemma_first_named(dirs: Seq<DirItem>, ids: Seq<u32>, name: Seq<u8>)
    ensures
        match first_named(dirs, ids, name) {
            Some(id) => ids.contains(id) && dirs[id as int].name == name,
            None => forall|i: int|
                0 <= i < ids.len() ==> dirs[(#[trigger] ids[i]) as int].name != name,
        },
    decreases ids.len(),
{
    if ids.len() > 0 && dirs[ids[0] as int].name != name {
        let rest = ids.skip(1);
        lemma_first_named(dirs, rest, name);
        match first_named(dirs, ids, name) {
            Some(id) => {
                let k = choose|k: int| 0 <= k < rest.len() && rest[k] == id;
                assert(ids[k + 1] == id);
            },
            None => {
                assert forall|i: int| 0 <= i < ids.len() implies dirs[(#[trigger] ids[i]) as int].name
                    != name by {
                    if i > 0 {
                        assert(rest[i - 1] == ids[i]);
                    }
                }
            },
        }
    } else if ids.len() > 0 {
        assert(ids[0] == first_named(dirs, ids, name)->0);
    }
}

proof fn lemma_placed_child(s: State, p: u32, steps: nat, path: Seq<u8>, c: u32)
    requires
        s.sound(),
        placed(s, p, steps, path),
        path.len() > 0,
        child_of(s, p, c),
    ensures
        placed(s, c, steps + 1, join(path, s.dirs[c as int].name)),
{
    assert(reached(s, 0, c, steps + 1));
    assert forall|levels: nat| levels > steps + 1 implies #[trigger] path_to(s.dirs, c, levels)
        == join(path, s.dirs[c as int].name) by {
        assert(path_to(s.dirs, p, (levels - 1) as nat) == path);
    }
}

/// Where a path without gaps leads to.
#[verifier::rlimit(60)]
proof fn lemma_descend_places(s: State, cur: u32, steps: nat, path: Seq<u8>, rest: Seq<u8>, id: u32)
    requires
        s.sound(),
        placed(s, cur, steps, path),
        path.len() > 0,
        rest.len() > 0,
        rest[0] != SLASH,
        no_gaps(rest),
        s.descend(cur, rest) == Some(id),
    ensures
        exists|k: nat| #[trigger] placed(s, id, k, join(path, rest)),
    decreases rest.len(),
{
    lemma_segment_end(rest, 0);
    let k = segment_end(rest, 0);
    let name = rest.take(k);
    assert(k > 0);
    lemma_first_named(s.dirs, s.child_dirs(cur), name);
    let c = first_named(s.dirs, s.child_dirs(cur), name)->0;
    law_lists_are_complete(s, cur);
    assert(child_of(s, cur, c));
    lemma_placed_child(s, cur, steps, path, c);
    let here = join(path, name);
    if k == rest.len() {
        assert(name =~= rest);
        assert(s.descend(c, Seq::empty()) == Some(c));
        assert(placed(s, id, steps + 1, join(path, rest)));
    } else {
        let next = rest.skip(k + 1);
        assert(rest[k] == SLASH);
        assert(k + 1 < rest.len());
        assert(rest[k + 1] != SLASH);
        assert(next[0] == rest[k + 1]);
        assert(next.last() == rest.last());
        assert(no_gaps(next)) by {
            assert forall|i: int, j: int|
                0 <= i && j == i + 1 && j < next.len() && #[trigger] next[i] == SLASH implies
                #[trigger] next[j] != SLASH by {
                assert(next[i] == rest[k + 1 + i]);
                assert(next[j] == rest[k + 1 + j]);
            }
        }
        lemma_descend_places(s, c, steps + 1, here, next, id);
        assert(here.last() == name.last());
        assert(name.last() == rest[k - 1]);
        assert(join(here, next) =~= join(path, rest));
    }
}

proof fn lemma_root_placed(s: State)
    requires
        rooted(s),
    ensures
        placed(s, 0, 0, s.root),
{
    assert forall|levels: nat| levels > 0 implies #[trigger] path_to(s.dirs, 0, levels) == s.root by {
        assert(path_to(s.dirs, u32::MAX, (levels - 1) as nat) =~= Seq::empty());
        assert(path_to(s.dirs, 0, levels) =~= s.root);
    }
}

/// What is found at a path has that path, and lies below the root: nothing is found at a
/// path that no directory has.
#[verifier::rlimit(60)]
pub proof fn law_what_is_found_has_the_path(s: State, path: Seq<u8>, id: u32)
    requires
        s.sound(),
        rooted(s),
        shallow(s),
        path == s.root || no_gaps(path),
        s.lookup(path) == Some(id),
    ensures
        below(s, 0, id),
        s.dir_path(id) == path,
{
    let n = s.root.len() as int;
    lemma_root_placed(s);
    if path == s.root {
        assert(path.skip(n) =~= Seq::empty());
        assert(reached(s, 0, 0, 0));
        assert(id == 0);
    } else {
        assert(s.root =~= path.take(n));
        assert(path.len() > n) by {
            if path.len() == n {
                assert(path =~= s.root);
            }
        }
        let tail = path.skip(n);
        let rest = if s.root.last() == SLASH {
            tail
        } else {
            path.skip(n + 1)
        };
        let from = path.len() - rest.len();
        assert(path[from - 1] == SLASH);
        assert(from < path.len());
        assert(path[from] != SLASH);
        assert(rest[0] == path[from]);
        assert(rest.last() == path.last());
        assert(no_gaps(rest)) by {
            assert forall|i: int, j: int|
                0 <= i && j == i + 1 && j < rest.len() && #[trigger] rest[i] == SLASH implies
                #[trigger] rest[j] != SLASH by {
                assert(rest[i] == path[from + i]);
                assert(rest[j] == path[from + j]);
            }
        }
        if s.root.last() != SLASH {
            assert(tail[0] == SLASH);
            assert(tail.skip(1) =~= rest);
            lemma_segment_is(tail, 0);
        }
        assert(s.descend(0, rest) == Some(id));
        lemma_descend_places(s, 0, 0, s.root, rest, id);
        assert(join(s.root, rest) =~= path);
        let k = choose|k: nat| #[trigger] placed(s, id, k, path);
        assert(reached(s, 0, id, k));
        assert(path_to(s.dirs, id, MAX_CLIMB as nat) == path);
    }
}

proof fn lemma_reached_is_filed(s: State, id: u32, k: nat)
    requires
        s.sound(),
        rooted(s),
        named_apart(s),
        reached(s, 0, id, k),
    ensures
        filed(s, id, k),
        id < s.dirs.len(),
    decreases k,
{
    if k > 0 {
        let p = choose|p: u32| reached(s, 0, p, (k - 1) as nat) && #[trigger] child_of(s, p, id);
        lemma_reached_is_filed(s, p, (k - 1) as nat);
        law_lists_are_complete(s, p);
        let ids = s.child_dirs(p);
        let name = s.dirs[id as int].name;
        lemma_first_named(s.dirs, ids, name);
        assert(ids.contains(id));
        let i = choose|i: int| 0 <= i < ids.len() && ids[i] == id;
        assert(s.dirs[ids[i] as int].name == name);
        let f = first_named(s.dirs, ids, name)->0;
        assert(child_of(s, p, f));
        assert(f == id);
    }
}

/// The directory at a path is the one below the root that has the path, and there is none
/// where no directory has it.
pub proof fn law_lookup_is_exact(s: State, path: Seq<u8>, id: u32)
    requires
        s.sound(),
        rooted(s),
        shallow(s),
        named_apart(s),
        path == s.root || no_gaps(path),
    ensures
        s.lookup(path) == Some(id) <==> below(s, 0, id) && s.dir_path(id) == path,
{
    if s.lookup(path) == Some(id) {
        law_what_is_found_has_the_path(s, path, id);
    }
    if below(s, 0, id) && s.dir_path(id) == path {
        let k = choose|k: nat| reached(s, 0, id, k);
        lemma_reached_is_filed(s, id, k);
        law_directories_are_found_by_path(s, id, k);
    }
}

/// The path that is left of `path` after `n` steps up, `None` where there is none.
pub open spec fn up(path: Seq<u8>, n: nat) -> Option<Seq<u8>>
    decreases n,
{
    if n == 0 {
        Some(path)
    } else {
        match parent_of(path) {
            Some(dir) => up(dir, (n - 1) as nat),
            None => None,
        }
    }
}

/// The directory that is `n` steps above `path` is known.
pub open spec fn known_above(s: State, path: Seq<u8>, n: nat) -> bool {
    up(path, n) matches Some(p) && s.lookup(p) is Some
}

proof fn lemma_ancestor(s: State, path: Seq<u8>, steps: nat, n: nat)
    requires
        0 < n <= steps,
        known_above(s, path, n),
        forall|m: nat| 0 < m < n ==> !known_above(s, path, m),
    ensures
        s.ancestor(path, steps) == Some((s.lookup(up(path, n)->0)->0, up(path, n)->0)),
    decreases n,
{
    let dir = parent_of(path)->0;
    reveal_with_fuel(up, 2);
    if n > 1 {
        assert(!known_above(s, path, 1));
        assert forall|m: nat| 0 < m < n - 1 implies !known_above(s, dir, m) by {
            assert(known_above(s, path, m + 1) == known_above(s, dir, m));
        }
        lemma_ancestor(s, dir, (steps - 1) as nat, (n - 1) as nat);
    }
}

proof fn lemma_no_ancestor(s: State, path: Seq<u8>, steps: nat)
    requires
        forall|m: nat| 0 < m <= steps ==> !known_above(s, path, m),
    ensures
        s.ancestor(path, steps) is None,
    decreases steps,
{
    reveal_with_fuel(up, 2);
    if steps > 0 && parent_of(path) is Some {
        let dir = parent_of(path)->0;
        assert(!known_above(s, path, 1));
        assert forall|m: nat| 0 < m <= steps - 1 implies !known_above(s, dir, m) by {
            assert(known_above(s, path, m + 1) == known_above(s, dir, m));
        }
        lemma_no_ancestor(s, dir, (steps - 1) as nat);
    }
}

/// A path stands for the nearest known directory at or above it, the one at `/` included.
/// How many steps up are tried is limited.
pub proof fn law_nearest_directory_is_found(s: State, path: Seq<u8>, n: nat)
    requires
        forall|m: nat| m < n ==> !known_above(s, path, m),
    ensures
        n <= MAX_ANCESTORS && known_above(s, path, n) ==> s.resolve(path) == Some(
            (s.lookup(up(path, n)->0)->0, up(path, n)->0),
        ),
        n > MAX_ANCESTORS ==> s.resolve(path) is None,
{
    if n > 0 {
        assert(!known_above(s, path, 0));
        if n > MAX_ANCESTORS {
            lemma_no_ancestor(s, path, MAX_ANCESTORS as nat);
        } else if known_above(s, path, n) {
            lemma_ancestor(s, path, MAX_ANCESTORS as nat, n);
        }
    }
}

} // verus!
