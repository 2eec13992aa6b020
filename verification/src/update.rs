//! Bringing a live index up to date.
//!
//! Events are merged on their way, so their flags do not tell what an entry has come
//! to. A directory that was touched is listed again and compared with what is known:
//! this is reliable, and doing it twice does no harm. Reading directories is left to
//! the caller; what is here works on memory alone.

use vstd::prelude::*;

use crate::live::Live;
use crate::names::NameIndex;
#[allow(unused_imports)]
use crate::names::{last_at, lemma_last_at_stands};
#[allow(unused_imports)]
use crate::index::parent_ok;
#[allow(unused_imports)]
use crate::pick::{
    lemma_between_contains, lemma_between_rises, lemma_picked_contains, lemma_picked_distinct,
    picked,
};
use crate::scan::DirEntry;
#[allow(unused_imports)]
use crate::scan::{listed, listing, listing_of, names_len, Listed};
use crate::text::copy;
#[allow(unused_imports)]
use crate::tree::{lists, State};

verus! {

/// A subtree that was read and waits to be put in place.
///
/// Entries name their directory by its number in `dirs`, so putting them in place
/// works on memory alone.
pub struct Subtree {
    /// Number of the parent, and name. Number 0 is the root of the subtree.
    pub dirs: Vec<(u32, Vec<u8>)>,
    /// Number of the directory, name, and whether it is a symbolic link.
    pub files: Vec<(u32, Vec<u8>, bool)>,
}

/// The directories of a subtree.
pub open spec fn dirs_of(t: Subtree) -> Seq<(u32, Seq<u8>)> {
    t.dirs@.map_values(|d: (u32, Vec<u8>)| (d.0, d.1@))
}

/// The files of a subtree.
pub open spec fn files_of(t: Subtree) -> Seq<(u32, Seq<u8>, bool)> {
    t.files@.map_values(|f: (u32, Vec<u8>, bool)| (f.0, f.1@, f.2))
}

/// Bytes in the names of directories.
pub open spec fn dir_bytes(dirs: Seq<(u32, Seq<u8>)>) -> nat
    decreases dirs.len(),
{
    if dirs.len() == 0 {
        0
    } else {
        dir_bytes(dirs.drop_last()) + dirs.last().1.len()
    }
}

/// Bytes in the names of files.
pub open spec fn file_bytes(files: Seq<(u32, Seq<u8>, bool)>) -> nat
    decreases files.len(),
{
    if files.len() == 0 {
        0
    } else {
        file_bytes(files.drop_last()) + files.last().1.len()
    }
}

impl Live {
    /// There is room for what a listing may add.
    pub open spec fn room_for_listing(&self, es: Seq<Listed>) -> bool {
        self.room(0, es.len() as int, 0, names_len(es) as int)
    }

    /// There is room for a subtree.
    pub open spec fn room_for_tree(&self, t: Subtree) -> bool {
        self.room(
            t.dirs@.len() as int,
            t.files@.len() as int,
            dir_bytes(dirs_of(t)) as int,
            file_bytes(files_of(t)) as int,
        )
    }
}

// --- facts about names ---

/// The subdirectories of a directory are distinct.
pub proof fn lemma_child_dirs_distinct(s: State, parent: u32)
    requires
        s.sound(),
    ensures
        s.child_dirs(parent).no_duplicates(),
        forall|i: int|
            0 <= i < s.child_dirs(parent).len() ==> (#[trigger] s.child_dirs(parent)[i])
                < s.dirs.len() && s.is_child(parent, s.child_dirs(parent)[i] as int),
{
    let a = s.base_children(parent);
    let b = s.added_children(parent);
    let (nb, nd) = (s.base_dirs as int, s.dirs.len() as int);
    lemma_picked_contains(s.by_parent, s.other_child(parent));
    lemma_picked_distinct(s.by_parent, s.other_child(parent));
    lemma_between_contains(nb, nd, |id: int| s.is_child(parent, id));
    lemma_between_rises(nb, nd, |id: int| s.is_child(parent, id));
    assert forall|i: int| 0 <= i < a.len() implies (#[trigger] a[i]) < nb && s.is_child(
        parent,
        a[i] as int,
    ) by {
        assert(a.contains(a[i]));
        assert(s.by_parent.contains(a[i]));
        let k = choose|k: int| 0 <= k < s.by_parent.len() && s.by_parent[k] == a[i];
        assert(s.by_parent[k] < s.base_dirs);
    }
    assert forall|i: int| 0 <= i < b.len() implies nb <= (#[trigger] b[i]) < nd && s.is_child(
        parent,
        b[i] as int,
    ) by {
        assert(b.contains(b[i]));
    }
    let c = s.child_dirs(parent);
    assert forall|i: int, j: int| 0 <= i < c.len() && 0 <= j < c.len() && i != j implies c[i]
        != c[j] by {
        if i >= a.len() && j >= a.len() {
            if i < j {
                assert(b[i - a.len()] < b[j - a.len()]);
            } else {
                assert(b[j - a.len()] < b[i - a.len()]);
            }
        }
    }
}

/// The files of a directory are distinct.
pub proof fn lemma_files_in_dir_distinct(s: State, parent: u32)
    requires
        s.sound(),
    ensures
        s.files_in_dir(parent).no_duplicates(),
        forall|i: int|
            0 <= i < s.files_in_dir(parent).len() ==> (#[trigger] s.files_in_dir(parent)[i])
                < s.files.len() && s.is_inside(parent, s.files_in_dir(parent)[i] as int),
{
    let lo = if parent < s.base_dirs {
        0
    } else {
        s.base_files as int
    };
    let nf = s.files.len() as int;
    let f = s.files_in_dir(parent);
    lemma_between_contains(lo, nf, |i: int| s.is_inside(parent, i));
    lemma_between_rises(lo, nf, |i: int| s.is_inside(parent, i));
    assert forall|i: int| 0 <= i < f.len() implies (#[trigger] f[i]) < nf && s.is_inside(
        parent,
        f[i] as int,
    ) by {
        assert(f.contains(f[i]));
    }
    assert forall|i: int, j: int| 0 <= i < f.len() && 0 <= j < f.len() && i != j implies f[i]
        != f[j] by {
        if i < j {
            assert(f[i] < f[j]);
        } else {
            assert(f[j] < f[i]);
        }
    }
}

/// The names of the entries `ids`.
spec fn names_at(s: State, is_dir: bool, ids: Seq<u32>) -> Seq<Seq<u8>> {
    ids.map_values(|id: u32| s.name_of(is_dir, id))
}

proof fn lemma_bearers(s: State, is_dir: bool, ids: Seq<u32>, name: Seq<u8>)
    ensures
        s.bears(is_dir, ids, name) == last_at(names_at(s, is_dir, ids), name) is Some,
        s.last_bearer(is_dir, ids, name) == match last_at(names_at(s, is_dir, ids), name) {
            Some(j) => Some(ids[j]),
            None => None,
        },
    decreases ids.len(),
{
    let names = names_at(s, is_dir, ids);
    lemma_last_at_stands(names, name);
    if s.bears(is_dir, ids, name) {
        let i = choose|i: int| 0 <= i < ids.len() && s.name_of(is_dir, #[trigger] ids[i]) == name;
        assert(names[i] == name);
    }
    if let Some(j) = last_at(names, name) {
        assert(names[j] == s.name_of(is_dir, ids[j]));
    }
    if ids.len() > 0 {
        let front = ids.drop_last();
        assert(names_at(s, is_dir, front) =~= names.drop_last());
        lemma_last_at_stands(names.drop_last(), name);
        lemma_bearers(s, is_dir, front, name);
    }
}

proof fn lemma_lists_push(es: Seq<Listed>, k: int, is_dir: bool, name: Seq<u8>)
    requires
        0 <= k < es.len(),
    ensures
        lists(es.take(k + 1), is_dir, name) == (lists(es.take(k), is_dir, name) || (es[k].is_dir
            == is_dir && es[k].name == name)),
{
    let a = es.take(k);
    let b = es.take(k + 1);
    if lists(a, is_dir, name) {
        let i = choose|i: int|
            0 <= i < a.len() && (#[trigger] a[i]).is_dir == is_dir && a[i].name == name;
        assert(b[i] == a[i]);
    }
    if es[k].is_dir == is_dir && es[k].name == name {
        assert(b[k] == es[k]);
    }
    if lists(b, is_dir, name) {
        let i = choose|i: int|
            0 <= i < b.len() && (#[trigger] b[i]).is_dir == is_dir && b[i].name == name;
        if i < k {
            assert(a[i] == b[i]);
        }
    }
}

/// What is known of one kind of entry of a directory, and which of it was listed.
struct Known {
    ids: Vec<u32>,
    names: NameIndex,
    seen: Vec<bool>,
}

impl Known {
    /// After the first `k` entries of the listing: `seen` marks those that stand for
    /// their name and were listed.
    spec fn tracks(&self, s: State, is_dir: bool, dir: u32, es: Seq<Listed>, k: int) -> bool {
        &&& self.ids@ == s.known(is_dir, dir)
        &&& self.names@ == names_at(s, is_dir, self.ids@)
        &&& self.seen@.len() == self.ids@.len()
        &&& forall|j: int|
            0 <= j < self.seen@.len() ==> #[trigger] self.seen@[j] == (last_at(
                self.names@,
                self.names@[j],
            ) == Some(j) && lists(es.take(k), is_dir, self.names@[j]))
    }

    fn new(
        ids: Vec<u32>,
        names: Vec<Vec<u8>>,
        Ghost(s): Ghost<State>,
        Ghost(is_dir): Ghost<bool>,
        Ghost(dir): Ghost<u32>,
        Ghost(es): Ghost<Seq<Listed>>,
    ) -> (r: Known)
        requires
            ids@ == s.known(is_dir, dir),
            ids@.len() < u32::MAX,
            names@.len() == ids@.len(),
            forall|j: int|
                0 <= j < ids@.len() ==> (#[trigger] names@[j])@ == s.name_of(is_dir, ids@[j]),
        ensures
            r.tracks(s, is_dir, dir, es, 0),
    {
        let n = ids.len();
        let mut seen: Vec<bool> = Vec::with_capacity(n);
        for j in 0..n
            invariant
                seen@.len() == j,
                forall|i: int| 0 <= i < j ==> !#[trigger] seen@[i],
        {
            seen.push(false);
        }
        let names = NameIndex::new(names);
        let r = Known { ids, names, seen };
        assert(r.names@ =~= names_at(s, is_dir, r.ids@));
        r
    }

    /// Takes note of entry `k` of the listing; returns whether it is new.
    #[verifier::rlimit(60)]
    fn take(
        &mut self,
        name: &[u8],
        Ghost(s): Ghost<State>,
        Ghost(dir): Ghost<u32>,
        Ghost(es): Ghost<Seq<Listed>>,
        Ghost(k): Ghost<int>,
    ) -> (r: bool)
        requires
            0 <= k < es.len(),
            es[k].name == name@,
            old(self).tracks(s, es[k].is_dir, dir, es, k),
        ensures
            final(self).tracks(s, es[k].is_dir, dir, es, k + 1),
            r == s.is_new(dir, es, k),
    {
        let ghost is_dir = es[k].is_dir;
        let ghost before = self.seen@;
        proof {
            lemma_bearers(s, is_dir, self.ids@, name@);
            lemma_last_at_stands(self.names@, name@);
            assert forall|nm: Seq<u8>| #[trigger] lists(es.take(k + 1), is_dir, nm) == (lists(
                es.take(k),
                is_dir,
                nm,
            ) || nm == name@) by {
                lemma_lists_push(es, k, is_dir, nm);
            }
        }
        match self.names.last(name) {
            Some(j) => {
                if self.seen[j] {
                    true
                } else {
                    self.seen.set(j, true);
                    false
                }
            },
            None => {
                proof {
                    assert forall|j: int| 0 <= j < self.seen@.len() implies self.names@[j]
                        != name@ by {
                        if self.names@[j] == name@ {
                            assert(self.names@.contains(name@));
                        }
                    }
                }
                true
            },
        }
    }

    /// Those that were not listed.
    #[verifier::rlimit(60)]
    fn gone(
        &self,
        Ghost(s): Ghost<State>,
        Ghost(is_dir): Ghost<bool>,
        Ghost(dir): Ghost<u32>,
        Ghost(es): Ghost<Seq<Listed>>,
    ) -> (r: Vec<u32>)
        requires
            self.tracks(s, is_dir, dir, es, es.len() as int),
            self.ids@.no_duplicates(),
        ensures
            r@ == s.gone(is_dir, dir, es),
    {
        let ghost ids = self.ids@;
        let ghost left = |id: u32|
            s.last_bearer(is_dir, ids, s.name_of(is_dir, id)) == Some(id) && !lists(
                es,
                is_dir,
                s.name_of(is_dir, id),
            );
        let mut out: Vec<u32> = Vec::new();
        assert(es.take(es.len() as int) =~= es);
        assert(ids.take(0) =~= Seq::empty());
        for j in 0..self.ids.len()
            invariant
                ids == self.ids@,
                ids.no_duplicates(),
                self.tracks(s, is_dir, dir, es, es.len() as int),
                es.take(es.len() as int) == es,
                left == (|id: u32|
                    s.last_bearer(is_dir, ids, s.name_of(is_dir, id)) == Some(id) && !lists(
                        es,
                        is_dir,
                        s.name_of(is_dir, id),
                    )),
                out@ == picked(ids.take(j as int), left),
        {
            let id = self.ids[j];
            proof {
                let name = s.name_of(is_dir, id);
                assert(self.names@[j as int] == name);
                lemma_bearers(s, is_dir, ids, name);
                lemma_last_at_stands(self.names@, name);
                assert(ids.take(j + 1).drop_last() =~= ids.take(j as int));
                assert(ids.take(j + 1).last() == id);
                if let Some(i) = last_at(self.names@, name) {
                    if i != j {
                        assert(ids[i] != ids[j as int]);
                    }
                }
            }
            if self.names.is_last(j) && !self.seen[j] {
                out.push(id);
            }
        }
        assert(ids.take(ids.len() as int) =~= ids);
        assert(out@ == picked(s.known(is_dir, dir), left));
        out
    }
}

/// Distinct numbers below `n` are no more than `n`.
pub proof fn lemma_distinct_bounded(ids: Seq<u32>, n: int)
    requires
        ids.no_duplicates(),
        0 <= n,
        forall|i: int| 0 <= i < ids.len() ==> (#[trigger] ids[i]) < n,
    ensures
        ids.len() <= n,
    decreases n,
{
    if ids.len() > 0 {
        assert(ids[0] < n);
        if exists|k: int| 0 <= k < ids.len() && ids[k] == n - 1 {
            let k = choose|k: int| 0 <= k < ids.len() && ids[k] == n - 1;
            let rest = ids.remove(k);
            assert forall|i: int| 0 <= i < rest.len() implies rest[i] == ids[if i < k {
                i
            } else {
                i + 1
            }] by {}
            lemma_distinct_bounded(rest, n - 1);
        } else {
            lemma_distinct_bounded(ids, n - 1);
        }
    }
}

proof fn lemma_known_bounded(s: State, is_dir: bool, dir: u32)
    requires
        s.sound(),
    ensures
        s.known(is_dir, dir).no_duplicates(),
        s.known(is_dir, dir).len() < u32::MAX,
{
    lemma_child_dirs_distinct(s, dir);
    lemma_files_in_dir_distinct(s, dir);
    if is_dir {
        lemma_distinct_bounded(s.known(is_dir, dir), s.dirs.len() as int);
    } else {
        lemma_distinct_bounded(s.known(is_dir, dir), s.files.len() as int);
    }
}

proof fn lemma_tracks_other(
    known: &Known,
    s: State,
    is_dir: bool,
    dir: u32,
    es: Seq<Listed>,
    k: int,
)
    requires
        0 <= k < es.len(),
        es[k].is_dir != is_dir,
        known.tracks(s, is_dir, dir, es, k),
    ensures
        known.tracks(s, is_dir, dir, es, k + 1),
{
    assert forall|nm: Seq<u8>| #[trigger] lists(es.take(k + 1), is_dir, nm) == lists(
        es.take(k),
        is_dir,
        nm,
    ) by {
        lemma_lists_push(es, k, is_dir, nm);
    }
}

proof fn lemma_names_len_step(es: Seq<Listed>, k: int)
    requires
        0 <= k < es.len(),
    ensures
        names_len(es.take(k + 1)) == names_len(es.take(k)) + es[k].name.len(),
        names_len(es.take(k + 1)) <= names_len(es),
    decreases es.len() - k,
{
    assert(es.take(k + 1).drop_last() =~= es.take(k));
    if k + 1 < es.len() {
        lemma_names_len_step(es, k + 1);
    } else {
        assert(es.take(k + 1) =~= es);
    }
}

impl Live {
    /// Whether there is room for what a listing may add.
    pub fn has_room_for_listing(&self, entries: &Vec<DirEntry>) -> (r: bool)
        requires
            self.wf(),
        ensures
            r == self.room_for_listing(listing(entries@)),
    {
        let ghost es = listing(entries@);
        let mut bytes: u32 = 0;
        assert(es.take(0) =~= Seq::empty());
        for k in 0..entries.len()
            invariant
                self.wf(),
                es == listing(entries@),
                bytes == names_len(es.take(k as int)),
        {
            let n = entries[k].0.len();
            proof {
                assert(es[k as int].name.len() == n);
                lemma_names_len_step(es, k as int);
            }
            if n > (u32::MAX - bytes) as usize {
                proof {
                    if self.room_for_listing(es) {
                        self.lemma_room_bytes(
                            0,
                            es.len() as int,
                            0,
                            names_len(es) as int,
                        );
                    }
                }
                return false;
            }
            bytes += n as u32;
        }
        assert(es.take(es.len() as int) =~= es);
        self.has_room(0, entries.len(), 0, bytes as usize)
    }

    /// Whether there is room for a subtree.
    pub fn has_room_for_tree(&self, tree: &Subtree) -> (r: bool)
        requires
            self.wf(),
        ensures
            r == self.room_for_tree(*tree),
    {
        let ghost ds = dirs_of(*tree);
        let ghost fs = files_of(*tree);
        let mut db: u32 = 0;
        assert(ds.take(0) =~= Seq::empty());
        for k in 0..tree.dirs.len()
            invariant
                self.wf(),
                ds == dirs_of(*tree),
                fs == files_of(*tree),
                db == dir_bytes(ds.take(k as int)),
        {
            let n = tree.dirs[k].1.len();
            proof {
                assert(ds[k as int].1.len() == n);
                lemma_dir_bytes_step(ds, k as int);
            }
            if n > (u32::MAX - db) as usize {
                proof {
                    if self.room_for_tree(*tree) {
                        self.lemma_room_bytes(
                            ds.len() as int,
                            fs.len() as int,
                            dir_bytes(ds) as int,
                            file_bytes(fs) as int,
                        );
                    }
                }
                return false;
            }
            db += n as u32;
        }
        let mut fb: u32 = 0;
        assert(fs.take(0) =~= Seq::empty());
        for k in 0..tree.files.len()
            invariant
                self.wf(),
                ds == dirs_of(*tree),
                fs == files_of(*tree),
                fb == file_bytes(fs.take(k as int)),
        {
            let n = tree.files[k].1.len();
            proof {
                assert(fs[k as int].1.len() == n);
                lemma_file_bytes_step(fs, k as int);
            }
            if n > (u32::MAX - fb) as usize {
                proof {
                    if self.room_for_tree(*tree) {
                        self.lemma_room_bytes(
                            ds.len() as int,
                            fs.len() as int,
                            dir_bytes(ds) as int,
                            file_bytes(fs) as int,
                        );
                    }
                }
                return false;
            }
            fb += n as u32;
        }
        assert(ds.take(ds.len() as int) =~= ds);
        assert(fs.take(fs.len() as int) =~= fs);
        self.has_room(tree.dirs.len(), tree.files.len(), db as usize, fb as usize)
    }

    /// What is known of the files of `dir`.
    fn known_files(&self, dir: u32, Ghost(es): Ghost<Seq<Listed>>) -> (r: Known)
        requires
            self.wf(),
        ensures
            r.tracks(self@, false, dir, es, 0),
            r.ids@.no_duplicates(),
    {
        proof {
            self.lemma_sound();
            lemma_known_bounded(self@, false, dir);
        }
        let ids = self.files_in_dir(dir);
        let mut names: Vec<Vec<u8>> = Vec::with_capacity(ids.len());
        for j in 0..ids.len()
            invariant
                self.wf(),
                forall|i: int| 0 <= i < ids@.len() ==> (#[trigger] ids@[i]) < self@.files.len(),
                names@.len() == j,
                forall|i: int|
                    0 <= i < j ==> (#[trigger] names@[i])@ == self@.name_of(false, ids@[i]),
        {
            names.push(copy(self.file_name(ids[j])));
        }
        Known::new(ids, names, Ghost(self@), Ghost(false), Ghost(dir), Ghost(es))
    }

    /// What is known of the subdirectories of `dir`.
    fn known_dirs(&self, dir: u32, Ghost(es): Ghost<Seq<Listed>>) -> (r: Known)
        requires
            self.wf(),
        ensures
            r.tracks(self@, true, dir, es, 0),
            r.ids@.no_duplicates(),
    {
        proof {
            self.lemma_sound();
            lemma_known_bounded(self@, true, dir);
        }
        let ids = self.child_dirs(dir);
        let mut names: Vec<Vec<u8>> = Vec::with_capacity(ids.len());
        for j in 0..ids.len()
            invariant
                self.wf(),
                forall|i: int| 0 <= i < ids@.len() ==> (#[trigger] ids@[i]) < self@.dirs.len(),
                names@.len() == j,
                forall|i: int|
                    0 <= i < j ==> (#[trigger] names@[i])@ == self@.name_of(true, ids@[i]),
        {
            names.push(copy(self.dir_name(ids[j])));
        }
        Known::new(ids, names, Ghost(self@), Ghost(true), Ghost(dir), Ghost(es))
    }

    /// Compares the contents of directory `dir_id` with what is known of it.
    ///
    /// `entries` is what was read, `None` where the directory is no longer there. New
    /// files are added, and what has vanished is removed. Returns the names of new
    /// subdirectories, which the caller has to read.
    #[verifier::rlimit(60)]
    pub fn apply_listing(&mut self, dir_id: u32, entries: Option<Vec<DirEntry>>) -> (r: Vec<
        Vec<u8>,
    >)
        requires
            old(self).wf(),
            dir_id < old(self)@.dirs.len(),
            entries matches Some(es) ==> old(self).room_for_listing(listing(es@)),
        ensures
            final(self).wf(),
            final(self).contents() == old(self).contents(),
            final(self)@ == old(self)@.applied(dir_id, listing_of(entries)),
            r@.map_values(|v: Vec<u8>| v@) == match entries {
                Some(es) => old(self)@.new_dirs(dir_id, listing(es@), es@.len() as int),
                None => Seq::empty(),
            },
            final(self)@.dirs == old(self)@.dirs,
            entries matches Some(es) ==> forall|d: int, f: int, db: int, fb: int|
                old(self).room(d, f + es@.len(), db, fb + names_len(listing(es@)))
                    ==> #[trigger] final(self).room(d, f, db, fb),
            entries is None ==> forall|d: int, f: int, db: int, fb: int|
                old(self).room(d, f, db, fb) ==> #[trigger] final(self).room(d, f, db, fb),
    {
        let mut new_dirs: Vec<Vec<u8>> = Vec::new();
        assert(new_dirs@.map_values(|v: Vec<u8>| v@) =~= Seq::empty());
        let entries = match entries {
            Some(v) => v,
            None => {
                if dir_id != 0 {
                    self.remove_subtree(dir_id);
                }
                return new_dirs;
            },
        };
        let ghost es = listing(entries@);
        let ghost s = self@;
        let ghost before = *old(self);
        let mut files = self.known_files(dir_id, Ghost(es));
        let mut dirs = self.known_dirs(dir_id, Ghost(es));
        let ghost mut used_files: int = 0;
        let ghost mut used_bytes: int = 0;
        for k in 0..entries.len()
            invariant
                self.wf(),
                es == listing(entries@),
                s == before@,
                before.room(0, es.len() as int, 0, names_len(es) as int),
                dir_id < s.dirs.len(),
                self@ == s.with_new_files(dir_id, es, k as int),
                self@.dirs == s.dirs,
                self@.files.len() >= s.files.len(),
                self.contents() == before.contents(),
                files.tracks(s, false, dir_id, es, k as int),
                dirs.tracks(s, true, dir_id, es, k as int),
                files.ids@.no_duplicates(),
                dirs.ids@.no_duplicates(),
                new_dirs@.map_values(|v: Vec<u8>| v@) == s.new_dirs(dir_id, es, k as int),
                0 <= used_files <= k,
                0 <= used_bytes <= names_len(es.take(k as int)),
                forall|d: int, f: int, db: int, fb: int| #[trigger]
                    self.room(d, f, db, fb) == before.room(
                        d,
                        f + used_files,
                        db,
                        fb + used_bytes,
                    ),
        {
            let e = &entries[k];
            proof {
                assert(es[k as int] == listed(*e));
                lemma_names_len_step(es, k as int);
            }
            let name = e.0.as_slice();
            let ghost named = new_dirs@;
            if e.1 {
                let is_new = dirs.take(name, Ghost(s), Ghost(dir_id), Ghost(es), Ghost(k as int));
                proof {
                    lemma_tracks_other(&files, s, false, dir_id, es, k as int);
                }
                if is_new {
                    new_dirs.push(copy(name));
                    assert(new_dirs@.map_values(|v: Vec<u8>| v@) =~= named.map_values(
                        |v: Vec<u8>| v@,
                    ).push(name@));
                }
            } else {
                let is_new = files.take(name, Ghost(s), Ghost(dir_id), Ghost(es), Ghost(k as int));
                proof {
                    lemma_tracks_other(&dirs, s, true, dir_id, es, k as int);
                }
                if is_new {
                    proof {
                        before.lemma_room(
                            0,
                            es.len() as int,
                            0,
                            names_len(es) as int,
                            0,
                            1 + used_files,
                            0,
                            name@.len() + used_bytes,
                        );
                        assert(self.room(0, 1, 0, name@.len() as int));
                    }
                    self.push_file(name, dir_id, e.2);
                    proof {
                        used_files = used_files + 1;
                        used_bytes = used_bytes + name@.len();
                    }
                }
            }
        }
        proof {
            assert(es.take(es.len() as int) =~= es);
            assert forall|d: int, f: int, db: int, fb: int|
                before.room(d, f + es.len(), db, fb + names_len(es)) implies #[trigger] self.room(
                d,
                f,
                db,
                fb,
            ) by {
                before.lemma_room(
                    d,
                    f + es.len(),
                    db,
                    fb + names_len(es),
                    d,
                    f + used_files,
                    db,
                    fb + used_bytes,
                );
            }
        }
        let ghost filled = *self;
        let gone_files = files.gone(Ghost(s), Ghost(false), Ghost(dir_id), Ghost(es));
        let gone_dirs = dirs.gone(Ghost(s), Ghost(true), Ghost(dir_id), Ghost(es));
        proof {
            before.lemma_sound();
            lemma_gone_valid(s, false, dir_id, es);
            lemma_gone_valid(s, true, dir_id, es);
        }
        self.kill_files(&gone_files);
        let ghost killed = self@;
        assert(gone_dirs@.take(0) =~= Seq::empty());
        for i in 0..gone_dirs.len()
            invariant
                self.wf(),
                self@.dirs == s.dirs,
                self.contents() == before.contents(),
                forall|j: int| 0 <= j < gone_dirs@.len() ==> (#[trigger] gone_dirs@[j]) < s.dirs.len(),
                forall|d: int, f: int, db: int, fb: int| #[trigger]
                    self.room(d, f, db, fb) == filled.room(d, f, db, fb),
                self@ == killed.remove_subtrees(gone_dirs@.take(i as int)),
        {
            assert(gone_dirs@.take(i + 1).drop_last() =~= gone_dirs@.take(i as int));
            self.remove_subtree(gone_dirs[i]);
        }
        assert(gone_dirs@.take(gone_dirs@.len() as int) =~= gone_dirs@);
        new_dirs
    }

    /// Puts a subtree in place below `parent`.
    #[verifier::rlimit(60)]
    pub fn graft(&mut self, parent: u32, tree: &Subtree)
        requires
            old(self).wf(),
            parent_ok(parent, old(self)@.dirs.len() as int),
            old(self).room_for_tree(*tree),
        ensures
            final(self).wf(),
            final(self).contents() == old(self).contents(),
            final(self)@ == old(self)@.graft(parent, dirs_of(*tree), files_of(*tree)),
            final(self)@.dirs.len() >= old(self)@.dirs.len(),
            forall|d: int, f: int, db: int, fb: int|
                old(self).room(
                    d + tree.dirs@.len(),
                    f + tree.files@.len(),
                    db + dir_bytes(dirs_of(*tree)),
                    fb + file_bytes(files_of(*tree)),
                ) ==> #[trigger] final(self).room(d, f, db, fb),
    {
        let ghost s = self@;
        let ghost before = *old(self);
        let ghost ds = dirs_of(*tree);
        let ghost fs = files_of(*tree);
        let ghost (nd, nf) = (ds.len() as int, fs.len() as int);
        let ghost (all_db, all_fb) = (dir_bytes(ds) as int, file_bytes(fs) as int);
        let mut ids: Vec<u32> = Vec::with_capacity(tree.dirs.len());
        let ghost mut used: int = 0;
        assert(ids@ =~= s.graft_ids(ds, 0));
        for k in 0..tree.dirs.len()
            invariant
                self.wf(),
                self.contents() == before.contents(),
                s == before@,
                ds == dirs_of(*tree),
                nd == ds.len(),
                before.room(nd, nf, all_db, all_fb),
                all_db == dir_bytes(ds),
                0 <= nf,
                0 <= all_fb,
                parent_ok(parent, s.dirs.len() as int),
                self@ == s.graft_dirs(parent, ds, k as int),
                ids@ == s.graft_ids(ds, k as int),
                self@.dirs.len() == s.dirs.len() + ids@.len(),
                ids@.len() <= k,
                0 <= used <= dir_bytes(ds.take(k as int)),
                forall|i: int| 0 <= i < ids@.len() ==> (#[trigger] ids@[i]) < self@.dirs.len(),
                forall|d: int, f: int, db: int, fb: int| #[trigger]
                    self.room(d, f, db, fb) == before.room(d + ids@.len(), f, db + used, fb),
        {
            let (up, name) = &tree.dirs[k];
            proof {
                assert(ds[k as int] == (*up, name@));
                lemma_dir_bytes_step(ds, k as int);
            }
            if k == 0 || (*up as usize) < ids.len() {
                let p = if k == 0 {
                    parent
                } else {
                    ids[*up as usize]
                };
                proof {
                    before.lemma_room(
                        nd,
                        nf,
                        all_db,
                        all_fb,
                        (1 + ids@.len()) as int,
                        0,
                        name@.len() + used,
                        0,
                    );
                    assert(self.room(1, 0, name@.len() as int, 0));
                }
                let id = self.push_dir(name.as_slice(), p);
                ids.push(id);
                proof {
                    used = used + name@.len();
                }
            }
        }
        let ghost mid = self@;
        let ghost nids = ids@.len() as int;
        let ghost dused = used;
        let ghost mut count: int = 0;
        let ghost mut fused: int = 0;
        proof {
            lemma_dir_bytes_all(ds);
        }
        for k in 0..tree.files.len()
            invariant
                self.wf(),
                self.contents() == before.contents(),
                fs == files_of(*tree),
                nf == fs.len(),
                all_fb == file_bytes(fs),
                before.room(nd, nf, all_db, all_fb),
                0 <= nids <= nd,
                0 <= dused <= all_db,
                self@ == mid.graft_files(ids@, fs, k as int),
                self@.dirs == mid.dirs,
                forall|i: int| 0 <= i < ids@.len() ==> (#[trigger] ids@[i]) < mid.dirs.len(),
                0 <= count <= k,
                0 <= fused <= file_bytes(fs.take(k as int)),
                forall|d: int, f: int, db: int, fb: int| #[trigger]
                    self.room(d, f, db, fb) == before.room(
                        d + nids,
                        f + count,
                        db + dused,
                        fb + fused,
                    ),
        {
            let (up, name, is_link) = &tree.files[k];
            proof {
                assert(fs[k as int] == (*up, name@, *is_link));
                lemma_file_bytes_step(fs, k as int);
            }
            if (*up as usize) < ids.len() {
                proof {
                    before.lemma_room(
                        nd,
                        nf,
                        all_db,
                        all_fb,
                        nids,
                        1 + count,
                        dused,
                        name@.len() + fused,
                    );
                    assert(self.room(0, 1, 0, name@.len() as int));
                }
                self.push_file(name.as_slice(), ids[*up as usize], *is_link);
                proof {
                    count = count + 1;
                    fused = fused + name@.len();
                }
            }
        }
        proof {
            assert(fs.take(nf) =~= fs);
            assert forall|d: int, f: int, db: int, fb: int|
                before.room(d + nd, f + nf, db + all_db, fb + all_fb) implies #[trigger] self.room(
                d,
                f,
                db,
                fb,
            ) by {
                before.lemma_room(
                    d + nd,
                    f + nf,
                    db + all_db,
                    fb + all_fb,
                    d + nids,
                    f + count,
                    db + dused,
                    fb + fused,
                );
            }
        }
    }

    /// Puts a subtree in the place of directory `dir_id` and all below it.
    pub fn rescan_subtree(&mut self, dir_id: u32, tree: &Subtree)
        requires
            old(self).wf(),
            dir_id < old(self)@.dirs.len(),
            old(self).room_for_tree(*tree),
        ensures
            final(self).wf(),
            final(self).contents() == old(self).contents(),
            final(self)@ == old(self)@.rescan(dir_id, dirs_of(*tree), files_of(*tree)),
            final(self)@.dirs.len() >= old(self)@.dirs.len(),
            forall|d: int, f: int, db: int, fb: int|
                old(self).room(
                    d + tree.dirs@.len(),
                    f + tree.files@.len(),
                    db + dir_bytes(dirs_of(*tree)),
                    fb + file_bytes(files_of(*tree)),
                ) ==> #[trigger] final(self).room(d, f, db, fb),
    {
        let parent = self.dir_parent(dir_id);
        self.remove_subtree(dir_id);
        self.graft(parent, tree);
    }
}

/// What is gone was known.
pub proof fn lemma_gone_valid(s: State, is_dir: bool, dir: u32, es: Seq<Listed>)
    requires
        s.sound(),
    ensures
        forall|j: int|
            0 <= j < s.gone(is_dir, dir, es).len() ==> (#[trigger] s.gone(is_dir, dir, es)[j])
                < if is_dir {
                s.dirs.len()
            } else {
                s.files.len()
            },
        forall|j: int|
            0 <= j < s.gone(is_dir, dir, es).len() ==> s.known(is_dir, dir).contains(
                #[trigger] s.gone(is_dir, dir, es)[j],
            ),
{
    let ids = s.known(is_dir, dir);
    let g = s.gone(is_dir, dir, es);
    lemma_child_dirs_distinct(s, dir);
    lemma_files_in_dir_distinct(s, dir);
    lemma_picked_contains(
        ids,
        |id: u32|
            s.last_bearer(is_dir, ids, s.name_of(is_dir, id)) == Some(id) && !lists(
                es,
                is_dir,
                s.name_of(is_dir, id),
            ),
    );
    assert forall|j: int| 0 <= j < g.len() implies (#[trigger] g[j]) < if is_dir {
        s.dirs.len()
    } else {
        s.files.len()
    } && ids.contains(g[j]) by {
        assert(g.contains(g[j]));
        let i = choose|i: int| 0 <= i < ids.len() && ids[i] == g[j];
        assert(ids[i] == g[j]);
    }
}

proof fn lemma_dir_bytes_step(ds: Seq<(u32, Seq<u8>)>, k: int)
    requires
        0 <= k < ds.len(),
    ensures
        dir_bytes(ds.take(k + 1)) == dir_bytes(ds.take(k)) + ds[k].1.len(),
        dir_bytes(ds.take(k + 1)) <= dir_bytes(ds),
    decreases ds.len() - k,
{
    assert(ds.take(k + 1).drop_last() =~= ds.take(k));
    if k + 1 < ds.len() {
        lemma_dir_bytes_step(ds, k + 1);
    } else {
        assert(ds.take(k + 1) =~= ds);
    }
}

proof fn lemma_dir_bytes_all(ds: Seq<(u32, Seq<u8>)>)
    ensures
        dir_bytes(ds.take(ds.len() as int)) == dir_bytes(ds),
{
    assert(ds.take(ds.len() as int) =~= ds);
}

proof fn lemma_file_bytes_step(fs: Seq<(u32, Seq<u8>, bool)>, k: int)
    requires
        0 <= k < fs.len(),
    ensures
        file_bytes(fs.take(k + 1)) == file_bytes(fs.take(k)) + fs[k].1.len(),
        file_bytes(fs.take(k + 1)) <= file_bytes(fs),
    decreases fs.len() - k,
{
    assert(fs.take(k + 1).drop_last() =~= fs.take(k));
    if k + 1 < fs.len() {
        lemma_file_bytes_step(fs, k + 1);
    } else {
        assert(fs.take(k + 1) =~= fs);
    }
}

} // verus!
