//! An index that can be kept up to date.
//!
//! The snapshot that it begins with is never changed. Deletions are marked, new
//! entries are appended to tables of their own, so a scan of the snapshot stays
//! sequential and updates do not slow it down. Directory ids are one space: those of
//! the snapshot come first, then those that were added; file ids likewise.

use std::sync::Arc;

use vstd::prelude::*;
use vstd::slice::slice_subrange;

use crate::bitset::BitSet;
#[allow(unused_imports)]
use crate::bitset::{lemma_trues_left, trues};
use crate::groups::Groups;
pub use crate::live_search::Hit;
pub use crate::plan::Plan;
pub use crate::update::Subtree;
use crate::index::{Index, MAX_CLIMB};
#[allow(unused_imports)]
use crate::index::{glue, lemma_packed_at, nodes_ok, parent_ok, path_to, recs_ok, Contents};
#[allow(unused_imports)]
use crate::pick::{
    between, lemma_between_contains, lemma_between_picked, lemma_between_same, lemma_between_split,
    lemma_picked_contains, lemma_picked_twice, picked,
};
use crate::scan::{DirNode, FileRec, FLAG_SYMLINK};
#[allow(unused_imports)]
use crate::scan::{dir_item, file_item, kept, lemma_arena_grows, node_ok, rec_ok};
use crate::text::{
    bytes_eq, copy, extend, is_within, join_path, parent_path, starts_with, to_lower, SLASH,
};
#[allow(unused_imports)]
use crate::text::{lowered, within};
use crate::tree::{MAX_ANCESTORS, REMOVE_LIMIT};
#[allow(unused_imports)]
use crate::tree::{first_named, fresh, segment_end, State};

verus! {

/// The snapshot, which all states of a live index share.
pub struct BaseData {
    pub index: Index,
    /// The names of the snapshot's files in lower case, so that a search that ignores
    /// case can compare bytes.
    pub lower: Vec<u8>,
}

/// A live index at one moment.
pub struct Live {
    base: Arc<BaseData>,
    dead_files: BitSet,
    dead_dirs: BitSet,
    add_names: Vec<u8>,
    add_recs: Vec<FileRec>,
    add_dir_names: Vec<u8>,
    add_dir_nodes: Vec<DirNode>,
    /// Added directories by parent.
    add_children: Groups,
    /// Added files by parent.
    add_files: Groups,
    dead_add_files: BitSet,
    dead_add_dirs: BitSet,
    /// Events below these paths are ignored: the index file lies inside the watched
    /// tree, and writing it must not set off another update.
    ignore_prefixes: Vec<Vec<u8>>,
}

/// Entry `i` is not among the dead.
spec fn lives(dead: Seq<bool>, i: int) -> bool {
    !(i < dead.len() && dead[i])
}

/// The dead are among the first `n`.
spec fn dead_ok(dead: Seq<bool>, n: int) -> bool {
    n <= dead.len() && forall|i: int| n <= i < dead.len() ==> !#[trigger] dead[i]
}

impl View for Live {
    type V = State;

    closed spec fn view(&self) -> State {
        let c = self.base.index@;
        let nd = c.nodes.len() as int;
        let nf = c.recs.len() as int;
        State {
            root: c.root,
            base_dirs: c.nodes.len(),
            base_files: c.recs.len(),
            by_parent: c.by_parent,
            dirs: c.dirs() + Seq::new(
                self.add_dir_nodes@.len(),
                |i: int| dir_item(self.add_dir_names@, self.add_dir_nodes@[i]),
            ),
            dir_alive: Seq::new(c.nodes.len(), |i: int| lives(self.dead_dirs@, i)) + Seq::new(
                self.add_dir_nodes@.len(),
                |i: int| lives(self.dead_add_dirs@, i),
            ),
            files: c.files() + Seq::new(
                self.add_recs@.len(),
                |i: int| file_item(self.add_names@, self.add_recs@[i]),
            ),
            file_alive: Seq::new(c.recs.len(), |i: int| lives(self.dead_files@, i)) + Seq::new(
                self.add_recs@.len(),
                |i: int| lives(self.dead_add_files@, i),
            ),
            ignores: self.ignore_prefixes@.map_values(|v: Vec<u8>| v@),
        }
    }
}

impl Live {
    /// The tables fit together.
    pub closed spec fn wf(&self) -> bool {
        let c = self.base.index@;
        let nd = c.nodes.len() + self.add_dir_nodes@.len();
        let nf = c.recs.len() + self.add_recs@.len();
        &&& c.consistent()
        &&& self.base.lower@ == lowered(c.file_names)
        &&& nd < u32::MAX
        &&& nf < u32::MAX
        &&& self.add_dir_names@.len() <= u32::MAX
        &&& self.add_names@.len() <= u32::MAX
        &&& nodes_ok(self.add_dir_names@, self.add_dir_nodes@)
        &&& recs_ok(self.add_names@, self.add_recs@)
        &&& forall|i: int|
            0 <= i < self.add_dir_nodes@.len() ==> parent_ok(
                (#[trigger] self.add_dir_nodes@[i]).parent,
                c.nodes.len() + i,
            )
        &&& forall|i: int|
            0 <= i < self.add_recs@.len() ==> parent_ok(
                (#[trigger] self.add_recs@[i]).parent,
                nd as int,
            )
        &&& dead_ok(self.dead_dirs@, c.nodes.len() as int)
        &&& dead_ok(self.dead_files@, c.recs.len() as int)
        &&& dead_ok(self.dead_add_dirs@, self.add_dir_nodes@.len() as int)
        &&& dead_ok(self.dead_add_files@, self.add_recs@.len() as int)
        &&& forall|p: u32| #[trigger]
            self.add_children.of(p) == between(
                c.nodes.len() as int,
                nd as int,
                |id: int| self@.dirs[id].parent == p,
            )
        &&& forall|p: u32| #[trigger]
            self.add_files.of(p) == between(
                c.recs.len() as int,
                nf as int,
                |i: int| self@.files[i].parent == p,
            )
    }

    /// There is room for so many more directories and files, and the bytes of their
    /// names.
    pub closed spec fn room(&self, dirs: int, files: int, dir_bytes: int, file_bytes: int) -> bool {
        &&& self@.dirs.len() + dirs < u32::MAX
        &&& self@.files.len() + files < u32::MAX
        &&& self.add_dir_names@.len() + dir_bytes <= u32::MAX
        &&& self.add_names@.len() + file_bytes <= u32::MAX
    }

    /// The snapshot.
    pub closed spec fn contents(&self) -> Contents {
        self.base.index@
    }

    #[verifier::rlimit(60)]
    pub(crate) proof fn lemma_sound(&self)
        requires
            self.wf(),
        ensures
            self@.sound(),
    {
        let c = self.base.index@;
        assert forall|i: int| 0 <= i < self@.dirs.len() implies parent_ok(
            (#[trigger] self@.dirs[i]).parent,
            self@.dirs.len() as int,
        ) by {
            if i < c.nodes.len() {
                assert(parent_ok(c.nodes[i].parent, c.nodes.len() as int));
            } else {
                assert(self.add_dir_nodes@[i - c.nodes.len()].parent == self@.dirs[i].parent);
            }
        }
        assert forall|i: int| self@.base_dirs <= i < self@.dirs.len() implies parent_ok(
            (#[trigger] self@.dirs[i]).parent,
            i,
        ) by {
            assert(self.add_dir_nodes@[i - c.nodes.len()].parent == self@.dirs[i].parent);
        }
        assert forall|i: int| 0 <= i < self@.files.len() implies parent_ok(
            (#[trigger] self@.files[i]).parent,
            self@.dirs.len() as int,
        ) by {
            if i < c.recs.len() {
                assert(parent_ok(c.recs[i].parent, c.nodes.len() as int));
            } else {
                assert(self.add_recs@[i - c.recs.len()].parent == self@.files[i].parent);
            }
        }
    }

    /// Where there is room for much, there is room for less.
    pub(crate) proof fn lemma_room(
        &self,
        d: int,
        f: int,
        db: int,
        fb: int,
        d2: int,
        f2: int,
        db2: int,
        fb2: int,
    )
        requires
            self.room(d, f, db, fb),
            d2 <= d,
            f2 <= f,
            db2 <= db,
            fb2 <= fb,
        ensures
            self.room(d2, f2, db2, fb2),
    {
    }

    /// Equal tables leave equal room.
    pub(crate) proof fn lemma_room_same(&self, other: &Live, d: int, f: int, db: int, fb: int)
        requires
            other.same_tables(self),
        ensures
            other.room(d, f, db, fb) == self.room(d, f, db, fb),
    {
    }

    /// The tables hold the same.
    pub closed spec fn same_tables(&self, other: &Live) -> bool {
        &&& self@ == other@
        &&& self.add_dir_names@ == other.add_dir_names@
        &&& self.add_names@ == other.add_names@
    }

    /// No room has more bytes than an offset can count.
    pub(crate) proof fn lemma_room_bytes(&self, d: int, f: int, db: int, fb: int)
        requires
            self.room(d, f, db, fb),
        ensures
            db <= u32::MAX,
            fb <= u32::MAX,
    {
    }

    /// A live index that begins with the snapshot `base`.
    #[verifier::rlimit(60)]
    pub fn new(base: Index) -> (r: Live)
        requires
            base@.consistent(),
        ensures
            r.wf(),
            r@ == fresh(base@),
            r.contents() == base@,
            forall|d: int, f: int, db: int, fb: int| #[trigger]
                r.room(d, f, db, fb) <==> base@.nodes.len() + d < 0xffff_ffff && base@.recs.len() + f
                    < 0xffff_ffff && db <= 0xffff_ffff && fb <= 0xffff_ffff,
    {
        let nf = base.file_recs().len();
        let nd = base.dir_nodes().len();
        let lower = to_lower(base.file_names());
        let r = Live {
            base: Arc::new(BaseData { index: base, lower }),
            dead_files: BitSet::new(nf),
            dead_dirs: BitSet::new(nd),
            add_names: Vec::new(),
            add_recs: Vec::new(),
            add_dir_names: Vec::new(),
            add_dir_nodes: Vec::new(),
            add_children: Groups::new(),
            add_files: Groups::new(),
            dead_add_files: BitSet::new(0),
            dead_add_dirs: BitSet::new(0),
            ignore_prefixes: Vec::new(),
        };
        proof {
            let s = fresh(base@);
            assert(r@.dirs =~= s.dirs);
            assert(r@.files =~= s.files);
            assert(r@.dir_alive =~= s.dir_alive);
            assert(r@.file_alive =~= s.file_alive);
            assert(r@.ignores =~= s.ignores);
        }
        r
    }

    // --- looking ---

    /// Ignores events below `prefix` from now on.
    pub fn ignore_path(&mut self, prefix: &[u8])
        requires
            old(self).wf(),
        ensures
            final(self).wf(),
            final(self)@ == (State { ignores: old(self)@.ignores.push(prefix@), ..old(self)@ }),
            final(self).contents() == old(self).contents(),
    {
        self.ignore_prefixes.push(copy(prefix));
        proof {
            assert(self@.ignores =~= old(self)@.ignores.push(prefix@));
            assert(self@.dirs =~= old(self)@.dirs);
            assert(self@.files =~= old(self)@.files);
        }
    }

    /// Whether events at `path` are ignored.
    pub fn ignored(&self, path: &[u8]) -> (r: bool)
        ensures
            r == self@.ignored(path@),
    {
        for i in 0..self.ignore_prefixes.len()
            invariant
                forall|k: int|
                    0 <= k < i ==> !(#[trigger] self@.ignores[k]).is_prefix_of(path@),
        {
            assert(self@.ignores[i as int] == self.ignore_prefixes@[i as int]@);
            if starts_with(path, self.ignore_prefixes[i].as_slice()) {
                return true;
            }
        }
        false
    }

    /// The snapshot.
    pub fn base(&self) -> (r: &Index)
        ensures
            r@ == self.contents(),
    {
        &self.base.index
    }

    /// The names of the snapshot's files in lower case.
    pub(crate) fn lower(&self) -> (r: &[u8])
        requires
            self.wf(),
        ensures
            r@ == lowered(self.contents().file_names),
    {
        self.base.lower.as_slice()
    }

    /// What the state has from the snapshot.
    pub(crate) proof fn lemma_base(&self)
        requires
            self.wf(),
        ensures
            self.contents().consistent(),
            self@.base_dirs == self.contents().nodes.len(),
            self@.base_files == self.contents().recs.len(),
            self@.dirs.take(self@.base_dirs as int) == self.contents().dirs(),
            self@.files.take(self@.base_files as int) == self.contents().files(),
            self@.root == self.contents().root,
    {
        let c = self.base.index@;
        assert(self@.dirs.take(c.nodes.len() as int) =~= c.dirs());
        assert(self@.files.take(c.recs.len() as int) =~= c.files());
    }

    /// Whether there is room for so many more directories and files, and the bytes of
    /// their names.
    pub fn has_room(&self, dirs: usize, files: usize, dir_bytes: usize, file_bytes: usize) -> (r: bool)
        requires
            self.wf(),
        ensures
            r == self.room(dirs as int, files as int, dir_bytes as int, file_bytes as int),
    {
        proof {
            self.lemma_sound();
        }
        let nd = self.n_base_dirs() as u64 + self.add_dir_nodes.len() as u64;
        let nf = self.n_base_files() as u64 + self.add_recs.len() as u64;
        let max = u32::MAX as u64;
        (dirs as u64) < max - nd && (files as u64) < max - nf && dir_bytes as u64 <= max
            - self.add_dir_names.len() as u64 && file_bytes as u64 <= max
            - self.add_names.len() as u64
    }

    pub(crate) fn n_base_dirs(&self) -> (r: u32)
        requires
            self.wf(),
        ensures
            r == self@.base_dirs,
    {
        self.base.index.header().n_dirs as u32
    }

    pub(crate) fn n_base_files(&self) -> (r: u32)
        requires
            self.wf(),
        ensures
            r == self@.base_files,
    {
        self.base.index.header().n_files as u32
    }

    /// How many directory ids there are.
    pub fn n_dirs(&self) -> (r: u32)
        requires
            self.wf(),
        ensures
            r == self@.dirs.len(),
    {
        self.n_base_dirs() + self.add_dir_nodes.len() as u32
    }

    /// How many file ids there are.
    pub fn n_files(&self) -> (r: u32)
        requires
            self.wf(),
        ensures
            r == self@.files.len(),
    {
        self.n_base_files() + self.add_recs.len() as u32
    }

    /// How many entries were added: when there are many, it is time for a new snapshot.
    pub fn delta_len(&self) -> (r: usize)
        requires
            self.wf(),
            self@.dirs.len() + self@.files.len() <= usize::MAX,
        ensures
            r == (self@.dirs.len() - self@.base_dirs) + (self@.files.len() - self@.base_files),
            r == self@.counts().added,
    {
        proof {
            self.lemma_sound();
        }
        self.add_recs.len() + self.add_dir_nodes.len()
    }

    /// How many entries of the snapshot are gone.
    pub fn dead_len(&self) -> (r: usize)
        requires
            self.wf(),
            self@.dirs.len() + self@.files.len() <= usize::MAX,
        ensures
            r == (self@.base_dirs - trues(self@.dir_alive.take(self@.base_dirs as int))) + (
            self@.base_files - trues(self@.file_alive.take(self@.base_files as int))),
            r == self@.counts().removed,
    {
        proof {
            self.lemma_sound();
            let (nd, nf) = (self@.base_dirs as int, self@.base_files as int);
            lemma_trues_left(self.dead_dirs@, nd);
            lemma_trues_left(self.dead_files@, nf);
            assert(self@.dir_alive.take(nd) =~= Seq::new(
                nd as nat,
                |i: int| !self.dead_dirs@[i],
            ));
            assert(self@.file_alive.take(nf) =~= Seq::new(
                nf as nat,
                |i: int| !self.dead_files@[i],
            ));
        }
        self.dead_files.count() + self.dead_dirs.count()
    }

    /// How many files there are.
    pub fn total_files(&self) -> (r: usize)
        requires
            self.wf(),
            self@.dirs.len() + self@.files.len() <= usize::MAX,
        ensures
            r == trues(self@.file_alive),
            r == self@.counts().files,
    {
        proof {
            self.lemma_sound();
            let nb = self@.base_files as int;
            let na = self.add_recs@.len() as int;
            lemma_trues_left(self.dead_files@, nb);
            lemma_trues_left(self.dead_add_files@, na);
            let a = Seq::new(nb as nat, |i: int| !self.dead_files@[i]);
            let b = Seq::new(na as nat, |i: int| !self.dead_add_files@[i]);
            crate::bitset::lemma_trues_concat(a, b);
            assert(self@.file_alive =~= a + b);
        }
        self.n_base_files() as usize + self.add_recs.len() - self.dead_files.count()
            - self.dead_add_files.count()
    }

    /// How many directory ids are in use or were handed out and not used, less the
    /// directories that are gone.
    pub fn total_dirs(&self) -> (r: usize)
        requires
            self.wf(),
            self@.dirs.len() + self@.files.len() <= usize::MAX,
        ensures
            r == trues(self@.dir_alive),
            r == self@.counts().dirs,
    {
        proof {
            self.lemma_sound();
            let nb = self@.base_dirs as int;
            let na = self.add_dir_nodes@.len() as int;
            lemma_trues_left(self.dead_dirs@, nb);
            lemma_trues_left(self.dead_add_dirs@, na);
            let a = Seq::new(nb as nat, |i: int| !self.dead_dirs@[i]);
            let b = Seq::new(na as nat, |i: int| !self.dead_add_dirs@[i]);
            crate::bitset::lemma_trues_concat(a, b);
            assert(self@.dir_alive =~= a + b);
        }
        self.n_base_dirs() as usize + self.add_dir_nodes.len() - self.dead_dirs.count()
            - self.dead_add_dirs.count()
    }

    pub(crate) fn dir_alive(&self, id: u32) -> (r: bool)
        requires
            self.wf(),
            id < self@.dirs.len(),
        ensures
            r == self@.dir_alive[id as int],
    {
        let nb = self.n_base_dirs();
        if id < nb {
            !self.dead_dirs.get(id as usize)
        } else {
            !self.dead_add_dirs.get((id - nb) as usize)
        }
    }

    pub(crate) fn file_alive(&self, id: u32) -> (r: bool)
        requires
            self.wf(),
            id < self@.files.len(),
        ensures
            r == self@.file_alive[id as int],
    {
        let nb = self.n_base_files();
        if id < nb {
            !self.dead_files.get(id as usize)
        } else {
            !self.dead_add_files.get((id - nb) as usize)
        }
    }

    /// The name of directory `id`.
    pub fn dir_name(&self, id: u32) -> (r: &[u8])
        requires
            self.wf(),
            id < self@.dirs.len(),
        ensures
            r@ == self@.dirs[id as int].name,
    {
        let nb = self.n_base_dirs();
        if id < nb {
            self.base.index.dir_name(id)
        } else {
            let node = self.add_dir_nodes[(id - nb) as usize];
            let n = self.add_dir_names.len();
            assert(node.name_off + node.name_len <= n);
            let start = node.name_off as usize;
            slice_subrange(self.add_dir_names.as_slice(), start, start + node.name_len as usize)
        }
    }

    pub(crate) fn dir_parent(&self, id: u32) -> (r: u32)
        requires
            self.wf(),
            id < self@.dirs.len(),
        ensures
            r == self@.dirs[id as int].parent,
            parent_ok(r, self@.dirs.len() as int),
    {
        proof {
            self.lemma_sound();
            assert(parent_ok(self@.dirs[id as int].parent, self@.dirs.len() as int));
        }
        let nb = self.n_base_dirs();
        if id < nb {
            self.base.index.dir_nodes()[id as usize].parent
        } else {
            self.add_dir_nodes[(id - nb) as usize].parent
        }
    }

    /// The name of file `id`.
    pub fn file_name(&self, id: u32) -> (r: &[u8])
        requires
            self.wf(),
            id < self@.files.len(),
        ensures
            r@ == self@.files[id as int].name,
    {
        let nb = self.n_base_files();
        if id < nb {
            proof {
                let c = self.base.index@;
                lemma_packed_at(c.recs, c.file_names.len() as int, id as int, id as int);
            }
            self.base.index.file_name(id as usize)
        } else {
            let rec = self.add_recs[(id - nb) as usize];
            let n = self.add_names.len();
            assert(rec.name_off + rec.name_len <= n);
            let start = rec.name_off as usize;
            slice_subrange(self.add_names.as_slice(), start, start + rec.name_len as usize)
        }
    }

    pub(crate) fn file_parent(&self, id: u32) -> (r: u32)
        requires
            self.wf(),
            id < self@.files.len(),
        ensures
            r == self@.files[id as int].parent,
            parent_ok(r, self@.dirs.len() as int),
    {
        proof {
            self.lemma_sound();
            assert(parent_ok(self@.files[id as int].parent, self@.dirs.len() as int));
        }
        let nb = self.n_base_files();
        if id < nb {
            self.base.index.file_recs()[id as usize].parent
        } else {
            self.add_recs[(id - nb) as usize].parent
        }
    }

    fn path_up(&self, id: u32, levels: u32) -> (r: Vec<u8>)
        requires
            self.wf(),
            parent_ok(id, self@.dirs.len() as int),
        ensures
            r@ == path_to(self@.dirs, id, levels as nat),
        decreases levels,
    {
        if levels == 0 || id == u32::MAX {
            return Vec::new();
        }
        let mut out = self.path_up(self.dir_parent(id), levels - 1);
        let ghost above = out@;
        let n = out.len();
        if n > 0 && out[n - 1] != SLASH {
            out.push(SLASH);
        }
        extend(&mut out, self.dir_name(id));
        assert(out@ =~= glue(above, self@.dirs[id as int].name));
        out
    }

    /// The path of directory `id`.
    pub fn dir_path(&self, id: u32) -> (r: Vec<u8>)
        requires
            self.wf(),
            parent_ok(id, self@.dirs.len() as int),
        ensures
            r@ == self@.dir_path(id),
    {
        self.path_up(id, MAX_CLIMB)
    }

    /// The path of file `id`.
    pub fn file_path(&self, id: u32) -> (r: Vec<u8>)
        requires
            self.wf(),
            id < self@.files.len(),
        ensures
            r@ == self@.file_path(id as int),
    {
        let dir = self.dir_path(self.file_parent(id));
        join_path(dir.as_slice(), self.file_name(id))
    }
}

impl Live {
    /// The subdirectories of `parent` in the snapshot.
    #[verifier::rlimit(60)]
    fn base_children(&self, parent: u32) -> (r: Vec<u32>)
        requires
            self.wf(),
        ensures
            r@ == self@.base_children(parent),
            forall|i: int| 0 <= i < r@.len() ==> (#[trigger] r@[i]) < self@.dirs.len(),
    {
        let mut out: Vec<u32> = Vec::new();
        if parent >= self.n_base_dirs() {
            return out;
        }
        let ghost s = self@;
        let ghost c = self.base.index@;
        let kids = self.base.index.child_dirs(parent);
        let ghost of_parent = |id: u32| c.nodes[id as int].parent == parent;
        let ghost there = |id: u32| id != parent && s.dir_alive[id as int];
        proof {
            self.lemma_sound();
            lemma_picked_contains(c.by_parent, of_parent);
            lemma_picked_twice(c.by_parent, of_parent, there, s.other_child(parent));
            assert(kids@.take(0) =~= Seq::empty());
        }
        for i in 0..kids.len()
            invariant
                self.wf(),
                s == self@,
                c == self.base.index@,
                kids@ == picked(c.by_parent, of_parent),
                forall|id: u32| #[trigger]
                    picked(c.by_parent, of_parent).contains(id) <==> c.by_parent.contains(id)
                        && of_parent(id),
                there == (|id: u32| id != parent && s.dir_alive[id as int]),
                c.nodes.len() <= s.dirs.len(),
                out@ == picked(kids@.take(i as int), there),
                forall|k: int| 0 <= k < out@.len() ==> (#[trigger] out@[k]) < s.dirs.len(),
        {
            let id = kids[i];
            proof {
                assert(kids@.contains(id));
                assert(c.by_parent.contains(id));
                assert(kids@.take(i + 1).drop_last() =~= kids@.take(i as int));
            }
            if id != parent && self.dir_alive(id) {
                out.push(id);
            }
        }
        assert(kids@.take(kids@.len() as int) =~= kids@);
        out
    }

    /// The subdirectories of `parent` that were added.
    #[verifier::rlimit(60)]
    fn added_children(&self, parent: u32) -> (r: Vec<u32>)
        requires
            self.wf(),
        ensures
            r@ == self@.added_children(parent),
            forall|i: int| 0 <= i < r@.len() ==> (#[trigger] r@[i]) < self@.dirs.len(),
    {
        let ghost s = self@;
        let ghost (nb, nd) = (s.base_dirs as int, s.dirs.len() as int);
        let ghost of_parent = |id: int| s.dirs[id].parent == parent;
        let ghost there = |id: u32| s.dir_alive[id as int];
        let ghost added = self.add_children.of(parent);
        proof {
            self.lemma_sound();
            lemma_between_contains(nb, nd, of_parent);
            lemma_between_picked(nb, nd, of_parent, there, |id: int| s.is_child(parent, id));
            assert(added == between(nb, nd, of_parent));
            assert(added.take(0) =~= Seq::empty());
        }
        let mut out: Vec<u32> = Vec::new();
        let n = self.add_children.len(parent);
        for i in 0..n
            invariant
                self.wf(),
                s == self@,
                added == self.add_children.of(parent),
                n == added.len(),
                nd == s.dirs.len(),
                there == (|id: u32| s.dir_alive[id as int]),
                forall|id: u32| #[trigger] added.contains(id) ==> nb <= id < nd,
                out@ == picked(added.take(i as int), there),
                forall|k: int| 0 <= k < out@.len() ==> (#[trigger] out@[k]) < nd,
        {
            let id = self.add_children.at(parent, i);
            proof {
                assert(added.contains(id));
                assert(added.take(i + 1).drop_last() =~= added.take(i as int));
            }
            if self.dir_alive(id) {
                out.push(id);
            }
        }
        assert(added.take(added.len() as int) =~= added);
        out
    }

    /// The subdirectories of `parent`.
    pub fn child_dirs(&self, parent: u32) -> (r: Vec<u32>)
        requires
            self.wf(),
        ensures
            r@ == self@.child_dirs(parent),
            forall|i: int| 0 <= i < r@.len() ==> (#[trigger] r@[i]) < self@.dirs.len(),
    {
        let mut out = self.base_children(parent);
        let mut added = self.added_children(parent);
        let ghost (a, b) = (out@, added@);
        out.append(&mut added);
        assert(out@ =~= a + b);
        out
    }

    /// The files of `parent` in the snapshot.
    #[verifier::rlimit(60)]
    fn base_files(&self, parent: u32) -> (r: Vec<u32>)
        requires
            self.wf(),
        ensures
            r@ == between(
                0,
                self@.base_files as int,
                |i: int| self@.is_inside(parent, i),
            ),
            forall|i: int| 0 <= i < r@.len() ==> (#[trigger] r@[i]) < self@.files.len(),
    {
        let ghost s = self@;
        let ghost c = self.base.index@;
        let ghost nb = s.base_files as int;
        let ghost inside = |i: int| s.is_inside(parent, i);
        proof {
            self.lemma_sound();
        }
        let range = self.base.index.files_in_dir(parent);
        let (lo, hi) = (range.start, range.end);
        let mut out: Vec<u32> = Vec::new();
        proof {
            lemma_between_none(0, lo as int, inside);
            lemma_between_none(hi as int, nb, inside);
        }
        for i in lo..hi
            invariant
                self.wf(),
                s == self@,
                c == self.base.index@,
                nb == c.recs.len(),
                nb <= s.files.len() < u32::MAX,
                lo <= i <= hi <= nb,
                inside == (|i: int| s.is_inside(parent, i)),
                forall|k: int|
                    0 <= k < nb ==> (lo <= k < hi <==> (#[trigger] c.recs[k]).parent == parent),
                out@ == between(lo as int, i as int, inside),
                forall|k: int| 0 <= k < out@.len() ==> (#[trigger] out@[k]) < s.files.len(),
        {
            assert(c.recs[i as int].parent == parent);
            assert(s.files[i as int].parent == parent);
            if self.file_alive(i as u32) {
                out.push(i as u32);
            }
        }
        proof {
            lemma_between_split(0, lo as int, hi as int, inside);
            lemma_between_split(0, hi as int, nb, inside);
            assert(out@ =~= between(0, nb, inside));
        }
        out
    }

    /// The files of `parent` that were added.
    #[verifier::rlimit(60)]
    fn added_files(&self, parent: u32) -> (r: Vec<u32>)
        requires
            self.wf(),
        ensures
            r@ == between(
                self@.base_files as int,
                self@.files.len() as int,
                |i: int| self@.is_inside(parent, i),
            ),
            forall|i: int| 0 <= i < r@.len() ==> (#[trigger] r@[i]) < self@.files.len(),
    {
        let ghost s = self@;
        let ghost (nb, nf) = (s.base_files as int, s.files.len() as int);
        let ghost of_parent = |i: int| s.files[i].parent == parent;
        let ghost there = |i: u32| s.file_alive[i as int];
        let ghost added = self.add_files.of(parent);
        proof {
            self.lemma_sound();
            lemma_between_contains(nb, nf, of_parent);
            lemma_between_picked(nb, nf, of_parent, there, |i: int| s.is_inside(parent, i));
            assert(added == between(nb, nf, of_parent));
            assert(added.take(0) =~= Seq::empty());
        }
        let mut out: Vec<u32> = Vec::new();
        let n = self.add_files.len(parent);
        for i in 0..n
            invariant
                self.wf(),
                s == self@,
                added == self.add_files.of(parent),
                n == added.len(),
                nf == s.files.len(),
                there == (|i: u32| s.file_alive[i as int]),
                forall|id: u32| #[trigger] added.contains(id) ==> nb <= id < nf,
                out@ == picked(added.take(i as int), there),
                forall|k: int| 0 <= k < out@.len() ==> (#[trigger] out@[k]) < nf,
        {
            let id = self.add_files.at(parent, i);
            proof {
                assert(added.contains(id));
                assert(added.take(i + 1).drop_last() =~= added.take(i as int));
            }
            if self.file_alive(id) {
                out.push(id);
            }
        }
        assert(added.take(added.len() as int) =~= added);
        out
    }

    /// The files of `parent`.
    pub fn files_in_dir(&self, parent: u32) -> (r: Vec<u32>)
        requires
            self.wf(),
        ensures
            r@ == self@.files_in_dir(parent),
            forall|i: int| 0 <= i < r@.len() ==> (#[trigger] r@[i]) < self@.files.len(),
    {
        let mut added = self.added_files(parent);
        if parent >= self.n_base_dirs() {
            return added;
        }
        let mut out = self.base_files(parent);
        let ghost (a, b) = (out@, added@);
        proof {
            self.lemma_sound();
            lemma_between_split(
                0,
                self@.base_files as int,
                self@.files.len() as int,
                |i: int| self@.is_inside(parent, i),
            );
        }
        out.append(&mut added);
        assert(out@ =~= a + b);
        out
    }

    /// The first subdirectory of `parent` that bears the name.
    fn child_named(&self, parent: u32, name: &[u8]) -> (r: Option<u32>)
        requires
            self.wf(),
        ensures
            r == first_named(self@.dirs, self@.child_dirs(parent), name@),
            r matches Some(id) ==> id < self@.dirs.len(),
    {
        let kids = self.child_dirs(parent);
        assert(kids@.skip(0) =~= kids@);
        for i in 0..kids.len()
            invariant
                self.wf(),
                kids@ == self@.child_dirs(parent),
                forall|k: int| 0 <= k < kids@.len() ==> (#[trigger] kids@[k]) < self@.dirs.len(),
                first_named(self@.dirs, kids@, name@) == first_named(
                    self@.dirs,
                    kids@.skip(i as int),
                    name@,
                ),
        {
            let id = kids[i];
            assert(kids@.skip(i as int)[0] == id);
            assert(kids@.skip(i as int).skip(1) =~= kids@.skip(i + 1));
            if bytes_eq(self.dir_name(id), name) {
                return Some(id);
            }
        }
        None
    }

    /// The directory at `path`.
    pub fn lookup_dir(&self, path: &[u8]) -> (r: Option<u32>)
        requires
            self.wf(),
        ensures
            r == self@.lookup(path@),
            r matches Some(id) ==> id == 0 || id < self@.dirs.len(),
    {
        let root = self.base.index.root();
        if !is_within(root, path) {
            return None;
        }
        let n = path.len();
        assert(root@.len() <= path@.len());
        let mut cur: u32 = 0;
        let mut at: usize = root.len();
        while at < n
            invariant
                self.wf(),
                n == path@.len(),
                at <= n,
                cur == 0 || cur < self@.dirs.len(),
                within(self@.root, path@),
                self@.lookup(path@) == self@.descend(cur, path@.skip(at as int)),
            decreases n - at,
        {
            let ghost rest = path@.skip(at as int);
            let mut end = at;
            while end < n && path[end] != SLASH
                invariant
                    n == path@.len(),
                    at <= end <= n,
                    rest == path@.skip(at as int),
                    segment_end(rest, 0) == segment_end(rest, end - at),
                decreases n - end,
            {
                end += 1;
            }
            let ghost k = end - at;
            assert(segment_end(rest, 0) == k);
            if end > at {
                let seg = slice_subrange(path, at, end);
                assert(seg@ =~= rest.take(k));
                match self.child_named(cur, seg) {
                    Some(id) => {
                        cur = id;
                    },
                    None => {
                        return None;
                    },
                }
            }
            proof {
                if k < rest.len() {
                    assert(rest.skip(k + 1) =~= path@.skip(end + 1));
                } else {
                    assert(path@.skip(n as int) =~= Seq::empty());
                }
            }
            at = if end < n {
                end + 1
            } else {
                n
            };
        }
        assert(path@.skip(at as int).len() == 0);
        Some(cur)
    }

    /// The directory at `path`, or the nearest known one above.
    pub(crate) fn resolve_or_ancestor(&self, path: &[u8]) -> (r: Option<(u32, Vec<u8>)>)
        requires
            self.wf(),
        ensures
            match r {
                Some((id, p)) => self@.resolve(path@) == Some((id, p@)) && (id == 0 || id
                    < self@.dirs.len()),
                None => self@.resolve(path@) is None,
            },
    {
        if let Some(id) = self.lookup_dir(path) {
            return Some((id, copy(path)));
        }
        let mut probe = copy(path);
        for step in 0..MAX_ANCESTORS
            invariant
                self.wf(),
                self@.resolve(path@) == self@.ancestor(probe@, (MAX_ANCESTORS - step) as nat),
        {
            probe = match parent_path(probe.as_slice()) {
                Some(p) => p,
                None => {
                    return None;
                },
            };
            if let Some(id) = self.lookup_dir(probe.as_slice()) {
                return Some((id, probe));
            }
        }
        None
    }
}

impl Live {
    // --- changing ---

    /// Appends a directory; returns its id.
    #[verifier::rlimit(60)]
    pub(crate) fn push_dir(&mut self, name: &[u8], parent: u32) -> (r: u32)
        requires
            old(self).wf(),
            old(self).room(1, 0, name@.len() as int, 0),
            parent_ok(parent, old(self)@.dirs.len() as int),
        ensures
            final(self).wf(),
            final(self)@ == old(self)@.push_dir(name@, parent),
            final(self).contents() == old(self).contents(),
            r == old(self)@.dirs.len(),
            forall|d: int, f: int, db: int, fb: int| #[trigger]
                final(self).room(d, f, db, fb) == old(self).room(
                    d + 1,
                    f,
                    db + name@.len(),
                    fb,
                ),
    {
        let ghost before = *old(self);
        proof {
            before.lemma_sound();
        }
        let nb = self.n_base_dirs();
        let off = self.add_dir_names.len() as u32;
        extend(&mut self.add_dir_names, name);
        let node = DirNode {
            name_off: off,
            parent,
            name_len: (name.len() % 0x1_0000) as u16,
            _pad: 0,
        };
        self.add_dir_nodes.push(node);
        let id = nb + (self.add_dir_nodes.len() - 1) as u32;
        self.dead_add_dirs.grow(self.add_dir_nodes.len());
        self.add_children.push(parent, id);
        proof {
            let c = self.base.index@;
            let s = before@.push_dir(name@, parent);
            let n = before.add_dir_nodes@.len() as int;
            lemma_arena_grows(before.add_dir_names@, name@);
            assert(dir_item(self.add_dir_names@, node).name =~= kept(name@));
            assert forall|i: int| 0 <= i < self@.dirs.len() implies self@.dirs[i] == s.dirs[i] by {
                if nb <= i < nb + n {
                    assert(node_ok(before.add_dir_names@, before.add_dir_nodes@[i - nb]));
                    assert(self.add_dir_nodes@[i - nb] == before.add_dir_nodes@[i - nb]);
                }
            }
            assert(self@.dirs =~= s.dirs);
            assert(self@.dir_alive =~= s.dir_alive);
            assert(self@.files =~= s.files);
            assert(self@.file_alive =~= s.file_alive);
            assert forall|i: int| 0 <= i < self.add_dir_nodes@.len() implies node_ok(
                self.add_dir_names@,
                #[trigger] self.add_dir_nodes@[i],
            ) && parent_ok(self.add_dir_nodes@[i].parent, nb + i) by {
                if i < n {
                    assert(node_ok(before.add_dir_names@, before.add_dir_nodes@[i]));
                    assert(parent_ok(before.add_dir_nodes@[i].parent, nb + i));
                }
            }
            assert forall|i: int| 0 <= i < self.add_recs@.len() implies parent_ok(
                (#[trigger] self.add_recs@[i]).parent,
                s.dirs.len() as int,
            ) by {
                assert(parent_ok(before.add_recs@[i].parent, before@.dirs.len() as int));
            }
            assert forall|p: u32| #[trigger] self.add_children.of(p) == between(
                nb as int,
                nb + n + 1,
                |id: int| self@.dirs[id].parent == p,
            ) by {
                let old_p = |id: int| before@.dirs[id].parent == p;
                let new_p = |id: int| self@.dirs[id].parent == p;
                assert(before.add_children.of(p) == between(nb as int, nb + n, old_p));
                lemma_between_same(nb as int, nb + n, old_p, new_p);
            }
            assert forall|p: u32| #[trigger] self.add_files.of(p) == between(
                c.recs.len() as int,
                self@.files.len() as int,
                |i: int| self@.files[i].parent == p,
            ) by {
                let old_p = |i: int| before@.files[i].parent == p;
                let new_p = |i: int| self@.files[i].parent == p;
                assert(before.add_files.of(p) == between(
                    c.recs.len() as int,
                    before@.files.len() as int,
                    old_p,
                ));
                lemma_between_same(c.recs.len() as int, before@.files.len() as int, old_p, new_p);
            }
        }
        id
    }

    /// Appends a file.
    #[verifier::rlimit(60)]
    pub(crate) fn push_file(&mut self, name: &[u8], parent: u32, is_link: bool)
        requires
            old(self).wf(),
            old(self).room(0, 1, 0, name@.len() as int),
            parent_ok(parent, old(self)@.dirs.len() as int),
        ensures
            final(self).wf(),
            final(self)@ == old(self)@.push_file(name@, parent, is_link),
            final(self).contents() == old(self).contents(),
            forall|d: int, f: int, db: int, fb: int| #[trigger]
                final(self).room(d, f, db, fb) == old(self).room(
                    d,
                    f + 1,
                    db,
                    fb + name@.len(),
                ),
    {
        let ghost before = *old(self);
        proof {
            before.lemma_sound();
        }
        let nb = self.n_base_files();
        let off = self.add_names.len() as u32;
        extend(&mut self.add_names, name);
        let flags = if is_link {
            FLAG_SYMLINK
        } else {
            0
        };
        let rec = FileRec {
            name_off: off,
            parent,
            name_len: (name.len() % 0x1_0000) as u16,
            flags,
        };
        self.add_recs.push(rec);
        let id = nb + (self.add_recs.len() - 1) as u32;
        self.dead_add_files.grow(self.add_recs.len());
        self.add_files.push(parent, id);
        proof {
            let c = self.base.index@;
            let s = before@.push_file(name@, parent, is_link);
            let n = before.add_recs@.len() as int;
            lemma_arena_grows(before.add_names@, name@);
            assert(file_item(self.add_names@, rec).name =~= kept(name@));
            assert forall|i: int| 0 <= i < self@.files.len() implies self@.files[i]
                == s.files[i] by {
                if nb <= i < nb + n {
                    assert(rec_ok(before.add_names@, before.add_recs@[i - nb]));
                    assert(self.add_recs@[i - nb] == before.add_recs@[i - nb]);
                }
            }
            assert(self@.files =~= s.files);
            assert(self@.file_alive =~= s.file_alive);
            assert(self@.dirs =~= s.dirs);
            assert(self@.dir_alive =~= s.dir_alive);
            assert forall|i: int| 0 <= i < self.add_recs@.len() implies rec_ok(
                self.add_names@,
                #[trigger] self.add_recs@[i],
            ) && parent_ok(self.add_recs@[i].parent, s.dirs.len() as int) by {
                if i < n {
                    assert(rec_ok(before.add_names@, before.add_recs@[i]));
                    assert(parent_ok(before.add_recs@[i].parent, before@.dirs.len() as int));
                }
            }
            assert forall|p: u32| #[trigger] self.add_files.of(p) == between(
                nb as int,
                nb + n + 1,
                |i: int| self@.files[i].parent == p,
            ) by {
                let old_p = |i: int| before@.files[i].parent == p;
                let new_p = |i: int| self@.files[i].parent == p;
                assert(before.add_files.of(p) == between(nb as int, nb + n, old_p));
                lemma_between_same(nb as int, nb + n, old_p, new_p);
            }
            assert forall|p: u32| #[trigger] self.add_children.of(p) == between(
                c.nodes.len() as int,
                self@.dirs.len() as int,
                |id: int| self@.dirs[id].parent == p,
            ) by {
                let old_p = |id: int| before@.dirs[id].parent == p;
                let new_p = |id: int| self@.dirs[id].parent == p;
                assert(before.add_children.of(p) == between(
                    c.nodes.len() as int,
                    before@.dirs.len() as int,
                    old_p,
                ));
                lemma_between_same(c.nodes.len() as int, before@.dirs.len() as int, old_p, new_p);
            }
        }
    }

    /// Nothing but marks has changed.
    closed spec fn only_marks(&self, before: &Live) -> bool {
        &&& self.base == before.base
        &&& self.add_names == before.add_names
        &&& self.add_recs == before.add_recs
        &&& self.add_dir_names == before.add_dir_names
        &&& self.add_dir_nodes == before.add_dir_nodes
        &&& self.add_children == before.add_children
        &&& self.add_files == before.add_files
        &&& self.ignore_prefixes == before.ignore_prefixes
        &&& dead_ok(self.dead_dirs@, self.base.index@.nodes.len() as int)
        &&& dead_ok(self.dead_files@, self.base.index@.recs.len() as int)
        &&& dead_ok(self.dead_add_dirs@, self.add_dir_nodes@.len() as int)
        &&& dead_ok(self.dead_add_files@, self.add_recs@.len() as int)
    }

    #[verifier::rlimit(60)]
    proof fn lemma_only_marks(&self, before: &Live)
        requires
            before.wf(),
            self.only_marks(before),
        ensures
            self.wf(),
            self@.dirs == before@.dirs,
            self@.files == before@.files,
            self.contents() == before.contents(),
            forall|d: int, f: int, db: int, fb: int| #[trigger]
                self.room(d, f, db, fb) == before.room(d, f, db, fb),
    {
        let c = self.base.index@;
        assert(self@.dirs =~= before@.dirs);
        assert(self@.files =~= before@.files);
        assert forall|p: u32| #[trigger] self.add_children.of(p) == between(
            c.nodes.len() as int,
            self@.dirs.len() as int,
            |id: int| self@.dirs[id].parent == p,
        ) by {
            let old_p = |id: int| before@.dirs[id].parent == p;
            let new_p = |id: int| self@.dirs[id].parent == p;
            assert(before.add_children.of(p) == between(
                c.nodes.len() as int,
                before@.dirs.len() as int,
                old_p,
            ));
            lemma_between_same(c.nodes.len() as int, before@.dirs.len() as int, old_p, new_p);
        }
        assert forall|p: u32| #[trigger] self.add_files.of(p) == between(
            c.recs.len() as int,
            self@.files.len() as int,
            |i: int| self@.files[i].parent == p,
        ) by {
            let old_p = |i: int| before@.files[i].parent == p;
            let new_p = |i: int| self@.files[i].parent == p;
            assert(before.add_files.of(p) == between(
                c.recs.len() as int,
                before@.files.len() as int,
                old_p,
            ));
            lemma_between_same(c.recs.len() as int, before@.files.len() as int, old_p, new_p);
        }
    }

    /// Marks file `id` as gone.
    pub(crate) fn kill_file(&mut self, id: u32)
        requires
            old(self).wf(),
            id < old(self)@.files.len(),
        ensures
            final(self).wf(),
            final(self)@ == (State {
                file_alive: old(self)@.file_alive.update(id as int, false),
                ..old(self)@
            }),
            final(self).contents() == old(self).contents(),
            forall|d: int, f: int, db: int, fb: int| #[trigger]
                final(self).room(d, f, db, fb) == old(self).room(d, f, db, fb),
    {
        let ghost before = *old(self);
        let nb = self.n_base_files();
        if id < nb {
            self.dead_files.set(id as usize);
        } else {
            self.dead_add_files.set((id - nb) as usize);
        }
        proof {
            before.lemma_sound();
            assert(self.only_marks(&before));
            self.lemma_only_marks(&before);
            assert(self@.dir_alive =~= before@.dir_alive);
            assert(self@.file_alive =~= before@.file_alive.update(id as int, false));
        }
    }

    /// Marks directory `id` itself as gone.
    fn kill_dir(&mut self, id: u32)
        requires
            old(self).wf(),
            id < old(self)@.dirs.len(),
        ensures
            final(self).wf(),
            final(self)@ == old(self)@.kill_dir(id),
            final(self).contents() == old(self).contents(),
            forall|d: int, f: int, db: int, fb: int| #[trigger]
                final(self).room(d, f, db, fb) == old(self).room(d, f, db, fb),
    {
        let ghost before = *old(self);
        let nb = self.n_base_dirs();
        if id < nb {
            self.dead_dirs.set(id as usize);
        } else {
            self.dead_add_dirs.set((id - nb) as usize);
        }
        proof {
            before.lemma_sound();
            assert(self.only_marks(&before));
            self.lemma_only_marks(&before);
            assert(self@.file_alive =~= before@.file_alive);
            assert(self@.dir_alive =~= before@.dir_alive.update(id as int, false));
        }
    }

    /// Marks the files `ids` as gone.
    pub(crate) fn kill_files(&mut self, ids: &Vec<u32>)
        requires
            old(self).wf(),
            forall|i: int|
                0 <= i < ids@.len() ==> (#[trigger] ids@[i]) < old(self)@.files.len(),
        ensures
            final(self).wf(),
            final(self)@ == old(self)@.kill_files(ids@),
            final(self)@.dirs == old(self)@.dirs,
            final(self)@.files == old(self)@.files,
            final(self).contents() == old(self).contents(),
            forall|d: int, f: int, db: int, fb: int| #[trigger]
                final(self).room(d, f, db, fb) == old(self).room(d, f, db, fb),
    {
        assert(ids@.take(0) =~= Seq::empty());
        for i in 0..ids.len()
            invariant
                self.wf(),
                forall|i: int|
                    0 <= i < ids@.len() ==> (#[trigger] ids@[i]) < old(self)@.files.len(),
                self@ == old(self)@.kill_files(ids@.take(i as int)),
                self@.dirs == old(self)@.dirs,
                self@.files == old(self)@.files,
                self.contents() == old(self).contents(),
                forall|d: int, f: int, db: int, fb: int| #[trigger]
                    self.room(d, f, db, fb) == old(self).room(d, f, db, fb),
        {
            assert(ids@.take(i + 1).drop_last() =~= ids@.take(i as int));
            self.kill_file(ids[i]);
        }
        assert(ids@.take(ids@.len() as int) =~= ids@);
    }

    /// Marks directory `id` and all below it as gone.
    #[verifier::rlimit(60)]
    pub(crate) fn remove_subtree(&mut self, id: u32)
        requires
            old(self).wf(),
            id < old(self)@.dirs.len(),
        ensures
            final(self).wf(),
            final(self)@ == old(self)@.remove_subtree(id),
            final(self)@.dirs == old(self)@.dirs,
            final(self)@.files == old(self)@.files,
            final(self).contents() == old(self).contents(),
            forall|d: int, f: int, db: int, fb: int| #[trigger]
                final(self).room(d, f, db, fb) == old(self).room(d, f, db, fb),
    {
        let mut stack: Vec<u32> = Vec::new();
        stack.push(id);
        assert(stack@ =~= seq![id]);
        let mut left: usize = REMOVE_LIMIT;
        while stack.len() > 0 && left > 0
            invariant
                self.wf(),
                old(self)@.remove_subtree(id) == self@.sweep(stack@, left as nat),
                forall|i: int| 0 <= i < stack@.len() ==> (#[trigger] stack@[i]) < self@.dirs.len(),
                self@.dirs == old(self)@.dirs,
                self@.files == old(self)@.files,
                self.contents() == old(self).contents(),
                forall|d: int, f: int, db: int, fb: int| #[trigger]
                    self.room(d, f, db, fb) == old(self).room(d, f, db, fb),
            decreases left,
        {
            let ghost s = self@;
            let ghost st = stack@;
            let d = stack[stack.len() - 1];
            stack.pop();
            left -= 1;
            let files = self.files_in_dir(d);
            let mut kids = self.child_dirs(d);
            self.kill_files(&files);
            self.kill_dir(d);
            let ghost k = kids@;
            stack.append(&mut kids);
            proof {
                assert(stack@ =~= st.drop_last() + s.child_dirs(d));
                assert forall|i: int| 0 <= i < stack@.len() implies (#[trigger] stack@[i])
                    < self@.dirs.len() by {
                    if i < st.len() - 1 {
                        assert(st[i] == stack@[i]);
                    } else {
                        assert(k[i - (st.len() - 1)] == stack@[i]);
                    }
                }
            }
        }
    }
}

proof fn lemma_between_none(lo: int, hi: int, p: spec_fn(int) -> bool)
    requires
        forall|i: int| lo <= i < hi ==> !#[trigger] p(i),
    ensures
        between(lo, hi, p) == Seq::<u32>::empty(),
    decreases hi - lo,
{
    if lo < hi {
        lemma_between_none(lo, hi - 1, p);
        assert(!p(hi - 1));
    }
}

impl Clone for Live {
    /// A copy, which shares the snapshot.
    #[verifier::rlimit(60)]
    fn clone(&self) -> (r: Live)
        ensures
            self.wf() ==> r.wf(),
            r@ == self@,
            r.same_tables(self),
            r.contents() == self.contents(),
    {
        let mut ignore_prefixes: Vec<Vec<u8>> = Vec::with_capacity(self.ignore_prefixes.len());
        for i in 0..self.ignore_prefixes.len()
            invariant
                ignore_prefixes@.len() == i,
                forall|k: int| 0 <= k < i ==> ignore_prefixes@[k]@ == self.ignore_prefixes@[k]@,
        {
            ignore_prefixes.push(copy(self.ignore_prefixes[i].as_slice()));
        }
        let r = Live {
            base: Arc::clone(&self.base),
            dead_files: self.dead_files.clone(),
            dead_dirs: self.dead_dirs.clone(),
            add_names: copy(self.add_names.as_slice()),
            add_recs: self.add_recs.clone(),
            add_dir_names: copy(self.add_dir_names.as_slice()),
            add_dir_nodes: self.add_dir_nodes.clone(),
            add_children: self.add_children.clone(),
            add_files: self.add_files.clone(),
            dead_add_files: self.dead_add_files.clone(),
            dead_add_dirs: self.dead_add_dirs.clone(),
            ignore_prefixes,
        };
        proof {
            assert(r.add_recs@ =~= self.add_recs@);
            assert(r.add_dir_nodes@ =~= self.add_dir_nodes@);
            assert(r@.dirs =~= self@.dirs);
            assert(r@.files =~= self@.files);
            assert(r@.dir_alive =~= self@.dir_alive);
            assert(r@.file_alive =~= self@.file_alive);
            assert(r@.ignores =~= self@.ignores);
        }
        r
    }
}

} // verus!
