//! What a live index holds, and what each update does to it.
//!
//! Entries are never moved or renamed: an update marks entries as gone and appends
//! new ones. Ids are therefore stable. The first `base_dirs` directories and
//! `base_files` files are those of the snapshot that the live index began with.

use vstd::prelude::*;

#[allow(unused_imports)]
use crate::bitset::trues;
#[allow(unused_imports)]
use crate::index::{dir_path_of, parent_ok, Contents};
#[allow(unused_imports)]
use crate::pick::{between, picked};
#[allow(unused_imports)]
use crate::query::Parsed;
#[allow(unused_imports)]
use crate::scan::{kept, link_flags, DirItem, FileItem, Listed};
#[allow(unused_imports)]
use crate::search::{dir_hit, file_hit};
#[allow(unused_imports)]
use crate::text::{join, parent_of, within, SLASH};

verus! {

/// How many directories a removal visits at most.
pub const REMOVE_LIMIT: usize = 2_000_000;

/// How many ancestors are tried for a path that is not known.
pub const MAX_ANCESTORS: usize = 64;

/// What a live index holds.
pub ghost struct State {
    /// The path of the root.
    pub root: Seq<u8>,
    pub base_dirs: nat,
    pub base_files: nat,
    /// The directories of the base in the order of their parents.
    pub by_parent: Seq<u32>,
    pub dirs: Seq<DirItem>,
    /// For each directory, whether it is still there.
    pub dir_alive: Seq<bool>,
    pub files: Seq<FileItem>,
    /// For each file, whether it is still there.
    pub file_alive: Seq<bool>,
    /// Events below these paths are ignored.
    pub ignores: Seq<Seq<u8>>,
}

/// The state of a live index that has just been made from a snapshot.
pub open spec fn fresh(c: Contents) -> State {
    State {
        root: c.root,
        base_dirs: c.nodes.len(),
        base_files: c.recs.len(),
        by_parent: c.by_parent,
        dirs: c.dirs(),
        dir_alive: Seq::new(c.nodes.len(), |i: int| true),
        files: c.files(),
        file_alive: Seq::new(c.recs.len(), |i: int| true),
        ignores: Seq::empty(),
    }
}

/// How many entries of each sort a live index has.
pub ghost struct Counts {
    /// Directories that are there.
    pub dirs: nat,
    /// Files that are there.
    pub files: nat,
    /// Entries that were added to the snapshot.
    pub added: nat,
    /// Entries of the snapshot that are gone.
    pub removed: nat,
}

impl State {
    /// How many entries of each sort there are.
    pub open spec fn counts(self) -> Counts {
        Counts {
            dirs: trues(self.dir_alive),
            files: trues(self.file_alive),
            added: ((self.dirs.len() - self.base_dirs) + (self.files.len() - self.base_files)) as nat,
            removed: ((self.base_dirs - trues(self.dir_alive.take(self.base_dirs as int))) + (
            self.base_files - trues(self.file_alive.take(self.base_files as int)))) as nat,
        }
    }

    /// Every entry has its mark, and every parent is a directory or none; of a directory
    /// that was added, one that stood before it.
    pub open spec fn sound(self) -> bool {
        &&& self.base_dirs <= self.dirs.len() < u32::MAX
        &&& self.base_files <= self.files.len() < u32::MAX
        &&& self.dir_alive.len() == self.dirs.len()
        &&& self.file_alive.len() == self.files.len()
        &&& forall|i: int|
            0 <= i < self.dirs.len() ==> parent_ok(
                (#[trigger] self.dirs[i]).parent,
                self.dirs.len() as int,
            )
        &&& forall|i: int|
            self.base_dirs <= i < self.dirs.len() ==> parent_ok(
                (#[trigger] self.dirs[i]).parent,
                i,
            )
        &&& forall|i: int|
            0 <= i < self.files.len() ==> parent_ok(
                (#[trigger] self.files[i]).parent,
                self.dirs.len() as int,
            )
        &&& forall|i: int|
            0 <= i < self.by_parent.len() ==> (#[trigger] self.by_parent[i]) < self.base_dirs
        &&& self.by_parent.no_duplicates()
    }

    // --- looking ---

    /// Directory `id` is there and is a child of `parent`.
    pub open spec fn is_child(self, parent: u32, id: int) -> bool {
        self.dirs[id].parent == parent && self.dir_alive[id]
    }

    /// File `i` is there and lies in `parent`.
    pub open spec fn is_inside(self, parent: u32, i: int) -> bool {
        self.files[i].parent == parent && self.file_alive[i]
    }

    /// Being a child of `parent`, and not `parent` itself.
    pub open spec fn other_child(self, parent: u32) -> spec_fn(u32) -> bool {
        |id: u32| id != parent && self.is_child(parent, id as int)
    }

    /// The subdirectories of `parent` in the base.
    pub open spec fn base_children(self, parent: u32) -> Seq<u32> {
        if parent < self.base_dirs {
            picked(self.by_parent, self.other_child(parent))
        } else {
            Seq::empty()
        }
    }

    /// The subdirectories of `parent` that were added.
    pub open spec fn added_children(self, parent: u32) -> Seq<u32> {
        between(
            self.base_dirs as int,
            self.dirs.len() as int,
            |id: int| self.is_child(parent, id),
        )
    }

    /// The subdirectories of `parent`, those of the base first.
    pub open spec fn child_dirs(self, parent: u32) -> Seq<u32> {
        self.base_children(parent) + self.added_children(parent)
    }

    /// The files of `parent`.
    pub open spec fn files_in_dir(self, parent: u32) -> Seq<u32> {
        between(
            if parent < self.base_dirs {
                0
            } else {
                self.base_files as int
            },
            self.files.len() as int,
            |i: int| self.is_inside(parent, i),
        )
    }

    /// The path of directory `id`.
    pub open spec fn dir_path(self, id: u32) -> Seq<u8> {
        dir_path_of(self.dirs, id)
    }

    /// The path of file `i`.
    pub open spec fn file_path(self, i: int) -> Seq<u8> {
        join(self.dir_path(self.files[i].parent), self.files[i].name)
    }

    /// The directory that `rest` leads to from `cur`, name by name.
    pub open spec fn descend(self, cur: u32, rest: Seq<u8>) -> Option<u32>
        decreases rest.len(),
    {
        if rest.len() == 0 {
            Some(cur)
        } else {
            let k = segment_end(rest, 0);
            let next = if 0 <= k < rest.len() {
                rest.skip(k + 1)
            } else {
                Seq::empty()
            };
            if k <= 0 {
                self.descend(cur, next)
            } else {
                match first_named(self.dirs, self.child_dirs(cur), rest.take(k)) {
                    Some(id) => self.descend(id, next),
                    None => None,
                }
            }
        }
    }

    /// The directory at `path`.
    pub open spec fn lookup(self, path: Seq<u8>) -> Option<u32> {
        if within(self.root, path) {
            self.descend(0, path.skip(self.root.len() as int))
        } else {
            None
        }
    }

    /// The nearest known directory above `path`, within `steps` steps, with its path.
    pub open spec fn ancestor(self, path: Seq<u8>, steps: nat) -> Option<(u32, Seq<u8>)>
        decreases steps,
    {
        match parent_of(path) {
            Some(up) if steps > 0 => match self.lookup(up) {
                Some(id) => Some((id, up)),
                None => self.ancestor(up, (steps - 1) as nat),
            },
            _ => None,
        }
    }

    /// The directory at `path`, or the nearest known one above, with its path.
    pub open spec fn resolve(self, path: Seq<u8>) -> Option<(u32, Seq<u8>)> {
        match self.lookup(path) {
            Some(id) => Some((id, path)),
            None => self.ancestor(path, MAX_ANCESTORS as nat),
        }
    }

    /// Events at `path` are ignored.
    pub open spec fn ignored(self, path: Seq<u8>) -> bool {
        exists|i: int| 0 <= i < self.ignores.len() && (#[trigger] self.ignores[i]).is_prefix_of(path)
    }

    // --- searching ---

    /// The directories that a search finds.
    pub open spec fn dir_hits(self, q: Parsed) -> Seq<u32> {
        if q.is_empty() || !q.dirs() {
            Seq::empty()
        } else {
            between(
                0,
                self.dirs.len() as int,
                |id: int|
                    self.dir_alive[id] && (id >= self.base_dirs || self.dirs[id].name.len() > 0)
                        && dir_hit(self.dirs, q, id),
            )
        }
    }

    /// Being a file that is there and that the query accepts.
    pub open spec fn found(self, q: Parsed) -> spec_fn(int) -> bool {
        |i: int| self.file_alive[i] && file_hit(self.dirs, self.files, q, i)
    }

    /// The files that a search finds.
    pub open spec fn file_hits(self, q: Parsed) -> Seq<u32> {
        if q.is_empty() || !q.files() {
            Seq::empty()
        } else {
            between(0, self.files.len() as int, self.found(q))
        }
    }

    // --- changing ---

    /// With a new directory.
    pub open spec fn push_dir(self, name: Seq<u8>, parent: u32) -> State {
        State {
            dirs: self.dirs.push(DirItem { name: kept(name), parent }),
            dir_alive: self.dir_alive.push(true),
            ..self
        }
    }

    /// With a new file.
    pub open spec fn push_file(self, name: Seq<u8>, parent: u32, is_link: bool) -> State {
        State {
            files: self.files.push(
                FileItem { name: kept(name), parent, flags: link_flags(is_link) },
            ),
            file_alive: self.file_alive.push(true),
            ..self
        }
    }

    /// Without the files `ids`.
    pub open spec fn kill_files(self, ids: Seq<u32>) -> State
        decreases ids.len(),
    {
        if ids.len() == 0 {
            self
        } else {
            let s = self.kill_files(ids.drop_last());
            State { file_alive: s.file_alive.update(ids.last() as int, false), ..s }
        }
    }

    /// Without directory `id` itself.
    pub open spec fn kill_dir(self, id: u32) -> State {
        State { dir_alive: self.dir_alive.update(id as int, false), ..self }
    }

    /// Without the directories on the stack and all below them, visiting `visits`
    /// directories at most. The last of the stack is visited first.
    pub open spec fn sweep(self, stack: Seq<u32>, visits: nat) -> State
        decreases visits,
    {
        if stack.len() == 0 || visits == 0 {
            self
        } else {
            let d = stack.last();
            self.kill_files(self.files_in_dir(d)).kill_dir(d).sweep(
                stack.drop_last() + self.child_dirs(d),
                (visits - 1) as nat,
            )
        }
    }

    /// Without directory `id` and all below it.
    pub open spec fn remove_subtree(self, id: u32) -> State {
        self.sweep(seq![id], REMOVE_LIMIT as nat)
    }

    /// Without the directories `ids` and all below them.
    pub open spec fn remove_subtrees(self, ids: Seq<u32>) -> State
        decreases ids.len(),
    {
        if ids.len() == 0 {
            self
        } else {
            self.remove_subtrees(ids.drop_last()).remove_subtree(ids.last())
        }
    }

    // --- a listing of one directory ---

    /// The name of entry `id`: of a directory, or of a file.
    pub open spec fn name_of(self, is_dir: bool, id: u32) -> Seq<u8> {
        if is_dir {
            self.dirs[id as int].name
        } else {
            self.files[id as int].name
        }
    }

    /// The entries of `dir` that are known: directories, or files.
    pub open spec fn known(self, is_dir: bool, dir: u32) -> Seq<u32> {
        if is_dir {
            self.child_dirs(dir)
        } else {
            self.files_in_dir(dir)
        }
    }

    /// One of `ids` bears the name.
    pub open spec fn bears(self, is_dir: bool, ids: Seq<u32>, name: Seq<u8>) -> bool {
        exists|i: int| 0 <= i < ids.len() && self.name_of(is_dir, #[trigger] ids[i]) == name
    }

    /// Entry `k` of the listing is new: nothing known bears its name, or an earlier
    /// entry has already stood for it.
    pub open spec fn is_new(self, dir: u32, es: Seq<Listed>, k: int) -> bool {
        !self.bears(es[k].is_dir, self.known(es[k].is_dir, dir), es[k].name) || lists(
            es.take(k),
            es[k].is_dir,
            es[k].name,
        )
    }

    /// With the new files among the first `k` entries of the listing.
    pub open spec fn with_new_files(self, dir: u32, es: Seq<Listed>, k: int) -> State
        decreases k,
    {
        if k <= 0 {
            self
        } else {
            let s = self.with_new_files(dir, es, k - 1);
            if !es[k - 1].is_dir && self.is_new(dir, es, k - 1) {
                s.push_file(es[k - 1].name, dir, es[k - 1].is_link)
            } else {
                s
            }
        }
    }

    /// The names of the new directories among the first `k` entries of the listing.
    pub open spec fn new_dirs(self, dir: u32, es: Seq<Listed>, k: int) -> Seq<Seq<u8>>
        decreases k,
    {
        if k <= 0 {
            Seq::empty()
        } else {
            let before = self.new_dirs(dir, es, k - 1);
            if es[k - 1].is_dir && self.is_new(dir, es, k - 1) {
                before.push(es[k - 1].name)
            } else {
                before
            }
        }
    }

    /// The known entries that the listing does not list. Of several that bear one
    /// name, the last stands for it.
    pub open spec fn gone(self, is_dir: bool, dir: u32, es: Seq<Listed>) -> Seq<u32> {
        let ids = self.known(is_dir, dir);
        picked(
            ids,
            |id: u32|
                self.last_bearer(is_dir, ids, self.name_of(is_dir, id)) == Some(id) && !lists(
                    es,
                    is_dir,
                    self.name_of(is_dir, id),
                ),
        )
    }

    /// The last of `ids` that bears the name.
    pub open spec fn last_bearer(self, is_dir: bool, ids: Seq<u32>, name: Seq<u8>) -> Option<u32>
        decreases ids.len(),
    {
        if ids.len() == 0 {
            None
        } else if self.name_of(is_dir, ids.last()) == name {
            Some(ids.last())
        } else {
            self.last_bearer(is_dir, ids.drop_last(), name)
        }
    }

    /// After the contents of `dir` have been listed: new files are there, files and
    /// directories that were not listed are gone. New directories are left to be read.
    pub open spec fn listed(self, dir: u32, es: Seq<Listed>) -> State {
        self.with_new_files(dir, es, es.len() as int).kill_files(
            self.gone(false, dir, es),
        ).remove_subtrees(self.gone(true, dir, es))
    }

    /// After `dir` has been listed, or found to be gone. The root never goes.
    pub open spec fn applied(self, dir: u32, entries: Option<Seq<Listed>>) -> State {
        match entries {
            Some(es) => self.listed(dir, es),
            None => if dir != 0 {
                self.remove_subtree(dir)
            } else {
                self
            },
        }
    }

    // --- a subtree that was read ---

    /// The ids that the first `k` directories of a subtree are given. Directory 0 is
    /// its root; a directory whose parent is not known yet is passed over.
    pub open spec fn graft_ids(self, dirs: Seq<(u32, Seq<u8>)>, k: int) -> Seq<u32>
        decreases k,
    {
        if k <= 0 {
            Seq::empty()
        } else {
            let ids = self.graft_ids(dirs, k - 1);
            if k == 1 || dirs[k - 1].0 < ids.len() {
                ids.push((self.dirs.len() + ids.len()) as u32)
            } else {
                ids
            }
        }
    }

    /// With the first `k` directories of a subtree.
    pub open spec fn graft_dirs(self, parent: u32, dirs: Seq<(u32, Seq<u8>)>, k: int) -> State
        decreases k,
    {
        if k <= 0 {
            self
        } else {
            let s = self.graft_dirs(parent, dirs, k - 1);
            let ids = self.graft_ids(dirs, k - 1);
            let (up, name) = dirs[k - 1];
            if k == 1 {
                s.push_dir(name, parent)
            } else if up < ids.len() {
                s.push_dir(name, ids[up as int])
            } else {
                s
            }
        }
    }

    /// With the first `k` files of a subtree whose directories have the ids `ids`. A
    /// file whose directory is not known is passed over.
    pub open spec fn graft_files(
        self,
        ids: Seq<u32>,
        files: Seq<(u32, Seq<u8>, bool)>,
        k: int,
    ) -> State
        decreases k,
    {
        if k <= 0 {
            self
        } else {
            let s = self.graft_files(ids, files, k - 1);
            let (up, name, is_link) = files[k - 1];
            if up < ids.len() {
                s.push_file(name, ids[up as int], is_link)
            } else {
                s
            }
        }
    }

    /// With a subtree below `parent`.
    pub open spec fn graft(
        self,
        parent: u32,
        dirs: Seq<(u32, Seq<u8>)>,
        files: Seq<(u32, Seq<u8>, bool)>,
    ) -> State {
        self.graft_dirs(parent, dirs, dirs.len() as int).graft_files(
            self.graft_ids(dirs, dirs.len() as int),
            files,
            files.len() as int,
        )
    }

    /// With a subtree in place of directory `id` and all below it.
    pub open spec fn rescan(
        self,
        id: u32,
        dirs: Seq<(u32, Seq<u8>)>,
        files: Seq<(u32, Seq<u8>, bool)>,
    ) -> State {
        self.remove_subtree(id).graft(self.dirs[id as int].parent, dirs, files)
    }
}

/// Where the path segment that starts at `from` ends: at a separator, or at the end.
pub open spec fn segment_end(path: Seq<u8>, from: int) -> int
    decreases path.len() - from,
{
    if from >= path.len() || path[from] == SLASH {
        from
    } else {
        segment_end(path, from + 1)
    }
}

/// The first of `ids` that bears the name.
pub open spec fn first_named(dirs: Seq<DirItem>, ids: Seq<u32>, name: Seq<u8>) -> Option<u32>
    decreases ids.len(),
{
    if ids.len() == 0 {
        None
    } else if dirs[ids[0] as int].name == name {
        Some(ids[0])
    } else {
        first_named(dirs, ids.skip(1), name)
    }
}

/// The listing has an entry of this kind and name.
pub open spec fn lists(es: Seq<Listed>, is_dir: bool, name: Seq<u8>) -> bool {
    exists|k: int| 0 <= k < es.len() && (#[trigger] es[k]).is_dir == is_dir && es[k].name == name
}

} // verus!
