//! Reading a whole subtree, directory by directory.
//!
//! A reader says which directory to list next and takes the listing. Listing is left to
//! the caller, so that it can be done where nobody has to wait for it. A stack takes the
//! place of recursion: new trees may be deep.

use vstd::prelude::*;

use crate::scan::DirEntry;
#[allow(unused_imports)]
use crate::scan::{listed, listing, listing_of, Listed};
use crate::text::{copy, join_path};
#[allow(unused_imports)]
use crate::text::join;
use crate::update::Subtree;
#[allow(unused_imports)]
use crate::update::{dirs_of, files_of};

verus! {

/// How many directories are listed at most.
pub const READ_LIMIT: usize = 200_000;

/// A subtree that is being read.
pub struct Reader {
    tree: Subtree,
    /// Directories that wait to be listed: number and path.
    stack: Vec<(u32, Vec<u8>)>,
    /// How many more may be listed.
    left: usize,
}

/// How far a subtree has been read.
pub ghost struct Progress {
    pub dirs: Seq<(u32, Seq<u8>)>,
    pub files: Seq<(u32, Seq<u8>, bool)>,
    pub stack: Seq<(u32, Seq<u8>)>,
}

/// Every entry names a directory that stands before it.
pub open spec fn tree_ok(dirs: Seq<(u32, Seq<u8>)>, files: Seq<(u32, Seq<u8>, bool)>) -> bool {
    &&& dirs.len() > 0
    &&& forall|i: int| 1 <= i < dirs.len() ==> (#[trigger] dirs[i]).0 < i
    &&& forall|i: int| 0 <= i < files.len() ==> (#[trigger] files[i]).0 < dirs.len()
}

impl Progress {
    /// Every entry, and every directory that waits, names a directory that was found.
    pub open spec fn sound(self) -> bool {
        &&& tree_ok(self.dirs, self.files)
        &&& self.dirs.len() <= u32::MAX
        &&& forall|i: int| 0 <= i < self.stack.len() ==> (#[trigger] self.stack[i]).0 < self.dirs.len()
    }

    /// With one entry more, of the directory `id` at `path`.
    pub open spec fn with_entry(self, id: u32, path: Seq<u8>, e: Listed) -> Progress {
        if e.is_dir {
            Progress {
                dirs: self.dirs.push((id, e.name)),
                stack: self.stack.push((self.dirs.len() as u32, join(path, e.name))),
                ..self
            }
        } else {
            Progress { files: self.files.push((id, e.name, e.is_link)), ..self }
        }
    }

    /// With the entries of the directory `id` at `path`.
    pub open spec fn with_entries(self, id: u32, path: Seq<u8>, es: Seq<Listed>) -> Progress
        decreases es.len(),
    {
        if es.len() == 0 {
            self
        } else {
            self.with_entries(id, path, es.drop_last()).with_entry(id, path, es.last())
        }
    }

    /// With the listing of the directory on top of the stack. One that cannot be listed
    /// stays empty.
    pub open spec fn stepped(self, listing: Option<Seq<Listed>>) -> Progress {
        let (id, path) = self.stack.last();
        let rest = Progress { stack: self.stack.drop_last(), ..self };
        match listing {
            Some(es) => rest.with_entries(id, path, es),
            None => rest,
        }
    }

    /// What is read of a file system in which `fs` lists the directory at a path, when
    /// `left` more directories may be listed.
    pub open spec fn read(self, fs: spec_fn(Seq<u8>) -> Option<Seq<Listed>>, left: nat) -> Progress
        decreases left,
    {
        if self.stack.len() == 0 || left == 0 {
            self
        } else {
            self.stepped(fs(self.stack.last().1)).read(fs, (left - 1) as nat)
        }
    }
}

/// The start of reading the directory `name` at `path`.
pub open spec fn begun(path: Seq<u8>, name: Seq<u8>) -> Progress {
    Progress {
        dirs: seq![(u32::MAX, name)],
        files: Seq::empty(),
        stack: seq![(0u32, path)],
    }
}

proof fn lemma_with_entry(p: Progress, id: u32, path: Seq<u8>, e: Listed)
    requires
        p.sound(),
        id < p.dirs.len(),
        p.dirs.len() < u32::MAX,
    ensures
        p.with_entry(id, path, e).sound(),
{
    let n = p.with_entry(id, path, e);
    if e.is_dir {
        assert forall|i: int| 1 <= i < n.dirs.len() implies (#[trigger] n.dirs[i]).0 < i by {
            if i < p.dirs.len() {
                assert(n.dirs[i] == p.dirs[i]);
            }
        }
        assert forall|i: int| 0 <= i < n.stack.len() implies (#[trigger] n.stack[i]).0
            < n.dirs.len() by {
            if i < p.stack.len() {
                assert(n.stack[i] == p.stack[i]);
            }
        }
    } else {
        assert forall|i: int| 0 <= i < n.files.len() implies (#[trigger] n.files[i]).0
            < n.dirs.len() by {
            if i < p.files.len() {
                assert(n.files[i] == p.files[i]);
            }
        }
    }
}

proof fn lemma_with_entries(p: Progress, id: u32, path: Seq<u8>, es: Seq<Listed>)
    requires
        p.sound(),
        id < p.dirs.len(),
        p.dirs.len() + es.len() <= u32::MAX,
    ensures
        p.with_entries(id, path, es).sound(),
        p.dirs.len() <= p.with_entries(id, path, es).dirs.len() <= p.dirs.len() + es.len(),
    decreases es.len(),
{
    if es.len() > 0 {
        lemma_with_entries(p, id, path, es.drop_last());
        lemma_with_entry(p.with_entries(id, path, es.drop_last()), id, path, es.last());
    }
}

/// However a subtree is read, every entry names a directory that stands before it: one
/// step keeps this.
pub proof fn law_reading_keeps_order(p: Progress, listing: Option<Seq<Listed>>)
    requires
        p.sound(),
        p.stack.len() > 0,
        listing matches Some(es) ==> p.dirs.len() + es.len() <= u32::MAX,
    ensures
        p.stepped(listing).sound(),
{
    let rest = Progress { stack: p.stack.drop_last(), ..p };
    assert forall|i: int| 0 <= i < rest.stack.len() implies (#[trigger] rest.stack[i]).0
        < rest.dirs.len() by {
        assert(rest.stack[i] == p.stack[i]);
    }
    assert(p.stack[p.stack.len() - 1] == p.stack.last());
    if let Some(es) = listing {
        lemma_with_entries(rest, p.stack.last().0, p.stack.last().1, es);
    }
}

// --- what a whole reading holds ---

/// The names of the directories that were found in the directory `id`.
pub open spec fn dirs_under(dirs: Seq<(u32, Seq<u8>)>, id: u32) -> Seq<Seq<u8>>
    decreases dirs.len(),
{
    if dirs.len() == 0 {
        Seq::empty()
    } else {
        let before = dirs_under(dirs.drop_last(), id);
        if dirs.last().0 == id {
            before.push(dirs.last().1)
        } else {
            before
        }
    }
}

/// The files that were found in the directory `id`: name, and whether it is a link.
pub open spec fn files_under(files: Seq<(u32, Seq<u8>, bool)>, id: u32) -> Seq<(Seq<u8>, bool)>
    decreases files.len(),
{
    if files.len() == 0 {
        Seq::empty()
    } else {
        let before = files_under(files.drop_last(), id);
        if files.last().0 == id {
            before.push((files.last().1, files.last().2))
        } else {
            before
        }
    }
}

/// The names of the directories among the entries of a listing.
pub open spec fn subdirs(es: Seq<Listed>) -> Seq<Seq<u8>>
    decreases es.len(),
{
    if es.len() == 0 {
        Seq::empty()
    } else {
        let before = subdirs(es.drop_last());
        if es.last().is_dir {
            before.push(es.last().name)
        } else {
            before
        }
    }
}

/// The entries of a listing that are not directories: name, and whether it is a link.
pub open spec fn others(es: Seq<Listed>) -> Seq<(Seq<u8>, bool)>
    decreases es.len(),
{
    if es.len() == 0 {
        Seq::empty()
    } else {
        let before = others(es.drop_last());
        if es.last().is_dir {
            before
        } else {
            before.push((es.last().name, es.last().is_link))
        }
    }
}

/// The path of directory `i` of a subtree that lies at `root`.
pub open spec fn path_at(dirs: Seq<(u32, Seq<u8>)>, root: Seq<u8>, i: int) -> Seq<u8>
    decreases i,
{
    if i <= 0 || dirs[i].0 >= i {
        root
    } else {
        join(path_at(dirs, root, dirs[i].0 as int), dirs[i].1)
    }
}

/// What a listing lists; nothing where there is none.
pub open spec fn entries_of(listing: Option<Seq<Listed>>) -> Seq<Listed> {
    match listing {
        Some(es) => es,
        None => Seq::empty(),
    }
}

impl Progress {
    /// Directory `i` waits to be listed.
    pub open spec fn waits(self, i: int) -> bool {
        exists|k: int| 0 <= k < self.stack.len() && (#[trigger] self.stack[k]).0 == i
    }

    /// What was found in directory `i` are the entries `es`: each once, in their order, and
    /// nothing else.
    pub open spec fn holds(self, i: int, es: Seq<Listed>) -> bool {
        dirs_under(self.dirs, i as u32) == subdirs(es) && files_under(self.files, i as u32)
            == others(es)
    }

    /// What was to be found in directory `i` so far: the entries that `fs` lists at its path,
    /// nothing where it still waits to be listed.
    pub open spec fn due(
        self,
        fs: spec_fn(Seq<u8>) -> Option<Seq<Listed>>,
        root: Seq<u8>,
        i: int,
    ) -> Seq<Listed> {
        if self.waits(i) {
            Seq::empty()
        } else {
            entries_of(fs(path_at(self.dirs, root, i)))
        }
    }

    spec fn due_but(
        self,
        fs: spec_fn(Seq<u8>) -> Option<Seq<Listed>>,
        root: Seq<u8>,
        now: int,
        es: Seq<Listed>,
        i: int,
    ) -> Seq<Listed> {
        if i == now {
            es
        } else {
            self.due(fs, root, i)
        }
    }

    /// All that was found is accounted for, but for directory `now`, of which the entries
    /// `es` have been taken.
    spec fn accounted(
        self,
        fs: spec_fn(Seq<u8>) -> Option<Seq<Listed>>,
        root: Seq<u8>,
        now: int,
        es: Seq<Listed>,
    ) -> bool {
        &&& self.sound()
        &&& self.dirs[0].0 == u32::MAX
        &&& forall|k: int|
            0 <= k < self.stack.len() ==> (#[trigger] self.stack[k]).1 == path_at(
                self.dirs,
                root,
                self.stack[k].0 as int,
            )
        &&& forall|j: int, k: int|
            0 <= j < k < self.stack.len() ==> (#[trigger] self.stack[j]).0 != (
            #[trigger] self.stack[k]).0
        &&& !self.waits(now)
        &&& forall|i: int|
            0 <= i < self.dirs.len() ==> #[trigger] self.holds(i, self.due_but(fs, root, now, es, i))
    }
}

proof fn lemma_path_at(dirs: Seq<(u32, Seq<u8>)>, d: (u32, Seq<u8>), root: Seq<u8>, i: int)
    requires
        i < dirs.len(),
    ensures
        path_at(dirs.push(d), root, i) == path_at(dirs, root, i),
    decreases i,
{
    if i > 0 && dirs[i].0 < i {
        lemma_path_at(dirs, d, root, dirs[i].0 as int);
    }
}

proof fn lemma_nothing_under(dirs: Seq<(u32, Seq<u8>)>, files: Seq<(u32, Seq<u8>, bool)>, id: u32)
    requires
        forall|i: int| 0 <= i < dirs.len() ==> (#[trigger] dirs[i]).0 != id,
        forall|i: int| 0 <= i < files.len() ==> (#[trigger] files[i]).0 != id,
    ensures
        dirs_under(dirs, id).len() == 0,
        files_under(files, id).len() == 0,
    decreases dirs.len() + files.len(),
{
    if dirs.len() > 0 {
        let front = dirs.drop_last();
        assert forall|i: int| 0 <= i < front.len() implies (#[trigger] front[i]).0 != id by {
            assert(front[i] == dirs[i]);
        }
        assert(dirs[dirs.len() - 1].0 != id);
        lemma_nothing_under(front, files, id);
    } else if files.len() > 0 {
        let front = files.drop_last();
        assert forall|i: int| 0 <= i < front.len() implies (#[trigger] front[i]).0 != id by {
            assert(front[i] == files[i]);
        }
        assert(files[files.len() - 1].0 != id);
        lemma_nothing_under(dirs, front, id);
    }
}

/// One entry more.
#[verifier::rlimit(60)]
proof fn lemma_entry_accounted(
    p: Progress,
    fs: spec_fn(Seq<u8>) -> Option<Seq<Listed>>,
    root: Seq<u8>,
    id: u32,
    es: Seq<Listed>,
    e: Listed,
)
    requires
        p.accounted(fs, root, id as int, es),
        id < p.dirs.len(),
        p.dirs.len() < u32::MAX || !e.is_dir,
    ensures
        p.with_entry(id, path_at(p.dirs, root, id as int), e).accounted(
            fs,
            root,
            id as int,
            es.push(e),
        ),
{
    let path = path_at(p.dirs, root, id as int);
    let q = p.with_entry(id, path, e);
    let n = p.dirs.len() as int;
    assert(es.push(e).drop_last() =~= es);
    if e.is_dir {
        let d = (id, e.name);
        assert(q.dirs.drop_last() =~= p.dirs);
        lemma_with_entry(p, id, path, e);
        assert forall|k: int| 0 <= k < q.stack.len() implies (#[trigger] q.stack[k]).1 == path_at(
            q.dirs,
            root,
            q.stack[k].0 as int,
        ) by {
            if k < p.stack.len() {
                assert(q.stack[k] == p.stack[k]);
                lemma_path_at(p.dirs, d, root, p.stack[k].0 as int);
            } else {
                lemma_path_at(p.dirs, d, root, id as int);
            }
        }
        assert forall|j: int, k: int| 0 <= j < k < q.stack.len() implies (#[trigger] q.stack[j]).0
            != (#[trigger] q.stack[k]).0 by {
            assert(q.stack[j] == p.stack[j]);
            if k < p.stack.len() {
                assert(q.stack[k] == p.stack[k]);
            }
        }
        assert forall|i: int| 0 <= i < n implies #[trigger] q.waits(i) == p.waits(i) by {
            if p.waits(i) {
                let k = choose|k: int| 0 <= k < p.stack.len() && (#[trigger] p.stack[k]).0 == i;
                assert(q.stack[k].0 == i);
            }
            if q.waits(i) {
                let k = choose|k: int| 0 <= k < q.stack.len() && (#[trigger] q.stack[k]).0 == i;
                assert(k < p.stack.len());
                assert(p.stack[k].0 == i);
            }
        }
        assert(q.stack[p.stack.len() as int].0 == n);
        assert(q.waits(n));
        assert forall|i: int| 0 <= i < q.dirs.len() implies #[trigger] q.holds(
            i,
            q.due_but(fs, root, id as int, es.push(e), i),
        ) by {
            if i < n {
                lemma_path_at(p.dirs, d, root, i);
                assert(q.waits(i) == p.waits(i));
                assert(p.holds(i, p.due_but(fs, root, id as int, es, i)));
            } else {
                assert forall|k: int| 0 <= k < q.dirs.len() implies (#[trigger] q.dirs[k]).0
                    != n as u32 by {
                    if 1 <= k < n {
                        assert(p.dirs[k].0 < k);
                    }
                }
                lemma_nothing_under(q.dirs, q.files, n as u32);
                assert(dirs_under(q.dirs, n as u32) =~= Seq::empty());
                assert(files_under(q.files, n as u32) =~= Seq::empty());
            }
        }
    } else {
        assert(q.files.drop_last() =~= p.files);
        assert(q.stack == p.stack);
        assert forall|i: int| 0 <= i < q.files.len() implies (#[trigger] q.files[i]).0
            < q.dirs.len() by {
            if i < p.files.len() {
                assert(q.files[i] == p.files[i]);
            }
        }
        assert forall|i: int| #[trigger] q.waits(i) == p.waits(i) by {}
        assert forall|i: int| 0 <= i < q.dirs.len() implies #[trigger] q.holds(
            i,
            q.due_but(fs, root, id as int, es.push(e), i),
        ) by {
            assert(p.holds(i, p.due_but(fs, root, id as int, es, i)));
        }
    }
}

proof fn lemma_entries_grow(p: Progress, id: u32, path: Seq<u8>, es: Seq<Listed>)
    ensures
        ({
            let q = p.with_entries(id, path, es);
            &&& p.dirs.len() <= q.dirs.len()
            &&& q.dirs.len() - q.stack.len() == p.dirs.len() - p.stack.len()
        }),
    decreases es.len(),
{
    if es.len() > 0 {
        lemma_entries_grow(p, id, path, es.drop_last());
    }
}

/// The entries of one directory.
proof fn lemma_entries_accounted(
    p: Progress,
    fs: spec_fn(Seq<u8>) -> Option<Seq<Listed>>,
    root: Seq<u8>,
    id: u32,
    path: Seq<u8>,
    es: Seq<Listed>,
)
    requires
        p.accounted(fs, root, id as int, Seq::empty()),
        id < p.dirs.len(),
        path == path_at(p.dirs, root, id as int),
        p.with_entries(id, path, es).dirs.len() <= u32::MAX,
    ensures
        p.with_entries(id, path, es).accounted(fs, root, id as int, es),
        path == path_at(p.with_entries(id, path, es).dirs, root, id as int),
    decreases es.len(),
{
    if es.len() == 0 {
        assert(es =~= Seq::empty());
    } else {
        let front = es.drop_last();
        let q = p.with_entries(id, path, front);
        lemma_entries_grow(p, id, path, front);
        lemma_entries_accounted(p, fs, root, id, path, front);
        lemma_entry_accounted(q, fs, root, id, front, es.last());
        lemma_path_at(q.dirs, (id, es.last().name), root, id as int);
        assert(front.push(es.last()) =~= es);
    }
}

/// One directory.
#[verifier::rlimit(60)]
proof fn lemma_step_accounted(
    p: Progress,
    fs: spec_fn(Seq<u8>) -> Option<Seq<Listed>>,
    root: Seq<u8>,
)
    requires
        p.accounted(fs, root, -1, Seq::empty()),
        p.stack.len() > 0,
        p.stepped(fs(p.stack.last().1)).dirs.len() <= u32::MAX,
    ensures
        p.stepped(fs(p.stack.last().1)).accounted(fs, root, -1, Seq::empty()),
{
    let top = p.stack.len() - 1;
    let (id, path) = p.stack.last();
    assert(p.stack[top] == (id, path));
    let rest = Progress { stack: p.stack.drop_last(), ..p };
    let none = Seq::<Listed>::empty();
    let es = entries_of(fs(path));
    assert forall|k: int| 0 <= k < rest.stack.len() implies (#[trigger] rest.stack[k])
        == p.stack[k] && rest.stack[k].0 != id by {
        assert(p.stack[k].0 != p.stack[top].0);
    }
    assert(!rest.waits(id as int));
    assert forall|i: int| i != id implies #[trigger] rest.waits(i) == p.waits(i) by {
        if p.waits(i) {
            let k = choose|k: int| 0 <= k < p.stack.len() && (#[trigger] p.stack[k]).0 == i;
            assert(k < top);
            assert(rest.stack[k].0 == i);
        }
        if rest.waits(i) {
            let k = choose|k: int| 0 <= k < rest.stack.len() && (#[trigger] rest.stack[k]).0 == i;
            assert(p.stack[k].0 == i);
        }
    }
    assert(rest.accounted(fs, root, id as int, none)) by {
        assert forall|i: int| 0 <= i < rest.dirs.len() implies #[trigger] rest.holds(
            i,
            rest.due_but(fs, root, id as int, none, i),
        ) by {
            assert(p.waits(id as int));
            assert(p.holds(i, p.due_but(fs, root, -1, none, i)));
        }
    }
    let q = p.stepped(fs(path));
    assert(q == rest.with_entries(id, path, es));
    lemma_entries_accounted(rest, fs, root, id, path, es);
    assert(!q.waits(-1));
    assert forall|i: int| 0 <= i < q.dirs.len() implies #[trigger] q.holds(
        i,
        q.due_but(fs, root, -1, none, i),
    ) by {
        assert(q.holds(i, q.due_but(fs, root, id as int, es, i)));
    }
}

proof fn lemma_read_grows(p: Progress, fs: spec_fn(Seq<u8>) -> Option<Seq<Listed>>, left: nat)
    ensures
        ({
            let q = p.read(fs, left);
            &&& p.dirs.len() <= q.dirs.len()
            &&& q.stack.len() > 0 ==> q.dirs.len() - q.stack.len() == p.dirs.len() - p.stack.len()
                + left
        }),
    decreases left,
{
    if p.stack.len() > 0 && left > 0 {
        let (id, path) = p.stack.last();
        let rest = Progress { stack: p.stack.drop_last(), ..p };
        if let Some(es) = fs(path) {
            lemma_entries_grow(rest, id, path, es);
        }
        lemma_read_grows(p.stepped(fs(path)), fs, (left - 1) as nat);
    }
}

proof fn lemma_read_accounted(
    p: Progress,
    fs: spec_fn(Seq<u8>) -> Option<Seq<Listed>>,
    root: Seq<u8>,
    left: nat,
)
    requires
        p.accounted(fs, root, -1, Seq::empty()),
        p.read(fs, left).dirs.len() <= u32::MAX,
    ensures
        p.read(fs, left).accounted(fs, root, -1, Seq::empty()),
    decreases left,
{
    if p.stack.len() > 0 && left > 0 {
        let q = p.stepped(fs(p.stack.last().1));
        lemma_read_grows(q, fs, (left - 1) as nat);
        lemma_step_accounted(p, fs, root);
        lemma_read_accounted(q, fs, root, (left - 1) as nat);
    }
}

/// Taking the listings that `fs` gives, of one directory after the other until none is to
/// be listed, ends in what `read` says: each step keeps it, and it is reached where there
/// is no step left.
pub proof fn law_taking_listings_is_reading(
    p: Progress,
    fs: spec_fn(Seq<u8>) -> Option<Seq<Listed>>,
    left: nat,
)
    ensures
        p.stack.len() > 0 && left > 0 ==> p.stepped(fs(p.stack.last().1)).read(
            fs,
            (left - 1) as nat,
        ) == p.read(fs, left),
        p.stack.len() == 0 || left == 0 ==> p.read(fs, left) == p,
{
}

/// Reading a subtree finds what is there. Of every directory that was listed it holds the
/// entries of the listing, each once and under that directory, and nothing else; a
/// directory that could not be listed stays empty, and so does one that still waits. None
/// waits where no more directories are there than may be listed.
#[verifier::rlimit(60)]
pub proof fn law_reading_finds_what_is_there(
    fs: spec_fn(Seq<u8>) -> Option<Seq<Listed>>,
    path: Seq<u8>,
    name: Seq<u8>,
    left: nat,
)
    requires
        begun(path, name).read(fs, left).dirs.len() <= u32::MAX,
    ensures
        ({
            let p = begun(path, name).read(fs, left);
            &&& tree_ok(p.dirs, p.files)
            &&& forall|i: int|
                0 <= i < p.dirs.len() ==> #[trigger] p.holds(i, p.due(fs, path, i))
            &&& p.dirs.len() <= left ==> forall|i: int| !p.waits(i)
        }),
{
    let b = begun(path, name);
    let none = Seq::<Listed>::empty();
    assert(b.stack[0].0 == 0);
    assert(b.waits(0));
    assert(b.accounted(fs, path, -1, none)) by {
        lemma_nothing_under(b.dirs, b.files, 0);
        assert(dirs_under(b.dirs, 0) =~= Seq::empty());
        assert(files_under(b.files, 0) =~= Seq::empty());
        assert(b.holds(0, none));
    }
    lemma_read_accounted(b, fs, path, left);
    lemma_read_grows(b, fs, left);
    let p = b.read(fs, left);
    assert forall|i: int| 0 <= i < p.dirs.len() implies #[trigger] p.holds(i, p.due(fs, path, i)) by {
        assert(p.holds(i, p.due_but(fs, path, -1, none, i)));
    }
}

impl View for Reader {
    type V = Progress;

    closed spec fn view(&self) -> Progress {
        Progress {
            dirs: dirs_of(self.tree),
            files: files_of(self.tree),
            stack: self.stack@.map_values(|d: (u32, Vec<u8>)| (d.0, d.1@)),
        }
    }
}

impl Reader {
    /// How many more directories may be listed.
    pub closed spec fn left(&self) -> nat {
        self.left as nat
    }

    /// Starts to read the directory `root_name` at `root_path`.
    pub fn new(root_path: &[u8], root_name: &[u8]) -> (r: Reader)
        ensures
            r@ == begun(root_path@, root_name@),
            r@.sound(),
            r.left() == READ_LIMIT,
    {
        let mut dirs: Vec<(u32, Vec<u8>)> = Vec::new();
        dirs.push((u32::MAX, copy(root_name)));
        let mut stack: Vec<(u32, Vec<u8>)> = Vec::new();
        stack.push((0, copy(root_path)));
        let files: Vec<(u32, Vec<u8>, bool)> = Vec::new();
        proof {
            let p = begun(root_path@, root_name@);
            assert(dirs@.map_values(|d: (u32, Vec<u8>)| (d.0, d.1@)) =~= p.dirs);
            assert(files@.map_values(|f: (u32, Vec<u8>, bool)| (f.0, f.1@, f.2)) =~= p.files);
            assert(stack@.map_values(|d: (u32, Vec<u8>)| (d.0, d.1@)) =~= p.stack);
        }
        Reader { tree: Subtree { dirs, files }, stack, left: READ_LIMIT }
    }

    /// The path of the directory to be listed next, `None` when there is none, or when
    /// enough have been listed.
    pub fn next(&self) -> (r: Option<&[u8]>)
        ensures
            match r {
                Some(p) => self@.stack.len() > 0 && self.left() > 0 && p@ == self@.stack.last().1,
                None => self@.stack.len() == 0 || self.left() == 0,
            },
    {
        let n = self.stack.len();
        if n == 0 || self.left == 0 {
            None
        } else {
            Some(self.stack[n - 1].1.as_slice())
        }
    }

    /// How many directories have been found.
    pub fn dirs_found(&self) -> (r: usize)
        ensures
            r == self@.dirs.len(),
    {
        self.tree.dirs.len()
    }

    /// Takes the listing of the directory that was to be listed next, `None` where it
    /// could not be listed.
    #[verifier::rlimit(60)]
    pub fn take(&mut self, entries: Option<Vec<DirEntry>>)
        requires
            old(self)@.sound(),
            old(self)@.stack.len() > 0,
            old(self).left() > 0,
            entries matches Some(es) ==> old(self)@.dirs.len() + es@.len() <= u32::MAX,
        ensures
            final(self)@.sound(),
            final(self)@ == old(self)@.stepped(listing_of(entries)),
            final(self).left() == old(self).left() - 1,
    {
        let ghost p = self@;
        let ghost what = listing_of(entries);
        let top = self.stack.len() - 1;
        let id = self.stack[top].0;
        let path = copy(self.stack[top].1.as_slice());
        self.stack.truncate(top);
        self.left -= 1;
        let ghost rest = Progress { stack: p.stack.drop_last(), ..p };
        proof {
            assert(self@.stack =~= rest.stack);
            law_reading_keeps_order(p, what);
        }
        if let Some(es) = entries {
            let ghost all = listing(es@);
            assert(all.take(0) =~= Seq::empty());
            for k in 0..es.len()
                invariant
                    all == listing(es@),
                    rest.dirs.len() + all.len() <= u32::MAX,
                    self@ == rest.with_entries(id, path@, all.take(k as int)),
                    self@.dirs.len() <= rest.dirs.len() + k,
                    self.left() == old(self).left() - 1,
            {
                let e = &es[k];
                let ghost before = self@;
                proof {
                    assert(all[k as int] == listed(*e));
                    assert(all.take(k + 1).drop_last() =~= all.take(k as int));
                    assert(all.take(k + 1).last() == listed(*e));
                }
                let ghost next = before.with_entry(id, path@, listed(*e));
                if e.1 {
                    let number = self.tree.dirs.len() as u32;
                    self.tree.dirs.push((id, copy(e.0.as_slice())));
                    self.stack.push((number, join_path(path.as_slice(), e.0.as_slice())));
                } else {
                    self.tree.files.push((id, copy(e.0.as_slice()), e.2));
                }
                proof {
                    assert(self@.dirs =~= next.dirs);
                    assert(self@.files =~= next.files);
                    assert(self@.stack =~= next.stack);
                }
            }
            assert(all.take(all.len() as int) =~= all);
        }
    }

    /// What was read.
    pub fn finish(self) -> (r: Subtree)
        requires
            self@.sound(),
        ensures
            dirs_of(r) == self@.dirs,
            files_of(r) == self@.files,
            tree_ok(dirs_of(r), files_of(r)),
    {
        self.tree
    }
}

/// Paths of what is read are made of names, from the root down.
pub proof fn law_paths_are_read_from_the_root(dirs: Seq<(u32, Seq<u8>)>, root: Seq<u8>, i: int)
    requires
        1 <= i < dirs.len(),
        dirs[i].0 < i,
    ensures
        path_at(dirs, root, 0) == root,
        path_at(dirs, root, i) == join(path_at(dirs, root, dirs[i].0 as int), dirs[i].1),
{
}

proof fn lemma_subdir_is_one(es: Seq<Listed>, k: int)
    requires
        0 <= k < es.len(),
    ensures
        es[k].is_dir ==> subdirs(es).contains(es[k].name),
        !es[k].is_dir ==> others(es).contains((es[k].name, es[k].is_link)),
    decreases es.len(),
{
    let front = es.drop_last();
    if k < front.len() {
        lemma_subdir_is_one(front, k);
        if es[k].is_dir {
            let i = choose|i: int| 0 <= i < subdirs(front).len() && subdirs(front)[i] == es[k].name;
            assert(subdirs(es)[i] == es[k].name);
        } else {
            let x = (es[k].name, es[k].is_link);
            let i = choose|i: int| 0 <= i < others(front).len() && others(front)[i] == x;
            assert(others(es)[i] == x);
        }
    } else if es[k].is_dir {
        assert(subdirs(es).last() == es[k].name);
    } else {
        assert(others(es).last() == (es[k].name, es[k].is_link));
    }
}

proof fn lemma_entry_under(
    dirs: Seq<(u32, Seq<u8>)>,
    files: Seq<(u32, Seq<u8>, bool)>,
    id: u32,
    name: Seq<u8>,
    link: bool,
)
    ensures
        dirs_under(dirs, id).contains(name) ==> dirs.contains((id, name)),
        files_under(files, id).contains((name, link)) ==> files.contains((id, name, link)),
    decreases dirs.len() + files.len(),
{
    let x = (name, link);
    if dirs.len() > 0 {
        let front = dirs.drop_last();
        lemma_entry_under(front, files, id, name, link);
        if dirs_under(dirs, id).contains(name) {
            let i = choose|i: int|
                0 <= i < dirs_under(dirs, id).len() && dirs_under(dirs, id)[i] == name;
            if i < dirs_under(front, id).len() {
                assert(dirs_under(front, id)[i] == name);
                let j = choose|j: int| 0 <= j < front.len() && front[j] == (id, name);
                assert(dirs[j] == (id, name));
            } else {
                assert(dirs[dirs.len() - 1] == (id, name));
            }
        }
    }
    if files.len() > 0 {
        let front = files.drop_last();
        lemma_entry_under(dirs, front, id, name, link);
        if files_under(files, id).contains(x) {
            let i = choose|i: int|
                0 <= i < files_under(files, id).len() && files_under(files, id)[i] == x;
            if i < files_under(front, id).len() {
                assert(files_under(front, id)[i] == x);
                let j = choose|j: int| 0 <= j < front.len() && front[j] == (id, name, link);
                assert(files[j] == (id, name, link));
            } else {
                assert(files[files.len() - 1] == (id, name, link));
            }
        }
    }
}

proof fn lemma_under_entry(dirs: Seq<(u32, Seq<u8>)>, files: Seq<(u32, Seq<u8>, bool)>, j: int)
    ensures
        0 <= j < dirs.len() ==> dirs_under(dirs, dirs[j].0).contains(dirs[j].1),
        0 <= j < files.len() ==> files_under(files, files[j].0).contains((files[j].1, files[j].2)),
    decreases dirs.len() + files.len(),
{
    if dirs.len() > 0 && 0 <= j < dirs.len() {
        let front = dirs.drop_last();
        let id = dirs[j].0;
        lemma_under_entry(front, files, j);
        if j < front.len() {
            let i = choose|i: int|
                0 <= i < dirs_under(front, id).len() && dirs_under(front, id)[i] == dirs[j].1;
            assert(dirs_under(dirs, id)[i] == dirs[j].1);
        } else {
            assert(dirs_under(dirs, id).last() == dirs[j].1);
        }
    }
    if files.len() > 0 && 0 <= j < files.len() {
        let front = files.drop_last();
        let id = files[j].0;
        let x = (files[j].1, files[j].2);
        lemma_under_entry(dirs, front, j);
        if j < front.len() {
            let i = choose|i: int|
                0 <= i < files_under(front, id).len() && files_under(front, id)[i] == x;
            assert(files_under(files, id)[i] == x);
        } else {
            assert(files_under(files, id).last() == x);
        }
    }
}

proof fn lemma_one_is_subdir(es: Seq<Listed>, name: Seq<u8>, link: bool)
    ensures
        subdirs(es).contains(name) ==> exists|k: int|
            0 <= k < es.len() && (#[trigger] es[k]).is_dir && es[k].name == name,
        others(es).contains((name, link)) ==> exists|k: int|
            0 <= k < es.len() && !(#[trigger] es[k]).is_dir && es[k].name == name && es[k].is_link
                == link,
    decreases es.len(),
{
    let x = (name, link);
    if es.len() > 0 {
        let front = es.drop_last();
        let n = es.len() - 1;
        lemma_one_is_subdir(front, name, link);
        if subdirs(es).contains(name) {
            let i = choose|i: int| 0 <= i < subdirs(es).len() && subdirs(es)[i] == name;
            if i < subdirs(front).len() {
                assert(subdirs(front)[i] == name);
                let k = choose|k: int|
                    0 <= k < front.len() && (#[trigger] front[k]).is_dir && front[k].name == name;
                assert(es[k].is_dir);
            } else {
                assert(es[n].is_dir);
            }
        }
        if others(es).contains(x) {
            let i = choose|i: int| 0 <= i < others(es).len() && others(es)[i] == x;
            if i < others(front).len() {
                assert(others(front)[i] == x);
                let k = choose|k: int|
                    0 <= k < front.len() && !(#[trigger] front[k]).is_dir && front[k].name == name
                        && front[k].is_link == link;
                assert(!es[k].is_dir);
            } else {
                assert(!es[n].is_dir);
            }
        }
    }
}

/// Where no more directories are there than may be listed, all is read: every entry that the
/// file system lists in a directory that was read is there, in that directory and as what it
/// was listed, and nothing is that was not listed.
#[verifier::rlimit(60)]
pub proof fn law_all_entries_are_read(
    fs: spec_fn(Seq<u8>) -> Option<Seq<Listed>>,
    path: Seq<u8>,
    name: Seq<u8>,
    left: nat,
    i: int,
    k: int,
)
    requires
        begun(path, name).read(fs, left).dirs.len() <= left,
        left < u32::MAX,
        0 <= i < begun(path, name).read(fs, left).dirs.len(),
    ensures
        ({
            let p = begun(path, name).read(fs, left);
            let listing = fs(path_at(p.dirs, path, i));
            &&& p.dirs[0] == (u32::MAX, name)
            &&& listing matches Some(es) ==> {
                &&& 0 <= k < es.len() && es[k].is_dir ==> p.dirs.contains((i as u32, es[k].name))
                &&& 0 <= k < es.len() && !es[k].is_dir ==> p.files.contains(
                    (i as u32, es[k].name, es[k].is_link),
                )
                &&& 0 <= k < p.dirs.len() && p.dirs[k].0 == i ==> exists|j: int|
                    0 <= j < es.len() && (#[trigger] es[j]).is_dir && es[j].name == p.dirs[k].1
                &&& 0 <= k < p.files.len() && p.files[k].0 == i ==> exists|j: int|
                    0 <= j < es.len() && !(#[trigger] es[j]).is_dir && es[j].name == p.files[k].1
                        && es[j].is_link == p.files[k].2
            }
            &&& listing is None ==> (0 <= k < p.dirs.len() ==> p.dirs[k].0 != i) && (0 <= k
                < p.files.len() ==> p.files[k].0 != i)
        }),
{
    let p = begun(path, name).read(fs, left);
    law_reading_finds_what_is_there(fs, path, name, left);
    lemma_read_keeps_first(begun(path, name), fs, left);
    let es = p.due(fs, path, i);
    assert(!p.waits(i));
    assert(p.holds(i, es));
    assert(es == entries_of(fs(path_at(p.dirs, path, i))));
    if 0 <= k < es.len() {
        lemma_subdir_is_one(es, k);
        lemma_entry_under(p.dirs, p.files, i as u32, es[k].name, es[k].is_link);
    }
    lemma_under_entry(p.dirs, p.files, k);
    if 0 <= k < p.dirs.len() && p.dirs[k].0 == i {
        lemma_one_is_subdir(es, p.dirs[k].1, false);
    }
    if 0 <= k < p.files.len() && p.files[k].0 == i {
        lemma_one_is_subdir(es, p.files[k].1, p.files[k].2);
    }
}

proof fn lemma_entries_keep_first(p: Progress, id: u32, path: Seq<u8>, es: Seq<Listed>)
    requires
        p.dirs.len() > 0,
    ensures
        p.with_entries(id, path, es).dirs.len() > 0,
        p.with_entries(id, path, es).dirs[0] == p.dirs[0],
    decreases es.len(),
{
    if es.len() > 0 {
        lemma_entries_keep_first(p, id, path, es.drop_last());
    }
}

pub proof fn lemma_read_keeps_first(p: Progress, fs: spec_fn(Seq<u8>) -> Option<Seq<Listed>>, left: nat)
    requires
        p.dirs.len() > 0,
    ensures
        p.read(fs, left).dirs.len() > 0,
        p.read(fs, left).dirs[0] == p.dirs[0],
    decreases left,
{
    if p.stack.len() > 0 && left > 0 {
        let (id, path) = p.stack.last();
        let rest = Progress { stack: p.stack.drop_last(), ..p };
        match fs(path) {
            Some(es) => lemma_entries_keep_first(rest, id, path, es),
            None => {},
        }
        lemma_read_keeps_first(p.stepped(fs(path)), fs, (left - 1) as nat);
    }
}

/// Reading a subtree lists two hundred thousand directories at most.
pub proof fn law_reading_is_bounded()
    ensures
        READ_LIMIT == 200_000,
{
}

} // verus!
