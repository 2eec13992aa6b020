//! The two tables of a scan.
//!
//! Directories are few. Each has an id and the id of its parent, so they form a
//! tree, and a full path is put together by climbing it. Files are many; each
//! records the id of its directory. Both keep their names in byte arenas.
//!
//! Workers fill tables of their own. Directory ids are handed out in batches from
//! one counter, so ids are valid across workers, and merging only copies nodes to
//! their places.

use vstd::prelude::*;
use vstd::slice::slice_subrange;

use crate::ffi::{rd_i32, rd_u32, Layout, OFF_NAME_REF, OFF_OBJTYPE, VDIR, VLNK, VREG};
use crate::text::{copy, extend, join_path, SLASH};
#[allow(unused_imports)]
use crate::bytes::{lemma_u32_at, signed32, u32_at};
#[allow(unused_imports)]
use crate::text::{join, law_joining_puts_one_separator};
#[allow(unused_imports)]
use vstd::bytes::spec_u32_to_le_bytes;

verus! {

/// A directory. Its name lies in the arena of its table.
#[derive(Clone, Copy, PartialEq, Eq, Debug, Structural)]
pub struct DirNode {
    pub name_off: u32,
    /// Id of the parent; `u32::MAX` for the root.
    pub parent: u32,
    pub name_len: u16,
    pub _pad: u16,
}

impl Default for DirNode {
    fn default() -> (r: DirNode)
        ensures
            r == unused_node(),
    {
        DirNode { name_off: 0, parent: u32::MAX, name_len: 0, _pad: 0 }
    }
}

/// A file. Its name lies in the arena of its table.
#[derive(Clone, Copy, PartialEq, Eq, Debug, Structural)]
pub struct FileRec {
    pub name_off: u32,
    /// Id of the directory.
    pub parent: u32,
    pub name_len: u16,
    /// `FLAG_SYMLINK` or nothing.
    pub flags: u16,
}

/// In `FileRec::flags`: a symbolic link.
pub const FLAG_SYMLINK: u16 = 1;

/// Number of ids in a batch.
pub const ID_BATCH: u32 = 512;

/// Below this depth, subdirectories are handed to the queue.
pub const MAX_DEPTH: usize = 64;

/// Room for a name and its NUL.
pub const NAME_ROOM: usize = 256;

/// All directories of a scan.
pub struct DirTable {
    pub names: Vec<u8>,
    pub nodes: Vec<DirNode>,
}

/// The files that one worker found.
pub struct FileShard {
    pub names: Vec<u8>,
    pub recs: Vec<FileRec>,
}

/// One entry of a directory listing: its name, whether it is a directory, whether
/// it is a symbolic link.
pub type DirEntry = (Vec<u8>, bool, bool);

/// A subtree that waits for a worker.
pub struct Task {
    pub path: Vec<u8>,
    pub dir_id: u32,
}

/// What one worker found.
pub struct WorkerOut {
    pub files: FileShard,
    pub dir_names: Vec<u8>,
    /// Directories with their ids. Name offsets count from the start of `dir_names`.
    pub dir_nodes: Vec<(u32, DirNode)>,
}

/// Counts of a scan.
#[derive(Clone, Copy, PartialEq, Eq, Debug, Structural)]
pub struct ScanStats {
    pub dirs: usize,
    pub files: usize,
    pub errors: usize,
}

/// What a scan found.
pub struct ScanResult {
    pub dirs: DirTable,
    pub shards: Vec<FileShard>,
    pub stats: ScanStats,
}

// --- what the tables mean ---

/// A file as a table describes it.
pub ghost struct FileItem {
    pub name: Seq<u8>,
    pub parent: u32,
    pub flags: u16,
}

/// A directory as a table describes it.
pub ghost struct DirItem {
    pub name: Seq<u8>,
    pub parent: u32,
}

/// An entry as a listing describes it.
pub ghost struct Listed {
    pub name: Seq<u8>,
    pub is_dir: bool,
    pub is_link: bool,
}

/// The place of an id that was handed out and not used.
pub open spec fn unused_node() -> DirNode {
    DirNode { name_off: 0, parent: u32::MAX, name_len: 0, _pad: 0 }
}

/// As much of a name as a table keeps: its length is counted in 16 bits.
pub open spec fn kept(name: Seq<u8>) -> Seq<u8> {
    name.take((name.len() % 0x1_0000) as int)
}

/// The name of `r` lies inside the arena.
pub open spec fn rec_ok(names: Seq<u8>, r: FileRec) -> bool {
    r.name_off + r.name_len <= names.len()
}

/// The name of `n` lies inside the arena.
pub open spec fn node_ok(names: Seq<u8>, n: DirNode) -> bool {
    n.name_off + n.name_len <= names.len()
}

/// What `r` describes.
pub open spec fn file_item(names: Seq<u8>, r: FileRec) -> FileItem {
    FileItem {
        name: names.subrange(r.name_off as int, r.name_off + r.name_len),
        parent: r.parent,
        flags: r.flags,
    }
}

/// What `n` describes.
pub open spec fn dir_item(names: Seq<u8>, n: DirNode) -> DirItem {
    DirItem {
        name: names.subrange(n.name_off as int, n.name_off + n.name_len),
        parent: n.parent,
    }
}

/// The flags of a file.
pub open spec fn link_flags(is_link: bool) -> u16 {
    if is_link {
        FLAG_SYMLINK
    } else {
        0
    }
}

impl FileShard {
    /// Every name lies inside the arena.
    pub open spec fn wf(&self) -> bool {
        forall|i: int| 0 <= i < self.recs@.len() ==> rec_ok(self.names@, #[trigger] self.recs@[i])
    }

    /// The files, in the order in which they came.
    pub open spec fn view(&self) -> Seq<FileItem> {
        Seq::new(self.recs@.len(), |i: int| file_item(self.names@, self.recs@[i]))
    }

    /// Appends a file.
    pub fn push(&mut self, name: &[u8], parent: u32, is_link: bool)
        requires
            old(self).wf(),
            old(self).names.len() + name.len() <= u32::MAX,
        ensures
            final(self).wf(),
            final(self)@ == old(self)@.push(
                FileItem { name: kept(name@), parent, flags: link_flags(is_link) },
            ),
            final(self).names@ == old(self).names@ + name@,
    {
        let off = self.names.len() as u32;
        let ghost old_names = self.names@;
        let ghost old_recs = self.recs@;
        extend(&mut self.names, name);
        let flags = if is_link {
            FLAG_SYMLINK
        } else {
            0
        };
        let name_len = (name.len() % 0x1_0000) as u16;
        self.recs.push(FileRec { name_off: off, parent, name_len, flags });
        proof {
            lemma_arena_grows(old_names, name@);
            let n = old_recs.len() as int;
            assert(self.recs@[n].name_off == old_names.len());
            assert forall|i: int| 0 <= i < self.recs@.len() implies rec_ok(
                self.names@,
                #[trigger] self.recs@[i],
            ) by {
                if i < n {
                    assert(rec_ok(old_names, old_recs[i]));
                }
            }
            assert forall|i: int| 0 <= i < n implies file_item(self.names@, self.recs@[i])
                == file_item(old_names, old_recs[i]) by {
                assert(rec_ok(old_names, old_recs[i]));
            }
            assert(file_item(self.names@, self.recs@[n]).name =~= kept(name@));
            assert(self@ =~= old(self)@.push(
                FileItem { name: kept(name@), parent, flags: link_flags(is_link) },
            ));
        }
    }
}

impl Default for FileShard {
    fn default() -> (r: FileShard)
        ensures
            r.names@.len() == 0,
            r.recs@.len() == 0,
            r.wf(),
            r@ == Seq::<FileItem>::empty(),
    {
        let r = FileShard { names: Vec::new(), recs: Vec::new() };
        assert(r@ =~= Seq::<FileItem>::empty());
        r
    }
}

impl Default for DirTable {
    fn default() -> (r: DirTable)
        ensures
            r.names@.len() == 0,
            r.nodes@.len() == 0,
    {
        DirTable { names: Vec::new(), nodes: Vec::new() }
    }
}

/// What an arena held it still holds when it has grown.
pub proof fn lemma_arena_grows(names: Seq<u8>, more: Seq<u8>)
    ensures
        forall|r: FileRec| #[trigger]
            rec_ok(names, r) ==> rec_ok(names + more, r) && file_item(names + more, r) == file_item(
                names,
                r,
            ),
        forall|n: DirNode| #[trigger]
            node_ok(names, n) ==> node_ok(names + more, n) && dir_item(names + more, n) == dir_item(
                names,
                n,
            ),
{
    assert forall|r: FileRec| #[trigger] rec_ok(names, r) implies file_item(names + more, r)
        == file_item(names, r) by {
        assert(file_item(names + more, r).name =~= file_item(names, r).name);
    }
    assert forall|n: DirNode| #[trigger] node_ok(names, n) implies dir_item(names + more, n)
        == dir_item(names, n) by {
        assert(dir_item(names + more, n).name =~= dir_item(names, n).name);
    }
}

// --- listings ---

/// A whole entry stands at `off`.
pub open spec fn entry_fits(buf: Seq<u8>, off: int, min_len: int) -> bool {
    &&& off + min_len <= buf.len()
    &&& min_len <= u32_at(buf, off)
    &&& off + u32_at(buf, off) <= buf.len()
}

/// The name of the entry at `off`: `None` where it is empty or does not lie inside
/// the entry.
pub open spec fn entry_name(buf: Seq<u8>, off: int) -> Option<Seq<u8>> {
    let start = OFF_NAME_REF + signed32(u32_at(buf, off + OFF_NAME_REF));
    let len = u32_at(buf, off + OFF_NAME_REF + 4);
    if len >= 2 && 0 <= start && start + len <= u32_at(buf, off) {
        Some(buf.subrange(off + start, off + start + len - 1))
    } else {
        None
    }
}

/// The entry at `off`: a directory, a file or a link; anything else is passed over.
pub open spec fn entry_at(buf: Seq<u8>, off: int) -> Option<Listed> {
    let kind = u32_at(buf, off + OFF_OBJTYPE);
    match entry_name(buf, off) {
        Some(name) => if kind == VDIR {
            Some(Listed { name, is_dir: true, is_link: false })
        } else if kind == VREG {
            Some(Listed { name, is_dir: false, is_link: false })
        } else if kind == VLNK {
            Some(Listed { name, is_dir: false, is_link: true })
        } else {
            None
        },
        None => None,
    }
}

/// The entries of a batch of `n` that starts at `off`, up to the first that is cut
/// short.
pub open spec fn batch(buf: Seq<u8>, off: int, n: nat, min_len: int) -> Seq<Listed>
    decreases n,
{
    if n == 0 || !entry_fits(buf, off, min_len) {
        Seq::empty()
    } else {
        let rest = batch(buf, off + u32_at(buf, off), (n - 1) as nat, min_len);
        match entry_at(buf, off) {
            Some(e) => seq![e] + rest,
            None => rest,
        }
    }
}

/// What an entry of a listing says.
pub open spec fn listed(e: DirEntry) -> Listed {
    Listed { name: e.0@, is_dir: e.1, is_link: e.2 }
}

/// What the entries of a listing say.
pub open spec fn listing(es: Seq<DirEntry>) -> Seq<Listed> {
    es.map_values(|e: DirEntry| listed(e))
}

/// What a listing says, where there is one.
pub open spec fn listing_of(entries: Option<Vec<DirEntry>>) -> Option<Seq<Listed>> {
    match entries {
        Some(es) => Some(listing(es@)),
        None => None,
    }
}

/// Reads the entry at `off`.
fn read_entry(buf: &[u8], off: usize) -> (r: Option<DirEntry>)
    requires
        off + 40 <= buf.len(),
        40 <= u32_at(buf@, off as int),
        off + u32_at(buf@, off as int) <= buf.len(),
    ensures
        match r {
            Some(e) => entry_at(buf@, off as int) == Some(listed(e)),
            None => entry_at(buf@, off as int) is None,
        },
{
    let entry_len = rd_u32(buf, off) as i64;
    let rel = rd_i32(buf, off + OFF_NAME_REF) as i64;
    let len = rd_u32(buf, off + OFF_NAME_REF + 4) as i64;
    let start = OFF_NAME_REF as i64 + rel;
    if len < 2 || start < 0 || start + len > entry_len {
        return None;
    }
    let name = slice_subrange(buf, off + start as usize, off + start as usize + len as usize - 1);
    let kind = rd_u32(buf, off + OFF_OBJTYPE);
    if kind == VDIR {
        Some((copy(name), true, false))
    } else if kind == VREG {
        Some((copy(name), false, false))
    } else if kind == VLNK {
        Some((copy(name), false, true))
    } else {
        None
    }
}

/// Reads the `n` entries of one batch.
pub fn parse_batch(buf: &[u8], n: usize, layout: &Layout) -> (r: Vec<DirEntry>)
    requires
        layout.min_len >= 40,
    ensures
        listing(r@) == batch(buf@, 0, n as nat, layout.min_len as int),
{
    let mut out: Vec<DirEntry> = Vec::new();
    let mut off: usize = 0;
    let mut i: usize = 0;
    let ghost min_len = layout.min_len as int;
    let ghost all = batch(buf@, 0, n as nat, min_len);
    assert(listing(out@) + all =~= all);
    while i < n
        invariant
            layout.min_len >= 40,
            min_len == layout.min_len,
            i <= n,
            off <= buf.len(),
            listing(out@) + batch(buf@, off as int, (n - i) as nat, min_len) == all,
        ensures
            listing(out@) == all,
        decreases n - i,
    {
        let ghost rest = batch(buf@, off as int, (n - i) as nat, min_len);
        if layout.min_len > buf.len() - off {
            assert(listing(out@) + rest =~= listing(out@));
            break;
        }
        let entry_len = rd_u32(buf, off) as usize;
        if entry_len < layout.min_len || entry_len > buf.len() - off {
            assert(listing(out@) + rest =~= listing(out@));
            break;
        }
        let ghost old_out = out@;
        let ghost next = batch(buf@, off + entry_len, (n - i - 1) as nat, min_len);
        match read_entry(buf, off) {
            Some(e) => {
                out.push(e);
                proof {
                    assert(listing(out@) =~= listing(old_out).push(listed(e)));
                    assert(listing(out@) + next =~= listing(old_out) + rest);
                }
            },
            None => {},
        }
        off += entry_len;
        i += 1;
        if i == n {
            assert(listing(out@) + next =~= listing(out@));
        }
    }
    out
}

/// The files among listed entries.
pub open spec fn listed_files(es: Seq<Listed>, parent: u32) -> Seq<FileItem>
    decreases es.len(),
{
    if es.len() == 0 {
        Seq::empty()
    } else {
        let before = listed_files(es.drop_last(), parent);
        let e = es.last();
        if e.is_dir {
            before
        } else {
            before.push(FileItem { name: kept(e.name), parent, flags: link_flags(e.is_link) })
        }
    }
}

/// The names of the directories among listed entries.
pub open spec fn listed_dirs(es: Seq<Listed>) -> Seq<Seq<u8>>
    decreases es.len(),
{
    if es.len() == 0 {
        Seq::empty()
    } else {
        let before = listed_dirs(es.drop_last());
        let e = es.last();
        if e.is_dir {
            before.push(kept(e.name))
        } else {
            before
        }
    }
}

/// The subdirectories of one directory, on their way to being visited.
pub struct Scratch {
    pub names: Vec<u8>,
    /// Offset and length of each name in `names`.
    pub subdirs: Vec<(u32, u16)>,
    /// The ids of those that have one.
    pub ids: Vec<u32>,
}

impl Default for Scratch {
    fn default() -> (r: Scratch)
        ensures
            r.wf(),
            r@ == Seq::<Seq<u8>>::empty(),
            r.ids@ == Seq::<u32>::empty(),
            r.names@.len() == 0,
    {
        let r = Scratch { names: Vec::new(), subdirs: Vec::new(), ids: Vec::new() };
        assert(r@ =~= Seq::<Seq<u8>>::empty());
        r
    }
}

impl Scratch {
    /// Every name lies inside the arena, and there are no more ids than names.
    pub open spec fn wf(&self) -> bool {
        &&& self.ids@.len() <= self.subdirs@.len()
        &&& forall|i: int|
            0 <= i < self.subdirs@.len() ==> (#[trigger] self.subdirs@[i]).0 + self.subdirs@[i].1
                <= self.names@.len()
    }

    /// The names of the subdirectories.
    pub open spec fn view(&self) -> Seq<Seq<u8>> {
        Seq::new(
            self.subdirs@.len(),
            |i: int|
                self.names@.subrange(
                    self.subdirs@[i].0 as int,
                    self.subdirs@[i].0 + self.subdirs@[i].1,
                ),
        )
    }

    /// Empties the scratch space.
    pub fn clear(&mut self)
        ensures
            final(self).wf(),
            final(self)@ == Seq::<Seq<u8>>::empty(),
            final(self).ids@ == Seq::<u32>::empty(),
            final(self).names@.len() == 0,
    {
        self.names.clear();
        self.subdirs.clear();
        self.ids.clear();
        assert(self@ =~= Seq::<Seq<u8>>::empty());
    }

    /// Appends a subdirectory.
    pub fn push(&mut self, name: &[u8])
        requires
            old(self).wf(),
            old(self).names.len() + name.len() <= u32::MAX,
        ensures
            final(self).wf(),
            final(self)@ == old(self)@.push(kept(name@)),
            final(self).ids@ == old(self).ids@,
            final(self).names@ == old(self).names@ + name@,
    {
        let off = self.names.len() as u32;
        let ghost before = *old(self);
        extend(&mut self.names, name);
        self.subdirs.push((off, (name.len() % 0x1_0000) as u16));
        proof {
            let n = before.subdirs@.len() as int;
            assert(self@[n] =~= kept(name@));
            assert forall|i: int| 0 <= i < n implies self@[i] == before@[i] by {
                assert(before.subdirs@[i].0 + before.subdirs@[i].1 <= before.names@.len());
                assert(self.subdirs@[i] == before.subdirs@[i]);
                assert(self@[i] =~= before@[i]);
            }
            assert forall|i: int| 0 <= i < self.subdirs@.len() implies (#[trigger] self.subdirs@[i]).0
                + self.subdirs@[i].1 <= self.names@.len() by {
                if i < n {
                    assert(self.subdirs@[i] == before.subdirs@[i]);
                }
            }
            assert(self@ =~= before@.push(kept(name@)));
        }
    }

    /// The name of subdirectory `i`.
    pub fn name(&self, i: usize) -> (r: &[u8])
        requires
            self.wf(),
            i < self@.len(),
        ensures
            r@ == self@[i as int],
    {
        let (off, len) = self.subdirs[i];
        let room = self.names.len();
        assert(self.subdirs@[i as int].0 + self.subdirs@[i as int].1 <= room);
        slice_subrange(self.names.as_slice(), off as usize, off as usize + len as usize)
    }

    /// The name of subdirectory `i` as a C string, `None` where the name is too long
    /// for one.
    pub fn c_name(&self, i: usize) -> (r: Option<Vec<u8>>)
        requires
            self.wf(),
            i < self@.len(),
        ensures
            match r {
                Some(v) => self@[i as int].len() < NAME_ROOM && v@ == self@[i as int].push(0),
                None => self@[i as int].len() >= NAME_ROOM,
            },
            match r {
                Some(v) => c_string(self@[i as int]) == Some(v@),
                None => c_string(self@[i as int]) is None,
            },
    {
        let name = self.name(i);
        if name.len() >= NAME_ROOM {
            return None;
        }
        let mut v = copy(name);
        v.push(0);
        Some(v)
    }

    /// Keeps the first `n` subdirectories.
    pub fn truncate(&mut self, n: usize)
        requires
            old(self).wf(),
            n <= old(self)@.len(),
            old(self).ids@.len() == old(self)@.len(),
        ensures
            final(self).wf(),
            final(self)@ == old(self)@.take(n as int),
            final(self).ids@ == old(self).ids@.take(n as int),
    {
        self.subdirs.truncate(n);
        self.ids.truncate(n);
        proof {
            assert(self.subdirs@ =~= old(self).subdirs@.take(n as int));
            assert(self.ids@ =~= old(self).ids@.take(n as int));
            assert forall|i: int| 0 <= i < n implies self@[i] == old(self)@[i] by {
                assert(self.subdirs@[i] == old(self).subdirs@[i]);
            }
            assert forall|i: int| 0 <= i < self.subdirs@.len() implies (#[trigger] self.subdirs@[i]).0
                + self.subdirs@[i].1 <= self.names@.len() by {
                assert(self.subdirs@[i] == old(self).subdirs@[i]);
            }
            assert(self@ =~= old(self)@.take(n as int));
        }
    }
}

/// Bytes in the names of listed entries.
pub open spec fn names_len(es: Seq<Listed>) -> nat
    decreases es.len(),
{
    if es.len() == 0 {
        0
    } else {
        names_len(es.drop_last()) + es.last().name.len()
    }
}

proof fn lemma_names_len_cons(e: Listed, es: Seq<Listed>)
    ensures
        names_len(seq![e] + es) == e.name.len() + names_len(es),
    decreases es.len(),
{
    let all = seq![e] + es;
    if es.len() == 0 {
        assert(all.drop_last() =~= Seq::empty());
        assert(names_len(all.drop_last()) == 0);
        assert(all.last() == e);
    } else {
        assert(all.drop_last() =~= seq![e] + es.drop_last());
        lemma_names_len_cons(e, es.drop_last());
    }
}

proof fn lemma_names_len_prefix(es: Seq<Listed>, i: int)
    requires
        0 <= i <= es.len(),
    ensures
        names_len(es.take(i)) <= names_len(es),
    decreases es.len() - i,
{
    if i < es.len() {
        lemma_names_len_prefix(es, i + 1);
        assert(es.take(i + 1).drop_last() =~= es.take(i));
    } else {
        assert(es.take(i) =~= es);
    }
}

/// Entries do not overlap, so their names are no longer than the buffer.
proof fn lemma_batch_fits(buf: Seq<u8>, off: int, n: nat, min_len: int)
    requires
        0 <= off <= buf.len(),
        40 <= min_len,
    ensures
        names_len(batch(buf, off, n, min_len)) <= buf.len() - off,
    decreases n,
{
    if n > 0 && entry_fits(buf, off, min_len) {
        let next = off + u32_at(buf, off);
        lemma_batch_fits(buf, next, (n - 1) as nat, min_len);
        let rest = batch(buf, next, (n - 1) as nat, min_len);
        if let Some(e) = entry_at(buf, off) {
            lemma_names_len_cons(e, rest);
        }
    }
}

/// Takes one batch of a directory's listing: files go to the shard, the names of
/// subdirectories to the scratch space.
#[verifier::rlimit(60)]
pub fn take_batch(
    buf: &[u8],
    n: usize,
    layout: &Layout,
    files: &mut FileShard,
    sc: &mut Scratch,
    dir_id: u32,
)
    requires
        layout.min_len >= 40,
        old(files).wf(),
        old(sc).wf(),
        old(files).names.len() + buf.len() <= u32::MAX,
        old(sc).names.len() + buf.len() <= u32::MAX,
    ensures
        final(files).wf(),
        final(sc).wf(),
        final(files)@ == old(files)@ + listed_files(
            batch(buf@, 0, n as nat, layout.min_len as int),
            dir_id,
        ),
        final(sc)@ == old(sc)@ + listed_dirs(batch(buf@, 0, n as nat, layout.min_len as int)),
        final(sc).ids@ == old(sc).ids@,
        final(files).names.len() <= old(files).names.len() + buf.len(),
        final(sc).names.len() <= old(sc).names.len() + buf.len(),
{
    let entries = parse_batch(buf, n, layout);
    let ghost all = batch(buf@, 0, n as nat, layout.min_len as int);
    let ghost limit = u32::MAX - buf.len();
    proof {
        lemma_batch_fits(buf@, 0, n as nat, layout.min_len as int);
        assert(files@ + listed_files(all.take(0), dir_id) =~= files@);
        assert(sc@ + listed_dirs(all.take(0)) =~= sc@);
    }
    for i in 0..entries.len()
        invariant
            listing(entries@) == all,
            all.len() == entries@.len(),
            names_len(all) <= buf.len(),
            old(files).names.len() + buf.len() <= u32::MAX,
            old(sc).names.len() + buf.len() <= u32::MAX,
            files.wf(),
            sc.wf(),
            files@ == old(files)@ + listed_files(all.take(i as int), dir_id),
            sc@ == old(sc)@ + listed_dirs(all.take(i as int)),
            sc.ids@ == old(sc).ids@,
            files.names@.len() <= old(files).names@.len() + names_len(all.take(i as int)),
            sc.names@.len() <= old(sc).names@.len() + names_len(all.take(i as int)),
    {
        let e = &entries[i];
        proof {
            assert(all[i as int] == listed(*e));
            lemma_names_len_prefix(all, i + 1);
            assert(all.take(i + 1).drop_last() =~= all.take(i as int));
            assert(all.take(i + 1).last() == listed(*e));
        }
        let ghost old_files = files@;
        let ghost old_dirs = sc@;
        if e.1 {
            sc.push(e.0.as_slice());
            assert(sc@ =~= old(sc)@ + listed_dirs(all.take(i + 1)));
        } else {
            files.push(e.0.as_slice(), dir_id, e.2);
            assert(files@ =~= old(files)@ + listed_files(all.take(i + 1), dir_id));
        }
    }
    assert(all.take(all.len() as int) =~= all);
}

// --- workers ---

/// What one worker has found so far, the ids it may still hand out, and the path
/// of the directory it is in.
pub struct Worker {
    pub files: FileShard,
    pub dir_names: Vec<u8>,
    pub dir_nodes: Vec<(u32, DirNode)>,
    pub id_cursor: u32,
    pub id_end: u32,
    pub path: Vec<u8>,
}

/// Every name lies inside the arena.
pub open spec fn placed_ok(names: Seq<u8>, nodes: Seq<(u32, DirNode)>) -> bool {
    forall|i: int| 0 <= i < nodes.len() ==> node_ok(names, (#[trigger] nodes[i]).1)
}

impl Worker {
    pub open spec fn wf(&self) -> bool {
        &&& self.files.wf()
        &&& placed_ok(self.dir_names@, self.dir_nodes@)
        &&& self.id_cursor <= self.id_end
    }

    /// The directories found so far, with their ids.
    pub open spec fn dirs(&self) -> Seq<(u32, DirItem)> {
        Seq::new(
            self.dir_nodes@.len(),
            |i: int| (self.dir_nodes@[i].0, dir_item(self.dir_names@, self.dir_nodes@[i].1)),
        )
    }

    /// A worker that has found nothing: its arenas and tables are empty, it is in no
    /// directory, and it has no ids to hand out.
    pub fn new() -> (r: Worker)
        ensures
            r.wf(),
            r.files@ == Seq::<FileItem>::empty(),
            r.files.names@ == Seq::<u8>::empty(),
            r.files.recs@ == Seq::<FileRec>::empty(),
            r.dirs() == Seq::<(u32, DirItem)>::empty(),
            r.dir_names@ == Seq::<u8>::empty(),
            r.dir_nodes@ == Seq::<(u32, DirNode)>::empty(),
            r.path@ == Seq::<u8>::empty(),
            r.id_cursor == 0,
            r.id_end == 0,
    {
        let r = Worker {
            files: FileShard::default(),
            dir_names: Vec::new(),
            dir_nodes: Vec::new(),
            id_cursor: 0,
            id_end: 0,
            path: Vec::new(),
        };
        assert(r.files.names@ =~= Seq::<u8>::empty());
        assert(r.files.recs@ =~= Seq::<FileRec>::empty());
        assert(r.dirs() =~= Seq::<(u32, DirItem)>::empty());
        assert(r.path@ =~= Seq::<u8>::empty());
        r
    }

    /// Whether the ids are used up, so that a batch has to be fetched first.
    pub fn needs_ids(&self) -> (r: bool)
        ensures
            r == (self.id_cursor == self.id_end),
    {
        self.id_cursor == self.id_end
    }

    /// Takes over the batch of ids that starts at `base`.
    pub fn refill(&mut self, base: u32)
        requires
            old(self).wf(),
            base + ID_BATCH <= u32::MAX,
        ensures
            *final(self) == (Worker {
                id_cursor: base,
                id_end: (base + ID_BATCH) as u32,
                ..*old(self)
            }),
            final(self).wf(),
    {
        self.id_cursor = base;
        self.id_end = base + ID_BATCH;
    }

    /// The next id.
    pub fn alloc_id(&mut self) -> (r: u32)
        requires
            old(self).wf(),
            old(self).id_cursor < old(self).id_end,
        ensures
            r == old(self).id_cursor,
            *final(self) == (Worker { id_cursor: (r + 1) as u32, ..*old(self) }),
            final(self).wf(),
    {
        let id = self.id_cursor;
        self.id_cursor = id + 1;
        id
    }

    /// Gives the next subdirectory of `dir_id` its id and enters it in the table.
    pub fn register(&mut self, sc: &mut Scratch, dir_id: u32)
        requires
            old(self).wf(),
            old(sc).wf(),
            old(self).id_cursor < old(self).id_end,
            old(sc).ids@.len() < old(sc)@.len(),
            old(self).dir_names.len() + old(sc)@[old(sc).ids@.len() as int].len() <= u32::MAX,
        ensures
            final(self).wf(),
            final(sc).wf(),
            final(self).dirs() == old(self).dirs().push(
                (
                    old(self).id_cursor,
                    DirItem { name: old(sc)@[old(sc).ids@.len() as int], parent: dir_id },
                ),
            ),
            final(self).id_cursor == old(self).id_cursor + 1,
            final(self).id_end == old(self).id_end,
            final(self).files == old(self).files,
            final(self).path == old(self).path,
            final(sc)@ == old(sc)@,
            final(sc).ids@ == old(sc).ids@.push(old(self).id_cursor),
    {
        let ghost before = *old(self);
        let k = sc.ids.len();
        let id = self.alloc_id();
        let off = self.dir_names.len() as u32;
        let (_, len) = sc.subdirs[k];
        let name = sc.name(k);
        let ghost added = name@;
        extend(&mut self.dir_names, name);
        let node = DirNode { name_off: off, parent: dir_id, name_len: len, _pad: 0 };
        self.dir_nodes.push((id, node));
        sc.ids.push(id);
        proof {
            let n = before.dir_nodes@.len() as int;
            lemma_arena_grows(before.dir_names@, added);
            assert(dir_item(self.dir_names@, node).name =~= added);
            assert forall|i: int| 0 <= i < self.dir_nodes@.len() implies node_ok(
                self.dir_names@,
                (#[trigger] self.dir_nodes@[i]).1,
            ) by {
                if i < n {
                    assert(node_ok(before.dir_names@, before.dir_nodes@[i].1));
                }
            }
            assert forall|i: int| 0 <= i < n implies self.dirs()[i] == before.dirs()[i] by {
                assert(node_ok(before.dir_names@, before.dir_nodes@[i].1));
            }
            assert(self.dirs() =~= before.dirs().push(
                (before.id_cursor, DirItem { name: added, parent: dir_id }),
            ));
            assert(sc@ =~= old(sc)@);
        }
    }

    /// Goes down into the subdirectory `name`; returns how much of the path to keep
    /// on the way back.
    pub fn enter(&mut self, name: &[u8]) -> (r: usize)
        requires
            old(self).wf(),
        ensures
            r == old(self).path@.len(),
            final(self).path@ == join(old(self).path@, name@),
            *final(self) == (Worker { path: final(self).path, ..*old(self) }),
            final(self).wf(),
    {
        let n = self.path.len();
        if n == 0 || self.path[n - 1] != SLASH {
            self.path.push(SLASH);
        }
        extend(&mut self.path, name);
        assert(self.path@ =~= join(old(self).path@, name@));
        n
    }

    /// Comes back from a subdirectory.
    pub fn leave(&mut self, n: usize)
        requires
            old(self).wf(),
            n <= old(self).path@.len(),
        ensures
            final(self).path@ == old(self).path@.take(n as int),
            *final(self) == (Worker { path: final(self).path, ..*old(self) }),
            final(self).wf(),
    {
        self.path.truncate(n);
        assert(self.path@ =~= old(self).path@.take(n as int));
    }

    /// What the worker found.
    pub fn finish(self) -> (r: WorkerOut)
        requires
            self.wf(),
        ensures
            r.files == self.files,
            r.dir_names == self.dir_names,
            r.dir_nodes == self.dir_nodes,
            r.wf(),
    {
        WorkerOut { files: self.files, dir_names: self.dir_names, dir_nodes: self.dir_nodes }
    }
}

/// Going down and coming back leaves the path as it was.
pub proof fn law_enter_then_leave(path: Seq<u8>, name: Seq<u8>)
    ensures
        join(path, name).take(path.len() as int) == path,
{
    assert(join(path, name).take(path.len() as int) =~= path);
}

/// Of `n` subdirectories, how many the worker keeps to itself: none where it is too
/// deep, half where another worker is idle, else all.
pub open spec fn kept_back(n: int, idle: int, depth: int) -> int {
    if depth >= MAX_DEPTH {
        0
    } else if n > 1 && idle > 0 {
        n / 2
    } else {
        n
    }
}

/// Of `n` subdirectories, how many the worker keeps to itself.
pub fn share_from(n: usize, idle: usize, depth: usize) -> (r: usize)
    ensures
        r == kept_back(n as int, idle as int, depth as int),
        r <= n,
{
    if depth >= MAX_DEPTH {
        0
    } else if n > 1 && idle > 0 {
        n / 2
    } else {
        n
    }
}

/// The tasks for the subdirectories from `from` on: path and id of each.
pub open spec fn tasks_for(path: Seq<u8>, names: Seq<Seq<u8>>, ids: Seq<u32>, from: int) -> Seq<
    (Seq<u8>, u32),
> {
    Seq::new(
        (names.len() - from) as nat,
        |i: int| (join(path, names[from + i]), ids[from + i]),
    )
}

/// The tasks for the subdirectories from `from` on, which are handed to the queue.
pub fn handout(path: &[u8], sc: &Scratch, from: usize) -> (r: Vec<Task>)
    requires
        sc.wf(),
        sc.ids@.len() == sc@.len(),
        from <= sc@.len(),
    ensures
        r@.len() == sc@.len() - from,
        forall|i: int|
            0 <= i < r@.len() ==> (#[trigger] r@[i]).path@ == join(path@, sc@[from + i])
                && r@[i].dir_id == sc.ids@[from + i],
        r@.map_values(|t: Task| (t.path@, t.dir_id)) == tasks_for(
            path@,
            sc@,
            sc.ids@,
            from as int,
        ),
{
    let mut out: Vec<Task> = Vec::new();
    for i in from..sc.subdirs.len()
        invariant
            sc.wf(),
            sc.ids@.len() == sc@.len(),
            from <= i,
            out@.len() == i - from,
            forall|k: int|
                0 <= k < out@.len() ==> (#[trigger] out@[k]).path@ == join(path@, sc@[from + k])
                    && out@[k].dir_id == sc.ids@[from + k],
    {
        out.push(Task { path: join_path(path, sc.name(i)), dir_id: sc.ids[i] });
    }
    assert(out@.map_values(|t: Task| (t.path@, t.dir_id)) =~= tasks_for(
        path@,
        sc@,
        sc.ids@,
        from as int,
    ));
    out
}

/// What a worker does when it comes to the queue.
#[derive(Clone, Copy, PartialEq, Eq, Debug, Structural)]
pub enum Step {
    /// Take a task.
    Take,
    /// Stop: the scan is over.
    Stop,
    /// Declare the scan over and stop: every worker is idle.
    Finish,
    /// Wait for a task.
    Wait,
}

/// What a worker does that finds `queued` tasks.
pub open spec fn step_of(queued: int, done: bool, idle: int, workers: int) -> Step {
    if queued > 0 {
        Step::Take
    } else if done {
        Step::Stop
    } else if idle == workers {
        Step::Finish
    } else {
        Step::Wait
    }
}

/// What a worker does that finds `queued` tasks. `idle` counts the idle workers,
/// this one included.
pub fn next_step(queued: usize, done: bool, idle: usize, workers: usize) -> (r: Step)
    ensures
        r == step_of(queued as int, done, idle as int, workers as int),
        r == if queued > 0 {
            Step::Take
        } else if done {
            Step::Stop
        } else if idle == workers {
            Step::Finish
        } else {
            Step::Wait
        },
{
    if queued > 0 {
        Step::Take
    } else if done {
        Step::Stop
    } else if idle == workers {
        Step::Finish
    } else {
        Step::Wait
    }
}

/// `name` with a zero behind it, `None` where it is too long.
pub open spec fn c_string(name: Seq<u8>) -> Option<Seq<u8>> {
    if name.len() >= NAME_ROOM {
        None
    } else {
        Some(name.push(0))
    }
}

/// A directory on device `dev` is scanned.
pub open spec fn gone_into(dev: Option<i64>, root_dev: i64) -> bool {
    dev == Some(root_dev)
}

/// Whether a directory is scanned: it lies on the volume of the root. `dev` is the device
/// that it lies on, `None` where that is not known. Other volumes are left alone.
pub fn on_volume(dev: Option<i64>, root_dev: i64) -> (r: bool)
    ensures
        r == (dev == Some(root_dev)),
        r == gone_into(dev, root_dev),
{
    match dev {
        Some(d) => d == root_dev,
        None => false,
    }
}

/// `path` as a C string.
pub fn to_cstring(b: &[u8]) -> (r: Vec<i8>)
    ensures
        r@.len() == b@.len() + 1,
        forall|i: int| 0 <= i < b@.len() ==> r@[i] == as_char(#[trigger] b@[i]),
        r@[b@.len() as int] == 0,
{
    let mut v: Vec<i8> = Vec::with_capacity(b.len());
    for i in 0..b.len()
        invariant
            v@.len() == i,
            forall|k: int| 0 <= k < i ==> v@[k] == as_char(#[trigger] b@[k]),
    {
        let c = b[i];
        v.push(
            if c < 0x80 {
                c as i8
            } else {
                (c as i16 - 0x100) as i8
            },
        );
    }
    v.push(0);
    v
}

/// A byte read as a signed character.
pub open spec fn as_char(b: u8) -> i8 {
    if b < 0x80 {
        b as i8
    } else {
        (b - 0x100) as i8
    }
}

/// `path` without the separators at its end.
pub open spec fn trimmed(path: Seq<u8>) -> Seq<u8>
    decreases path.len(),
{
    if path.len() > 0 && path.last() == SLASH {
        trimmed(path.drop_last())
    } else {
        path
    }
}

/// The root of a scan: without separators at its end, unless it is nothing but
/// separators, or empty.
pub open spec fn root_path(path: Seq<u8>) -> Seq<u8> {
    if trimmed(path).len() == 0 {
        seq![SLASH]
    } else {
        trimmed(path)
    }
}

/// The root of a scan of `path`.
pub fn scan_root(path: &[u8]) -> (r: Vec<u8>)
    ensures
        r@ == root_path(path@),
{
    let mut n = path.len();
    assert(path@.take(n as int) =~= path@);
    while n > 0 && path[n - 1] == SLASH
        invariant
            n <= path@.len(),
            trimmed(path@) == trimmed(path@.take(n as int)),
        decreases n,
    {
        assert(path@.take(n as int).drop_last() =~= path@.take(n - 1));
        n -= 1;
    }
    assert(trimmed(path@) =~= path@.take(n as int));
    if n == 0 {
        let mut v: Vec<u8> = Vec::new();
        v.push(SLASH);
        assert(v@ =~= seq![SLASH]);
        return v;
    }
    copy(slice_subrange(path, 0, n))
}

// --- merging ---

impl WorkerOut {
    pub open spec fn wf(&self) -> bool {
        self.files.wf() && placed_ok(self.dir_names@, self.dir_nodes@)
    }
}

/// The nodes of one worker at their places. Name offsets are counted from the start
/// of the whole arena, in which the worker's own begins at `base`.
pub open spec fn placed(nodes: Seq<DirNode>, found: Seq<(u32, DirNode)>, base: int) -> Seq<DirNode>
    decreases found.len(),
{
    if found.len() == 0 {
        nodes
    } else {
        let (id, n) = found.last();
        placed(nodes, found.drop_last(), base).update(
            id as int,
            DirNode { name_off: (n.name_off + base) as u32, ..n },
        )
    }
}

/// The arena of the whole scan: the root's path, then the names each worker found.
pub open spec fn merged_names(root: Seq<u8>, outs: Seq<WorkerOut>) -> Seq<u8>
    decreases outs.len(),
{
    if outs.len() == 0 {
        root
    } else {
        merged_names(root, outs.drop_last()) + outs.last().dir_names@
    }
}

/// The nodes of the whole scan.
pub open spec fn merged_nodes(root: Seq<u8>, total_ids: nat, outs: Seq<WorkerOut>) -> Seq<DirNode>
    decreases outs.len(),
{
    if outs.len() == 0 {
        Seq::new(total_ids, |i: int| unused_node()).update(
            0,
            DirNode {
                name_off: 0,
                parent: u32::MAX,
                name_len: (root.len() % 0x1_0000) as u16,
                _pad: 0,
            },
        )
    } else {
        placed(
            merged_nodes(root, total_ids, outs.drop_last()),
            outs.last().dir_nodes@,
            merged_names(root, outs.drop_last()).len() as int,
        )
    }
}

/// Directories that the workers found.
pub open spec fn dirs_found(outs: Seq<WorkerOut>) -> nat
    decreases outs.len(),
{
    if outs.len() == 0 {
        0
    } else {
        dirs_found(outs.drop_last()) + outs.last().dir_nodes@.len()
    }
}

/// Files that the workers found.
pub open spec fn files_found(outs: Seq<WorkerOut>) -> nat
    decreases outs.len(),
{
    if outs.len() == 0 {
        0
    } else {
        files_found(outs.drop_last()) + outs.last().files.recs@.len()
    }
}

/// Every id was handed out.
pub open spec fn ids_below(outs: Seq<WorkerOut>, total_ids: int) -> bool {
    forall|k: int, j: int|
        0 <= k < outs.len() && 0 <= j < outs[k].dir_nodes@.len() ==> (
        #[trigger] outs[k].dir_nodes@[j]).0 < total_ids
}

proof fn lemma_names_prefix(root: Seq<u8>, outs: Seq<WorkerOut>, k: int)
    requires
        0 <= k <= outs.len(),
    ensures
        merged_names(root, outs.take(k)).len() <= merged_names(root, outs).len(),
        merged_names(root, outs).take(merged_names(root, outs.take(k)).len() as int)
            == merged_names(root, outs.take(k)),
        root.len() <= merged_names(root, outs.take(k)).len(),
    decreases outs.len(),
{
    if k < outs.len() {
        let front = outs.drop_last();
        lemma_names_prefix(root, front, k);
        assert(front.take(k) =~= outs.take(k));
        let m = merged_names(root, outs.take(k)).len() as int;
        assert(merged_names(root, outs).take(m) =~= merged_names(root, front).take(m));
    } else {
        assert(outs.take(k) =~= outs);
        assert(merged_names(root, outs).take(merged_names(root, outs).len() as int)
            =~= merged_names(root, outs));
        if outs.len() > 0 {
            lemma_names_prefix(root, outs.drop_last(), outs.len() - 1);
            assert(outs.drop_last().take(outs.len() - 1) =~= outs.drop_last());
        }
    }
}

proof fn lemma_placed(names: Seq<u8>, nodes: Seq<DirNode>, found: Seq<(u32, DirNode)>, own: Seq<u8>)
    requires
        forall|i: int| 0 <= i < nodes.len() ==> node_ok(names, #[trigger] nodes[i]),
        placed_ok(own, found),
        names.len() + own.len() <= u32::MAX,
        forall|j: int| 0 <= j < found.len() ==> (#[trigger] found[j]).0 < nodes.len(),
    ensures
        placed(nodes, found, names.len() as int).len() == nodes.len(),
        forall|i: int|
            0 <= i < nodes.len() ==> node_ok(
                names + own,
                #[trigger] placed(nodes, found, names.len() as int)[i],
            ),
    decreases found.len(),
{
    lemma_arena_grows(names, own);
    if found.len() > 0 {
        let front = found.drop_last();
        assert forall|j: int| 0 <= j < front.len() implies (#[trigger] front[j]).0 < nodes.len()
            && node_ok(own, front[j].1) by {
            assert(front[j] == found[j]);
        }
        lemma_placed(names, nodes, front, own);
        assert(node_ok(own, found[found.len() - 1].1));
    }
}

/// Every name of the merged table lies inside its arena.
pub proof fn lemma_merged(root: Seq<u8>, total_ids: nat, outs: Seq<WorkerOut>)
    requires
        total_ids > 0,
        forall|k: int| 0 <= k < outs.len() ==> (#[trigger] outs[k]).wf(),
        ids_below(outs, total_ids as int),
        merged_names(root, outs).len() <= u32::MAX,
    ensures
        merged_nodes(root, total_ids, outs).len() == total_ids,
        forall|i: int|
            0 <= i < total_ids ==> node_ok(
                merged_names(root, outs),
                #[trigger] merged_nodes(root, total_ids, outs)[i],
            ),
    decreases outs.len(),
{
    if outs.len() > 0 {
        let front = outs.drop_last();
        assert forall|k: int| 0 <= k < front.len() implies (#[trigger] front[k]).wf() by {
            assert(front[k] == outs[k]);
        }
        assert forall|k: int, j: int|
            0 <= k < front.len() && 0 <= j < front[k].dir_nodes@.len() implies (
        #[trigger] front[k].dir_nodes@[j]).0 < total_ids by {
            assert(front[k] == outs[k]);
            assert(outs[k].dir_nodes@[j].0 < total_ids);
        }
        lemma_merged(root, total_ids, front);
        let last = outs.len() - 1;
        assert(outs[last].wf());
        assert forall|j: int| 0 <= j < outs.last().dir_nodes@.len() implies (
        #[trigger] outs.last().dir_nodes@[j]).0 < total_ids by {
            assert(outs[last].dir_nodes@[j].0 < total_ids);
        }
        lemma_placed(
            merged_names(root, front),
            merged_nodes(root, total_ids, front),
            outs.last().dir_nodes@,
            outs.last().dir_names@,
        );
    }
}

proof fn lemma_found_prefix(outs: Seq<WorkerOut>, k: int)
    requires
        0 <= k <= outs.len(),
    ensures
        dirs_found(outs.take(k)) <= dirs_found(outs),
        files_found(outs.take(k)) <= files_found(outs),
    decreases outs.len() - k,
{
    if k < outs.len() {
        lemma_found_prefix(outs, k + 1);
        assert(outs.take(k + 1).drop_last() =~= outs.take(k));
    } else {
        assert(outs.take(k) =~= outs);
    }
}

/// Puts the nodes of one worker in their places.
fn place(nodes: &mut Vec<DirNode>, found: &Vec<(u32, DirNode)>, base: u32)
    requires
        forall|j: int| 0 <= j < found@.len() ==> (#[trigger] found@[j]).0 < old(nodes)@.len(),
        forall|j: int|
            0 <= j < found@.len() ==> (#[trigger] found@[j]).1.name_off + base <= u32::MAX,
    ensures
        final(nodes)@ == placed(old(nodes)@, found@, base as int),
        final(nodes)@.len() == old(nodes)@.len(),
{
    assert(found@.take(0) =~= Seq::empty());
    for j in 0..found.len()
        invariant
            forall|j: int| 0 <= j < found@.len() ==> (#[trigger] found@[j]).0 < old(nodes)@.len(),
            forall|j: int|
                0 <= j < found@.len() ==> (#[trigger] found@[j]).1.name_off + base <= u32::MAX,
            nodes@.len() == old(nodes)@.len(),
            nodes@ == placed(old(nodes)@, found@.take(j as int), base as int),
    {
        let (id, n) = found[j];
        proof {
            assert(found@.take(j + 1).drop_last() =~= found@.take(j as int));
            assert(found@[j as int].0 < old(nodes)@.len());
        }
        let moved = DirNode {
            name_off: n.name_off + base,
            parent: n.parent,
            name_len: n.name_len,
            _pad: n._pad,
        };
        nodes.set(id as usize, moved);
    }
    assert(found@.take(found@.len() as int) =~= found@);
}

/// Puts together what the workers found under `root`.
#[verifier::rlimit(60)]
pub fn merge(root: &[u8], total_ids: usize, mut outs: Vec<WorkerOut>, errors: usize) -> (r:
    ScanResult)
    requires
        total_ids > 0,
        forall|k: int| 0 <= k < outs@.len() ==> (#[trigger] outs@[k]).wf(),
        ids_below(outs@, total_ids as int),
        merged_names(root@, outs@).len() <= u32::MAX,
        1 + dirs_found(outs@) <= usize::MAX,
        files_found(outs@) <= usize::MAX,
    ensures
        r.dirs.names@ == merged_names(root@, outs@),
        r.dirs.nodes@ == merged_nodes(root@, total_ids as nat, outs@),
        r.shards@ == outs@.map_values(|o: WorkerOut| o.files),
        r.stats == (ScanStats {
            dirs: (1 + dirs_found(outs@)) as usize,
            files: files_found(outs@) as usize,
            errors,
        }),
        r.dirs.nodes@.len() == total_ids,
        forall|i: int|
            0 <= i < total_ids ==> node_ok(r.dirs.names@, #[trigger] r.dirs.nodes@[i]),
        forall|k: int| 0 <= k < r.shards@.len() ==> (#[trigger] r.shards@[k]).wf(),
{
    let ghost all = outs@;
    let count = outs.len();
    let mut names: Vec<u8> = copy(root);
    let mut nodes: Vec<DirNode> = Vec::with_capacity(total_ids);
    for i in 0..total_ids
        invariant
            nodes@ =~= Seq::new(i as nat, |k: int| unused_node()),
    {
        nodes.push(DirNode::default());
    }
    nodes.set(
        0,
        DirNode {
            name_off: 0,
            parent: u32::MAX,
            name_len: (root.len() % 0x1_0000) as u16,
            _pad: 0,
        },
    );
    let mut dirs: usize = 1;
    let mut files: usize = 0;
    let mut shards: Vec<FileShard> = Vec::with_capacity(count);
    proof {
        lemma_merged(root@, total_ids as nat, all);
        assert(all.take(0) =~= Seq::empty());
        assert(all.skip(0) =~= all);
        assert(shards@ =~= all.take(0).map_values(|o: WorkerOut| o.files));
    }
    for i in 0..count
        invariant
            count == all.len(),
            outs@ == all.skip(i as int),
            forall|k: int| 0 <= k < all.len() ==> (#[trigger] all[k]).wf(),
            ids_below(all, total_ids as int),
            merged_names(root@, all).len() <= u32::MAX,
            1 + dirs_found(all) <= usize::MAX,
            files_found(all) <= usize::MAX,
            names@ == merged_names(root@, all.take(i as int)),
            nodes@ == merged_nodes(root@, total_ids as nat, all.take(i as int)),
            nodes@.len() == total_ids,
            dirs == 1 + dirs_found(all.take(i as int)),
            files == files_found(all.take(i as int)),
            shards@ == all.take(i as int).map_values(|o: WorkerOut| o.files),
    {
        let out = outs.remove(0);
        proof {
            assert(out == all[i as int]);
            assert(outs@ =~= all.skip(i + 1));
            assert(all.take(i + 1).drop_last() =~= all.take(i as int));
            assert(all.take(i + 1).last() == out);
            lemma_names_prefix(root@, all, i + 1);
            lemma_names_prefix(root@, all, i as int);
            lemma_found_prefix(all, i + 1);
            assert forall|j: int| 0 <= j < out.dir_nodes@.len() implies (
            #[trigger] out.dir_nodes@[j]).0 < total_ids && out.dir_nodes@[j].1.name_off
                + names@.len() <= u32::MAX by {
                assert(all[i as int].dir_nodes@[j].0 < total_ids);
                assert(node_ok(out.dir_names@, out.dir_nodes@[j].1));
            }
        }
        let base = names.len() as u32;
        extend(&mut names, out.dir_names.as_slice());
        dirs += out.dir_nodes.len();
        files += out.files.recs.len();
        place(&mut nodes, &out.dir_nodes, base);
        shards.push(out.files);
        assert(shards@ =~= all.take(i + 1).map_values(|o: WorkerOut| o.files));
    }
    assert(all.take(all.len() as int) =~= all);
    let stats = ScanStats { dirs, files, errors };
    ScanResult { dirs: DirTable { names, nodes }, shards, stats }
}

/// No two directories were given one id.
pub open spec fn ids_distinct(outs: Seq<WorkerOut>) -> bool {
    forall|k: int, j: int, l: int, m: int|
        0 <= k < outs.len() && 0 <= j < outs[k].dir_nodes@.len() && 0 <= l < outs.len() && 0 <= m
            < outs[l].dir_nodes@.len() && !(k == l && j == m) ==> (#[trigger] outs[k].dir_nodes@[j]).0
            != (#[trigger] outs[l].dir_nodes@[m]).0
}

proof fn lemma_placed_at(nodes: Seq<DirNode>, found: Seq<(u32, DirNode)>, base: int, j: int)
    requires
        0 <= j < found.len(),
        found[j].0 < nodes.len(),
        forall|m: int| j < m < found.len() ==> (#[trigger] found[m]).0 != found[j].0,
        forall|m: int| 0 <= m < found.len() ==> (#[trigger] found[m]).0 < nodes.len(),
    ensures
        placed(nodes, found, base).len() == nodes.len(),
        placed(nodes, found, base)[found[j].0 as int] == (DirNode {
            name_off: (found[j].1.name_off + base) as u32,
            ..found[j].1
        }),
    decreases found.len(),
{
    let front = found.drop_last();
    assert forall|m: int| 0 <= m < front.len() implies front[m] == #[trigger] found[m] by {}
    if j < front.len() {
        lemma_placed_at(nodes, front, base, j);
        assert(found[found.len() - 1].0 != found[j].0);
    } else {
        lemma_placed_len(nodes, front, base);
    }
}

proof fn lemma_placed_len(nodes: Seq<DirNode>, found: Seq<(u32, DirNode)>, base: int)
    requires
        forall|m: int| 0 <= m < found.len() ==> (#[trigger] found[m]).0 < nodes.len(),
    ensures
        placed(nodes, found, base).len() == nodes.len(),
    decreases found.len(),
{
    if found.len() > 0 {
        let front = found.drop_last();
        assert forall|m: int| 0 <= m < front.len() implies front[m] == #[trigger] found[m] by {}
        lemma_placed_len(nodes, front, base);
        assert(found[found.len() - 1].0 < nodes.len());
    }
}

proof fn lemma_placed_elsewhere(nodes: Seq<DirNode>, found: Seq<(u32, DirNode)>, base: int, id: int)
    requires
        0 <= id < nodes.len(),
        forall|m: int|
            0 <= m < found.len() ==> (#[trigger] found[m]).0 != id && found[m].0 < nodes.len(),
    ensures
        placed(nodes, found, base).len() == nodes.len(),
        placed(nodes, found, base)[id] == nodes[id],
    decreases found.len(),
{
    if found.len() > 0 {
        let front = found.drop_last();
        assert forall|m: int| 0 <= m < front.len() implies (#[trigger] front[m]).0 != id
            && front[m].0 < nodes.len() by {
            assert(front[m] == found[m]);
        }
        lemma_placed_elsewhere(nodes, front, base, id);
        assert(found[found.len() - 1].0 != id);
    }
}

/// Merging loses no directory: each stands in the merged table under its id, with
/// the name and the parent that its worker gave it.
#[verifier::rlimit(60)]
pub proof fn law_merge_keeps_dirs(
    root: Seq<u8>,
    total_ids: nat,
    outs: Seq<WorkerOut>,
    k: int,
    j: int,
)
    requires
        total_ids > 0,
        forall|k: int| 0 <= k < outs.len() ==> (#[trigger] outs[k]).wf(),
        ids_below(outs, total_ids as int),
        ids_distinct(outs),
        merged_names(root, outs).len() <= u32::MAX,
        0 <= k < outs.len(),
        0 <= j < outs[k].dir_nodes@.len(),
    ensures
        dir_item(
            merged_names(root, outs),
            merged_nodes(root, total_ids, outs)[outs[k].dir_nodes@[j].0 as int],
        ) == dir_item(outs[k].dir_names@, outs[k].dir_nodes@[j].1),
    decreases outs.len(),
{
    let front = outs.drop_last();
    let last = outs.len() - 1;
    let names = merged_names(root, front);
    let nodes = merged_nodes(root, total_ids, front);
    let found = outs.last().dir_nodes@;
    let (id, n) = outs[k].dir_nodes@[j];
    assert(id < total_ids);
    assert(outs[k].wf());
    assert(outs[last].wf());
    assert(node_ok(outs[k].dir_names@, outs[k].dir_nodes@[j].1));
    assert forall|a: int| 0 <= a < front.len() implies front[a] == #[trigger] outs[a] by {}
    assert forall|a: int, b: int|
        0 <= a < front.len() && 0 <= b < front[a].dir_nodes@.len() implies (
    #[trigger] front[a].dir_nodes@[b]).0 < total_ids by {
        assert(outs[a].dir_nodes@[b].0 < total_ids);
    }
    assert(ids_distinct(front)) by {
        assert forall|a: int, b: int, c: int, d: int|
            0 <= a < front.len() && 0 <= b < front[a].dir_nodes@.len() && 0 <= c < front.len() && 0
                <= d < front[c].dir_nodes@.len() && !(a == c && b == d) implies (
        #[trigger] front[a].dir_nodes@[b]).0 != (#[trigger] front[c].dir_nodes@[d]).0 by {
            assert(outs[a].dir_nodes@[b].0 != outs[c].dir_nodes@[d].0);
        }
    }
    lemma_merged(root, total_ids, front);
    assert forall|m: int| 0 <= m < found.len() implies (#[trigger] found[m]).0 < total_ids by {
        assert(outs[last].dir_nodes@[m].0 < total_ids);
    }
    if k == last {
        assert forall|m: int| j < m < found.len() implies (#[trigger] found[m]).0 != found[j].0 by {
            assert(outs[last].dir_nodes@[m].0 != outs[last].dir_nodes@[j].0);
        }
        lemma_placed_at(nodes, found, names.len() as int, j);
        let moved = DirNode { name_off: (n.name_off + names.len()) as u32, ..n };
        assert(dir_item(names + outs.last().dir_names@, moved).name =~= dir_item(
            outs[k].dir_names@,
            n,
        ).name);
    } else {
        assert forall|m: int| 0 <= m < found.len() implies (#[trigger] found[m]).0 != id by {
            assert(outs[last].dir_nodes@[m].0 != outs[k].dir_nodes@[j].0);
        }
        law_merge_keeps_dirs(root, total_ids, front, k, j);
        lemma_placed_elsewhere(nodes, found, names.len() as int, id as int);
        lemma_arena_grows(names, outs.last().dir_names@);
        assert(node_ok(names, nodes[id as int]));
    }
}

// --- ids ---

/// `id` belongs to the batch that starts at `base`.
pub open spec fn in_batch(base: u32, id: u32) -> bool {
    base <= id < base + ID_BATCH
}

/// The batches that start at `a` and at `b` have no id in common.
pub open spec fn apart(a: u32, b: u32) -> bool {
    a + ID_BATCH <= b || b + ID_BATCH <= a
}

/// `id` belongs to one of the batches `bases`.
pub open spec fn in_some_batch(bases: Seq<u32>, id: u32) -> bool {
    exists|a: int| 0 <= a < bases.len() && in_batch(#[trigger] bases[a], id)
}

/// The ids were drawn from the batches `bases`, those of one batch in rising order.
pub open spec fn drawn(ids: Seq<u32>, bases: Seq<u32>) -> bool {
    &&& forall|j: int| 0 <= j < ids.len() ==> in_some_batch(bases, #[trigger] ids[j])
    &&& forall|j: int, m: int, a: int|
        0 <= j < m < ids.len() && 0 <= a < bases.len() && in_batch(
            #[trigger] bases[a],
            #[trigger] ids[j],
        ) && in_batch(bases[a], #[trigger] ids[m]) ==> ids[j] < ids[m]
}

/// The ids that stand in a table of directories.
pub open spec fn ids_in(nodes: Seq<(u32, DirNode)>) -> Seq<u32> {
    nodes.map_values(|n: (u32, DirNode)| n.0)
}

impl Worker {
    /// The worker was given the batches `bases`, and all its ids come from them.
    pub open spec fn draws_from(&self, bases: Seq<u32>) -> bool {
        &&& drawn(ids_in(self.dir_nodes@), bases)
        &&& forall|a: int, b: int|
            0 <= a < b < bases.len() ==> apart(#[trigger] bases[a], #[trigger] bases[b])
        &&& if bases.len() == 0 {
            self.id_cursor == self.id_end
        } else {
            &&& self.id_end == bases.last() + ID_BATCH
            &&& bases.last() <= self.id_cursor <= self.id_end
            &&& forall|j: int|
                0 <= j < self.dir_nodes@.len() && in_batch(
                    bases.last(),
                    (#[trigger] self.dir_nodes@[j]).0,
                ) ==> self.dir_nodes@[j].0 < self.id_cursor
        }
    }
}

/// A worker that has found nothing has drawn no id.
pub proof fn law_new_worker_has_no_ids(w: Worker)
    requires
        w.dir_nodes@.len() == 0,
        w.id_cursor == w.id_end,
    ensures
        w.draws_from(Seq::empty()),
{
}

/// With a batch that has no id in common with those before, a worker draws from that batch
/// too.
pub proof fn law_refill_adds_a_batch(w: Worker, bases: Seq<u32>, base: u32)
    requires
        w.draws_from(bases),
        base + ID_BATCH <= u32::MAX,
        forall|a: int| 0 <= a < bases.len() ==> apart(#[trigger] bases[a], base),
    ensures
        (Worker { id_cursor: base, id_end: (base + ID_BATCH) as u32, ..w }).draws_from(
            bases.push(base),
        ),
{
    let ids = ids_in(w.dir_nodes@);
    let more = bases.push(base);
    assert forall|j: int| 0 <= j < ids.len() implies !in_batch(base, #[trigger] ids[j]) by {
        let a = choose|a: int| 0 <= a < bases.len() && in_batch(#[trigger] bases[a], ids[j]);
        assert(apart(bases[a], base));
    }
    assert forall|j: int| 0 <= j < ids.len() implies in_some_batch(more, #[trigger] ids[j]) by {
        let a = choose|a: int| 0 <= a < bases.len() && in_batch(#[trigger] bases[a], ids[j]);
        assert(in_batch(more[a], ids[j]));
    }
    assert forall|j: int, m: int, a: int|
        0 <= j < m < ids.len() && 0 <= a < more.len() && in_batch(
            #[trigger] more[a],
            #[trigger] ids[j],
        ) && in_batch(more[a], #[trigger] ids[m]) implies ids[j] < ids[m] by {
        if a < bases.len() {
            assert(more[a] == bases[a]);
        }
    }
    assert forall|a: int, b: int| 0 <= a < b < more.len() implies apart(
        #[trigger] more[a],
        #[trigger] more[b],
    ) by {
        assert(more[a] == bases[a]);
        if b < bases.len() {
            assert(more[b] == bases[b]);
        }
    }
    let next = Worker { id_cursor: base, id_end: (base + ID_BATCH) as u32, ..w };
    assert forall|j: int|
        0 <= j < next.dir_nodes@.len() && in_batch(
            base,
            (#[trigger] next.dir_nodes@[j]).0,
        ) implies next.dir_nodes@[j].0 < next.id_cursor by {
        assert(ids[j] == w.dir_nodes@[j].0);
    }
    assert(drawn(ids_in(next.dir_nodes@), more));
    assert(more.last() == base);
    assert(next.draws_from(more));
}

/// A directory that a worker enters in its table gets an id of its own, out of the worker's
/// batches.
pub proof fn law_registering_draws_the_next_id(w: Worker, next: Worker, bases: Seq<u32>)
    requires
        w.draws_from(bases),
        w.id_cursor < w.id_end,
        next.dirs().len() == w.dirs().len() + 1,
        forall|j: int|
            0 <= j < w.dirs().len() ==> (#[trigger] next.dirs()[j]).0 == w.dirs()[j].0,
        next.dirs().last().0 == w.id_cursor,
        next.id_cursor == w.id_cursor + 1,
        next.id_end == w.id_end,
    ensures
        next.draws_from(bases),
{
    let ids = ids_in(w.dir_nodes@);
    let more = ids_in(next.dir_nodes@);
    let n = ids.len() as int;
    let top = bases.len() - 1;
    assert forall|j: int| 0 <= j < n implies #[trigger] more[j] == ids[j] by {
        assert(next.dirs()[j].0 == w.dirs()[j].0);
    }
    assert(more[n] == w.id_cursor);
    assert(in_batch(bases[top], more[n]));
    assert forall|j: int| 0 <= j < more.len() implies in_some_batch(bases, #[trigger] more[j]) by {
        if j < n {
            let a = choose|a: int| 0 <= a < bases.len() && in_batch(#[trigger] bases[a], ids[j]);
            assert(in_batch(bases[a], more[j]));
        }
    }
    assert forall|j: int, m: int, a: int|
        0 <= j < m < more.len() && 0 <= a < bases.len() && in_batch(
            #[trigger] bases[a],
            #[trigger] more[j],
        ) && in_batch(bases[a], #[trigger] more[m]) implies more[j] < more[m] by {
        assert(more[j] == ids[j]);
        if m < n {
            assert(more[m] == ids[m]);
        } else {
            if a != top {
                assert(apart(bases[a], bases[top]));
            }
            assert(w.dir_nodes@[j].0 == ids[j]);
        }
    }
    assert forall|j: int|
        0 <= j < next.dir_nodes@.len() && in_batch(
            bases.last(),
            (#[trigger] next.dir_nodes@[j]).0,
        ) implies next.dir_nodes@[j].0 < next.id_cursor by {
        assert(next.dir_nodes@[j].0 == more[j]);
        if j < n {
            assert(w.dir_nodes@[j].0 == ids[j]);
        }
    }
}

/// The batches that were handed out: none holds id 0 or reaches beyond the counter, and no
/// two have an id in common. `batches[k]` are those of worker `k`.
pub open spec fn batches_ok(batches: Seq<Seq<u32>>, total_ids: int) -> bool {
    &&& forall|k: int, a: int|
        0 <= k < batches.len() && 0 <= a < batches[k].len() ==> 1 <= (#[trigger] batches[k][a])
            && batches[k][a] + ID_BATCH <= total_ids
    &&& forall|k: int, a: int, l: int, b: int|
        0 <= k < batches.len() && 0 <= a < batches[k].len() && 0 <= l < batches.len() && 0 <= b
            < batches[l].len() && !(k == l && a == b) ==> apart(
            #[trigger] batches[k][a],
            #[trigger] batches[l][b],
        )
}

/// No directory that was found was given the id of the root.
pub open spec fn root_spared(outs: Seq<WorkerOut>) -> bool {
    forall|k: int, j: int|
        0 <= k < outs.len() && 0 <= j < outs[k].dir_nodes@.len() ==> (
        #[trigger] outs[k].dir_nodes@[j]).0 != 0
}

/// Workers that draw from batches of their own give every directory an id that no other has,
/// that was handed out, and that is not the root's.
#[verifier::rlimit(60)]
pub proof fn law_ids_are_handed_out_once(
    outs: Seq<WorkerOut>,
    batches: Seq<Seq<u32>>,
    total_ids: int,
)
    requires
        batches.len() == outs.len(),
        batches_ok(batches, total_ids),
        forall|k: int|
            0 <= k < outs.len() ==> drawn(ids_in((#[trigger] outs[k]).dir_nodes@), batches[k]),
    ensures
        ids_below(outs, total_ids),
        ids_distinct(outs),
        root_spared(outs),
{
    assert forall|k: int, j: int|
        0 <= k < outs.len() && 0 <= j < outs[k].dir_nodes@.len() implies 0 < (
    #[trigger] outs[k].dir_nodes@[j]).0 < total_ids by {
        let a = lemma_batch_of(outs, batches, k, j);
        assert(1 <= batches[k][a]);
    }
    assert forall|k: int, j: int, l: int, m: int|
        0 <= k < outs.len() && 0 <= j < outs[k].dir_nodes@.len() && 0 <= l < outs.len() && 0 <= m
            < outs[l].dir_nodes@.len() && !(k == l && j == m) implies (
    #[trigger] outs[k].dir_nodes@[j]).0 != (#[trigger] outs[l].dir_nodes@[m]).0 by {
        let a = lemma_batch_of(outs, batches, k, j);
        let b = lemma_batch_of(outs, batches, l, m);
        if k == l && a == b {
            let ids = ids_in(outs[k].dir_nodes@);
            assert(drawn(ids, batches[k]));
            assert(ids[j] == outs[k].dir_nodes@[j].0);
            assert(ids[m] == outs[l].dir_nodes@[m].0);
            if j < m {
                assert(ids[j] < ids[m]);
            } else {
                assert(ids[m] < ids[j]);
            }
        } else {
            assert(apart(batches[k][a], batches[l][b]));
        }
    }
}

proof fn lemma_batch_of(outs: Seq<WorkerOut>, batches: Seq<Seq<u32>>, k: int, j: int) -> (a: int)
    requires
        0 <= k < outs.len(),
        drawn(ids_in(outs[k].dir_nodes@), batches[k]),
        0 <= j < outs[k].dir_nodes@.len(),
    ensures
        0 <= a < batches[k].len(),
        in_batch(batches[k][a], outs[k].dir_nodes@[j].0),
{
    let ids = ids_in(outs[k].dir_nodes@);
    assert(ids[j] == outs[k].dir_nodes@[j].0);
    assert(in_some_batch(batches[k], ids[j]));
    choose|a: int| 0 <= a < batches[k].len() && in_batch(#[trigger] batches[k][a], ids[j])
}

/// Merging leaves the root where it is: directory 0, with its path for a name and no parent.
pub proof fn law_merge_keeps_the_root(root: Seq<u8>, total_ids: nat, outs: Seq<WorkerOut>)
    requires
        total_ids > 0,
        ids_below(outs, total_ids as int),
        root_spared(outs),
    ensures
        merged_nodes(root, total_ids, outs).len() == total_ids,
        merged_nodes(root, total_ids, outs)[0] == (DirNode {
            name_off: 0,
            parent: u32::MAX,
            name_len: (root.len() % 0x1_0000) as u16,
            _pad: 0,
        }),
        root.is_prefix_of(merged_names(root, outs)),
        dir_item(merged_names(root, outs), merged_nodes(root, total_ids, outs)[0]) == (DirItem {
            name: kept(root),
            parent: u32::MAX,
        }),
    decreases outs.len(),
{
    if outs.len() > 0 {
        let front = outs.drop_last();
        let last = outs.len() - 1;
        let found = outs.last().dir_nodes@;
        assert forall|k: int, j: int|
            0 <= k < front.len() && 0 <= j < front[k].dir_nodes@.len() implies 0 < (
        #[trigger] front[k].dir_nodes@[j]).0 < total_ids by {
            assert(front[k] == outs[k]);
            assert(outs[k].dir_nodes@[j].0 != 0 && outs[k].dir_nodes@[j].0 < total_ids);
        }
        law_merge_keeps_the_root(root, total_ids, front);
        assert forall|m: int| 0 <= m < found.len() implies (#[trigger] found[m]).0 != 0
            && found[m].0 < total_ids by {
            assert(outs[last].dir_nodes@[m].0 != 0 && outs[last].dir_nodes@[m].0 < total_ids);
        }
        lemma_placed_elsewhere(
            merged_nodes(root, total_ids, front),
            found,
            merged_names(root, front).len() as int,
            0,
        );
    }
    let names = merged_names(root, outs);
    lemma_names_prefix(root, outs, 0);
    assert(outs.take(0) =~= Seq::empty());
    assert(names.take(root.len() as int) =~= root);
    assert(names.subrange(0, (root.len() % 0x1_0000) as int) =~= kept(root));
}

/// What directory `j` of worker `k` is.
pub open spec fn found_dir(outs: Seq<WorkerOut>, k: int, j: int) -> DirItem {
    dir_item(outs[k].dir_names@, outs[k].dir_nodes@[j].1)
}

/// Merging makes no directory up: one that is in use, other than the root, was found by a
/// worker.
pub proof fn law_merge_adds_no_dirs(root: Seq<u8>, total_ids: nat, outs: Seq<WorkerOut>, id: int)
    requires
        ids_below(outs, total_ids as int),
        1 <= id < total_ids,
        merged_nodes(root, total_ids, outs)[id].name_len > 0,
    ensures
        merged_nodes(root, total_ids, outs).len() == total_ids,
        exists|k: int, j: int|
            0 <= k < outs.len() && 0 <= j < outs[k].dir_nodes@.len() && (
            #[trigger] outs[k].dir_nodes@[j]).0 == id,
    decreases outs.len(),
{
    lemma_merged_len(root, total_ids, outs);
    if outs.len() > 0 {
        let front = outs.drop_last();
        let last = outs.len() - 1;
        let found = outs.last().dir_nodes@;
        let nodes = merged_nodes(root, total_ids, front);
        if exists|m: int| 0 <= m < found.len() && (#[trigger] found[m]).0 == id {
            let m = choose|m: int| 0 <= m < found.len() && (#[trigger] found[m]).0 == id;
            assert(outs[last].dir_nodes@[m].0 == id);
        } else {
            assert forall|k: int, j: int|
                0 <= k < front.len() && 0 <= j < front[k].dir_nodes@.len() implies (
            #[trigger] front[k].dir_nodes@[j]).0 < total_ids by {
                assert(outs[k].dir_nodes@[j].0 < total_ids);
            }
            assert forall|m: int| 0 <= m < found.len() implies (#[trigger] found[m]).0 != id
                && found[m].0 < total_ids by {
                assert(outs[last].dir_nodes@[m].0 < total_ids);
            }
            lemma_merged_len(root, total_ids, front);
            lemma_placed_elsewhere(nodes, found, merged_names(root, front).len() as int, id);
            law_merge_adds_no_dirs(root, total_ids, front, id);
            let (k, j) = choose|k: int, j: int|
                0 <= k < front.len() && 0 <= j < front[k].dir_nodes@.len() && (
                #[trigger] front[k].dir_nodes@[j]).0 == id;
            assert(outs[k].dir_nodes@[j].0 == id);
        }
    }
}

proof fn lemma_merged_len(root: Seq<u8>, total_ids: nat, outs: Seq<WorkerOut>)
    requires
        total_ids > 0,
        ids_below(outs, total_ids as int),
    ensures
        merged_nodes(root, total_ids, outs).len() == total_ids,
    decreases outs.len(),
{
    if outs.len() > 0 {
        let front = outs.drop_last();
        let last = outs.len() - 1;
        let found = outs.last().dir_nodes@;
        assert forall|k: int, j: int|
            0 <= k < front.len() && 0 <= j < front[k].dir_nodes@.len() implies (
        #[trigger] front[k].dir_nodes@[j]).0 < total_ids by {
            assert(outs[k].dir_nodes@[j].0 < total_ids);
        }
        assert forall|m: int| 0 <= m < found.len() implies (#[trigger] found[m]).0 < total_ids by {
            assert(outs[last].dir_nodes@[m].0 < total_ids);
        }
        lemma_merged_len(root, total_ids, front);
        lemma_placed_len(
            merged_nodes(root, total_ids, front),
            found,
            merged_names(root, front).len() as int,
        );
    }
}

// --- what listings, tasks and paths are for ---

/// An entry as the system writes it: its length, where in it the name stands, the name, and
/// the kind of the entry.
pub ghost struct RawEntry {
    pub len: u32,
    pub at: int,
    pub name: Seq<u8>,
    pub kind: u32,
}

/// `e` stands in `buf` at `off`: its length first, at 28 where the name is, counted from
/// there, and how long it is with its NUL, at 36 the kind; the name lies inside the entry.
pub open spec fn stands_at(buf: Seq<u8>, off: int, e: RawEntry) -> bool {
    &&& 48 <= e.len
    &&& off + e.len <= buf.len()
    &&& 0 <= e.at < 0x8000_0000
    &&& e.at + e.name.len() + 1 <= e.len
    &&& e.name.len() > 0
    &&& buf.subrange(off, off + 4) == spec_u32_to_le_bytes(e.len)
    &&& buf.subrange(off + 28, off + 32) == spec_u32_to_le_bytes(
        if e.at >= 28 {
            (e.at - 28) as u32
        } else {
            (e.at - 28 + 0x1_0000_0000) as u32
        },
    )
    &&& buf.subrange(off + 32, off + 36) == spec_u32_to_le_bytes((e.name.len() + 1) as u32)
    &&& buf.subrange(off + 36, off + 40) == spec_u32_to_le_bytes(e.kind)
    &&& buf.subrange(off + e.at, off + e.at + e.name.len()) == e.name
}

/// The entries stand in `buf` from `off` on, one behind the other.
pub open spec fn stand_from(buf: Seq<u8>, off: int, es: Seq<RawEntry>) -> bool
    decreases es.len(),
{
    es.len() == 0 || (stands_at(buf, off, es[0]) && stand_from(buf, off + es[0].len, es.skip(1)))
}

/// What the entries say: the directories, files and links among them, in order.
pub open spec fn they_say(es: Seq<RawEntry>) -> Seq<Listed>
    decreases es.len(),
{
    if es.len() == 0 {
        Seq::empty()
    } else {
        let rest = they_say(es.skip(1));
        let name = es[0].name;
        if es[0].kind == 2 {
            seq![Listed { name, is_dir: true, is_link: false }] + rest
        } else if es[0].kind == 1 {
            seq![Listed { name, is_dir: false, is_link: false }] + rest
        } else if es[0].kind == 5 {
            seq![Listed { name, is_dir: false, is_link: true }] + rest
        } else {
            rest
        }
    }
}

proof fn lemma_entry_read(buf: Seq<u8>, off: int, e: RawEntry)
    requires
        0 <= off,
        stands_at(buf, off, e),
    ensures
        entry_fits(buf, off, 48),
        u32_at(buf, off) == e.len,
        entry_name(buf, off) == Some(e.name),
        u32_at(buf, off + 36) == e.kind,
{
    let rel: u32 = if e.at >= 28 {
        (e.at - 28) as u32
    } else {
        (e.at - 28 + 0x1_0000_0000) as u32
    };
    lemma_u32_at(buf, off, e.len);
    lemma_u32_at(buf, off + 28, rel);
    lemma_u32_at(buf, off + 32, (e.name.len() + 1) as u32);
    lemma_u32_at(buf, off + 36, e.kind);
    assert(signed32(rel) == e.at - 28);
    assert(buf.subrange(off + e.at, off + e.at + (e.name.len() + 1) - 1) =~= e.name);
}

proof fn lemma_batch_reads(buf: Seq<u8>, off: int, es: Seq<RawEntry>)
    requires
        0 <= off,
        stand_from(buf, off, es),
    ensures
        batch(buf, off, es.len(), 48) == they_say(es),
    decreases es.len(),
{
    if es.len() > 0 {
        let e = es[0];
        lemma_entry_read(buf, off, e);
        lemma_batch_reads(buf, off + e.len, es.skip(1));
        assert(es.skip(1).len() == es.len() - 1);
    }
}

/// What the system writes into a buffer is read as it was written: every directory, every
/// file and every link, whatever its name, in order; entries of other kinds are left out.
pub proof fn law_listings_are_read_as_written(buf: Seq<u8>, es: Seq<RawEntry>)
    requires
        stand_from(buf, 0, es),
    ensures
        batch(buf, 0, es.len(), 48) == they_say(es),
{
    lemma_batch_reads(buf, 0, es);
}

/// Every entry of a listing is taken: a directory to be gone into, anything else as a file of
/// the directory, marked where it is a link. Names of less than 65536 bytes stay as they are.
pub proof fn law_every_entry_is_taken(es: Seq<Listed>, e: Listed, parent: u32)
    ensures
        listed_dirs(Seq::empty()) == Seq::<Seq<u8>>::empty(),
        listed_files(Seq::empty(), parent) == Seq::<FileItem>::empty(),
        e.is_dir ==> listed_files(es.push(e), parent) == listed_files(es, parent),
        e.is_dir && e.name.len() <= 65535 ==> listed_dirs(es.push(e)) == listed_dirs(es).push(
            e.name,
        ),
        !e.is_dir ==> listed_dirs(es.push(e)) == listed_dirs(es),
        !e.is_dir && e.name.len() <= 65535 ==> listed_files(es.push(e), parent) == listed_files(
            es,
            parent,
        ).push(
            FileItem {
                name: e.name,
                parent,
                flags: if e.is_link {
                    1
                } else {
                    0
                },
            },
        ),
        listed_dirs(es).len() + listed_files(es, parent).len() == es.len(),
{
    let all = es.push(e);
    assert(all.drop_last() =~= es);
    law_short_names_are_kept(e.name);
    lemma_taken_count(es, parent);
}

proof fn lemma_taken_count(es: Seq<Listed>, parent: u32)
    ensures
        listed_dirs(es).len() + listed_files(es, parent).len() == es.len(),
    decreases es.len(),
{
    if es.len() > 0 {
        lemma_taken_count(es.drop_last(), parent);
    }
}

/// A name of less than 65536 bytes is kept whole.
pub proof fn law_short_names_are_kept(name: Seq<u8>)
    ensures
        name.len() <= 65535 ==> kept(name) == name,
        kept(name).is_prefix_of(name),
{
    if name.len() <= 65535 {
        assert(kept(name) =~= name);
    }
    let k = kept(name);
    assert(name.subrange(0, k.len() as int) =~= k);
}

/// A worker shares only what it need not keep: nothing where nobody is idle and it is not too
/// deep; about half where somebody is, so that both have work; all where it is too deep.
pub proof fn law_work_is_shared(n: int, idle: int, depth: int)
    requires
        0 <= n,
        0 <= idle,
        0 <= depth,
    ensures
        0 <= kept_back(n, idle, depth) <= n,
        depth < 64 && idle == 0 ==> kept_back(n, idle, depth) == n,
        depth < 64 && n <= 1 ==> kept_back(n, idle, depth) == n,
        depth < 64 && idle > 0 && n > 1 ==> kept_back(n, idle, depth) == n / 2,
        depth < 64 && idle > 0 && n > 1 ==> 0 < kept_back(n, idle, depth) < n,
        depth >= 64 ==> kept_back(n, idle, depth) == 0,
{
}

/// No subdirectory is lost when work is shared: each is kept or becomes a task, with its own
/// path and id.
pub proof fn law_every_subdirectory_is_gone_into(
    path: Seq<u8>,
    names: Seq<Seq<u8>>,
    ids: Seq<u32>,
    from: int,
    i: int,
)
    requires
        0 <= from <= names.len(),
        0 <= i < names.len(),
    ensures
        from + tasks_for(path, names, ids, from).len() == names.len(),
        i >= from ==> tasks_for(path, names, ids, from)[i - from].1 == ids[i],
        i >= from && (path.len() == 0 || path.last() != 0x2f) ==> tasks_for(path, names, ids, from)[i
            - from].0 == path + seq![0x2fu8] + names[i],
        i >= from && path.len() > 0 && path.last() == 0x2f ==> tasks_for(path, names, ids, from)[i
            - from].0 == path + names[i],
{
    law_joining_puts_one_separator(path, names[i]);
}

/// A worker takes a task wherever there is one; the scan is over only when every worker is
/// idle and no task is left, and then every worker stops.
pub proof fn law_no_task_is_left(queued: int, done: bool, idle: int, workers: int)
    requires
        0 <= queued,
    ensures
        step_of(queued, done, idle, workers) == Step::Take <==> queued > 0,
        step_of(queued, done, idle, workers) == Step::Finish <==> queued == 0 && !done && idle
            == workers,
        step_of(queued, done, idle, workers) == Step::Stop <==> queued == 0 && done,
        step_of(queued, done, idle, workers) == Step::Wait <==> queued == 0 && !done && idle
            != workers,
{
}

/// The root of a scan has no separator at its end, but for `/` itself.
pub proof fn law_roots_end_in_a_name(dir: Seq<u8>, n: nat)
    ensures
        dir.len() > 0 && dir.last() != 0x2f ==> root_path(dir + Seq::new(n, |i: int| 0x2fu8)) == dir,
        root_path(Seq::new(n, |i: int| 0x2fu8)) == seq![0x2fu8],
    decreases n,
{
    let tail = Seq::new(n, |i: int| 0x2fu8);
    if n == 0 {
        assert(dir + tail =~= dir);
        assert(tail =~= Seq::empty());
    } else {
        let m = (n - 1) as nat;
        let less = Seq::new(m, |i: int| 0x2fu8);
        law_roots_end_in_a_name(dir, m);
        assert((dir + tail).drop_last() =~= dir + less);
        assert(tail.drop_last() =~= less);
    }
}

/// A byte and the character it is read as are the same eight bits.
pub proof fn law_characters_are_bytes(b: u8)
    ensures
        as_char(b) == b || as_char(b) == b - 256,
{
}

/// A scan counts the root and every directory that was found, and every file.
pub proof fn law_scans_count_what_was_found(outs: Seq<WorkerOut>, o: WorkerOut)
    ensures
        dirs_found(Seq::empty()) == 0,
        files_found(Seq::empty()) == 0,
        dirs_found(outs.push(o)) == dirs_found(outs) + o.dir_nodes@.len(),
        files_found(outs.push(o)) == files_found(outs) + o.files.recs@.len(),
{
    assert(outs.push(o).drop_last() =~= outs);
}

/// A directory is scanned where it is known to lie on the volume of the root, and not
/// otherwise.
pub proof fn law_other_volumes_are_left_alone(dev: i64, root_dev: i64)
    ensures
        gone_into(Some(dev), root_dev) <==> dev == root_dev,
        !gone_into(None, root_dev),
{
}

/// A name of up to 255 bytes is handed to the system with a zero behind it; a longer one is
/// not.
pub proof fn law_names_are_closed_by_a_zero(name: Seq<u8>)
    ensures
        name.len() <= 255 ==> c_string(name) == Some(name + seq![0u8]),
        name.len() > 255 ==> c_string(name) is None,
{
    assert(name.push(0) =~= name + seq![0u8]);
}

/// Ids are handed out five hundred and twelve at a time.
pub proof fn law_ids_come_in_batches()
    ensures
        ID_BATCH == 512,
{
}

/// Reading a listing stops where as many entries as were announced have been read, and before
/// an entry that is cut short or says that it is shorter than any; an entry whose name is
/// empty or does not lie inside it is passed over.
pub proof fn law_broken_entries_are_not_read(buf: Seq<u8>, off: int, n: nat, min_len: int)
    requires
        0 <= off,
        40 <= min_len,
    ensures
        n == 0 ==> batch(buf, off, n, min_len).len() == 0,
        off + min_len > buf.len() ==> batch(buf, off, n, min_len).len() == 0,
        u32_at(buf, off) < min_len || off + u32_at(buf, off) > buf.len() ==> batch(
            buf,
            off,
            n,
            min_len,
        ).len() == 0,
        n > 0 && off + min_len <= buf.len() && min_len <= u32_at(buf, off) && off + u32_at(buf, off)
            <= buf.len() && {
            let rel = u32_at(buf, off + 28);
            let len = u32_at(buf, off + 32);
            ||| len < 2
            ||| rel < 0x8000_0000 && 28 + rel + len > u32_at(buf, off)
            ||| rel >= 0x8000_0000 && rel < 0x1_0000_0000 - 28
            ||| rel >= 0x1_0000_0000 - 28 && 28 + rel - 0x1_0000_0000 + len > u32_at(buf, off)
        } ==> batch(buf, off, n, min_len) == batch(
            buf,
            off + u32_at(buf, off),
            (n - 1) as nat,
            min_len,
        ),
{
}

} // verus!
