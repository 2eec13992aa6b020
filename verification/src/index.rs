//! The index file.
//!
//! A file holds a header and five sections: the names and the nodes of the
//! directories, the ids of the directories in the order of their parents, and the
//! names and the records of the files, these too in the order of their parents.
//! Sections start at multiples of 8; the root's path is not stored apart, it stands
//! at the start of the directory names. Integers are little-endian.
//!
//! ```text
//!   0  magic                   56  n_dirs             104  event_id
//!   8  version                 64  file_names_off     112  dev_uuid
//!  16  root_off                72  file_names_len     128  dir_by_parent_off
//!  24  root_len                80  file_recs_off      136  n_dir_by_parent
//!  32  dir_names_off           88  n_files            144  reserved
//!  40  dir_names_len           96  scan_time          192  data
//!  48  dir_nodes_off
//! ```

use vstd::prelude::*;
use vstd::slice::slice_subrange;
#[allow(unused_imports)]
use vstd::bytes::{
    lemma_auto_spec_u16_to_from_le_bytes, lemma_auto_spec_u32_to_from_le_bytes,
    lemma_auto_spec_u64_to_from_le_bytes, spec_u16_to_le_bytes, spec_u32_to_le_bytes,
    spec_u64_to_le_bytes,
};

use crate::bytes::{get_u16, get_u32, get_u64, to_signed64};
#[allow(unused_imports)]
use crate::bytes::{
    lemma_signed64, lemma_u16_at, lemma_u32_at, lemma_u64_at, pattern64, signed64, u16_at, u32_at,
    u64_at,
};
pub use crate::daemon::default_path;
use crate::scan::{DirNode, FileRec};
#[allow(unused_imports)]
use crate::scan::{dir_item, file_item, node_ok, rec_ok, DirItem, FileItem};
#[allow(unused_imports)]
use crate::pick::{
    lemma_picked_all, lemma_picked_concat, lemma_picked_contains, lemma_picked_none, picked,
};
use crate::text::{bytes_eq, copy, extend, join_path, SLASH};
#[allow(unused_imports)]
use crate::text::join;
pub use crate::writer::{align8, build};

verus! {

/// What every index file begins with.
pub const MAGIC: [u8; 8] = [0x4d, 0x59, 0x4c, 0x4f, 0x43, 0x49, 0x44, 0x58];

/// The version of the format.
pub const VERSION: u32 = 2;

/// Where the data starts; what stands before is the header.
pub const DATA_START: u64 = 192;

/// How many directories a path is put together from at most.
pub const MAX_CLIMB: u32 = 256;

/// The header of an index file.
#[derive(Clone, Copy)]
pub struct Header {
    pub magic: [u8; 8],
    pub version: u32,
    pub _pad0: u32,
    pub root_off: u64,
    pub root_len: u64,
    pub dir_names_off: u64,
    pub dir_names_len: u64,
    pub dir_nodes_off: u64,
    pub n_dirs: u64,
    pub file_names_off: u64,
    pub file_names_len: u64,
    pub file_recs_off: u64,
    pub n_files: u64,
    pub scan_time: i64,
    /// Where to take up the stream of file system events.
    pub event_id: u64,
    /// The event database that `event_id` belongs to.
    pub dev_uuid: [u8; 16],
    pub dir_by_parent_off: u64,
    pub n_dir_by_parent: u64,
    pub _reserved: [u8; 40],
}

/// Why a byte string is not an index file.
#[derive(Clone, Copy, PartialEq, Eq, Debug, Structural)]
pub enum IndexError {
    /// Shorter than a header.
    TooSmall,
    /// Another kind of file.
    BadMagic,
    /// Another version of the format.
    BadVersion,
    /// A section reaches beyond the end.
    OutOfRange,
}

/// An index, as read from a file.
pub struct Index {
    header: Header,
    root: Vec<u8>,
    dir_names: Vec<u8>,
    dir_nodes: Vec<DirNode>,
    dir_by_parent: Vec<u32>,
    file_names: Vec<u8>,
    file_recs: Vec<FileRec>,
}

// --- what an index holds ---

/// What an index holds.
pub ghost struct Contents {
    pub root: Seq<u8>,
    pub dir_names: Seq<u8>,
    pub nodes: Seq<DirNode>,
    /// The ids of the directories in the order of their parents.
    pub by_parent: Seq<u32>,
    pub file_names: Seq<u8>,
    /// In the order of their parents.
    pub recs: Seq<FileRec>,
    pub scan_time: i64,
    pub event_id: u64,
    pub dev_uuid: Seq<u8>,
}

/// The part of a path above `name`, extended by it: a separator goes between,
/// unless there is nothing above or it ends in one.
pub open spec fn glue(above: Seq<u8>, name: Seq<u8>) -> Seq<u8> {
    if above.len() == 0 {
        name
    } else {
        join(above, name)
    }
}

/// The path of the directory `id`, put together from the names of at most `levels`
/// directories.
pub open spec fn path_to(dirs: Seq<DirItem>, id: u32, levels: nat) -> Seq<u8>
    decreases levels,
{
    if levels == 0 || id == u32::MAX || id >= dirs.len() {
        Seq::empty()
    } else {
        glue(path_to(dirs, dirs[id as int].parent, (levels - 1) as nat), dirs[id as int].name)
    }
}

/// The path of the directory `id`.
pub open spec fn dir_path_of(dirs: Seq<DirItem>, id: u32) -> Seq<u8> {
    path_to(dirs, id, MAX_CLIMB as nat)
}

/// Every name on the way up from `id` lies inside the arena.
pub open spec fn climb_ok(names: Seq<u8>, nodes: Seq<DirNode>, id: u32, levels: nat) -> bool
    decreases levels,
{
    levels == 0 || id == u32::MAX || id >= nodes.len() || (node_ok(names, nodes[id as int])
        && climb_ok(names, nodes, nodes[id as int].parent, (levels - 1) as nat))
}

/// The names of all directories lie inside the arena.
pub open spec fn nodes_ok(names: Seq<u8>, nodes: Seq<DirNode>) -> bool {
    forall|i: int| 0 <= i < nodes.len() ==> node_ok(names, #[trigger] nodes[i])
}

/// The names of all files lie inside the arena.
pub open spec fn recs_ok(names: Seq<u8>, recs: Seq<FileRec>) -> bool {
    forall|i: int| 0 <= i < recs.len() ==> rec_ok(names, #[trigger] recs[i])
}

/// Directory `id` is in use: the root always is, and any other that has a name.
pub open spec fn in_use(nodes: Seq<DirNode>, id: int) -> bool {
    id == 0 || nodes[id].name_len > 0
}

/// The names of the files stand back to back, in the order of the records, and fill
/// the arena.
pub open spec fn packed(recs: Seq<FileRec>, len: int) -> bool {
    &&& forall|i: int|
        0 <= i < recs.len() - 1 ==> (#[trigger] recs[i]).name_off + recs[i].name_len == recs[i
            + 1].name_off
    &&& if recs.len() == 0 {
        len == 0
    } else {
        recs[0].name_off == 0 && recs.last().name_off + recs.last().name_len == len
    }
}

/// The records stand in the order of their parents.
pub open spec fn recs_sorted(recs: Seq<FileRec>) -> bool {
    forall|i: int, j: int|
        0 <= i <= j < recs.len() ==> (#[trigger] recs[i]).parent <= (#[trigger] recs[j]).parent
}

/// The ids are those of directories and stand in the order of their parents.
pub open spec fn ids_sorted(nodes: Seq<DirNode>, ids: Seq<u32>) -> bool {
    &&& forall|i: int| 0 <= i < ids.len() ==> (#[trigger] ids[i]) < nodes.len()
    &&& forall|i: int, j: int|
        0 <= i <= j < ids.len() ==> nodes[(#[trigger] ids[i]) as int].parent <= nodes[(
        #[trigger] ids[j]) as int].parent
}

/// A directory id, or the mark of having none.
pub open spec fn parent_ok(parent: u32, n_dirs: int) -> bool {
    parent == u32::MAX || parent < n_dirs
}

impl Contents {
    /// The directories.
    pub open spec fn dirs(self) -> Seq<DirItem> {
        Seq::new(self.nodes.len(), |i: int| dir_item(self.dir_names, self.nodes[i]))
    }

    /// The files.
    pub open spec fn files(self) -> Seq<FileItem> {
        Seq::new(self.recs.len(), |i: int| file_item(self.file_names, self.recs[i]))
    }

    /// The subdirectories of directory `parent`.
    pub open spec fn children(self, parent: u32) -> Seq<u32> {
        picked(self.by_parent, |id: u32| self.nodes[id as int].parent == parent)
    }

    /// The path of directory `id`.
    pub open spec fn dir_path(self, id: u32) -> Seq<u8> {
        dir_path_of(self.dirs(), id)
    }

    /// The path of file `i`.
    pub open spec fn file_path(self, i: int) -> Seq<u8> {
        join(self.dir_path(self.files()[i].parent), self.files()[i].name)
    }

    /// The table of the directories is sound.
    pub open spec fn dirs_consistent(self) -> bool {
        &&& self.nodes.len() < u32::MAX
        &&& forall|i: int|
            0 <= i < self.nodes.len() ==> node_ok(self.dir_names, #[trigger] self.nodes[i])
                && parent_ok(self.nodes[i].parent, self.nodes.len() as int)
    }

    /// The table of the files is sound.
    pub open spec fn files_consistent(self) -> bool {
        &&& self.recs.len() < u32::MAX
        &&& packed(self.recs, self.file_names.len() as int)
        &&& forall|i: int|
            0 <= i < self.recs.len() ==> parent_ok(
                (#[trigger] self.recs[i]).parent,
                self.nodes.len() as int,
            )
        &&& recs_sorted(self.recs)
    }

    /// `by_parent` lists the directories in use, once each, in the order of their
    /// parents.
    pub open spec fn by_parent_consistent(self) -> bool {
        &&& ids_sorted(self.nodes, self.by_parent)
        &&& forall|i: int|
            0 <= i < self.by_parent.len() ==> in_use(
                self.nodes,
                (#[trigger] self.by_parent[i]) as int,
            )
        &&& self.by_parent.no_duplicates()
        &&& forall|id: u32|
            id < self.nodes.len() && in_use(self.nodes, id as int)
                ==> #[trigger] self.by_parent.contains(id)
    }

    /// Every name lies inside its arena, and the entries can be counted.
    pub open spec fn searchable(self) -> bool {
        &&& nodes_ok(self.dir_names, self.nodes)
        &&& recs_ok(self.file_names, self.recs)
        &&& self.nodes.len() <= u32::MAX
        &&& self.recs.len() <= u32::MAX
    }

    /// The tables fit together as those of a scan do.
    pub open spec fn consistent(self) -> bool {
        &&& self.dirs_consistent()
        &&& self.files_consistent()
        &&& self.by_parent_consistent()
    }
}

// --- the format ---

/// `n`, rounded up to a multiple of 8.
pub open spec fn aligned(n: int) -> int {
    (n + 7) / 8 * 8
}

/// Byte strings one after the other.
pub open spec fn flat(parts: Seq<Seq<u8>>) -> Seq<u8>
    decreases parts.len(),
{
    if parts.len() == 0 {
        Seq::empty()
    } else {
        flat(parts.drop_last()) + parts.last()
    }
}

/// `n` zero bytes.
pub open spec fn zeros(n: int) -> Seq<u8> {
    Seq::new(n as nat, |i: int| 0u8)
}

/// A directory node in the file.
pub open spec fn node_bytes(n: DirNode) -> Seq<u8> {
    spec_u32_to_le_bytes(n.name_off) + spec_u32_to_le_bytes(n.parent) + spec_u16_to_le_bytes(
        n.name_len,
    ) + spec_u16_to_le_bytes(n._pad)
}

/// A file record in the file.
pub open spec fn rec_bytes(r: FileRec) -> Seq<u8> {
    spec_u32_to_le_bytes(r.name_off) + spec_u32_to_le_bytes(r.parent) + spec_u16_to_le_bytes(
        r.name_len,
    ) + spec_u16_to_le_bytes(r.flags)
}

impl Contents {
    pub open spec fn nodes_off(self) -> int {
        aligned(DATA_START + self.dir_names.len())
    }

    pub open spec fn by_parent_off(self) -> int {
        aligned(self.nodes_off() + 12 * self.nodes.len())
    }

    pub open spec fn file_names_off(self) -> int {
        aligned(self.by_parent_off() + 4 * self.by_parent.len())
    }

    pub open spec fn recs_off(self) -> int {
        aligned(self.file_names_off() + self.file_names.len())
    }

    /// Size of the file.
    pub open spec fn size(self) -> int {
        self.recs_off() + 12 * self.recs.len()
    }

    /// The header's words from the root's offset to the event id.
    pub open spec fn words(self) -> Seq<u64> {
        seq![
            DATA_START,
            self.root.len() as u64,
            DATA_START,
            self.dir_names.len() as u64,
            self.nodes_off() as u64,
            self.nodes.len() as u64,
            self.file_names_off() as u64,
            self.file_names.len() as u64,
            self.recs_off() as u64,
            self.recs.len() as u64,
            pattern64(self.scan_time),
            self.event_id,
        ]
    }

    /// The header's words behind the UUID.
    pub open spec fn last_words(self) -> Seq<u64> {
        seq![self.by_parent_off() as u64, self.by_parent.len() as u64]
    }

    /// The header.
    pub open spec fn header_bytes(self) -> Seq<u8> {
        MAGIC@ + spec_u32_to_le_bytes(VERSION) + spec_u32_to_le_bytes(0) + flat(
            self.words().map_values(|w: u64| spec_u64_to_le_bytes(w)),
        ) + self.dev_uuid + flat(self.last_words().map_values(|w: u64| spec_u64_to_le_bytes(w)))
            + zeros(48)
    }

    /// The file, up to the end of the directory names.
    pub open spec fn upto_dir_names(self) -> Seq<u8> {
        self.header_bytes() + self.dir_names
    }

    /// The file, up to the end of the nodes.
    pub open spec fn upto_nodes(self) -> Seq<u8> {
        padded(self.upto_dir_names()) + flat(self.nodes.map_values(|n: DirNode| node_bytes(n)))
    }

    /// The file, up to the end of the ids.
    pub open spec fn upto_by_parent(self) -> Seq<u8> {
        padded(self.upto_nodes()) + flat(
            self.by_parent.map_values(|id: u32| spec_u32_to_le_bytes(id)),
        )
    }

    /// The file, up to the end of the file names.
    pub open spec fn upto_file_names(self) -> Seq<u8> {
        padded(self.upto_by_parent()) + self.file_names
    }

    /// The file.
    pub open spec fn encoded(self) -> Seq<u8> {
        padded(self.upto_file_names()) + flat(self.recs.map_values(|r: FileRec| rec_bytes(r)))
    }

    /// What a file can hold: sizes that fit, a UUID of 16 bytes, and a root that stands
    /// at the start of the directory names.
    pub open spec fn storable(self) -> bool {
        &&& self.size() <= u64::MAX
        &&& self.dev_uuid.len() == 16
        &&& self.root.is_prefix_of(self.dir_names)
    }
}

/// `b`, filled up with zeros to a multiple of 8.
pub open spec fn padded(b: Seq<u8>) -> Seq<u8> {
    b + zeros(aligned(b.len() as int) - b.len())
}

/// The directory node at `off`.
pub open spec fn node_at(b: Seq<u8>, off: int) -> DirNode {
    DirNode {
        name_off: u32_at(b, off),
        parent: u32_at(b, off + 4),
        name_len: u16_at(b, off + 8),
        _pad: u16_at(b, off + 10),
    }
}

/// The file record at `off`.
pub open spec fn rec_at(b: Seq<u8>, off: int) -> FileRec {
    FileRec {
        name_off: u32_at(b, off),
        parent: u32_at(b, off + 4),
        name_len: u16_at(b, off + 8),
        flags: u16_at(b, off + 10),
    }
}

/// A section of `count` items of `size` bytes lies inside the file.
pub open spec fn section_ok(b: Seq<u8>, off: u64, count: u64, size: int) -> bool {
    off + count * size <= b.len()
}

/// Why `b` is refused, `None` where it is not.
pub open spec fn flaw(b: Seq<u8>) -> Option<IndexError> {
    if b.len() < DATA_START {
        Some(IndexError::TooSmall)
    } else if b.subrange(0, 8) != MAGIC@ {
        Some(IndexError::BadMagic)
    } else if u32_at(b, 8) != VERSION {
        Some(IndexError::BadVersion)
    } else if !(section_ok(b, u64_at(b, 16), u64_at(b, 24), 1) && section_ok(
        b,
        u64_at(b, 32),
        u64_at(b, 40),
        1,
    ) && section_ok(b, u64_at(b, 48), u64_at(b, 56), 12) && section_ok(
        b,
        u64_at(b, 64),
        u64_at(b, 72),
        1,
    ) && section_ok(b, u64_at(b, 80), u64_at(b, 88), 12) && section_ok(
        b,
        u64_at(b, 128),
        u64_at(b, 136),
        4,
    )) {
        Some(IndexError::OutOfRange)
    } else {
        None
    }
}

/// What the file `b` holds.
pub open spec fn decoded(b: Seq<u8>) -> Contents {
    Contents {
        root: b.subrange(u64_at(b, 16) as int, u64_at(b, 16) + u64_at(b, 24)),
        dir_names: b.subrange(u64_at(b, 32) as int, u64_at(b, 32) + u64_at(b, 40)),
        nodes: Seq::new(u64_at(b, 56) as nat, |i: int| node_at(b, u64_at(b, 48) + 12 * i)),
        by_parent: Seq::new(u64_at(b, 136) as nat, |i: int| u32_at(b, u64_at(b, 128) + 4 * i)),
        file_names: b.subrange(u64_at(b, 64) as int, u64_at(b, 64) + u64_at(b, 72)),
        recs: Seq::new(u64_at(b, 88) as nat, |i: int| rec_at(b, u64_at(b, 80) + 12 * i)),
        scan_time: signed64(u64_at(b, 96)),
        event_id: u64_at(b, 104),
        dev_uuid: b.subrange(112, 128),
    }
}

/// `h` is the header of the file `b`.
pub open spec fn is_header(h: Header, b: Seq<u8>) -> bool {
    &&& h.magic@ == b.subrange(0, 8)
    &&& h.version == u32_at(b, 8)
    &&& h._pad0 == u32_at(b, 12)
    &&& h.root_off == u64_at(b, 16)
    &&& h.root_len == u64_at(b, 24)
    &&& h.dir_names_off == u64_at(b, 32)
    &&& h.dir_names_len == u64_at(b, 40)
    &&& h.dir_nodes_off == u64_at(b, 48)
    &&& h.n_dirs == u64_at(b, 56)
    &&& h.file_names_off == u64_at(b, 64)
    &&& h.file_names_len == u64_at(b, 72)
    &&& h.file_recs_off == u64_at(b, 80)
    &&& h.n_files == u64_at(b, 88)
    &&& h.scan_time == signed64(u64_at(b, 96))
    &&& h.event_id == u64_at(b, 104)
    &&& h.dev_uuid@ == b.subrange(112, 128)
    &&& h.dir_by_parent_off == u64_at(b, 128)
    &&& h.n_dir_by_parent == u64_at(b, 136)
    &&& h._reserved@ == b.subrange(144, 184)
}

// --- reading ---

impl View for Index {
    type V = Contents;

    closed spec fn view(&self) -> Contents {
        Contents {
            root: self.root@,
            dir_names: self.dir_names@,
            nodes: self.dir_nodes@,
            by_parent: self.dir_by_parent@,
            file_names: self.file_names@,
            recs: self.file_recs@,
            scan_time: self.header.scan_time,
            event_id: self.header.event_id,
            dev_uuid: self.header.dev_uuid@,
        }
    }
}

#[verifier::rlimit(60)]
fn read_header(b: &[u8]) -> (r: Header)
    requires
        b.len() >= DATA_START,
    ensures
        is_header(r, b@),
{
    let magic = [b[0], b[1], b[2], b[3], b[4], b[5], b[6], b[7]];
    let dev_uuid = [
        b[112],
        b[113],
        b[114],
        b[115],
        b[116],
        b[117],
        b[118],
        b[119],
        b[120],
        b[121],
        b[122],
        b[123],
        b[124],
        b[125],
        b[126],
        b[127],
    ];
    let mut reserved = [0u8;40];
    for i in 0..40usize
        invariant
            b.len() >= DATA_START,
            forall|k: int| 0 <= k < i ==> reserved@[k] == b@[144 + k],
    {
        reserved[i] = b[144 + i];
    }
    assert(magic@ =~= b@.subrange(0, 8));
    assert(dev_uuid@ =~= b@.subrange(112, 128));
    assert(reserved@ =~= b@.subrange(144, 184));
    Header {
        magic,
        version: get_u32(b, 8),
        _pad0: get_u32(b, 12),
        root_off: get_u64(b, 16),
        root_len: get_u64(b, 24),
        dir_names_off: get_u64(b, 32),
        dir_names_len: get_u64(b, 40),
        dir_nodes_off: get_u64(b, 48),
        n_dirs: get_u64(b, 56),
        file_names_off: get_u64(b, 64),
        file_names_len: get_u64(b, 72),
        file_recs_off: get_u64(b, 80),
        n_files: get_u64(b, 88),
        scan_time: to_signed64(get_u64(b, 96)),
        event_id: get_u64(b, 104),
        dev_uuid,
        dir_by_parent_off: get_u64(b, 128),
        n_dir_by_parent: get_u64(b, 136),
        _reserved: reserved,
    }
}

fn section_fits(b: &[u8], off: u64, count: u64, size: u64) -> (r: bool)
    requires
        1 <= size <= 12,
    ensures
        r == section_ok(b@, off, count, size as int),
        r ==> off <= b.len() && count <= b.len(),
{
    assert(0 <= count * size <= 0xFFFF_FFFF_FFFF_FFFF * 12) by (nonlinear_arith)
        requires
            count <= 0xFFFF_FFFF_FFFF_FFFF,
            1 <= size <= 12,
    ;
    assert(count <= count * size) by (nonlinear_arith)
        requires
            0 <= count,
            1 <= size,
    ;
    off as u128 + count as u128 * size as u128 <= b.len() as u128
}

/// Looks for a flaw in a file whose header is `h`.
#[verifier::rlimit(60)]
fn validate(b: &[u8]) -> (r: Result<Header, IndexError>)
    ensures
        match r {
            Ok(h) => flaw(b@) is None && is_header(h, b@),
            Err(e) => flaw(b@) == Some(e),
        },
{
    if (b.len() as u64) < DATA_START {
        return Err(IndexError::TooSmall);
    }
    let h = read_header(b);
    if !bytes_eq(h.magic.as_slice(), MAGIC.as_slice()) {
        return Err(IndexError::BadMagic);
    }
    if h.version != VERSION {
        return Err(IndexError::BadVersion);
    }
    if section_fits(b, h.dir_names_off, h.dir_names_len, 1) && section_fits(
        b,
        h.dir_nodes_off,
        h.n_dirs,
        12,
    ) && section_fits(b, h.dir_by_parent_off, h.n_dir_by_parent, 4) && section_fits(
        b,
        h.file_names_off,
        h.file_names_len,
        1,
    ) && section_fits(b, h.file_recs_off, h.n_files, 12) && section_fits(
        b,
        h.root_off,
        h.root_len,
        1,
    ) {
        Ok(h)
    } else {
        Err(IndexError::OutOfRange)
    }
}

fn read_nodes(b: &[u8], off: usize, n: usize) -> (r: Vec<DirNode>)
    requires
        off + 12 * n <= b.len(),
    ensures
        r@ == Seq::new(n as nat, |i: int| node_at(b@, off + 12 * i)),
{
    let mut out: Vec<DirNode> = Vec::with_capacity(n);
    for i in 0..n
        invariant
            off + 12 * n <= b.len(),
            out@ =~= Seq::new(i as nat, |k: int| node_at(b@, off + 12 * k)),
    {
        let at = off + 12 * i;
        out.push(
            DirNode {
                name_off: get_u32(b, at),
                parent: get_u32(b, at + 4),
                name_len: get_u16(b, at + 8),
                _pad: get_u16(b, at + 10),
            },
        );
    }
    out
}

fn read_recs(b: &[u8], off: usize, n: usize) -> (r: Vec<FileRec>)
    requires
        off + 12 * n <= b.len(),
    ensures
        r@ == Seq::new(n as nat, |i: int| rec_at(b@, off + 12 * i)),
{
    let mut out: Vec<FileRec> = Vec::with_capacity(n);
    for i in 0..n
        invariant
            off + 12 * n <= b.len(),
            out@ =~= Seq::new(i as nat, |k: int| rec_at(b@, off + 12 * k)),
    {
        let at = off + 12 * i;
        out.push(
            FileRec {
                name_off: get_u32(b, at),
                parent: get_u32(b, at + 4),
                name_len: get_u16(b, at + 8),
                flags: get_u16(b, at + 10),
            },
        );
    }
    out
}

fn read_ids(b: &[u8], off: usize, n: usize) -> (r: Vec<u32>)
    requires
        off + 4 * n <= b.len(),
    ensures
        r@ == Seq::new(n as nat, |i: int| u32_at(b@, off + 4 * i)),
{
    let mut out: Vec<u32> = Vec::with_capacity(n);
    for i in 0..n
        invariant
            off + 4 * n <= b.len(),
            out@ =~= Seq::new(i as nat, |k: int| u32_at(b@, off + 4 * k)),
    {
        out.push(get_u32(b, off + 4 * i));
    }
    out
}

fn read_bytes(b: &[u8], off: u64, len: u64) -> (r: Vec<u8>)
    requires
        off + len <= b.len(),
    ensures
        r@ == b@.subrange(off as int, off + len),
{
    copy(slice_subrange(b, off as usize, off as usize + len as usize))
}

/// How many records have a parent below `bound`.
fn recs_below(recs: &Vec<FileRec>, bound: u64) -> (r: usize)
    requires
        recs_sorted(recs@),
    ensures
        r <= recs@.len(),
        forall|i: int| 0 <= i < recs@.len() ==> (i < r <==> (#[trigger] recs@[i]).parent < bound),
{
    let mut lo: usize = 0;
    let mut hi: usize = recs.len();
    while lo < hi
        invariant
            recs_sorted(recs@),
            lo <= hi <= recs@.len(),
            forall|i: int| 0 <= i < lo ==> (#[trigger] recs@[i]).parent < bound,
            forall|i: int| hi <= i < recs@.len() ==> (#[trigger] recs@[i]).parent >= bound,
        decreases hi - lo,
    {
        let mid = lo + (hi - lo) / 2;
        if (recs[mid].parent as u64) < bound {
            lo = mid + 1;
        } else {
            hi = mid;
        }
    }
    lo
}

/// How many of the directories `ids` have a parent below `bound`.
fn ids_below(nodes: &Vec<DirNode>, ids: &Vec<u32>, bound: u64) -> (r: usize)
    requires
        ids_sorted(nodes@, ids@),
    ensures
        r <= ids@.len(),
        forall|i: int|
            0 <= i < ids@.len() ==> (i < r <==> nodes@[(#[trigger] ids@[i]) as int].parent < bound),
{
    let mut lo: usize = 0;
    let mut hi: usize = ids.len();
    while lo < hi
        invariant
            ids_sorted(nodes@, ids@),
            lo <= hi <= ids@.len(),
            forall|i: int| 0 <= i < lo ==> nodes@[(#[trigger] ids@[i]) as int].parent < bound,
            forall|i: int|
                hi <= i < ids@.len() ==> nodes@[(#[trigger] ids@[i]) as int].parent >= bound,
        decreases hi - lo,
    {
        let mid = lo + (hi - lo) / 2;
        if (nodes[ids[mid] as usize].parent as u64) < bound {
            lo = mid + 1;
        } else {
            hi = mid;
        }
    }
    lo
}

impl Index {
    /// The header counts what the sections hold.
    #[verifier::type_invariant]
    closed spec fn wf(&self) -> bool {
        &&& self.header.n_dirs == self.dir_nodes@.len()
        &&& self.header.n_files == self.file_recs@.len()
        &&& self.header.n_dir_by_parent == self.dir_by_parent@.len()
        &&& self.header.dir_names_len == self.dir_names@.len()
        &&& self.header.file_names_len == self.file_names@.len()
        &&& self.header.root_len == self.root@.len()
    }

    /// The header as it stands in the file.
    pub closed spec fn head(&self) -> Header {
        self.header
    }

    /// Reads an index file.
    #[verifier::rlimit(60)]
    pub fn from_vec(v: Vec<u8>) -> (r: Result<Index, IndexError>)
        ensures
            match r {
                Ok(idx) => flaw(v@) is None && idx@ == decoded(v@) && is_header(idx.head(), v@),
                Err(e) => flaw(v@) == Some(e),
            },
    {
        let b = v.as_slice();
        let header = match validate(b) {
            Ok(h) => h,
            Err(e) => {
                return Err(e);
            },
        };
        let total = b.len();
        assert(header.dir_nodes_off + header.n_dirs * 12 <= total);
        assert(header.file_recs_off + header.n_files * 12 <= total);
        assert(header.dir_by_parent_off + header.n_dir_by_parent * 4 <= total);
        let idx = Index {
            root: read_bytes(b, header.root_off, header.root_len),
            dir_names: read_bytes(b, header.dir_names_off, header.dir_names_len),
            dir_nodes: read_nodes(b, header.dir_nodes_off as usize, header.n_dirs as usize),
            dir_by_parent: read_ids(
                b,
                header.dir_by_parent_off as usize,
                header.n_dir_by_parent as usize,
            ),
            file_names: read_bytes(b, header.file_names_off, header.file_names_len),
            file_recs: read_recs(b, header.file_recs_off as usize, header.n_files as usize),
            header,
        };
        proof {
            let c = decoded(v@);
            assert(idx@.nodes =~= c.nodes);
            assert(idx@.recs =~= c.recs);
            assert(idx@.by_parent =~= c.by_parent);
        }
        Ok(idx)
    }

    /// The header.
    pub fn header(&self) -> (r: &Header)
        ensures
            *r == self.head(),
            r.n_dirs == self@.nodes.len(),
            r.n_files == self@.recs.len(),
            r.n_dir_by_parent == self@.by_parent.len(),
            r.dir_names_len == self@.dir_names.len(),
            r.file_names_len == self@.file_names.len(),
            r.root_len == self@.root.len(),
            r.scan_time == self@.scan_time,
            r.event_id == self@.event_id,
            r.dev_uuid@ == self@.dev_uuid,
    {
        proof {
            use_type_invariant(self);
        }
        &self.header
    }

    /// The path of the root.
    pub fn root(&self) -> (r: &[u8])
        ensures
            r@ == self@.root,
    {
        self.root.as_slice()
    }

    /// The names of the directories.
    pub fn dir_names(&self) -> (r: &[u8])
        ensures
            r@ == self@.dir_names,
    {
        self.dir_names.as_slice()
    }

    /// The names of the files.
    pub fn file_names(&self) -> (r: &[u8])
        ensures
            r@ == self@.file_names,
    {
        self.file_names.as_slice()
    }

    /// The directories.
    pub fn dir_nodes(&self) -> (r: &[DirNode])
        ensures
            r@ == self@.nodes,
    {
        self.dir_nodes.as_slice()
    }

    /// The files.
    pub fn file_recs(&self) -> (r: &[FileRec])
        ensures
            r@ == self@.recs,
    {
        self.file_recs.as_slice()
    }

    /// The ids of the directories in the order of their parents.
    pub fn dir_by_parent(&self) -> (r: &[u32])
        ensures
            r@ == self@.by_parent,
    {
        self.dir_by_parent.as_slice()
    }

    /// The name of file `i`.
    pub fn file_name(&self, i: usize) -> (r: &[u8])
        requires
            i < self@.recs.len(),
            rec_ok(self@.file_names, self@.recs[i as int]),
        ensures
            r@ == self@.files()[i as int].name,
    {
        let rec = self.file_recs[i];
        let n = self.file_names.len();
        assert(rec.name_off + rec.name_len <= n);
        let start = rec.name_off as usize;
        slice_subrange(self.file_names.as_slice(), start, start + rec.name_len as usize)
    }

    /// The name of directory `id`.
    pub fn dir_name(&self, id: u32) -> (r: &[u8])
        requires
            id < self@.nodes.len(),
            node_ok(self@.dir_names, self@.nodes[id as int]),
        ensures
            r@ == self@.dirs()[id as int].name,
    {
        let node = self.dir_nodes[id as usize];
        let n = self.dir_names.len();
        assert(node.name_off + node.name_len <= n);
        let start = node.name_off as usize;
        slice_subrange(self.dir_names.as_slice(), start, start + node.name_len as usize)
    }

    fn path_up(&self, id: u32, levels: u32) -> (r: Vec<u8>)
        requires
            climb_ok(self@.dir_names, self@.nodes, id, levels as nat),
        ensures
            r@ == path_to(self@.dirs(), id, levels as nat),
        decreases levels,
    {
        if levels == 0 || id == u32::MAX || id as usize >= self.dir_nodes.len() {
            return Vec::new();
        }
        let mut out = self.path_up(self.dir_nodes[id as usize].parent, levels - 1);
        let ghost above = out@;
        let n = out.len();
        if n > 0 && out[n - 1] != SLASH {
            out.push(SLASH);
        }
        extend(&mut out, self.dir_name(id));
        assert(out@ =~= glue(above, self@.dirs()[id as int].name));
        out
    }

    /// The path of directory `id`, put together by climbing to the root.
    pub fn dir_path(&self, id: u32) -> (r: Vec<u8>)
        requires
            climb_ok(self@.dir_names, self@.nodes, id, MAX_CLIMB as nat),
        ensures
            r@ == self@.dir_path(id),
    {
        self.path_up(id, MAX_CLIMB)
    }

    /// The path of file `i`.
    pub fn file_path(&self, i: usize) -> (r: Vec<u8>)
        requires
            i < self@.recs.len(),
            rec_ok(self@.file_names, self@.recs[i as int]),
            climb_ok(
                self@.dir_names,
                self@.nodes,
                self@.recs[i as int].parent,
                MAX_CLIMB as nat,
            ),
        ensures
            r@ == self@.file_path(i as int),
    {
        let dir = self.dir_path(self.file_recs[i].parent);
        join_path(dir.as_slice(), self.file_name(i))
    }

    /// The files of directory `parent`, as a range of positions in `file_recs()`.
    ///
    /// The records stand in the order of their parents, so this is a binary search.
    pub fn files_in_dir(&self, parent: u32) -> (r: std::ops::Range<usize>)
        requires
            recs_sorted(self@.recs),
        ensures
            r.start <= r.end <= self@.recs.len(),
            forall|i: int|
                0 <= i < self@.recs.len() ==> (i < r.start <==> (#[trigger] self@.recs[i]).parent
                    < parent),
            forall|i: int|
                0 <= i < self@.recs.len() ==> (i < r.end <==> (#[trigger] self@.recs[i]).parent
                    <= parent),
    {
        let lo = recs_below(&self.file_recs, parent as u64);
        let hi = recs_below(&self.file_recs, parent as u64 + 1);
        proof {
            if hi < lo {
                assert(self.file_recs@[hi as int].parent < parent);
            }
        }
        lo..hi
    }

    /// The subdirectories of directory `parent`.
    #[verifier::rlimit(60)]
    pub fn child_dirs(&self, parent: u32) -> (r: Vec<u32>)
        requires
            ids_sorted(self@.nodes, self@.by_parent),
        ensures
            r@ == picked(self@.by_parent, |id: u32| self@.nodes[id as int].parent == parent),
            r@ == self@.children(parent),
    {
        let lo = ids_below(&self.dir_nodes, &self.dir_by_parent, parent as u64);
        let hi = ids_below(&self.dir_nodes, &self.dir_by_parent, parent as u64 + 1);
        let ghost ids = self.dir_by_parent@;
        proof {
            if hi < lo {
                assert(self.dir_nodes@[ids[hi as int] as int].parent < parent);
            }
        }
        let mut out: Vec<u32> = Vec::with_capacity(hi - lo);
        for i in lo..hi
            invariant
                lo <= hi <= ids.len(),
                ids == self.dir_by_parent@,
                out@ =~= ids.subrange(lo as int, i as int),
        {
            out.push(self.dir_by_parent[i]);
        }
        proof {
            let p = |id: u32| self@.nodes[id as int].parent == parent;
            let (a, b, c) = (ids.take(lo as int), out@, ids.skip(hi as int));
            lemma_picked_none(a, p);
            lemma_picked_all(b, p);
            lemma_picked_none(c, p);
            lemma_picked_concat(a, b, p);
            lemma_picked_concat(a + b, c, p);
            assert(a + b + c =~= ids);
            assert(picked(ids, p) =~= b);
        }
        out
    }
}

// --- what is written is read back ---

pub proof fn lemma_flat(parts: Seq<Seq<u8>>, k: int)
    requires
        forall|i: int| 0 <= i < parts.len() ==> (#[trigger] parts[i]).len() == k,
    ensures
        flat(parts).len() == k * parts.len(),
    decreases parts.len(),
{
    if parts.len() > 0 {
        let front = parts.drop_last();
        let n = front.len() as int;
        assert forall|i: int| 0 <= i < n implies (#[trigger] front[i]).len() == k by {
            assert(front[i] == parts[i]);
        }
        lemma_flat(front, k);
        assert(k * (n + 1) == k * n + k) by (nonlinear_arith);
        assert(parts[n].len() == k);
    } else {
        assert(k * 0 == 0) by (nonlinear_arith);
    }
}

/// Part `i` stands where `i` parts before it end.
#[verifier::rlimit(60)]
proof fn lemma_flat_at(parts: Seq<Seq<u8>>, k: int, i: int, at: int)
    requires
        forall|i: int| 0 <= i < parts.len() ==> (#[trigger] parts[i]).len() == k,
        0 <= i < parts.len(),
        at == k * i,
    ensures
        stands(flat(parts), at, parts[i]),
    decreases parts.len(),
{
    let front = parts.drop_last();
    let n = front.len() as int;
    assert forall|i: int| 0 <= i < n implies (#[trigger] front[i]).len() == k by {
        assert(front[i] == parts[i]);
    }
    lemma_flat(front, k);
    if i < n {
        lemma_flat_at(front, k, i, at);
        assert(flat(parts).subrange(at, at + k) =~= flat(front).subrange(at, at + k));
    } else {
        assert(flat(parts).subrange(at, at + k) =~= parts[i]);
    }
}

proof fn lemma_widths()
    ensures
        forall|x: u16| (#[trigger] spec_u16_to_le_bytes(x)).len() == 2,
        forall|x: u32| (#[trigger] spec_u32_to_le_bytes(x)).len() == 4,
        forall|x: u64| (#[trigger] spec_u64_to_le_bytes(x)).len() == 8,
{
    lemma_auto_spec_u16_to_from_le_bytes();
    lemma_auto_spec_u32_to_from_le_bytes();
    lemma_auto_spec_u64_to_from_le_bytes();
    assert forall|x: u16| (#[trigger] spec_u16_to_le_bytes(x)).len() == 2 by {}
    assert forall|x: u32| (#[trigger] spec_u32_to_le_bytes(x)).len() == 4 by {}
}

/// How long the parts of a file are.
#[verifier::rlimit(60)]
pub proof fn lemma_sizes(c: Contents)
    requires
        c.dev_uuid.len() == 16,
    ensures
        c.header_bytes().len() == DATA_START,
        padded(c.upto_dir_names()).len() == c.nodes_off(),
        padded(c.upto_nodes()).len() == c.by_parent_off(),
        padded(c.upto_by_parent()).len() == c.file_names_off(),
        padded(c.upto_file_names()).len() == c.recs_off(),
        c.encoded().len() == c.size(),
        c.upto_nodes().len() == c.nodes_off() + 12 * c.nodes.len(),
        c.upto_by_parent().len() == c.by_parent_off() + 4 * c.by_parent.len(),
{
    lemma_widths();
    lemma_flat(c.words().map_values(|w: u64| spec_u64_to_le_bytes(w)), 8);
    lemma_flat(c.last_words().map_values(|w: u64| spec_u64_to_le_bytes(w)), 8);
    lemma_flat(c.nodes.map_values(|n: DirNode| node_bytes(n)), 12);
    lemma_flat(c.by_parent.map_values(|id: u32| spec_u32_to_le_bytes(id)), 4);
    lemma_flat(c.recs.map_values(|r: FileRec| rec_bytes(r)), 12);
}

proof fn lemma_node_read(b: Seq<u8>, off: int, n: DirNode)
    requires
        0 <= off,
        off + 12 <= b.len(),
        b.subrange(off, off + 12) == node_bytes(n),
    ensures
        node_at(b, off) == n,
{
    lemma_widths();
    let w = node_bytes(n);
    assert(w.subrange(0, 4) =~= spec_u32_to_le_bytes(n.name_off));
    assert(w.subrange(4, 8) =~= spec_u32_to_le_bytes(n.parent));
    assert(w.subrange(8, 10) =~= spec_u16_to_le_bytes(n.name_len));
    assert(w.subrange(10, 12) =~= spec_u16_to_le_bytes(n._pad));
    lemma_stands(b, off, w, 0, 4);
    lemma_stands(b, off, w, 4, 8);
    lemma_stands(b, off, w, 8, 10);
    lemma_stands(b, off, w, 10, 12);
    lemma_u32_at(b, off, n.name_off);
    lemma_u32_at(b, off + 4, n.parent);
    lemma_u16_at(b, off + 8, n.name_len);
    lemma_u16_at(b, off + 10, n._pad);
}

proof fn lemma_rec_read(b: Seq<u8>, off: int, r: FileRec)
    requires
        0 <= off,
        off + 12 <= b.len(),
        b.subrange(off, off + 12) == rec_bytes(r),
    ensures
        rec_at(b, off) == r,
{
    let n = DirNode { name_off: r.name_off, parent: r.parent, name_len: r.name_len, _pad: r.flags };
    assert(node_bytes(n) == rec_bytes(r));
    lemma_node_read(b, off, n);
}

/// `part` stands in `b` at `off`.
pub open spec fn stands(b: Seq<u8>, off: int, part: Seq<u8>) -> bool {
    0 <= off && off + part.len() <= b.len() && b.subrange(off, off + part.len()) == part
}

proof fn lemma_stands(b: Seq<u8>, off: int, part: Seq<u8>, lo: int, hi: int)
    requires
        stands(b, off, part),
        0 <= lo <= hi <= part.len(),
    ensures
        b.subrange(off + lo, off + hi) == part.subrange(lo, hi),
{
    assert forall|i: int| 0 <= i < part.len() implies b[off + i] == part[i] by {
        assert(b.subrange(off, off + part.len())[i] == part[i]);
    }
    assert(b.subrange(off + lo, off + hi) =~= part.subrange(lo, hi));
}

/// Where the parts of a file stand.
#[verifier::rlimit(60)]
proof fn lemma_places(c: Contents)
    requires
        c.dev_uuid.len() == 16,
    ensures
        stands(c.encoded(), 0, c.header_bytes()),
        stands(c.encoded(), DATA_START as int, c.dir_names),
        stands(c.encoded(), c.nodes_off(), flat(c.nodes.map_values(|n: DirNode| node_bytes(n)))),
        stands(
            c.encoded(),
            c.by_parent_off(),
            flat(c.by_parent.map_values(|id: u32| spec_u32_to_le_bytes(id))),
        ),
        stands(c.encoded(), c.file_names_off(), c.file_names),
        stands(c.encoded(), c.recs_off(), flat(c.recs.map_values(|r: FileRec| rec_bytes(r)))),
{
    lemma_sizes(c);
    let b = c.encoded();
    let p1 = c.upto_dir_names();
    let p2 = c.upto_nodes();
    let p3 = c.upto_by_parent();
    let p4 = c.upto_file_names();
    assert(b.take(padded(p4).len() as int) =~= padded(p4));
    assert(b.take(p4.len() as int) =~= p4);
    assert(p4.take(padded(p3).len() as int) =~= padded(p3));
    assert(p4.take(p3.len() as int) =~= p3);
    assert(p3.take(p2.len() as int) =~= p2);
    assert(p2.take(p1.len() as int) =~= p1);
    assert(b.take(p3.len() as int) =~= p4.take(p3.len() as int));
    assert(b.take(p2.len() as int) =~= p3.take(p2.len() as int));
    assert(b.take(p1.len() as int) =~= p2.take(p1.len() as int));
    lemma_part(b, p1, c.header_bytes(), c.dir_names);
    assert(b.subrange(0, DATA_START as int) =~= p1.take(DATA_START as int));
    assert(p1.take(DATA_START as int) =~= c.header_bytes());
    lemma_part(b, p2, padded(p1), flat(c.nodes.map_values(|n: DirNode| node_bytes(n))));
    lemma_part(
        b,
        p3,
        padded(p2),
        flat(c.by_parent.map_values(|id: u32| spec_u32_to_le_bytes(id))),
    );
    lemma_part(b, p4, padded(p3), c.file_names);
    lemma_part(b, b, padded(p4), flat(c.recs.map_values(|r: FileRec| rec_bytes(r))));
}

proof fn lemma_part(b: Seq<u8>, upto: Seq<u8>, before: Seq<u8>, part: Seq<u8>)
    requires
        upto.len() <= b.len(),
        b.take(upto.len() as int) == upto || b == upto,
        upto == before + part,
    ensures
        stands(b, before.len() as int, part),
{
    let off = before.len() as int;
    assert(upto.subrange(off, off + part.len()) =~= part);
    assert(b.take(upto.len() as int) =~= upto);
    assert(b.subrange(off, off + part.len()) =~= b.take(upto.len() as int).subrange(
        off,
        off + part.len(),
    ));
}

/// The header's fields, as they are read back.
#[verifier::rlimit(60)]
proof fn lemma_header_read(c: Contents)
    requires
        c.dev_uuid.len() == 16,
    ensures
        c.encoded().len() >= DATA_START,
        c.encoded().subrange(0, 8) == MAGIC@,
        u32_at(c.encoded(), 8) == VERSION,
        forall|i: int|
            0 <= i < 12 ==> u64_at(c.encoded(), 16 + 8 * i) == #[trigger] c.words()[i],
        c.encoded().subrange(112, 128) == c.dev_uuid,
        u64_at(c.encoded(), 128) == c.by_parent_off() as u64,
        u64_at(c.encoded(), 136) == c.by_parent.len() as u64,
{
    lemma_widths();
    lemma_sizes(c);
    lemma_places(c);
    let b = c.encoded();
    let h = c.header_bytes();
    let le = |w: u64| spec_u64_to_le_bytes(w);
    let words = c.words().map_values(le);
    let last = c.last_words().map_values(le);
    lemma_flat(words, 8);
    lemma_flat(last, 8);
    lemma_stands(b, 0, h, 0, 8);
    assert(h.subrange(0, 8) =~= MAGIC@);
    lemma_stands(b, 0, h, 8, 12);
    assert(h.subrange(8, 12) =~= spec_u32_to_le_bytes(VERSION));
    lemma_u32_at(b, 8, VERSION);
    assert forall|i: int| 0 <= i < 12 implies u64_at(b, 16 + 8 * i) == #[trigger] c.words()[i] by {
        assert(words[i] == le(c.words()[i]));
        lemma_flat_at(words, 8, i, 8 * i);
        lemma_stands(b, 0, h, 16 + 8 * i, 24 + 8 * i);
        assert(h.subrange(16 + 8 * i, 24 + 8 * i) =~= flat(words).subrange(8 * i, 8 * i + 8));
        lemma_u64_at(b, 16 + 8 * i, c.words()[i]);
    }
    lemma_stands(b, 0, h, 112, 128);
    assert(h.subrange(112, 128) =~= c.dev_uuid);
    assert(last[0] == le(c.last_words()[0]));
    assert(last[1] == le(c.last_words()[1]));
    lemma_flat_at(last, 8, 0, 0);
    lemma_flat_at(last, 8, 1, 8);
    lemma_stands(b, 0, h, 128, 136);
    assert(h.subrange(128, 136) =~= flat(last).subrange(0, 8));
    lemma_u64_at(b, 128, c.last_words()[0]);
    lemma_stands(b, 0, h, 136, 144);
    assert(h.subrange(136, 144) =~= flat(last).subrange(8, 16));
    lemma_u64_at(b, 136, c.last_words()[1]);
}

/// What was written is accepted, and read back as it was.
#[verifier::rlimit(60)]
pub proof fn law_index_round_trip(c: Contents)
    requires
        c.storable(),
    ensures
        flaw(c.encoded()) is None,
        decoded(c.encoded()) == c,
{
    let b = c.encoded();
    lemma_widths();
    lemma_sizes(c);
    lemma_places(c);
    lemma_header_read(c);
    lemma_signed64(c.scan_time);
    let w = c.words();
    assert(u64_at(b, 16) == w[0]);
    assert(u64_at(b, 24) == w[1]);
    assert(u64_at(b, 32) == w[2]);
    assert(u64_at(b, 40) == w[3]);
    assert(u64_at(b, 48) == w[4]);
    assert(u64_at(b, 56) == w[5]);
    assert(u64_at(b, 64) == w[6]);
    assert(u64_at(b, 72) == w[7]);
    assert(u64_at(b, 80) == w[8]);
    assert(u64_at(b, 88) == w[9]);
    assert(u64_at(b, 96) == w[10]);
    assert(u64_at(b, 104) == w[11]);
    let d = decoded(b);
    lemma_stands(b, DATA_START as int, c.dir_names, 0, c.root.len() as int);
    assert(d.root =~= c.root);
    assert(d.dir_names =~= c.dir_names);
    assert(d.file_names =~= c.file_names);
    let nb = c.nodes.map_values(|n: DirNode| node_bytes(n));
    lemma_flat(nb, 12);
    assert forall|i: int| 0 <= i < c.nodes.len() implies d.nodes[i] == c.nodes[i] by {
        assert(nb[i] == node_bytes(c.nodes[i]));
        lemma_flat_at(nb, 12, i, 12 * i);
        lemma_stands(b, c.nodes_off(), flat(nb), 12 * i, 12 * i + 12);
        lemma_node_read(b, c.nodes_off() + 12 * i, c.nodes[i]);
    }
    assert(d.nodes =~= c.nodes);
    let ib = c.by_parent.map_values(|id: u32| spec_u32_to_le_bytes(id));
    lemma_flat(ib, 4);
    assert forall|i: int| 0 <= i < c.by_parent.len() implies d.by_parent[i] == c.by_parent[i] by {
        assert(ib[i] == spec_u32_to_le_bytes(c.by_parent[i]));
        lemma_flat_at(ib, 4, i, 4 * i);
        lemma_stands(b, c.by_parent_off(), flat(ib), 4 * i, 4 * i + 4);
        lemma_u32_at(b, c.by_parent_off() + 4 * i, c.by_parent[i]);
    }
    assert(d.by_parent =~= c.by_parent);
    let rb = c.recs.map_values(|r: FileRec| rec_bytes(r));
    lemma_flat(rb, 12);
    assert forall|i: int| 0 <= i < c.recs.len() implies d.recs[i] == c.recs[i] by {
        assert(rb[i] == rec_bytes(c.recs[i]));
        lemma_flat_at(rb, 12, i, 12 * i);
        lemma_stands(b, c.recs_off(), flat(rb), 12 * i, 12 * i + 12);
        lemma_rec_read(b, c.recs_off() + 12 * i, c.recs[i]);
    }
    assert(d.recs =~= c.recs);
}

/// How an index file is laid out. It begins with eight letters, the number 2, and from byte
/// 16 on the place and the size of each part; numbers have their lowest byte first.
pub proof fn law_index_files_are_laid_out_so(c: Contents, i: int)
    requires
        c.storable(),
    ensures
        ({
            let b = c.encoded();
            &&& b.len() >= 192
            &&& b.subrange(0, 8) == seq![0x4du8, 0x59, 0x4c, 0x4f, 0x43, 0x49, 0x44, 0x58]
            &&& u32_at(b, 8) == 2
            &&& u64_at(b, 16) == 192
            &&& u64_at(b, 24) == c.root.len()
            &&& u64_at(b, 32) == 192
            &&& u64_at(b, 40) == c.dir_names.len()
            &&& u64_at(b, 48) % 8 == 0
            &&& u64_at(b, 56) == c.nodes.len()
            &&& u64_at(b, 64) % 8 == 0
            &&& u64_at(b, 72) == c.file_names.len()
            &&& u64_at(b, 80) % 8 == 0
            &&& u64_at(b, 88) == c.recs.len()
            &&& u64_at(b, 96) == c.scan_time || u64_at(b, 96) == c.scan_time
                + 0x1_0000_0000_0000_0000
            &&& u64_at(b, 104) == c.event_id
            &&& b.subrange(112, 128) == c.dev_uuid
            &&& u64_at(b, 128) % 8 == 0
            &&& u64_at(b, 136) == c.by_parent.len()
            &&& b.subrange(192, 192int + c.dir_names.len()) == c.dir_names
            &&& b.subrange(u64_at(b, 64) as int, u64_at(b, 64) + c.file_names.len())
                == c.file_names
            &&& 0 <= i < c.nodes.len() ==> {
                let at = u64_at(b, 48) + 12 * i;
                &&& at + 12 <= b.len()
                &&& u32_at(b, at) == c.nodes[i].name_off
                &&& u32_at(b, at + 4) == c.nodes[i].parent
                &&& u16_at(b, at + 8) == c.nodes[i].name_len
            }
            &&& 0 <= i < c.by_parent.len() ==> {
                let at = u64_at(b, 128) + 4 * i;
                &&& at + 4 <= b.len()
                &&& u32_at(b, at) == c.by_parent[i]
            }
            &&& 0 <= i < c.recs.len() ==> {
                let at = u64_at(b, 80) + 12 * i;
                &&& at + 12 <= b.len()
                &&& u32_at(b, at) == c.recs[i].name_off
                &&& u32_at(b, at + 4) == c.recs[i].parent
                &&& u16_at(b, at + 8) == c.recs[i].name_len
                &&& u16_at(b, at + 10) == c.recs[i].flags
            }
        }),
{
    let b = c.encoded();
    law_index_round_trip(c);
    lemma_sizes(c);
    lemma_header_read(c);
    assert(MAGIC@ =~= seq![0x4du8, 0x59, 0x4c, 0x4f, 0x43, 0x49, 0x44, 0x58]);
    let w = c.words();
    assert(u64_at(b, 16) == w[0]);
    assert(u64_at(b, 24) == w[1]);
    assert(u64_at(b, 32) == w[2]);
    assert(u64_at(b, 40) == w[3]);
    assert(u64_at(b, 48) == w[4]);
    assert(u64_at(b, 56) == w[5]);
    assert(u64_at(b, 64) == w[6]);
    assert(u64_at(b, 72) == w[7]);
    assert(u64_at(b, 80) == w[8]);
    assert(u64_at(b, 88) == w[9]);
    assert(u64_at(b, 96) == w[10]);
    assert(u64_at(b, 104) == w[11]);
    let d = decoded(b);
    if 0 <= i < c.nodes.len() {
        assert(d.nodes[i] == node_at(b, u64_at(b, 48) + 12 * i));
    }
    if 0 <= i < c.by_parent.len() {
        assert(d.by_parent[i] == u32_at(b, u64_at(b, 128) + 4 * i));
    }
    if 0 <= i < c.recs.len() {
        assert(d.recs[i] == rec_at(b, u64_at(b, 80) + 12 * i));
    }
}

/// What is turned away as an index file, and why: what is shorter than a header, what does
/// not begin with the letters, what has another number behind them, and what says of a part
/// that it reaches beyond the end. Nothing else is.
pub proof fn law_what_is_no_index_file(b: Seq<u8>)
    ensures
        ({
            let letters = seq![0x4du8, 0x59, 0x4c, 0x4f, 0x43, 0x49, 0x44, 0x58];
            let whole = u64_at(b, 16) + u64_at(b, 24) <= b.len() && u64_at(b, 32) + u64_at(b, 40)
                <= b.len() && u64_at(b, 48) + u64_at(b, 56) * 12 <= b.len() && u64_at(b, 64)
                + u64_at(b, 72) <= b.len() && u64_at(b, 80) + u64_at(b, 88) * 12 <= b.len()
                && u64_at(b, 128) + u64_at(b, 136) * 4 <= b.len();
            &&& b.len() < 192 <==> flaw(b) == Some(IndexError::TooSmall)
            &&& b.len() >= 192 && b.take(8) != letters <==> flaw(b) == Some(IndexError::BadMagic)
            &&& b.len() >= 192 && b.take(8) == letters && u32_at(b, 8) != 2 <==> flaw(b) == Some(
                IndexError::BadVersion,
            )
            &&& b.len() >= 192 && b.take(8) == letters && u32_at(b, 8) == 2 && !whole <==> flaw(b)
                == Some(IndexError::OutOfRange)
            &&& b.len() >= 192 && b.take(8) == letters && u32_at(b, 8) == 2 && whole <==> flaw(b)
                is None
        }),
{
    let letters = seq![0x4du8, 0x59, 0x4c, 0x4f, 0x43, 0x49, 0x44, 0x58];
    assert(MAGIC@ =~= letters);
    if b.len() >= 192 {
        assert(b.take(8) =~= b.subrange(0, 8));
    }
}

/// What an index file says is read where the header says that it stands.
pub proof fn law_index_files_are_read_so(b: Seq<u8>, i: int)
    ensures
        ({
            let c = decoded(b);
            &&& c.root == b.subrange(u64_at(b, 16) as int, u64_at(b, 16) + u64_at(b, 24))
            &&& c.dir_names == b.subrange(u64_at(b, 32) as int, u64_at(b, 32) + u64_at(b, 40))
            &&& c.file_names == b.subrange(u64_at(b, 64) as int, u64_at(b, 64) + u64_at(b, 72))
            &&& c.nodes.len() == u64_at(b, 56)
            &&& c.recs.len() == u64_at(b, 88)
            &&& c.by_parent.len() == u64_at(b, 136)
            &&& c.event_id == u64_at(b, 104)
            &&& c.scan_time == u64_at(b, 96) || c.scan_time == u64_at(b, 96)
                - 0x1_0000_0000_0000_0000
            &&& c.dev_uuid == b.subrange(112, 128)
            &&& 0 <= i < c.nodes.len() ==> c.nodes[i] == (DirNode {
                name_off: u32_at(b, u64_at(b, 48) + 12 * i),
                parent: u32_at(b, u64_at(b, 48) + 12 * i + 4),
                name_len: u16_at(b, u64_at(b, 48) + 12 * i + 8),
                _pad: u16_at(b, u64_at(b, 48) + 12 * i + 10),
            })
            &&& 0 <= i < c.by_parent.len() ==> c.by_parent[i] == u32_at(
                b,
                u64_at(b, 128) + 4 * i,
            )
            &&& 0 <= i < c.recs.len() ==> c.recs[i] == (FileRec {
                name_off: u32_at(b, u64_at(b, 80) + 12 * i),
                parent: u32_at(b, u64_at(b, 80) + 12 * i + 4),
                name_len: u16_at(b, u64_at(b, 80) + 12 * i + 8),
                flags: u16_at(b, u64_at(b, 80) + 12 * i + 10),
            })
        }),
{
}

/// An entry's name lies in the arena, at the place and with the length that the entry says;
/// its parent is the one that the entry says, and so are its flags.
pub proof fn law_entries_are_named_by_place(c: Contents, i: int)
    ensures
        c.dirs().len() == c.nodes.len(),
        c.files().len() == c.recs.len(),
        0 <= i < c.nodes.len() ==> c.dirs()[i].parent == c.nodes[i].parent && c.dirs()[i].name
            == c.dir_names.subrange(
            c.nodes[i].name_off as int,
            c.nodes[i].name_off + c.nodes[i].name_len,
        ),
        0 <= i < c.recs.len() ==> c.files()[i].parent == c.recs[i].parent && c.files()[i].flags
            == c.recs[i].flags && c.files()[i].name == c.file_names.subrange(
            c.recs[i].name_off as int,
            c.recs[i].name_off + c.recs[i].name_len,
        ),
{
}

// --- consistency ---

/// Names that stand back to back lie inside the arena, each behind the ones before.
pub proof fn lemma_packed_at(recs: Seq<FileRec>, len: int, i: int, j: int)
    requires
        packed(recs, len),
        0 <= i <= j < recs.len(),
    ensures
        recs[j].name_off + recs[j].name_len <= len,
        i < j ==> recs[i].name_off + recs[i].name_len <= recs[j].name_off,
        recs[i].name_off <= recs[j].name_off,
    decreases recs.len() - j, j - i,
{
    if j < recs.len() - 1 {
        lemma_packed_at(recs, len, j, j + 1);
        assert(recs[j].name_off + recs[j].name_len == recs[j + 1].name_off);
    } else {
        assert(recs[j] == recs.last());
    }
    if i < j {
        assert(recs[i].name_off + recs[i].name_len == recs[i + 1].name_off);
        lemma_packed_at(recs, len, i + 1, j);
    }
}

/// Where all names lie inside the arena, every path can be put together.
pub proof fn lemma_climb_ok(names: Seq<u8>, nodes: Seq<DirNode>, id: u32, levels: nat)
    requires
        nodes_ok(names, nodes),
    ensures
        climb_ok(names, nodes, id, levels),
    decreases levels,
{
    if levels > 0 && id != u32::MAX && id < nodes.len() {
        lemma_climb_ok(names, nodes, nodes[id as int].parent, (levels - 1) as nat);
    }
}

/// A consistent index can be searched.
pub proof fn law_consistent_is_searchable(c: Contents)
    requires
        c.consistent(),
    ensures
        c.searchable(),
{
    assert forall|i: int| 0 <= i < c.recs.len() implies rec_ok(c.file_names, #[trigger] c.recs[i]) by {
        lemma_packed_at(c.recs, c.file_names.len() as int, i, i);
    }
}

/// The subdirectories of a directory are the directories of the list that name it as their
/// parent.
pub proof fn law_children_name_their_parent(c: Contents, parent: u32, id: u32)
    ensures
        c.children(parent).contains(id) <==> c.by_parent.contains(id) && c.nodes[id as int].parent
            == parent,
{
    let p = |x: u32| c.nodes[x as int].parent == parent;
    lemma_picked_contains(c.by_parent, p);
    assert(c.children(parent) == picked(c.by_parent, p));
    assert(picked(c.by_parent, p).contains(id) <==> c.by_parent.contains(id) && p(id));
}

/// Of a consistent index, every name lies in its arena and every parent is a directory of the
/// index or none; files stand in the order of their directories with their names back to
/// back, and the list of directories holds each that has a name, and the first, once and in
/// the order of their parents.
pub proof fn law_what_consistency_is(c: Contents, i: int, j: int, id: u32)
    requires
        c.consistent(),
    ensures
        c.nodes.len() < 0xffff_ffff && c.recs.len() < 0xffff_ffff,
        0 <= i < c.nodes.len() ==> {
            &&& c.nodes[i].name_off + c.nodes[i].name_len <= c.dir_names.len()
            &&& c.nodes[i].parent < c.nodes.len() || c.nodes[i].parent == 0xffff_ffff
        },
        0 <= i < c.recs.len() ==> {
            &&& c.recs[i].name_off + c.recs[i].name_len <= c.file_names.len()
            &&& c.recs[i].parent < c.nodes.len() || c.recs[i].parent == 0xffff_ffff
            &&& i == 0 ==> c.recs[i].name_off == 0
        },
        0 <= i < j < c.recs.len() ==> c.recs[i].parent <= c.recs[j].parent,
        0 <= i && j == i + 1 && j < c.recs.len() ==> c.recs[i].name_off + c.recs[i].name_len
            == c.recs[j].name_off,
        0 <= i < j < c.by_parent.len() ==> c.by_parent[i] != c.by_parent[j]
            && c.nodes[c.by_parent[i] as int].parent <= c.nodes[c.by_parent[j] as int].parent,
        c.by_parent.contains(id) <==> id < c.nodes.len() && (id == 0 || c.nodes[id as int].name_len
            > 0),
{
    law_consistent_is_searchable(c);
    if 0 <= i < c.nodes.len() {
        assert(node_ok(c.dir_names, c.nodes[i]));
    }
    if 0 <= i < c.recs.len() {
        assert(rec_ok(c.file_names, c.recs[i]));
        assert(parent_ok(c.recs[i].parent, c.nodes.len() as int));
    }
    if c.by_parent.contains(id) {
        let k = choose|k: int| 0 <= k < c.by_parent.len() && c.by_parent[k] == id;
        assert(in_use(c.nodes, c.by_parent[k] as int));
        assert(c.by_parent[k] < c.nodes.len());
    }
    if id < c.nodes.len() && (id == 0 || c.nodes[id as int].name_len > 0) {
        assert(in_use(c.nodes, id as int));
    }
}

proof fn lemma_steps_sort(recs: Seq<FileRec>, i: int, j: int)
    requires
        forall|k: int|
            0 <= k < recs.len() - 1 ==> (#[trigger] recs[k]).parent <= recs[k + 1].parent,
        0 <= i <= j < recs.len(),
    ensures
        recs[i].parent <= recs[j].parent,
    decreases j - i,
{
    if i < j {
        assert(recs[i].parent <= recs[i + 1].parent);
        lemma_steps_sort(recs, i + 1, j);
    }
}

impl Index {
    #[verifier::rlimit(60)]
    fn dirs_hold(&self) -> (r: bool)
        ensures
            r == self@.dirs_consistent(),
    {
        let n = self.dir_nodes.len();
        if n >= u32::MAX as usize {
            return false;
        }
        for i in 0..n
            invariant
                n == self.dir_nodes@.len(),
                n < u32::MAX,
                forall|k: int|
                    0 <= k < i ==> node_ok(self@.dir_names, #[trigger] self@.nodes[k]) && parent_ok(
                        self@.nodes[k].parent,
                        n as int,
                    ),
        {
            let node = self.dir_nodes[i];
            assert(self@.nodes[i as int] == node);
            if node.name_off as u64 + node.name_len as u64 > self.dir_names.len() as u64 {
                return false;
            }
            if node.parent != u32::MAX && node.parent as usize >= n {
                return false;
            }
        }
        true
    }

    #[verifier::rlimit(60)]
    fn files_hold(&self) -> (r: bool)
        ensures
            r == self@.files_consistent(),
    {
        let n = self.file_recs.len();
        if n >= u32::MAX as usize {
            return false;
        }
        if n == 0 {
            return self.file_names.len() == 0;
        }
        if self.file_recs[0].name_off != 0 {
            return false;
        }
        for i in 0..n
            invariant
                0 < n == self.file_recs@.len(),
                n < u32::MAX,
                self@.recs[0].name_off == 0,
                forall|k: int|
                    0 <= k < i ==> parent_ok(
                        (#[trigger] self@.recs[k]).parent,
                        self@.nodes.len() as int,
                    ),
                forall|k: int|
                    0 <= k < i && k < n - 1 ==> (#[trigger] self@.recs[k]).name_off
                        + self@.recs[k].name_len == self@.recs[k + 1].name_off,
                forall|k: int|
                    0 <= k < i && k < n - 1 ==> (#[trigger] self@.recs[k]).parent <= self@.recs[k
                        + 1].parent,
                i == n ==> self@.recs[n - 1].name_off + self@.recs[n - 1].name_len
                    == self@.file_names.len(),
        {
            let rec = self.file_recs[i];
            assert(self@.recs[i as int] == rec);
            if rec.parent != u32::MAX && rec.parent as usize >= self.dir_nodes.len() {
                return false;
            }
            let end = rec.name_off as u64 + rec.name_len as u64;
            if i + 1 < n {
                let next = self.file_recs[i + 1];
                assert(self@.recs[i + 1] == next);
                if end != next.name_off as u64 || rec.parent > next.parent {
                    return false;
                }
            } else if end != self.file_names.len() as u64 {
                assert(self@.recs.last() == rec);
                return false;
            }
        }
        proof {
            assert(self@.recs.last() == self@.recs[n - 1]);
            assert forall|k: int, l: int| 0 <= k <= l < self@.recs.len() implies (
            #[trigger] self@.recs[k]).parent <= (#[trigger] self@.recs[l]).parent by {
                lemma_steps_sort(self@.recs, k, l);
            }
        }
        true
    }

    #[verifier::rlimit(60)]
    fn ids_hold(&self) -> (r: bool)
        requires
            self@.dirs_consistent(),
        ensures
            r == self@.by_parent_consistent(),
    {
        let n = self.dir_nodes.len();
        let m = self.dir_by_parent.len();
        let ghost ids = self@.by_parent;
        let ghost nodes = self@.nodes;
        let mut seen: Vec<bool> = Vec::with_capacity(n);
        for i in 0..n
            invariant
                seen@ =~= Seq::new(i as nat, |k: int| false),
        {
            seen.push(false);
        }
        for i in 0..m
            invariant
                n == self.dir_nodes@.len(),
                m == self.dir_by_parent@.len(),
                ids == self.dir_by_parent@,
                nodes == self.dir_nodes@,
                ids == self@.by_parent,
                nodes == self@.nodes,
                seen@.len() == n,
                ids_sorted(nodes, ids.take(i as int)),
                forall|k: int|
                    0 <= k < i ==> (#[trigger] ids[k]) < n && in_use(nodes, ids[k] as int)
                        && seen@[ids[k] as int],
                forall|k: int, l: int| 0 <= k < l < i ==> ids[k] != ids[l],
                forall|d: int|
                    0 <= d < n && #[trigger] seen@[d] ==> exists|k: int| 0 <= k < i && ids[k] == d,
        {
            let id = self.dir_by_parent[i];
            assert(ids[i as int] == id);
            if id as usize >= n {
                return false;
            }
            if id != 0 && self.dir_nodes[id as usize].name_len == 0 {
                return false;
            }
            if seen[id as usize] {
                assert(!ids.no_duplicates());
                return false;
            }
            if i > 0 {
                let prev = self.dir_by_parent[i - 1];
                assert(ids.take(i as int)[i - 1] == prev);
                if self.dir_nodes[prev as usize].parent > self.dir_nodes[id as usize].parent {
                    assert(ids[i - 1] == prev);
                    return false;
                }
            }
            let ghost old_seen = seen@;
            seen.set(id as usize, true);
            proof {
                let t = ids.take(i + 1);
                assert forall|k: int| 0 <= k < t.len() implies (#[trigger] t[k]) < nodes.len() by {
                    if k < i {
                        assert(ids.take(i as int)[k] == t[k]);
                    }
                }
                assert forall|k: int, l: int| 0 <= k <= l < t.len() implies nodes[(
                #[trigger] t[k]) as int].parent <= nodes[(#[trigger] t[l]) as int].parent by {
                    if l < i {
                        assert(ids.take(i as int)[k] == t[k]);
                        assert(ids.take(i as int)[l] == t[l]);
                    } else if k < i {
                        assert(ids.take(i as int)[k] == t[k]);
                        assert(ids.take(i as int)[i - 1] == t[i - 1]);
                    }
                }
                assert forall|d: int| 0 <= d < n && #[trigger] seen@[d] implies exists|k: int|
                    0 <= k < i + 1 && ids[k] == d by {
                    if d == id {
                        assert(ids[i as int] == d);
                    } else {
                        assert(old_seen[d]);
                    }
                }
            }
        }
        assert(ids.take(m as int) =~= ids);
        assert(ids.no_duplicates());
        for i in 0..n
            invariant
                n == self.dir_nodes@.len(),
                m == ids.len(),
                ids == self@.by_parent,
                nodes == self.dir_nodes@,
                nodes == self@.nodes,
                seen@.len() == n,
                n < u32::MAX,
                forall|k: int| 0 <= k < m ==> (#[trigger] ids[k]) < n && seen@[ids[k] as int],
                forall|d: int|
                    0 <= d < n && #[trigger] seen@[d] ==> exists|k: int| 0 <= k < m && ids[k] == d,
                forall|d: u32|
                    d < i && in_use(nodes, d as int) ==> #[trigger] ids.contains(d),
        {
            if (i == 0 || self.dir_nodes[i].name_len > 0) && !seen[i] {
                proof {
                    let d = i as u32;
                    assert(in_use(nodes, d as int));
                    if ids.contains(d) {
                        let k = choose|k: int| 0 <= k < m && ids[k] == d;
                        assert(seen@[ids[k] as int]);
                    }
                    assert(!ids.contains(d));
                }
                return false;
            }
            proof {
                if seen@[i as int] {
                    let k = choose|k: int| 0 <= k < m && ids[k] == i;
                    assert(ids[k] == i as u32);
                    assert(ids.contains(i as u32));
                }
            }
        }
        true
    }

    /// Whether the tables fit together as those of a scan do.
    pub fn is_consistent(&self) -> (r: bool)
        ensures
            r == self@.consistent(),
    {
        self.dirs_hold() && self.files_hold() && self.ids_hold()
    }
}

} // verus!
