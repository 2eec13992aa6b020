//! Writing an index.
//!
//! The files of all workers are brought into one sequence, put in the order of their
//! parents, and their names laid back to back in that order, so that a search walks
//! the arena from front to back and the files of a directory are found by binary
//! search. Directories keep their ids, which files refer to; a separate list of ids
//! gives them in the order of their parents.

use vstd::prelude::*;
use vstd::slice::slice_subrange;
#[allow(unused_imports)]
use vstd::bytes::{spec_u32_to_le_bytes, spec_u64_to_le_bytes};
#[allow(unused_imports)]
use vstd::seq_lib::lemma_multiset_commutative;

use crate::bytes::{put_u16, put_u32, put_u64, to_pattern64};
use crate::index::{DATA_START, MAGIC, VERSION};
#[allow(unused_imports)]
use crate::index::{
    aligned, decoded, flat, flaw, ids_sorted, in_use, law_index_round_trip, lemma_sizes,
    node_bytes, packed, padded, parent_ok, rec_bytes, recs_ok, recs_sorted, zeros, Contents,
};
use crate::order::order_by_key;
#[allow(unused_imports)]
use crate::order::{
    before, is_stable_order, law_stable_order_exists, lemma_keys_ascend, lemma_stable_order_step,
    stable_order,
};
#[allow(unused_imports)]
use crate::pick::{between, lemma_between_contains, lemma_between_len, lemma_between_rises};
use crate::scan::{DirNode, FileRec, FileShard, ScanResult};
#[allow(unused_imports)]
use crate::scan::{
    file_item, ids_below, lemma_merged, merged_names, merged_nodes, node_ok, placed, rec_ok, FileItem,
    WorkerOut,
};
use crate::text::extend;

verus! {

// --- what is written ---

/// The names of all shards, one after the other.
pub open spec fn all_names(shards: Seq<FileShard>) -> Seq<u8>
    decreases shards.len(),
{
    if shards.len() == 0 {
        Seq::empty()
    } else {
        all_names(shards.drop_last()) + shards.last().names@
    }
}

/// `r`, its name offset counted from the start of an arena in which its own begins
/// at `base`.
pub open spec fn moved(r: FileRec, base: int) -> FileRec {
    FileRec { name_off: (r.name_off + base) as u32, ..r }
}

/// The records of all shards, one after the other.
pub open spec fn all_recs(shards: Seq<FileShard>) -> Seq<FileRec>
    decreases shards.len(),
{
    if shards.len() == 0 {
        Seq::empty()
    } else {
        let base = all_names(shards.drop_last()).len() as int;
        all_recs(shards.drop_last()) + shards.last().recs@.map_values(|r: FileRec| moved(r, base))
    }
}

/// The names of the shards' records lie inside the arena of all shards.
pub open spec fn shards_ok(shards: Seq<FileShard>) -> bool {
    forall|k: int, j: int|
        0 <= k < shards.len() && 0 <= j < shards[k].recs@.len() ==> all_names(
            shards.take(k),
        ).len() + (#[trigger] shards[k].recs@[j]).name_off + shards[k].recs@[j].name_len
            <= all_names(shards).len()
}

/// The files of all shards.
pub open spec fn scanned_files(shards: Seq<FileShard>) -> Seq<FileItem> {
    all_recs(shards).map_values(|r: FileRec| file_item(all_names(shards), r))
}

/// The parents of `items`.
pub open spec fn parents(items: Seq<FileItem>) -> Seq<u32> {
    items.map_values(|f: FileItem| f.parent)
}

/// `items` in the order of their parents.
pub open spec fn files_by_parent(items: Seq<FileItem>) -> Seq<FileItem> {
    stable_order(parents(items)).map_values(|i: u32| items[i as int])
}

/// The names of `items` back to back.
pub open spec fn names_of(items: Seq<FileItem>) -> Seq<u8>
    decreases items.len(),
{
    if items.len() == 0 {
        Seq::empty()
    } else {
        names_of(items.drop_last()) + items.last().name
    }
}

/// The records of `items`, whose names stand back to back.
pub open spec fn recs_of(items: Seq<FileItem>) -> Seq<FileRec> {
    Seq::new(
        items.len(),
        |i: int|
            FileRec {
                name_off: names_of(items.take(i)).len() as u32,
                parent: items[i].parent,
                name_len: items[i].name.len() as u16,
                flags: items[i].flags,
            },
    )
}

/// The ids of the directories in use.
pub open spec fn used_ids(nodes: Seq<DirNode>) -> Seq<u32> {
    between(0, nodes.len() as int, |i: int| in_use(nodes, i))
}

/// The ids of the directories in use, in the order of their parents.
pub open spec fn ids_by_parent(nodes: Seq<DirNode>) -> Seq<u32> {
    let ids = used_ids(nodes);
    stable_order(ids.map_values(|id: u32| nodes[id as int].parent)).map_values(
        |i: u32| ids[i as int],
    )
}

/// Length of the root's path.
pub open spec fn root_len(nodes: Seq<DirNode>) -> nat {
    if nodes.len() == 0 {
        0
    } else {
        nodes[0].name_len as nat
    }
}

/// What the index of a scan holds.
pub open spec fn image(
    scan: ScanResult,
    event_id: u64,
    dev_uuid: Seq<u8>,
    scan_time: i64,
) -> Contents {
    let names = scan.dirs.names@;
    let nodes = scan.dirs.nodes@;
    let files = files_by_parent(scanned_files(scan.shards@));
    Contents {
        root: Seq::new(root_len(nodes), |i: int| names[i]),
        dir_names: names,
        nodes,
        by_parent: ids_by_parent(nodes),
        file_names: names_of(files),
        recs: recs_of(files),
        scan_time,
        event_id,
        dev_uuid,
    }
}

/// Bytes in the names of `recs`.
pub open spec fn name_total(recs: Seq<FileRec>) -> nat
    decreases recs.len(),
{
    if recs.len() == 0 {
        0
    } else {
        name_total(recs.drop_last()) + recs.last().name_len as nat
    }
}

/// Size of an index with so many bytes of directory names, directories, directories in use,
/// bytes of file names and files.
pub open spec fn index_size(dir_bytes: int, dirs: int, used: int, file_bytes: int, files: int) -> int {
    aligned(aligned(aligned(aligned(DATA_START + dir_bytes) + 12 * dirs) + 4 * used) + file_bytes)
        + 12 * files
}

/// What the counters of the format can count.
pub open spec fn scan_fits(scan: ScanResult) -> bool {
    let recs = all_recs(scan.shards@);
    let nodes = scan.dirs.nodes@;
    &&& shards_ok(scan.shards@)
    &&& all_names(scan.shards@).len() <= u32::MAX
    &&& recs.len() <= u32::MAX
    &&& nodes.len() <= u32::MAX
    &&& name_total(recs) <= u32::MAX
    &&& index_size(
        scan.dirs.names@.len() as int,
        nodes.len() as int,
        used_ids(nodes).len() as int,
        name_total(recs) as int,
        recs.len() as int,
    ) <= usize::MAX
}

// --- laying out ---

/// `n`, rounded up to a multiple of 8.
pub fn align8(n: u64) -> (r: u64)
    requires
        n + 7 <= u64::MAX,
    ensures
        r == aligned(n as int),
{
    (n + 7) / 8 * 8
}

/// Fills up with zeros to a multiple of 8.
fn pad(buf: &mut Vec<u8>)
    ensures
        final(buf)@ == padded(old(buf)@),
{
    let ghost from = buf@;
    let extra = (8 - buf.len() % 8) % 8;
    assert(extra == aligned(from.len() as int) - from.len());
    assert(buf@ =~= from + zeros(0));
    for i in 0..extra
        invariant
            buf@ == from + zeros(i as int),
    {
        buf.push(0);
        assert(buf@ =~= from + zeros(i + 1));
    }
}

proof fn lemma_names_prefix(shards: Seq<FileShard>, k: int)
    requires
        0 <= k <= shards.len(),
    ensures
        all_names(shards.take(k)).len() <= all_names(shards).len(),
        all_recs(shards.take(k)).len() <= all_recs(shards).len(),
        all_names(shards).take(all_names(shards.take(k)).len() as int) == all_names(
            shards.take(k),
        ),
    decreases shards.len(),
{
    if k < shards.len() {
        let front = shards.drop_last();
        lemma_names_prefix(front, k);
        assert(front.take(k) =~= shards.take(k));
        let m = all_names(shards.take(k)).len() as int;
        assert(all_names(shards).take(m) =~= all_names(front).take(m));
    } else {
        assert(shards.take(k) =~= shards);
        assert(all_names(shards).take(all_names(shards).len() as int) =~= all_names(shards));
    }
}

/// Brings the shards into one arena and one list of records.
#[verifier::rlimit(60)]
fn gather(shards: &Vec<FileShard>) -> (r: (Vec<u8>, Vec<FileRec>))
    requires
        shards_ok(shards@),
        all_names(shards@).len() <= u32::MAX,
    ensures
        r.0@ == all_names(shards@),
        r.1@ == all_recs(shards@),
        forall|i: int| 0 <= i < r.1@.len() ==> rec_ok(r.0@, #[trigger] r.1@[i]),
{
    let mut names: Vec<u8> = Vec::new();
    let mut recs: Vec<FileRec> = Vec::new();
    let ghost total = all_names(shards@).len() as int;
    assert(shards@.take(0) =~= Seq::empty());
    for k in 0..shards.len()
        invariant
            shards_ok(shards@),
            total == all_names(shards@).len(),
            total <= u32::MAX,
            names@ == all_names(shards@.take(k as int)),
            recs@ == all_recs(shards@.take(k as int)),
            forall|i: int|
                0 <= i < recs@.len() ==> (#[trigger] recs@[i]).name_off + recs@[i].name_len <= total,
    {
        let shard = &shards[k];
        proof {
            lemma_names_prefix(shards@, k as int);
            lemma_names_prefix(shards@, k + 1);
            assert(shards@.take(k + 1).drop_last() =~= shards@.take(k as int));
        }
        let base = names.len() as u32;
        let ghost before = recs@;
        extend(&mut names, shard.names.as_slice());
        for j in 0..shard.recs.len()
            invariant
                shards_ok(shards@),
                0 <= k < shards@.len(),
                *shard == shards@[k as int],
                base == all_names(shards@.take(k as int)).len(),
                total == all_names(shards@).len(),
                total <= u32::MAX,
                recs@ =~= before + shard.recs@.map_values(|r: FileRec| moved(r, base as int)).take(
                    j as int,
                ),
                forall|i: int|
                    0 <= i < recs@.len() ==> (#[trigger] recs@[i]).name_off + recs@[i].name_len
                        <= total,
        {
            let r = shard.recs[j];
            assert(shards@[k as int].recs@[j as int] == r);
            recs.push(
                FileRec {
                    name_off: r.name_off + base,
                    parent: r.parent,
                    name_len: r.name_len,
                    flags: r.flags,
                },
            );
        }
        proof {
            let own = shard.recs@.map_values(|r: FileRec| moved(r, base as int));
            assert(own.take(own.len() as int) =~= own);
        }
    }
    assert(shards@.take(shards@.len() as int) =~= shards@);
    (names, recs)
}

proof fn lemma_names_of_prefix(items: Seq<FileItem>, i: int)
    requires
        0 <= i <= items.len(),
    ensures
        names_of(items.take(i)).len() <= names_of(items).len(),
    decreases items.len() - i,
{
    if i < items.len() {
        lemma_names_of_prefix(items, i + 1);
        assert(items.take(i + 1).drop_last() =~= items.take(i));
    } else {
        assert(items.take(i) =~= items);
    }
}

proof fn lemma_names_of_concat(a: Seq<FileItem>, b: Seq<FileItem>)
    ensures
        names_of(a + b) == names_of(a) + names_of(b),
    decreases b.len(),
{
    if b.len() == 0 {
        assert(a + b =~= a);
        assert(names_of(a) + names_of(b) =~= names_of(a));
    } else {
        assert((a + b).drop_last() =~= a + b.drop_last());
        lemma_names_of_concat(a, b.drop_last());
        assert(names_of(a + b) =~= names_of(a) + names_of(b));
    }
}

proof fn lemma_put_in(a: Seq<FileItem>, x: FileItem, b: Seq<FileItem>)
    ensures
        (a + seq![x] + b).to_multiset() == (a + b).to_multiset().insert(x),
{
    lemma_multiset_commutative(a + seq![x], b);
    lemma_multiset_commutative(a, b);
    assert(a + seq![x] =~= a.push(x));
    a.to_multiset_ensures();
    assert(a.to_multiset().insert(x).add(b.to_multiset()) =~= a.to_multiset().add(
        b.to_multiset(),
    ).insert(x));
}

/// Putting files in order neither adds to them nor takes from them.
#[verifier::rlimit(60)]
proof fn lemma_names_of_sorted(items: Seq<FileItem>)
    requires
        items.len() <= u32::MAX,
    ensures
        files_by_parent(items).len() == items.len(),
        names_of(files_by_parent(items)).len() == names_of(items).len(),
        files_by_parent(items).to_multiset() == items.to_multiset(),
    decreases items.len(),
{
    law_stable_order_exists(parents(items));
    if items.len() == 0 {
        assert(files_by_parent(items) =~= items);
    } else {
        let front = items.drop_last();
        let n = front.len() as int;
        lemma_names_of_sorted(front);
        law_stable_order_exists(parents(front));
        assert(parents(items).drop_last() =~= parents(front));
        let p = lemma_stable_order_step(parents(items));
        let f = stable_order(parents(front));
        let sorted = files_by_parent(front);
        let (a, b) = (sorted.take(p), sorted.skip(p));
        let x = seq![items.last()];
        assert(files_by_parent(items) =~= a + x + b) by {
            let all = files_by_parent(items);
            assert forall|i: int| 0 <= i < all.len() implies all[i] == (a + x + b)[i] by {
                if i < p {
                    assert(f[i] < n);
                } else if i > p {
                    assert(f[i - 1] < n);
                }
            }
        }
        lemma_names_of_concat(a, b);
        lemma_names_of_concat(a, x);
        lemma_names_of_concat(a + x, b);
        assert(a + b =~= sorted);
        assert(x.drop_last() =~= Seq::empty());
        assert(names_of(x.drop_last()) =~= Seq::empty());
        assert(x.last() == items.last());
        assert(names_of(x) =~= items.last().name);
        lemma_put_in(a, items.last(), b);
        assert(front.push(items.last()) =~= items);
        front.to_multiset_ensures();
    }
}

proof fn lemma_name_total(names: Seq<u8>, recs: Seq<FileRec>)
    requires
        forall|i: int| 0 <= i < recs.len() ==> rec_ok(names, #[trigger] recs[i]),
    ensures
        names_of(recs.map_values(|r: FileRec| file_item(names, r))).len() == name_total(recs),
    decreases recs.len(),
{
    let items = recs.map_values(|r: FileRec| file_item(names, r));
    if recs.len() > 0 {
        let front = recs.drop_last();
        assert forall|i: int| 0 <= i < front.len() implies rec_ok(names, #[trigger] front[i]) by {
            assert(front[i] == recs[i]);
        }
        lemma_name_total(names, front);
        assert(items.drop_last() =~= front.map_values(|r: FileRec| file_item(names, r)));
        assert(rec_ok(names, recs[recs.len() - 1]));
    }
}

/// The size of an index, counted from the scan.
proof fn lemma_image_size(scan: ScanResult, event_id: u64, dev_uuid: Seq<u8>, scan_time: i64)
    requires
        shards_ok(scan.shards@),
        all_names(scan.shards@).len() <= u32::MAX,
        all_recs(scan.shards@).len() <= u32::MAX,
        scan.dirs.nodes@.len() <= u32::MAX,
    ensures
        ({
            let c = image(scan, event_id, dev_uuid, scan_time);
            let recs = all_recs(scan.shards@);
            let nodes = scan.dirs.nodes@;
            &&& c.file_names.len() == name_total(recs)
            &&& c.size() == index_size(
                scan.dirs.names@.len() as int,
                nodes.len() as int,
                used_ids(nodes).len() as int,
                name_total(recs) as int,
                recs.len() as int,
            )
        }),
{
    let shards = scan.shards@;
    let nodes = scan.dirs.nodes@;
    let items = scanned_files(shards);
    assert(shards.take(shards.len() as int) =~= shards);
    lemma_all_recs_ok(shards, shards, shards.len() as int);
    lemma_name_total(all_names(shards), all_recs(shards));
    lemma_names_of_sorted(items);
    lemma_between_len(0, nodes.len() as int, |i: int| in_use(nodes, i));
    law_stable_order_exists(used_ids(nodes).map_values(|id: u32| nodes[id as int].parent));
}

/// Puts the records in the order of their parents and their names back to back.
#[verifier::rlimit(60)]
fn sort_files(names: &Vec<u8>, recs: &Vec<FileRec>, Ghost(items): Ghost<Seq<FileItem>>) -> (r: (
    Vec<u8>,
    Vec<FileRec>,
))
    requires
        items == recs@.map_values(|r: FileRec| file_item(names@, r)),
        recs@.len() <= u32::MAX,
        forall|i: int| 0 <= i < recs@.len() ==> rec_ok(names@, #[trigger] recs@[i]),
        names_of(files_by_parent(items)).len() <= u32::MAX,
    ensures
        r.0@ == names_of(files_by_parent(items)),
        r.1@ == recs_of(files_by_parent(items)),
{
    let mut keys: Vec<u32> = Vec::with_capacity(recs.len());
    for i in 0..recs.len()
        invariant
            keys@ =~= recs@.map_values(|r: FileRec| r.parent).take(i as int),
    {
        keys.push(recs[i].parent);
    }
    assert(keys@ =~= parents(items));
    let order = order_by_key(keys.as_slice());
    let ghost sorted = files_by_parent(items);
    let mut out_names: Vec<u8> = Vec::with_capacity(names.len());
    let mut out_recs: Vec<FileRec> = Vec::with_capacity(recs.len());
    assert(sorted.take(0) =~= Seq::empty());
    for k in 0..order.len()
        invariant
            items == recs@.map_values(|r: FileRec| file_item(names@, r)),
            is_stable_order(keys@, order@),
            keys@.len() == recs@.len(),
            sorted == order@.map_values(|i: u32| items[i as int]),
            names_of(sorted).len() <= u32::MAX,
            forall|i: int| 0 <= i < recs@.len() ==> rec_ok(names@, #[trigger] recs@[i]),
            out_names@ == names_of(sorted.take(k as int)),
            out_recs@ =~= recs_of(sorted).take(k as int),
    {
        let i = order[k] as usize;
        let r = recs[i];
        proof {
            assert(rec_ok(names@, recs@[i as int]));
            lemma_names_of_prefix(sorted, k as int);
            assert(sorted.take(k + 1).drop_last() =~= sorted.take(k as int));
            assert(sorted[k as int] == file_item(names@, r));
            assert(sorted[k as int].name.len() == r.name_len);
        }
        let off = out_names.len() as u32;
        let total = names.len();
        assert(r.name_off + r.name_len <= total);
        let start = r.name_off as usize;
        extend(&mut out_names, slice_subrange(names.as_slice(), start, start + r.name_len as usize));
        out_recs.push(
            FileRec { name_off: off, parent: r.parent, name_len: r.name_len, flags: r.flags },
        );
    }
    assert(sorted.take(sorted.len() as int) =~= sorted);
    (out_names, out_recs)
}

/// Lists the directories in use in the order of their parents.
#[verifier::rlimit(60)]
fn sort_ids(nodes: &Vec<DirNode>) -> (r: Vec<u32>)
    requires
        nodes@.len() <= u32::MAX,
    ensures
        r@ == ids_by_parent(nodes@),
{
    let mut ids: Vec<u32> = Vec::new();
    let mut keys: Vec<u32> = Vec::new();
    let ghost used = |i: int| in_use(nodes@, i);
    for i in 0..nodes.len()
        invariant
            nodes@.len() <= u32::MAX,
            used == (|i: int| in_use(nodes@, i)),
            ids@ == between(0, i as int, used),
            keys@ =~= ids@.map_values(|id: u32| nodes@[id as int].parent),
    {
        if i == 0 || nodes[i].name_len > 0 {
            ids.push(i as u32);
            keys.push(nodes[i].parent);
        }
    }
    proof {
        lemma_between_len(0, nodes@.len() as int, used);
    }
    let order = order_by_key(keys.as_slice());
    let mut out: Vec<u32> = Vec::with_capacity(ids.len());
    for k in 0..order.len()
        invariant
            is_stable_order(keys@, order@),
            keys@.len() == ids@.len(),
            out@ =~= order@.map_values(|i: u32| ids@[i as int]).take(k as int),
    {
        out.push(ids[order[k] as usize]);
    }
    assert(out@ =~= ids_by_parent(nodes@));
    out
}

fn put_nodes(buf: &mut Vec<u8>, nodes: &Vec<DirNode>)
    ensures
        final(buf)@ == old(buf)@ + flat(nodes@.map_values(|n: DirNode| node_bytes(n))),
{
    let ghost from = buf@;
    let ghost parts = nodes@.map_values(|n: DirNode| node_bytes(n));
    assert(from + flat(parts.take(0)) =~= from);
    for i in 0..nodes.len()
        invariant
            parts == nodes@.map_values(|n: DirNode| node_bytes(n)),
            buf@ == from + flat(parts.take(i as int)),
    {
        let n = nodes[i];
        put_u32(buf, n.name_off);
        put_u32(buf, n.parent);
        put_u16(buf, n.name_len);
        put_u16(buf, n._pad);
        proof {
            assert(parts.take(i + 1).drop_last() =~= parts.take(i as int));
            assert(buf@ =~= from + flat(parts.take(i + 1)));
        }
    }
    assert(parts.take(parts.len() as int) =~= parts);
}

fn put_recs(buf: &mut Vec<u8>, recs: &Vec<FileRec>)
    ensures
        final(buf)@ == old(buf)@ + flat(recs@.map_values(|r: FileRec| rec_bytes(r))),
{
    let ghost from = buf@;
    let ghost parts = recs@.map_values(|r: FileRec| rec_bytes(r));
    assert(from + flat(parts.take(0)) =~= from);
    for i in 0..recs.len()
        invariant
            parts == recs@.map_values(|r: FileRec| rec_bytes(r)),
            buf@ == from + flat(parts.take(i as int)),
    {
        let r = recs[i];
        put_u32(buf, r.name_off);
        put_u32(buf, r.parent);
        put_u16(buf, r.name_len);
        put_u16(buf, r.flags);
        proof {
            assert(parts.take(i + 1).drop_last() =~= parts.take(i as int));
            assert(buf@ =~= from + flat(parts.take(i + 1)));
        }
    }
    assert(parts.take(parts.len() as int) =~= parts);
}

fn put_ids(buf: &mut Vec<u8>, ids: &Vec<u32>)
    ensures
        final(buf)@ == old(buf)@ + flat(ids@.map_values(|id: u32| spec_u32_to_le_bytes(id))),
{
    let ghost from = buf@;
    let ghost parts = ids@.map_values(|id: u32| spec_u32_to_le_bytes(id));
    assert(from + flat(parts.take(0)) =~= from);
    for i in 0..ids.len()
        invariant
            parts == ids@.map_values(|id: u32| spec_u32_to_le_bytes(id)),
            buf@ == from + flat(parts.take(i as int)),
    {
        put_u32(buf, ids[i]);
        proof {
            assert(parts.take(i + 1).drop_last() =~= parts.take(i as int));
            assert(buf@ =~= from + flat(parts.take(i + 1)));
        }
    }
    assert(parts.take(parts.len() as int) =~= parts);
}

fn put_words(buf: &mut Vec<u8>, words: &[u64])
    ensures
        final(buf)@ == old(buf)@ + flat(words@.map_values(|w: u64| spec_u64_to_le_bytes(w))),
{
    let ghost from = buf@;
    let ghost parts = words@.map_values(|w: u64| spec_u64_to_le_bytes(w));
    assert(from + flat(parts.take(0)) =~= from);
    for i in 0..words.len()
        invariant
            parts == words@.map_values(|w: u64| spec_u64_to_le_bytes(w)),
            buf@ == from + flat(parts.take(i as int)),
    {
        put_u64(buf, words[i]);
        proof {
            assert(parts.take(i + 1).drop_last() =~= parts.take(i as int));
            assert(buf@ =~= from + flat(parts.take(i + 1)));
        }
    }
    assert(parts.take(parts.len() as int) =~= parts);
}

/// Whether the counters of the format can count what was found.
#[verifier::rlimit(60)]
pub fn fits(scan: &ScanResult) -> (r: bool)
    ensures
        r == scan_fits(*scan),
{
    let shards = &scan.shards;
    let ghost all = shards@;
    let ghost recs = all_recs(all);
    let max = u32::MAX as u64;
    let mut names: u64 = 0;
    let mut count: u64 = 0;
    assert(all.take(0) =~= Seq::empty());
    for k in 0..shards.len()
        invariant
            all == shards@,
            all == scan.shards@,
            max == u32::MAX,
            names == all_names(all.take(k as int)).len(),
            count == all_recs(all.take(k as int)).len(),
            names <= max,
            count <= max,
    {
        proof {
            assert(all.take(k + 1).drop_last() =~= all.take(k as int));
            lemma_names_prefix(all, k + 1);
        }
        let (n, m) = (shards[k].names.len() as u64, shards[k].recs.len() as u64);
        if n > max - names || m > max - count {
            return false;
        }
        names += n;
        count += m;
    }
    assert(all.take(all.len() as int) =~= all);
    let mut base: u64 = 0;
    let mut total: u64 = 0;
    for k in 0..shards.len()
        invariant
            all == shards@,
            all == scan.shards@,
            names == all_names(all).len(),
            names <= u32::MAX,
            count == all_recs(all).len(),
            count <= u32::MAX,
            base == all_names(all.take(k as int)).len(),
            base <= names,
            total == name_total(all_recs(all.take(k as int))),
            total <= 0xFFFF * all_recs(all.take(k as int)).len(),
            forall|i: int, j: int|
                0 <= i < k && 0 <= j < all[i].recs@.len() ==> all_names(all.take(i)).len() + (
                #[trigger] all[i].recs@[j]).name_off + all[i].recs@[j].name_len <= all_names(
                    all,
                ).len(),
    {
        let shard = &shards[k];
        let ghost before = all_recs(all.take(k as int));
        let ghost own = shard.recs@.map_values(|r: FileRec| moved(r, base as int));
        proof {
            assert(all.take(k + 1).drop_last() =~= all.take(k as int));
            lemma_names_prefix(all, k + 1);
            lemma_names_prefix(all, k as int);
            assert(before + own.take(0) =~= before);
        }
        for j in 0..shard.recs.len()
            invariant
                all == shards@,
                all == scan.shards@,
                0 <= k < all.len(),
                *shard == all[k as int],
                names == all_names(all).len(),
                names <= u32::MAX,
                base == all_names(all.take(k as int)).len(),
                base <= names,
                own == shard.recs@.map_values(|r: FileRec| moved(r, base as int)),
                before.len() + own.len() <= u32::MAX,
                total == name_total(before + own.take(j as int)),
                total <= 0xFFFF * (before.len() + j),
                forall|i: int, x: int|
                    0 <= i < k && 0 <= x < all[i].recs@.len() ==> all_names(all.take(i)).len() + (
                    #[trigger] all[i].recs@[x]).name_off + all[i].recs@[x].name_len <= all_names(
                        all,
                    ).len(),
                forall|x: int|
                    0 <= x < j ==> base + (#[trigger] shard.recs@[x]).name_off
                        + shard.recs@[x].name_len <= names,
        {
            let r = shard.recs[j];
            assert(all[k as int].recs@[j as int] == r);
            if base + r.name_off as u64 + r.name_len as u64 > names {
                return false;
            }
            proof {
                let next = before + own.take(j + 1);
                assert(next.drop_last() =~= before + own.take(j as int));
                assert(next.last().name_len == r.name_len);
            }
            total += r.name_len as u64;
        }
        assert(own.take(own.len() as int) =~= own);
        base += shard.names.len() as u64;
    }
    let n_dirs = scan.dirs.nodes.len();
    if n_dirs as u64 > max || total > max {
        return false;
    }
    let ghost nodes = scan.dirs.nodes@;
    let ghost used = |i: int| in_use(nodes, i);
    let mut ids: u64 = 0;
    for i in 0..n_dirs
        invariant
            nodes == scan.dirs.nodes@,
            n_dirs == nodes.len(),
            used == (|i: int| in_use(nodes, i)),
            ids == between(0, i as int, used).len(),
            ids <= i,
    {
        if i == 0 || scan.dirs.nodes[i].name_len > 0 {
            ids += 1;
        }
    }
    let size = index_len(
        scan.dirs.names.len() as u64,
        n_dirs as u64,
        ids,
        total,
        count,
    );
    size <= usize::MAX as u128
}

/// The size of an index.
fn index_len(dir_bytes: u64, dirs: u64, used: u64, file_bytes: u64, files: u64) -> (r: u128)
    ensures
        r == index_size(
            dir_bytes as int,
            dirs as int,
            used as int,
            file_bytes as int,
            files as int,
        ),
{
    let a = (DATA_START as u128 + dir_bytes as u128 + 7) / 8 * 8;
    let b = (a + 12 * dirs as u128 + 7) / 8 * 8;
    let c = (b + 4 * used as u128 + 7) / 8 * 8;
    let d = (c + file_bytes as u128 + 7) / 8 * 8;
    d + 12 * files as u128
}

/// Where the sections of an index start: nodes, ids, file names and records.
fn section_offsets(dir_bytes: u64, dirs: u64, used: u64, file_bytes: u64, Ghost(files): Ghost<int>) -> (r:
    (u64, u64, u64, u64))
    requires
        files >= 0,
        index_size(dir_bytes as int, dirs as int, used as int, file_bytes as int, files)
            <= u64::MAX,
    ensures
        r.0 == aligned(DATA_START + dir_bytes),
        r.1 == aligned(r.0 + 12 * dirs),
        r.2 == aligned(r.1 + 4 * used),
        r.3 == aligned(r.2 + file_bytes),
{
    let a = align8(DATA_START + dir_bytes);
    let b = align8(a + dirs * 12);
    let c = align8(b + used * 4);
    let d = align8(c + file_bytes);
    (a, b, c, d)
}

/// Writes a header.
#[verifier::rlimit(60)]
fn put_header(words: &[u64], dev_uuid: &[u8], last_words: &[u64]) -> (r: Vec<u8>)
    ensures
        r@ == MAGIC@ + spec_u32_to_le_bytes(VERSION) + spec_u32_to_le_bytes(0) + flat(
            words@.map_values(|w: u64| spec_u64_to_le_bytes(w)),
        ) + dev_uuid@ + flat(last_words@.map_values(|w: u64| spec_u64_to_le_bytes(w))) + zeros(48),
{
    let mut buf: Vec<u8> = Vec::new();
    extend(&mut buf, MAGIC.as_slice());
    assert(buf@ =~= MAGIC@);
    put_u32(&mut buf, VERSION);
    put_u32(&mut buf, 0);
    put_words(&mut buf, words);
    extend(&mut buf, dev_uuid);
    put_words(&mut buf, last_words);
    let gap = [0u8;48];
    assert(gap@ =~= zeros(48));
    extend(&mut buf, gap.as_slice());
    buf
}

/// Writes what follows the header.
#[verifier::rlimit(60)]
fn put_sections(
    buf: &mut Vec<u8>,
    dir_names: &Vec<u8>,
    nodes: &Vec<DirNode>,
    by_parent: &Vec<u32>,
    file_names: &Vec<u8>,
    recs: &Vec<FileRec>,
    Ghost(c): Ghost<Contents>,
)
    requires
        old(buf)@ == c.header_bytes(),
        dir_names@ == c.dir_names,
        nodes@ == c.nodes,
        by_parent@ == c.by_parent,
        file_names@ == c.file_names,
        recs@ == c.recs,
        c.dev_uuid.len() == 16,
        c.size() <= usize::MAX,
    ensures
        final(buf)@ == c.encoded(),
{
    proof {
        lemma_sizes(c);
    }
    extend(buf, dir_names.as_slice());
    assert(buf@ == c.upto_dir_names());
    pad(buf);
    put_nodes(buf, nodes);
    assert(buf@ == c.upto_nodes());
    pad(buf);
    put_ids(buf, by_parent);
    assert(buf@ == c.upto_by_parent());
    pad(buf);
    extend(buf, file_names.as_slice());
    assert(buf@ == c.upto_file_names());
    pad(buf);
    put_recs(buf, recs);
}

/// Writes the index of a scan.
///
/// `event_id` and `dev_uuid` say where the stream of file system events is taken up
/// later, `scan_time` when the scan was made.
#[verifier::rlimit(60)]
pub fn build(scan: &ScanResult, event_id: u64, dev_uuid: [u8; 16], scan_time: i64) -> (r: Vec<u8>)
    requires
        scan_fits(*scan),
    ensures
        r@ == image(*scan, event_id, dev_uuid@, scan_time).encoded(),
{
    let ghost c = image(*scan, event_id, dev_uuid@, scan_time);
    proof {
        lemma_image_size(*scan, event_id, dev_uuid@, scan_time);
        lemma_ids_len(scan.dirs.nodes@);
    }
    let (all, recs) = gather(&scan.shards);
    let (file_names, file_recs) = sort_files(
        &all,
        &recs,
        Ghost(scanned_files(scan.shards@)),
    );
    let by_parent = sort_ids(&scan.dirs.nodes);
    let root_len: u64 = if scan.dirs.nodes.len() == 0 {
        0
    } else {
        scan.dirs.nodes[0].name_len as u64
    };
    let (nodes_off, ids_off, names_off, recs_off) = section_offsets(
        scan.dirs.names.len() as u64,
        scan.dirs.nodes.len() as u64,
        by_parent.len() as u64,
        file_names.len() as u64,
        Ghost(c.recs.len() as int),
    );
    let words = [
        DATA_START,
        root_len,
        DATA_START,
        scan.dirs.names.len() as u64,
        nodes_off,
        scan.dirs.nodes.len() as u64,
        names_off,
        file_names.len() as u64,
        recs_off,
        file_recs.len() as u64,
        to_pattern64(scan_time),
        event_id,
    ];
    let last_words = [ids_off, by_parent.len() as u64];
    assert(words@ =~= c.words());
    assert(last_words@ =~= c.last_words());
    let mut buf = put_header(words.as_slice(), dev_uuid.as_slice(), last_words.as_slice());
    assert(buf@ == c.header_bytes());
    put_sections(
        &mut buf,
        &scan.dirs.names,
        &scan.dirs.nodes,
        &by_parent,
        &file_names,
        &file_recs,
        Ghost(c),
    );
    buf
}

proof fn lemma_ids_len(nodes: Seq<DirNode>)
    requires
        nodes.len() <= u32::MAX,
    ensures
        ids_by_parent(nodes).len() == used_ids(nodes).len(),
        used_ids(nodes).len() <= nodes.len(),
{
    lemma_between_len(0, nodes.len() as int, |i: int| in_use(nodes, i));
    law_stable_order_exists(used_ids(nodes).map_values(|id: u32| nodes[id as int].parent));
}

// --- laws ---

/// A scan whose tables are sound: names lie inside their arena, the root's at its
/// start, and parents are directories of the scan.
pub open spec fn scan_sound(scan: ScanResult) -> bool {
    let nodes = scan.dirs.nodes@;
    &&& 0 < nodes.len() < u32::MAX
    &&& all_recs(scan.shards@).len() < u32::MAX
    &&& nodes[0].name_len <= scan.dirs.names@.len()
    &&& forall|i: int|
        0 <= i < nodes.len() ==> node_ok(scan.dirs.names@, #[trigger] nodes[i]) && parent_ok(
            nodes[i].parent,
            nodes.len() as int,
        )
    &&& forall|i: int|
        0 <= i < all_recs(scan.shards@).len() ==> parent_ok(
            (#[trigger] all_recs(scan.shards@)[i]).parent,
            nodes.len() as int,
        )
}

/// Items whose names' lengths can be counted in 16 bits.
spec fn short_names(items: Seq<FileItem>) -> bool {
    forall|i: int| 0 <= i < items.len() ==> (#[trigger] items[i]).name.len() <= u16::MAX
}

proof fn lemma_packed(items: Seq<FileItem>)
    requires
        short_names(items),
        names_of(items).len() <= u32::MAX,
    ensures
        packed(recs_of(items), names_of(items).len() as int),
        forall|i: int|
            0 <= i < items.len() ==> rec_ok(names_of(items), #[trigger] recs_of(items)[i])
                && file_item(names_of(items), recs_of(items)[i]) == items[i],
{
    let recs = recs_of(items);
    let names = names_of(items);
    assert forall|i: int| 0 <= i < items.len() implies (#[trigger] recs[i]).name_off
        + recs[i].name_len == names_of(items.take(i + 1)).len() && rec_ok(names, recs[i])
        && file_item(names, recs[i]) == items[i] by {
        assert(items.take(i + 1).drop_last() =~= items.take(i));
        lemma_names_of_prefix(items, i);
        lemma_names_of_prefix(items, i + 1);
        lemma_names_of_take(items, i + 1);
        assert(items[i].name.len() <= u16::MAX);
        let off = names_of(items.take(i)).len() as int;
        let end = names_of(items.take(i + 1)).len() as int;
        assert(names.subrange(off, end) =~= names.take(end).subrange(off, end));
        assert(names_of(items.take(i + 1)).subrange(off, end) =~= items[i].name);
        assert(file_item(names, recs[i]).name =~= items[i].name);
    }
    assert(items.take(items.len() as int) =~= items);
    if items.len() > 0 {
        assert(items.take(0) =~= Seq::empty());
        assert(recs[0].name_off == 0);
        assert(recs[items.len() - 1] == recs.last());
    }
}

proof fn lemma_names_of_take(items: Seq<FileItem>, i: int)
    requires
        0 <= i <= items.len(),
    ensures
        names_of(items.take(i)).len() <= names_of(items).len(),
        names_of(items).take(names_of(items.take(i)).len() as int) == names_of(items.take(i)),
    decreases items.len(),
{
    if i < items.len() {
        let front = items.drop_last();
        lemma_names_of_take(front, i);
        assert(front.take(i) =~= items.take(i));
        let m = names_of(items.take(i)).len() as int;
        assert(names_of(items).take(m) =~= names_of(front).take(m));
    } else {
        assert(items.take(i) =~= items);
        assert(names_of(items).take(names_of(items).len() as int) =~= names_of(items));
    }
}

proof fn lemma_all_recs_ok(shards: Seq<FileShard>, upto: Seq<FileShard>, k: int)
    requires
        shards_ok(shards),
        all_names(shards).len() <= u32::MAX,
        0 <= k <= shards.len(),
        upto == shards.take(k),
    ensures
        forall|i: int|
            0 <= i < all_recs(upto).len() ==> rec_ok(
                all_names(shards),
                #[trigger] all_recs(upto)[i],
            ),
    decreases k,
{
    if k > 0 {
        let front = upto.drop_last();
        assert(front =~= shards.take(k - 1));
        lemma_all_recs_ok(shards, front, k - 1);
        let base = all_names(front).len() as int;
        assert forall|i: int| 0 <= i < all_recs(upto).len() implies rec_ok(
            all_names(shards),
            #[trigger] all_recs(upto)[i],
        ) by {
            if i >= all_recs(front).len() {
                let j = i - all_recs(front).len();
                let r = shards[k - 1].recs@[j];
                assert(all_recs(upto)[i] == moved(r, base));
            } else {
                assert(all_recs(upto)[i] == all_recs(front)[i]);
            }
        }
    }
}

#[verifier::rlimit(60)]
proof fn lemma_ids_by_parent(nodes: Seq<DirNode>)
    requires
        nodes.len() <= u32::MAX,
    ensures
        ids_sorted(nodes, ids_by_parent(nodes)),
        forall|i: int|
            0 <= i < ids_by_parent(nodes).len() ==> in_use(
                nodes,
                (#[trigger] ids_by_parent(nodes)[i]) as int,
            ),
        ids_by_parent(nodes).no_duplicates(),
        forall|id: u32|
            id < nodes.len() && in_use(nodes, id as int)
                ==> #[trigger] ids_by_parent(nodes).contains(id),
{
    let used = |i: int| in_use(nodes, i);
    let ids = used_ids(nodes);
    let keys = ids.map_values(|id: u32| nodes[id as int].parent);
    let order = stable_order(keys);
    let out = ids_by_parent(nodes);
    lemma_between_len(0, nodes.len() as int, used);
    lemma_between_contains(0, nodes.len() as int, used);
    lemma_between_rises(0, nodes.len() as int, used);
    law_stable_order_exists(keys);
    assert forall|i: int| 0 <= i < out.len() implies (#[trigger] out[i]) < nodes.len() && in_use(
        nodes,
        out[i] as int,
    ) && out[i] == ids[order[i] as int] by {
        assert(ids.contains(ids[order[i] as int]));
    }
    assert forall|i: int, j: int| 0 <= i <= j < out.len() implies nodes[(
    #[trigger] out[i]) as int].parent <= nodes[(#[trigger] out[j]) as int].parent by {
        lemma_keys_ascend(keys, order, i, j);
    }
    assert forall|i: int, j: int| 0 <= i < out.len() && 0 <= j < out.len() && i != j implies out[i]
        != out[j] by {
        let (a, b) = if i < j {
            (i, j)
        } else {
            (j, i)
        };
        assert(before(keys, order[a] as int, order[b] as int));
        assert(order[a] != order[b]);
        if order[a] < order[b] {
            assert(ids[order[a] as int] < ids[order[b] as int]);
        } else {
            assert(ids[order[b] as int] < ids[order[a] as int]);
        }
    }
    assert forall|id: u32| id < nodes.len() && in_use(nodes, id as int) implies #[trigger] out.contains(
        id,
    ) by {
        assert(used(id as int));
        assert(ids.contains(id));
        let x = choose|x: int| 0 <= x < ids.len() && ids[x] == id;
        assert(order.contains(x as u32));
        let y = choose|y: int| 0 <= y < order.len() && order[y] == x as u32;
        assert(out[y] == id);
    }
}

/// The path of the root stands at the start of the directory names.
pub open spec fn root_fits(scan: ScanResult) -> bool {
    root_len(scan.dirs.nodes@) <= scan.dirs.names@.len()
}

/// The index of a scan holds what was found: the directories as they are; every file as
/// often as it was found, whatever its parent; the files in the order of their parents,
/// their names back to back; and the ids of the directories in use, once each, in the order
/// of their parents.
#[verifier::rlimit(60)]
pub proof fn law_built_index_holds_the_scan(
    scan: ScanResult,
    event_id: u64,
    dev_uuid: Seq<u8>,
    scan_time: i64,
)
    requires
        scan_fits(scan),
        root_fits(scan),
    ensures
        ({
            let c = image(scan, event_id, dev_uuid, scan_time);
            &&& c.root == scan.dirs.names@.take(root_len(scan.dirs.nodes@) as int)
            &&& c.dir_names == scan.dirs.names@
            &&& c.nodes == scan.dirs.nodes@
            &&& c.files() == files_by_parent(scanned_files(scan.shards@))
            &&& c.files().to_multiset() == scanned_files(scan.shards@).to_multiset()
            &&& recs_ok(c.file_names, c.recs)
            &&& recs_sorted(c.recs)
            &&& packed(c.recs, c.file_names.len() as int)
            &&& c.by_parent_consistent()
            &&& c.event_id == event_id
            &&& c.dev_uuid == dev_uuid
            &&& c.scan_time == scan_time
        }),
{
    let c = image(scan, event_id, dev_uuid, scan_time);
    let items = scanned_files(scan.shards@);
    let keys = parents(items);
    let order = stable_order(keys);
    let sorted = files_by_parent(items);
    let names = all_names(scan.shards@);
    let recs = all_recs(scan.shards@);
    assert(scan.shards@.take(scan.shards@.len() as int) =~= scan.shards@);
    lemma_all_recs_ok(scan.shards@, scan.shards@, scan.shards@.len() as int);
    law_stable_order_exists(keys);
    lemma_image_size(scan, event_id, dev_uuid, scan_time);
    lemma_names_of_sorted(items);
    assert forall|i: int| 0 <= i < sorted.len() implies (#[trigger] sorted[i]).name.len()
        <= u16::MAX && sorted[i].parent == keys[order[i] as int] by {
        let k = order[i] as int;
        assert(rec_ok(names, recs[k]));
        assert(sorted[i] == file_item(names, recs[k]));
    }
    lemma_packed(sorted);
    assert forall|i: int, j: int| 0 <= i <= j < c.recs.len() implies (#[trigger] c.recs[i]).parent
        <= (#[trigger] c.recs[j]).parent by {
        lemma_keys_ascend(keys, order, i, j);
        assert(c.recs[i].parent == sorted[i].parent);
        assert(c.recs[j].parent == sorted[j].parent);
    }
    lemma_ids_by_parent(c.nodes);
    assert(c.root =~= c.dir_names.take(c.root.len() as int));
    assert(c.files() =~= sorted);
}

/// What is written of a scan is accepted when it is read, and holds what was written.
pub proof fn law_written_index_is_read_back(
    scan: ScanResult,
    event_id: u64,
    dev_uuid: Seq<u8>,
    scan_time: i64,
)
    requires
        scan_fits(scan),
        root_fits(scan),
        dev_uuid.len() == 16,
    ensures
        ({
            let c = image(scan, event_id, dev_uuid, scan_time);
            &&& flaw(c.encoded()) is None
            &&& decoded(c.encoded()) == c
        }),
{
    let c = image(scan, event_id, dev_uuid, scan_time);
    law_built_index_holds_the_scan(scan, event_id, dev_uuid, scan_time);
    lemma_image_size(scan, event_id, dev_uuid, scan_time);
    law_index_round_trip(c);
}

/// The index of a sound scan is consistent: every parent in it is a directory of it, or
/// none.
#[verifier::rlimit(60)]
pub proof fn law_built_index_is_consistent(
    scan: ScanResult,
    event_id: u64,
    dev_uuid: Seq<u8>,
    scan_time: i64,
)
    requires
        scan_fits(scan),
        scan_sound(scan),
    ensures
        image(scan, event_id, dev_uuid, scan_time).consistent(),
{
    let c = image(scan, event_id, dev_uuid, scan_time);
    let items = scanned_files(scan.shards@);
    let order = stable_order(parents(items));
    let sorted = files_by_parent(items);
    let recs = all_recs(scan.shards@);
    law_built_index_holds_the_scan(scan, event_id, dev_uuid, scan_time);
    law_stable_order_exists(parents(items));
    assert forall|i: int| 0 <= i < c.recs.len() implies parent_ok(
        (#[trigger] c.recs[i]).parent,
        c.nodes.len() as int,
    ) by {
        let k = order[i] as int;
        assert(sorted[i] == items[k]);
        assert(c.recs[i].parent == recs[k].parent);
    }
    assert forall|i: int| 0 <= i < c.nodes.len() implies node_ok(c.dir_names, #[trigger] c.nodes[i])
        && parent_ok(c.nodes[i].parent, c.nodes.len() as int) by {
        assert(scan.dirs.nodes@[i] == c.nodes[i]);
    }
}

/// The files of all shards, one shard after the other, each as its own table has it.
pub open spec fn shard_files(shards: Seq<FileShard>) -> Seq<FileItem>
    decreases shards.len(),
{
    if shards.len() == 0 {
        Seq::empty()
    } else {
        shard_files(shards.drop_last()) + shards.last()@
    }
}

#[verifier::rlimit(60)]
proof fn lemma_shard_files(shards: Seq<FileShard>, names: Seq<u8>)
    requires
        forall|k: int| 0 <= k < shards.len() ==> (#[trigger] shards[k]).wf(),
        all_names(shards).is_prefix_of(names),
        names.len() <= u32::MAX,
    ensures
        all_recs(shards).map_values(|r: FileRec| file_item(names, r)) == shard_files(shards),
    decreases shards.len(),
{
    let items = all_recs(shards).map_values(|r: FileRec| file_item(names, r));
    if shards.len() == 0 {
        assert(items =~= shard_files(shards));
    } else {
        let front = shards.drop_last();
        let last = shards.last();
        let base = all_names(front).len() as int;
        let before = all_recs(front).map_values(|r: FileRec| file_item(names, r));
        assert forall|k: int| 0 <= k < front.len() implies (#[trigger] front[k]).wf() by {
            assert(front[k] == shards[k]);
        }
        assert(shards[shards.len() - 1] == last);
        assert(names.take(all_names(shards).len() as int) =~= all_names(shards));
        assert(names.take(base) =~= all_names(front)) by {
            assert(all_names(shards).take(base) =~= all_names(front));
            assert(names.take(base) =~= all_names(shards).take(base));
        }
        lemma_shard_files(front, names);
        assert forall|i: int| 0 <= i < items.len() implies items[i] == (before + last@)[i] by {
            let m = before.len() as int;
            if i < m {
                assert(items[i] == before[i]);
            } else {
                let r = last.recs@[i - m];
                assert(rec_ok(last.names@, last.recs@[i - m]));
                assert(all_recs(shards)[i] == moved(r, base));
                let off = r.name_off as int;
                let end = r.name_off + r.name_len;
                assert forall|j: int| off <= j < end implies names[base + j] == last.names@[j] by {
                    assert(names.take(all_names(shards).len() as int)[base + j] == all_names(
                        shards,
                    )[base + j]);
                }
                assert(names.subrange(base + off, base + end) =~= last.names@.subrange(off, end));
                assert(file_item(names, moved(r, base)).name =~= file_item(last.names@, r).name);
            }
        }
        assert(items =~= before + last@);
    }
}

/// Bringing the shards together changes none of their files.
pub proof fn law_gathering_keeps_the_files(shards: Seq<FileShard>)
    requires
        forall|k: int| 0 <= k < shards.len() ==> (#[trigger] shards[k]).wf(),
        all_names(shards).len() <= u32::MAX,
    ensures
        scanned_files(shards) == shard_files(shards),
{
    assert(all_names(shards).take(all_names(shards).len() as int) =~= all_names(shards));
    lemma_shard_files(shards, all_names(shards));
}

/// Shards whose names lie inside their own arenas can be brought together.
pub proof fn law_shards_fit_together(shards: Seq<FileShard>)
    requires
        forall|k: int| 0 <= k < shards.len() ==> (#[trigger] shards[k]).wf(),
    ensures
        shards_ok(shards),
{
    assert forall|k: int, j: int|
        0 <= k < shards.len() && 0 <= j < shards[k].recs@.len() implies all_names(
        shards.take(k),
    ).len() + (#[trigger] shards[k].recs@[j]).name_off + shards[k].recs@[j].name_len <= all_names(
        shards,
    ).len() by {
        assert(shards[k].wf());
        assert(rec_ok(shards[k].names@, shards[k].recs@[j]));
        assert(shards.take(k + 1).drop_last() =~= shards.take(k));
        lemma_names_prefix(shards, k + 1);
    }
}

/// Every entry that the workers found lies in a directory of the scan.
pub open spec fn parents_known(outs: Seq<WorkerOut>, total_ids: int) -> bool {
    &&& forall|k: int, j: int|
        0 <= k < outs.len() && 0 <= j < outs[k].dir_nodes@.len() ==> parent_ok(
            (#[trigger] outs[k].dir_nodes@[j]).1.parent,
            total_ids,
        )
    &&& forall|k: int, j: int|
        0 <= k < outs.len() && 0 <= j < outs[k].files.recs@.len() ==> parent_ok(
            (#[trigger] outs[k].files.recs@[j]).parent,
            total_ids,
        )
}

proof fn lemma_placed_parents(nodes: Seq<DirNode>, found: Seq<(u32, DirNode)>, base: int, n: int)
    requires
        forall|i: int| 0 <= i < nodes.len() ==> parent_ok((#[trigger] nodes[i]).parent, n),
        forall|j: int| 0 <= j < found.len() ==> (#[trigger] found[j]).0 < nodes.len(),
        forall|j: int| 0 <= j < found.len() ==> parent_ok((#[trigger] found[j]).1.parent, n),
    ensures
        placed(nodes, found, base).len() == nodes.len(),
        forall|i: int|
            0 <= i < nodes.len() ==> parent_ok((#[trigger] placed(nodes, found, base)[i]).parent, n),
    decreases found.len(),
{
    if found.len() > 0 {
        let front = found.drop_last();
        assert forall|j: int| 0 <= j < front.len() implies (#[trigger] front[j]).0 < nodes.len()
            && parent_ok(front[j].1.parent, n) by {
            assert(front[j] == found[j]);
        }
        lemma_placed_parents(nodes, front, base, n);
        assert(found[found.len() - 1] == found.last());
    }
}

proof fn lemma_merged_parents(root: Seq<u8>, total_ids: nat, outs: Seq<WorkerOut>)
    requires
        total_ids > 0,
        ids_below(outs, total_ids as int),
        parents_known(outs, total_ids as int),
    ensures
        merged_nodes(root, total_ids, outs).len() == total_ids,
        forall|i: int|
            0 <= i < total_ids ==> parent_ok(
                (#[trigger] merged_nodes(root, total_ids, outs)[i]).parent,
                total_ids as int,
            ),
    decreases outs.len(),
{
    if outs.len() > 0 {
        let front = outs.drop_last();
        let last = outs.len() - 1;
        assert forall|k: int, j: int|
            0 <= k < front.len() && 0 <= j < front[k].dir_nodes@.len() implies (
        #[trigger] front[k].dir_nodes@[j]).0 < total_ids && parent_ok(
            front[k].dir_nodes@[j].1.parent,
            total_ids as int,
        ) by {
            assert(front[k] == outs[k]);
            assert(outs[k].dir_nodes@[j].0 < total_ids);
        }
        assert forall|k: int, j: int|
            0 <= k < front.len() && 0 <= j < front[k].files.recs@.len() implies parent_ok(
            (#[trigger] front[k].files.recs@[j]).parent,
            total_ids as int,
        ) by {
            assert(front[k] == outs[k]);
            assert(parent_ok(outs[k].files.recs@[j].parent, total_ids as int));
        }
        lemma_merged_parents(root, total_ids, front);
        let found = outs.last().dir_nodes@;
        assert forall|j: int| 0 <= j < found.len() implies (#[trigger] found[j]).0 < total_ids
            && parent_ok(found[j].1.parent, total_ids as int) by {
            assert(outs[last].dir_nodes@[j].0 < total_ids);
        }
        lemma_placed_parents(
            merged_nodes(root, total_ids, front),
            found,
            merged_names(root, front).len() as int,
            total_ids as int,
        );
    }
}

proof fn lemma_rec_parents(shards: Seq<FileShard>, n: int)
    requires
        forall|k: int, j: int|
            0 <= k < shards.len() && 0 <= j < shards[k].recs@.len() ==> parent_ok(
                (#[trigger] shards[k].recs@[j]).parent,
                n,
            ),
    ensures
        forall|i: int|
            0 <= i < all_recs(shards).len() ==> parent_ok((#[trigger] all_recs(shards)[i]).parent, n),
    decreases shards.len(),
{
    if shards.len() > 0 {
        let front = shards.drop_last();
        let last = shards.len() - 1;
        assert forall|k: int, j: int|
            0 <= k < front.len() && 0 <= j < front[k].recs@.len() implies parent_ok(
            (#[trigger] front[k].recs@[j]).parent,
            n,
        ) by {
            assert(front[k] == shards[k]);
            assert(parent_ok(shards[k].recs@[j].parent, n));
        }
        lemma_rec_parents(front, n);
        let before = all_recs(front);
        let base = all_names(front).len() as int;
        assert forall|i: int| 0 <= i < all_recs(shards).len() implies parent_ok(
            (#[trigger] all_recs(shards)[i]).parent,
            n,
        ) by {
            if i < before.len() {
                assert(all_recs(shards)[i] == before[i]);
            } else {
                let r = shards[last].recs@[i - before.len()];
                assert(all_recs(shards)[i] == moved(r, base));
            }
        }
    }
}

/// Every entry that the workers found lies in the root, or in a directory that one of them
/// found.
pub open spec fn parents_found(outs: Seq<WorkerOut>) -> bool {
    &&& forall|k: int, j: int|
        0 <= k < outs.len() && 0 <= j < outs[k].dir_nodes@.len() ==> was_found(
            outs,
            (#[trigger] outs[k].dir_nodes@[j]).1.parent,
        )
    &&& forall|k: int, j: int|
        0 <= k < outs.len() && 0 <= j < outs[k].files.recs@.len() ==> was_found(
            outs,
            (#[trigger] outs[k].files.recs@[j]).parent,
        )
}

/// `id` is that of the root, or of a directory that a worker found.
pub open spec fn was_found(outs: Seq<WorkerOut>, id: u32) -> bool {
    id == 0 || exists|k: int, j: int|
        0 <= k < outs.len() && 0 <= j < outs[k].dir_nodes@.len() && (
        #[trigger] outs[k].dir_nodes@[j]).0 == id
}

/// Where every entry lies in the root or in a directory that was found, every parent is a
/// directory of the scan.
pub proof fn law_parents_that_were_found_are_known(outs: Seq<WorkerOut>, total_ids: int)
    requires
        total_ids > 0,
        ids_below(outs, total_ids),
        parents_found(outs),
    ensures
        parents_known(outs, total_ids),
{
    assert forall|id: u32| #[trigger] was_found(outs, id) implies parent_ok(id, total_ids) by {
        if id != 0 {
            let (k, j) = choose|k: int, j: int|
                0 <= k < outs.len() && 0 <= j < outs[k].dir_nodes@.len() && (
                #[trigger] outs[k].dir_nodes@[j]).0 == id;
            assert(outs[k].dir_nodes@[j].0 < total_ids);
        }
    }
    assert forall|k: int, j: int|
        0 <= k < outs.len() && 0 <= j < outs[k].dir_nodes@.len() implies parent_ok(
        (#[trigger] outs[k].dir_nodes@[j]).1.parent,
        total_ids,
    ) by {
        assert(was_found(outs, outs[k].dir_nodes@[j].1.parent));
    }
    assert forall|k: int, j: int|
        0 <= k < outs.len() && 0 <= j < outs[k].files.recs@.len() implies parent_ok(
        (#[trigger] outs[k].files.recs@[j]).parent,
        total_ids,
    ) by {
        assert(was_found(outs, outs[k].files.recs@[j].parent));
    }
}

/// What the workers found, once merged, makes a sound scan.
pub proof fn law_merged_scan_is_sound(
    root: Seq<u8>,
    total_ids: nat,
    outs: Seq<WorkerOut>,
    scan: ScanResult,
)
    requires
        0 < total_ids < u32::MAX,
        forall|k: int| 0 <= k < outs.len() ==> (#[trigger] outs[k]).wf(),
        ids_below(outs, total_ids as int),
        parents_known(outs, total_ids as int),
        merged_names(root, outs).len() <= u32::MAX,
        all_recs(scan.shards@).len() < u32::MAX,
        scan.dirs.names@ == merged_names(root, outs),
        scan.dirs.nodes@ == merged_nodes(root, total_ids, outs),
        scan.shards@ == outs.map_values(|o: WorkerOut| o.files),
    ensures
        scan_sound(scan),
        shards_ok(scan.shards@),
{
    let shards = scan.shards@;
    let nodes = scan.dirs.nodes@;
    lemma_merged(root, total_ids, outs);
    lemma_merged_parents(root, total_ids, outs);
    assert forall|k: int| 0 <= k < shards.len() implies (#[trigger] shards[k]).wf() by {
        assert(outs[k].wf());
    }
    law_shards_fit_together(shards);
    assert forall|k: int, j: int|
        0 <= k < shards.len() && 0 <= j < shards[k].recs@.len() implies parent_ok(
        (#[trigger] shards[k].recs@[j]).parent,
        total_ids as int,
    ) by {
        assert(parent_ok(outs[k].files.recs@[j].parent, total_ids as int));
    }
    lemma_rec_parents(shards, total_ids as int);
    assert(node_ok(scan.dirs.names@, nodes[0]));
}

/// Every file that was found is in the index that is built of a scan, under its name, in its
/// directory and with its flags; there are as many files as were found, and they stand in the
/// order of their directories.
pub proof fn law_every_file_is_written(
    scan: ScanResult,
    event_id: u64,
    dev_uuid: Seq<u8>,
    scan_time: i64,
    k: int,
    j: int,
)
    requires
        scan_fits(scan),
        root_fits(scan),
        forall|k: int| 0 <= k < scan.shards@.len() ==> (#[trigger] scan.shards@[k]).wf(),
        0 <= k < scan.shards@.len(),
        0 <= j < scan.shards@[k].recs@.len(),
    ensures
        ({
            let c = image(scan, event_id, dev_uuid, scan_time);
            let shard = scan.shards@[k];
            let r = shard.recs@[j];
            &&& exists|i: int|
                0 <= i < c.recs.len() && (#[trigger] c.recs[i]).parent == r.parent && c.recs[i].flags
                    == r.flags && c.file_names.subrange(
                    c.recs[i].name_off as int,
                    c.recs[i].name_off + c.recs[i].name_len,
                ) == shard.names@.subrange(r.name_off as int, r.name_off + r.name_len)
            &&& c.recs.len() == shard_files(scan.shards@).len()
            &&& forall|a: int, b: int|
                0 <= a <= b < c.recs.len() ==> (#[trigger] c.recs[a]).parent <= (
                #[trigger] c.recs[b]).parent
        }),
{
    let c = image(scan, event_id, dev_uuid, scan_time);
    let shards = scan.shards@;
    let shard = shards[k];
    let r = shard.recs@[j];
    law_built_index_holds_the_scan(scan, event_id, dev_uuid, scan_time);
    law_gathering_keeps_the_files(shards);
    let found = shard_files(shards);
    let x = file_item(shard.names@, r);
    lemma_shard_file_is_there(shards, k, j);
    c.files().to_multiset_ensures();
    found.to_multiset_ensures();
    assert(found.contains(x));
    assert(found.to_multiset().count(x) > 0);
    assert(c.files().contains(x));
    let i = choose|i: int| 0 <= i < c.files().len() && c.files()[i] == x;
    assert(c.files()[i] == file_item(c.file_names, c.recs[i]));
    assert(c.recs[i].parent == r.parent);
    assert(c.files().len() == found.len());
}

proof fn lemma_shard_file_is_there(shards: Seq<FileShard>, k: int, j: int)
    requires
        0 <= k < shards.len(),
        0 <= j < shards[k].recs@.len(),
    ensures
        shard_files(shards).contains(file_item(shards[k].names@, shards[k].recs@[j])),
    decreases shards.len(),
{
    let x = file_item(shards[k].names@, shards[k].recs@[j]);
    let front = shards.drop_last();
    let a = shard_files(front);
    let all = shard_files(shards);
    if k < shards.len() - 1 {
        lemma_shard_file_is_there(front, k, j);
        let i = choose|i: int| 0 <= i < a.len() && a[i] == x;
        assert(all[i] == x);
    } else {
        assert(shards.last()@[j] == x);
        assert(all[a.len() + j] == x);
    }
}

/// Files are found shard by shard.
pub proof fn law_shards_are_counted(shards: Seq<FileShard>, shard: FileShard)
    ensures
        shard_files(Seq::empty()).len() == 0,
        shard_files(shards.push(shard)).len() == shard_files(shards).len() + shard.recs@.len(),
{
    assert(shards.push(shard).drop_last() =~= shards);
}

/// A scan fits into an index file where the whole of it stays below four gigabytes.
pub proof fn law_ordinary_scans_fit(scan: ScanResult)
    requires
        forall|k: int| 0 <= k < scan.shards@.len() ==> (#[trigger] scan.shards@[k]).wf(),
        all_names(scan.shards@).len() <= 0xffff_ffff,
        220 + scan.dirs.names@.len() + 16 * scan.dirs.nodes@.len() + name_total(
            all_recs(scan.shards@),
        ) + 12 * all_recs(scan.shards@).len() <= 0xffff_ffff,
    ensures
        scan_fits(scan),
{
    law_shards_fit_together(scan.shards@);
    let nodes = scan.dirs.nodes@;
    lemma_between_len(0, nodes.len() as int, |i: int| in_use(nodes, i));
}

} // verus!
