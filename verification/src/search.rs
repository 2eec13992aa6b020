//! Searching an index file, without a running service.
//!
//! No inverted index is kept: names are short, and comparing millions of them one
//! after the other is bound by memory bandwidth alone.
//!
//! Directories are listed first, files fill what is left of the limit. The service
//! lists its hits in the same order, by the same rules.

use vstd::prelude::*;

use crate::index::Index;
#[allow(unused_imports)]
use crate::index::{dir_path_of, glue, lemma_climb_ok, path_to, Contents, MAX_CLIMB};
#[allow(unused_imports)]
use crate::pick::{at_most, between, lemma_between_len, lemma_between_split};
pub use crate::query::{Kind, Options, Query, Term, TypeFilter};
#[allow(unused_imports)]
use crate::query::{all_hit, law_prefilter_is_sound, Parsed};
#[allow(unused_imports)]
use crate::scan::{DirItem, FileItem};
#[allow(unused_imports)]
use crate::text::{join, SLASH};

verus! {

/// What a search found.
pub struct Hits {
    /// Positions of the files, within the limit.
    pub files: Vec<u32>,
    /// Ids of the directories, within the limit.
    pub dirs: Vec<u32>,
    /// Number of hits, whatever the limit.
    pub total: usize,
}

/// What a search of an index file comes to.
pub ghost struct Found {
    pub dirs: Seq<u32>,
    pub files: Seq<u32>,
    pub total: nat,
}

impl Hits {
    pub open spec fn view(&self) -> Found {
        Found { dirs: self.dirs@, files: self.files@, total: self.total as nat }
    }
}

// --- what a search finds ---

/// The query accepts directory `id`.
pub open spec fn dir_hit(dirs: Seq<DirItem>, q: Parsed, id: int) -> bool {
    q.accepts(dirs[id].name, dir_path_of(dirs, id as u32))
}

/// The query accepts file `i`.
pub open spec fn file_hit(dirs: Seq<DirItem>, files: Seq<FileItem>, q: Parsed, i: int) -> bool {
    q.accepts(files[i].name, join(dir_path_of(dirs, files[i].parent), files[i].name))
}

impl Contents {
    /// The directories that a search finds. Ids without a name are not in use.
    pub open spec fn dir_hits(self, q: Parsed) -> Seq<u32> {
        if q.is_empty() || !q.dirs() {
            Seq::empty()
        } else {
            between(
                0,
                self.nodes.len() as int,
                |id: int| self.nodes[id].name_len > 0 && dir_hit(self.dirs(), q, id),
            )
        }
    }

    /// The files that a search finds.
    pub open spec fn file_hits(self, q: Parsed) -> Seq<u32> {
        if q.is_empty() || !q.files() {
            Seq::empty()
        } else {
            between(
                0,
                self.recs.len() as int,
                |i: int| file_hit(self.dirs(), self.files(), q, i),
            )
        }
    }

    /// What a search comes to: directories first, files in what is left of the limit.
    pub open spec fn found(self, q: Parsed, limit: int) -> Found {
        let dirs = at_most(self.dir_hits(q), limit);
        Found {
            dirs,
            files: at_most(self.file_hits(q), limit - dirs.len()),
            total: self.dir_hits(q).len() + self.file_hits(q).len(),
        }
    }
}

// --- facts about paths ---

/// The path of a directory ends in its name, behind a separator.
pub proof fn lemma_dir_path_ends(dirs: Seq<DirItem>, id: u32) -> (prefix: Seq<u8>)
    requires
        id < dirs.len(),
        id < u32::MAX,
    ensures
        dir_path_of(dirs, id) == prefix + dirs[id as int].name,
        prefix.len() == 0 || prefix.last() == SLASH,
{
    let name = dirs[id as int].name;
    let above = path_to(dirs, dirs[id as int].parent, (MAX_CLIMB - 1) as nat);
    lemma_glue_ends(above, name)
}

proof fn lemma_glue_ends(above: Seq<u8>, name: Seq<u8>) -> (prefix: Seq<u8>)
    ensures
        glue(above, name) == prefix + name,
        prefix.len() == 0 || prefix.last() == SLASH,
{
    if above.len() == 0 {
        assert(Seq::<u8>::empty() + name =~= name);
        Seq::empty()
    } else {
        lemma_join_ends(above, name)
    }
}

/// The path of an entry ends in its name, behind a separator.
pub proof fn lemma_join_ends(dir: Seq<u8>, name: Seq<u8>) -> (prefix: Seq<u8>)
    ensures
        join(dir, name) == prefix + name,
        prefix.len() == 0 || prefix.last() == SLASH,
{
    if dir.len() > 0 && dir.last() == SLASH {
        dir
    } else {
        dir.push(SLASH)
    }
}

// --- comparing one entry ---

/// The path of the directory whose files are being looked at, and scratch space.
///
/// Files stand in the order of their parents, so a path is put together once per
/// directory.
pub struct PathCache {
    pub parent: u32,
    pub path: Vec<u8>,
    pub buf: Vec<u8>,
}

impl PathCache {
    /// The path belongs to the directory.
    pub open spec fn holds(&self, dirs: Seq<DirItem>) -> bool {
        self.path@ == dir_path_of(dirs, self.parent)
    }

    /// An empty cache.
    pub fn new() -> (r: PathCache)
        ensures
            forall|dirs: Seq<DirItem>| r.holds(dirs),
    {
        let r = PathCache { parent: u32::MAX, path: Vec::new(), buf: Vec::new() };
        assert forall|dirs: Seq<DirItem>| r.holds(dirs) by {
            assert(r.path@ =~= path_to(dirs, u32::MAX, MAX_CLIMB as nat));
        }
        r
    }
}

/// Whether the query accepts directory `id`.
pub fn dir_accepted(idx: &Index, q: &Query, id: u32) -> (r: bool)
    requires
        idx@.searchable(),
        q@.canonical(),
        id < idx@.nodes.len(),
    ensures
        r == dir_hit(idx@.dirs(), q@, id as int),
{
    let name = idx.dir_name(id);
    let ghost dirs = idx@.dirs();
    let ghost path = dir_path_of(dirs, id);
    if !q.matches(name) {
        return false;
    }
    if q.has_path_terms() {
        proof {
            let prefix = lemma_dir_path_ends(dirs, id);
            if all_hit(q@.paths, path) {
                law_prefilter_is_sound(q@, prefix, name@);
            }
            lemma_climb_ok(idx@.dir_names, idx@.nodes, id, MAX_CLIMB as nat);
        }
        if !q.name_prefilter(name) {
            return false;
        }
        let full = idx.dir_path(id);
        if !q.path_ok_dir(full.as_slice()) {
            return false;
        }
    }
    true
}

/// Whether the query accepts file `i`.
pub fn file_accepted(idx: &Index, q: &Query, i: usize, cache: &mut PathCache) -> (r: bool)
    requires
        idx@.searchable(),
        q@.canonical(),
        i < idx@.recs.len(),
        old(cache).holds(idx@.dirs()),
    ensures
        r == file_hit(idx@.dirs(), idx@.files(), q@, i as int),
        final(cache).holds(idx@.dirs()),
{
    let name = idx.file_name(i);
    let parent = idx.file_recs()[i].parent;
    let ghost dirs = idx@.dirs();
    let ghost dir = dir_path_of(dirs, parent);
    if !q.matches(name) {
        return false;
    }
    if q.has_path_terms() {
        proof {
            let prefix = lemma_join_ends(dir, name@);
            if all_hit(q@.paths, join(dir, name@)) {
                law_prefilter_is_sound(q@, prefix, name@);
            }
            lemma_climb_ok(idx@.dir_names, idx@.nodes, parent, MAX_CLIMB as nat);
        }
        if !q.name_prefilter(name) {
            return false;
        }
        if parent != cache.parent {
            cache.path = idx.dir_path(parent);
            cache.parent = parent;
        }
        if !q.path_ok_file(cache.path.as_slice(), name, &mut cache.buf) {
            return false;
        }
    }
    true
}

// --- splitting the work ---

/// Length of each part when `n` items are split into `parts`.
pub open spec fn part_len(n: int, parts: int) -> int {
    if n % parts == 0 {
        n / parts
    } else {
        n / parts + 1
    }
}

/// Where part number `t` of `n` items begins and ends, `None` where it is empty.
pub open spec fn part_of(n: int, parts: int, t: int) -> Option<(int, int)> {
    let len = part_len(n, parts);
    if t * len >= n {
        None
    } else if t * len + len <= n {
        Some((t * len, t * len + len))
    } else {
        Some((t * len, n))
    }
}

/// What was found in the parts, one after the other.
pub open spec fn all_found(parts: Seq<(Vec<u32>, usize)>) -> Seq<u32>
    decreases parts.len(),
{
    if parts.len() == 0 {
        Seq::empty()
    } else {
        all_found(parts.drop_last()) + parts.last().0@
    }
}

/// How much was found in the parts.
pub open spec fn found_total(parts: Seq<(Vec<u32>, usize)>) -> nat
    decreases parts.len(),
{
    if parts.len() == 0 {
        0
    } else {
        found_total(parts.drop_last()) + parts.last().1 as nat
    }
}

/// `cuts` begins at 0 and never falls.
pub open spec fn rises_from_zero(cuts: Seq<int>) -> bool {
    &&& cuts.len() > 0
    &&& cuts[0] == 0
    &&& forall|k: int| 0 <= k < cuts.len() - 1 ==> #[trigger] cuts[k] <= cuts[k + 1]
}

/// `parts` is what a search for `p` found between the cuts.
pub open spec fn searched(
    parts: Seq<(Vec<u32>, usize)>,
    cuts: Seq<int>,
    p: spec_fn(int) -> bool,
    limit: int,
) -> bool {
    &&& cuts.len() == parts.len() + 1
    &&& rises_from_zero(cuts)
    &&& forall|k: int|
        0 <= k < parts.len() ==> (#[trigger] parts[k]).0@ == at_most(
            between(cuts[k], cuts[k + 1], p),
            limit,
        ) && parts[k].1 == between(cuts[k], cuts[k + 1], p).len()
}

proof fn lemma_at_most_concat(a: Seq<u32>, b: Seq<u32>, a2: Seq<u32>, limit: int)
    requires
        limit >= 0,
        at_most(a2, limit) == at_most(a, limit),
        a2.len() <= a.len(),
        a2.len() == a.len() || a2.len() >= limit,
    ensures
        at_most(a2 + at_most(b, limit), limit) == at_most(a + b, limit),
{
    let l = at_most(a2 + at_most(b, limit), limit);
    let r = at_most(a + b, limit);
    assert(l.len() == r.len());
    assert forall|i: int| 0 <= i < l.len() implies l[i] == r[i] by {
        if i < a.len() && i < a2.len() {
            assert(at_most(a2, limit)[i] == a2[i]);
            assert(at_most(a, limit)[i] == a[i]);
        }
    }
    assert(l =~= r);
}

/// However the items are split, the parts together give what a search of the whole
/// gives.
pub proof fn law_split_is_irrelevant(
    parts: Seq<(Vec<u32>, usize)>,
    cuts: Seq<int>,
    p: spec_fn(int) -> bool,
    limit: int,
)
    requires
        searched(parts, cuts, p, limit),
        limit >= 0,
    ensures
        at_most(all_found(parts), limit) == at_most(between(0, cuts.last(), p), limit),
        found_total(parts) == between(0, cuts.last(), p).len(),
{
    lemma_split(parts, cuts, p, limit);
}

#[verifier::rlimit(60)]
proof fn lemma_split(
    parts: Seq<(Vec<u32>, usize)>,
    cuts: Seq<int>,
    p: spec_fn(int) -> bool,
    limit: int,
)
    requires
        searched(parts, cuts, p, limit),
        limit >= 0,
    ensures
        at_most(all_found(parts), limit) == at_most(between(0, cuts.last(), p), limit),
        found_total(parts) == between(0, cuts.last(), p).len(),
        all_found(parts).len() <= between(0, cuts.last(), p).len(),
        all_found(parts).len() == between(0, cuts.last(), p).len() || all_found(parts).len()
            >= limit,
        cuts.last() >= 0,
    decreases parts.len(),
{
    if parts.len() == 0 {
        assert(cuts.last() == cuts[0]);
    } else {
        let n = parts.len() - 1;
        let front = parts.drop_last();
        let fcuts = cuts.drop_last();
        assert forall|k: int| 0 <= k < fcuts.len() implies fcuts[k] == #[trigger] cuts[k] by {}
        assert forall|k: int| 0 <= k < front.len() implies front[k] == #[trigger] parts[k] by {}
        lemma_split(front, fcuts, p, limit);
        let mid = cuts[n];
        let hi = cuts[n + 1];
        assert(fcuts.last() == mid);
        assert(cuts.last() == hi);
        assert(cuts[n] <= cuts[n + 1]);
        lemma_between_split(0, mid, hi, p);
        let a = between(0, mid, p);
        let b = between(mid, hi, p);
        assert(parts[n] == parts.last());
        lemma_at_most_concat(a, b, all_found(front), limit);
    }
}

/// The part of `n` items that is number `t` of `parts`, `None` where it is empty.
#[verifier::rlimit(60)]
pub fn part(n: usize, parts: usize, t: usize) -> (r: Option<(usize, usize)>)
    requires
        t < parts,
        n <= u32::MAX,
    ensures
        match r {
            Some((lo, hi)) => lo == t * part_len(n as int, parts as int) && lo < n && hi == if lo
                + part_len(n as int, parts as int) <= n {
                lo + part_len(n as int, parts as int)
            } else {
                n as int
            },
            None => t * part_len(n as int, parts as int) >= n,
        },
        match r {
            Some((lo, hi)) => part_of(n as int, parts as int, t as int) == Some(
                (lo as int, hi as int),
            ),
            None => part_of(n as int, parts as int, t as int) is None,
        },
{
    let (n64, p64, t64) = (n as u64, parts as u64, t as u64);
    let len: u64 = n64 / p64 + if n64 % p64 == 0 {
        0
    } else {
        1
    };
    assert(len == part_len(n as int, parts as int));
    proof {
        lemma_parts_cover(n as int, parts as int);
        lemma_part_bounds(n as int, parts as int, t as int);
    }
    if n == 0 || t >= n {
        return None;
    }
    let lo = t64 * len;
    if lo >= n64 {
        return None;
    }
    let hi = if len <= n64 - lo {
        lo + len
    } else {
        n64
    };
    Some((lo as usize, hi as usize))
}

proof fn lemma_parts_cover(n: int, parts: int)
    requires
        n >= 0,
        parts > 0,
    ensures
        parts * part_len(n, parts) >= n,
{
    vstd::arithmetic::div_mod::lemma_fundamental_div_mod(n, parts);
    vstd::arithmetic::div_mod::lemma_mod_bound(n, parts);
    assert(parts * (n / parts + 1) == parts * (n / parts) + parts) by (nonlinear_arith);
}

proof fn lemma_part_bounds(n: int, parts: int, t: int)
    requires
        0 <= n <= u32::MAX,
        parts > 0,
        0 <= t,
    ensures
        0 <= n / parts <= n,
        0 <= part_len(n, parts) <= n,
        0 <= t * part_len(n, parts),
        t >= n ==> t * part_len(n, parts) >= n,
        t < n ==> t * part_len(n, parts) <= 0xFFFF_FFFF * 0xFFFF_FFFF,
{
    let len = part_len(n, parts);
    vstd::arithmetic::div_mod::lemma_fundamental_div_mod(n, parts);
    vstd::arithmetic::div_mod::lemma_mod_bound(n, parts);
    vstd::arithmetic::div_mod::lemma_div_pos_is_pos(n, parts);
    assert(n / parts <= n) by (nonlinear_arith)
        requires
            0 <= n,
            parts > 0,
    ;
    if n % parts != 0 && n / parts == n {
        assert(parts * n >= n) by (nonlinear_arith)
            requires
                parts >= 1,
                n >= 0,
        ;
        assert(false);
    }
    assert(0 <= t * len) by (nonlinear_arith)
        requires
            0 <= t,
            0 <= len,
    ;
    if n > 0 {
        if len == 0 {
            assert(parts * 0 == 0) by (nonlinear_arith);
        }
        assert(t * len >= t) by (nonlinear_arith)
            requires
                t >= 0,
                len >= 1,
        ;
    }
    if t < n {
        assert(t * len <= 0xFFFF_FFFF * 0xFFFF_FFFF) by (nonlinear_arith)
            requires
                0 <= t <= 0xFFFF_FFFF,
                0 <= len <= 0xFFFF_FFFF,
        ;
    }
}

/// Puts together what was found in the parts.
#[verifier::rlimit(60)]
pub fn merge_parts(parts: &Vec<(Vec<u32>, usize)>, limit: usize) -> (r: (Vec<u32>, usize))
    requires
        found_total(parts@) <= usize::MAX,
    ensures
        r.0@ == at_most(all_found(parts@), limit as int),
        r.1 == found_total(parts@),
{
    let mut out: Vec<u32> = Vec::new();
    let mut total: usize = 0;
    assert(parts@.take(0) =~= Seq::empty());
    for k in 0..parts.len()
        invariant
            found_total(parts@) <= usize::MAX,
            out@ == at_most(all_found(parts@.take(k as int)), limit as int),
            total == found_total(parts@.take(k as int)),
    {
        let local = &parts[k].0;
        let ghost before = all_found(parts@.take(k as int));
        proof {
            assert(parts@.take(k + 1).drop_last() =~= parts@.take(k as int));
            assert(parts@.take(k + 1).last() == parts@[k as int]);
            lemma_found_prefix(parts@, k + 1);
        }
        total += parts[k].1;
        let room = limit - out.len();
        let take = if room < local.len() {
            room
        } else {
            local.len()
        };
        for i in 0..take
            invariant
                take <= local@.len(),
                out@ =~= at_most(before, limit as int) + local@.take(i as int),
        {
            out.push(local[i]);
        }
        assert(out@ =~= at_most(before + local@, limit as int));
    }
    assert(parts@.take(parts@.len() as int) =~= parts@);
    (out, total)
}

proof fn lemma_found_prefix(parts: Seq<(Vec<u32>, usize)>, k: int)
    requires
        0 <= k <= parts.len(),
    ensures
        found_total(parts.take(k)) <= found_total(parts),
    decreases parts.len() - k,
{
    if k < parts.len() {
        lemma_found_prefix(parts, k + 1);
        assert(parts.take(k + 1).drop_last() =~= parts.take(k));
    } else {
        assert(parts.take(k) =~= parts);
    }
}

// --- the search ---

/// Looks at the files from `start` to `end`: those that the query accepts, within the
/// limit, and how many there are.
#[verifier::rlimit(60)]
pub fn search_files(idx: &Index, q: &Query, limit: usize, start: usize, end: usize) -> (r: (
    Vec<u32>,
    usize,
))
    requires
        idx@.searchable(),
        q@.canonical(),
        start <= end <= idx@.recs.len(),
    ensures
        r.0@ == at_most(
            between(
                start as int,
                end as int,
                |i: int| file_hit(idx@.dirs(), idx@.files(), q@, i),
            ),
            limit as int,
        ),
        r.1 == between(
            start as int,
            end as int,
            |i: int| file_hit(idx@.dirs(), idx@.files(), q@, i),
        ).len(),
{
    let ghost p = |i: int| file_hit(idx@.dirs(), idx@.files(), q@, i);
    let mut local: Vec<u32> = Vec::new();
    let mut count: usize = 0;
    let mut cache = PathCache::new();
    for i in start..end
        invariant
            idx@.searchable(),
            q@.canonical(),
            start <= i <= end <= idx@.recs.len(),
            cache.holds(idx@.dirs()),
            p == (|i: int| file_hit(idx@.dirs(), idx@.files(), q@, i)),
            local@ == at_most(between(start as int, i as int, p), limit as int),
            count == between(start as int, i as int, p).len(),
            count <= i - start,
    {
        let ghost before = between(start as int, i as int, p);
        if file_accepted(idx, q, i, &mut cache) {
            count += 1;
            if local.len() < limit {
                local.push(i as u32);
            }
            assert(local@ =~= at_most(before.push(i as u32), limit as int));
        }
    }
    (local, count)
}

/// Looks at the directories.
fn search_dirs(idx: &Index, q: &Query, limit: usize) -> (r: (Vec<u32>, usize))
    requires
        idx@.searchable(),
        q@.canonical(),
    ensures
        r.0@ == at_most(
            between(
                0,
                idx@.nodes.len() as int,
                |id: int| idx@.nodes[id].name_len > 0 && dir_hit(idx@.dirs(), q@, id),
            ),
            limit as int,
        ),
        r.1 == between(
            0,
            idx@.nodes.len() as int,
            |id: int| idx@.nodes[id].name_len > 0 && dir_hit(idx@.dirs(), q@, id),
        ).len(),
        r.1 <= idx@.nodes.len(),
{
    let ghost p = |id: int| idx@.nodes[id].name_len > 0 && dir_hit(idx@.dirs(), q@, id);
    let nodes = idx.dir_nodes();
    let mut dirs: Vec<u32> = Vec::new();
    let mut count: usize = 0;
    for id in 0..nodes.len()
        invariant
            idx@.searchable(),
            q@.canonical(),
            nodes@ == idx@.nodes,
            p == (|id: int| idx@.nodes[id].name_len > 0 && dir_hit(idx@.dirs(), q@, id)),
            dirs@ == at_most(between(0, id as int, p), limit as int),
            count == between(0, id as int, p).len(),
            count <= id,
    {
        let ghost before = between(0, id as int, p);
        if nodes[id].name_len > 0 && dir_accepted(idx, q, id as u32) {
            count += 1;
            if dirs.len() < limit {
                dirs.push(id as u32);
            }
            assert(dirs@ =~= at_most(before.push(id as u32), limit as int));
        }
    }
    (dirs, count)
}

/// Looks at the files in `threads` parts, one after the other.
#[verifier::rlimit(60)]
fn search_in_parts(idx: &Index, q: &Query, limit: usize, threads: usize) -> (r: (Vec<u32>, usize))
    requires
        idx@.searchable(),
        q@.canonical(),
        threads > 0,
    ensures
        r.0@ == at_most(
            between(
                0,
                idx@.recs.len() as int,
                |i: int| file_hit(idx@.dirs(), idx@.files(), q@, i),
            ),
            limit as int,
        ),
        r.1 == between(
            0,
            idx@.recs.len() as int,
            |i: int| file_hit(idx@.dirs(), idx@.files(), q@, i),
        ).len(),
        r.1 <= idx@.recs.len(),
{
    let ghost p = |i: int| file_hit(idx@.dirs(), idx@.files(), q@, i);
    let n = idx.file_recs().len();
    let ghost len = part_len(n as int, threads as int);
    let mut parts: Vec<(Vec<u32>, usize)> = Vec::new();
    let ghost mut cuts: Seq<int> = seq![0int];
    let mut t: usize = 0;
    proof {
        lemma_parts_cover(n as int, threads as int);
    }
    while t < threads
        invariant
            threads * len >= n,
            idx@.searchable(),
            q@.canonical(),
            threads > 0,
            t <= threads,
            n == idx@.recs.len(),
            len == part_len(n as int, threads as int),
            p == (|i: int| file_hit(idx@.dirs(), idx@.files(), q@, i)),
            searched(parts@, cuts, p, limit as int),
            cuts.last() == if t * len <= n {
                t * len
            } else {
                n as int
            },
            cuts.last() <= n,
        ensures
            searched(parts@, cuts, p, limit as int),
            cuts.last() == n,
        decreases threads - t,
    {
        proof {
            assert((t + 1) * len == t * len + len) by (nonlinear_arith);
        }
        match part(n, threads, t) {
            Some((lo, hi)) => {
                let found = search_files(idx, q, limit, lo, hi);
                let ghost old_parts = parts@;
                let ghost old_cuts = cuts;
                parts.push(found);
                proof {
                    cuts = cuts.push(hi as int);
                    assert forall|k: int| 0 <= k < old_cuts.len() implies cuts[k]
                        == #[trigger] old_cuts[k] by {}
                    assert forall|k: int| 0 <= k < cuts.len() - 1 implies #[trigger] cuts[k]
                        <= cuts[k + 1] by {
                        if k < old_cuts.len() - 1 {
                            assert(old_cuts[k] <= old_cuts[k + 1]);
                        }
                    }
                    assert forall|k: int| 0 <= k < parts@.len() implies (#[trigger] parts@[k]).0@
                        == at_most(between(cuts[k], cuts[k + 1], p), limit as int) && parts@[k].1
                        == between(cuts[k], cuts[k + 1], p).len() by {
                        if k < old_parts.len() {
                            assert(parts@[k] == old_parts[k]);
                            assert(cuts[k] == old_cuts[k]);
                            assert(cuts[k + 1] == old_cuts[k + 1]);
                        } else {
                            assert(cuts[k] == lo);
                        }
                    }
                }
            },
            None => {
                assert(cuts.last() == n);
                break;
            },
        }
        t += 1;
    }
    proof {
        law_split_is_irrelevant(parts@, cuts, p, limit as int);
        lemma_between_len(0, n as int, p);
    }
    merge_parts(&parts, limit)
}

/// Completes a search: `files` and `file_total` are what was found among the files, which
/// may have been searched in parts.
pub fn finish_search(idx: &Index, q: &Query, limit: usize, files: Vec<u32>, file_total: usize) -> (r:
    Hits)
    requires
        idx@.searchable(),
        idx@.nodes.len() + idx@.recs.len() <= usize::MAX,
        !q@.is_empty() && q@.files() ==> files@ == at_most(idx@.file_hits(q@), limit as int)
            && file_total == idx@.file_hits(q@).len(),
    ensures
        r.dirs@ == at_most(idx@.dir_hits(q@), limit as int),
        r.files@ == at_most(idx@.file_hits(q@), limit - r.dirs@.len()),
        r.total == idx@.dir_hits(q@).len() + idx@.file_hits(q@).len(),
        r@ == idx@.found(q@, limit as int),
{
    if q.is_empty() {
        return Hits { files: Vec::new(), dirs: Vec::new(), total: 0 };
    }
    let (dirs, dir_total) = if q.wants_dirs() {
        search_dirs(idx, q, limit)
    } else {
        (Vec::new(), 0)
    };
    let room = limit - dirs.len();
    if !q.wants_files() {
        return Hits { files: Vec::new(), dirs, total: dir_total };
    }
    proof {
        lemma_between_len(
            0,
            idx@.recs.len() as int,
            |i: int| file_hit(idx@.dirs(), idx@.files(), q@, i),
        );
    }
    let mut files = files;
    files.truncate(room);
    assert(files@ =~= at_most(idx@.file_hits(q@), room as int));
    Hits { files, dirs, total: file_total + dir_total }
}

/// Searches an index.
///
/// `threads` says into how many parts the files are split; with 0 they stay in one.
/// The parts are independent of one another, and what is found does not depend on
/// their number.
pub fn search(idx: &Index, q: &Query, limit: usize, threads: usize) -> (r: Hits)
    requires
        idx@.searchable(),
        idx@.nodes.len() + idx@.recs.len() <= usize::MAX,
    ensures
        r.dirs@ == at_most(idx@.dir_hits(q@), limit as int),
        r.files@ == at_most(idx@.file_hits(q@), limit - r.dirs@.len()),
        r.total == idx@.dir_hits(q@).len() + idx@.file_hits(q@).len(),
        r@ == idx@.found(q@, limit as int),
{
    if q.is_empty() || !q.wants_files() {
        return finish_search(idx, q, limit, Vec::new(), 0);
    }
    let (files, file_total) = search_in_parts(
        idx,
        q,
        limit,
        if threads == 0 {
            1
        } else {
            threads
        },
    );
    finish_search(idx, q, limit, files, file_total)
}

/// Every item is in one of the parts, and no item is in two.
pub proof fn law_every_item_is_in_one_part(n: int, parts: int, i: int, t: int, u: int)
    requires
        0 <= i < n,
        parts > 0,
        0 <= t < u < parts,
    ensures
        exists|k: int|
            0 <= k < parts && (#[trigger] part_of(n, parts, k) matches Some((lo, hi)) && 0 <= lo
                <= i && i < hi <= n),
        part_of(n, parts, t) matches Some((lo, hi)) ==> (part_of(n, parts, u) matches Some((from, to))
            ==> hi <= from),
{
    let len = part_len(n, parts);
    lemma_parts_cover(n, parts);
    assert(len > 0) by {
        if len <= 0 {
            assert(parts * len <= 0) by (nonlinear_arith)
                requires
                    parts > 0,
                    len <= 0,
            ;
        }
    }
    let k = i / len;
    vstd::arithmetic::div_mod::lemma_fundamental_div_mod(i, len);
    vstd::arithmetic::div_mod::lemma_mod_bound(i, len);
    vstd::arithmetic::div_mod::lemma_div_pos_is_pos(i, len);
    assert(k * len == len * k) by (nonlinear_arith);
    assert(k < parts) by (nonlinear_arith)
        requires
            k * len <= i,
            i < n,
            n <= parts * len,
            len > 0,
    ;
    assert(k * len >= 0) by (nonlinear_arith)
        requires
            k >= 0,
            len > 0,
    ;
    assert(part_of(n, parts, k) matches Some((lo, hi)) && 0 <= lo <= i && i < hi <= n);
    assert(t * len + len <= u * len) by (nonlinear_arith)
        requires
            t + 1 <= u,
            len > 0,
    ;
}

/// What the parts found is put together in their order, and their counts are added up.
pub proof fn law_parts_are_put_together(parts: Seq<(Vec<u32>, usize)>, p: (Vec<u32>, usize))
    ensures
        all_found(Seq::empty()).len() == 0,
        found_total(Seq::empty()) == 0,
        all_found(parts.push(p)) == all_found(parts) + p.0@,
        found_total(parts.push(p)) == found_total(parts) + p.1,
{
    assert(parts.push(p).drop_last() =~= parts);
}

} // verus!
