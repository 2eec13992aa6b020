//! Searching a live index.
//!
//! The files of the snapshot are by far the most. Where the query has an anchor, its
//! names are not compared one by one: the whole arena of names, in lower case, is
//! handed to a vectorised substring search, and the record is found from the position
//! of the hit by binary search. Hits are listed as by a search of the index file:
//! directories first, files fill what is left of the limit.

use vstd::prelude::*;
use vstd::slice::slice_subrange;

#[allow(unused_imports)]
use crate::index::{
    law_consistent_is_searchable, lemma_packed_at, packed, parent_ok, path_to, MAX_CLIMB,
};
use crate::live::Live;
#[allow(unused_imports)]
use crate::pick::{at_most, between, lemma_between_contains, lemma_between_len};
use crate::query::Query;
#[allow(unused_imports)]
use crate::query::{all_hit, last_longest, law_anchor_is_sound, law_prefilter_is_sound, Parsed};
#[allow(unused_imports)]
use crate::scan::{DirItem, FileRec};
use crate::search::{file_accepted, PathCache};
#[allow(unused_imports)]
use crate::search::{dir_hit, file_hit, lemma_dir_path_ends, lemma_join_ends};
use crate::text::SLASH;
#[allow(unused_imports)]
use crate::text::{join, lemma_lowered, lowered, occurs, occurs_at};
#[allow(unused_imports)]
use crate::tree::State;

verus! {

/// Something that a search found.
#[derive(Clone, Copy, PartialEq, Eq, Debug, Structural)]
pub enum Hit {
    File(u32),
    Dir(u32),
}

/// The hits of a search: directories first, files fill what is left of the limit.
pub open spec fn hit_list(s: State, q: Parsed, limit: int) -> Seq<Hit> {
    let dirs = at_most(s.dir_hits(q), limit);
    let files = at_most(s.file_hits(q), limit - dirs.len());
    dirs.map_values(|id: u32| Hit::Dir(id)) + files.map_values(|i: u32| Hit::File(i))
}

/// The number of hits, whatever the limit.
pub open spec fn hit_total(s: State, q: Parsed) -> nat {
    s.dir_hits(q).len() + s.file_hits(q).len()
}

/// The path of a hit. That of a directory ends in a separator.
pub open spec fn hit_path(s: State, h: Hit) -> Seq<u8> {
    match h {
        Hit::File(i) => s.file_path(i as int),
        Hit::Dir(i) => s.dir_path(i).push(SLASH),
    }
}

/// Directories that are added later do not change the paths of those that were there.
pub proof fn lemma_path_kept(dirs: Seq<DirItem>, all: Seq<DirItem>, id: u32, levels: nat)
    requires
        dirs.len() <= all.len() < u32::MAX,
        all.take(dirs.len() as int) == dirs,
        forall|i: int|
            0 <= i < dirs.len() ==> parent_ok((#[trigger] dirs[i]).parent, dirs.len() as int),
        parent_ok(id, dirs.len() as int),
    ensures
        path_to(all, id, levels) == path_to(dirs, id, levels),
    decreases levels,
{
    if levels > 0 && id != u32::MAX {
        assert(dirs[id as int] == all[id as int]);
        assert(parent_ok(dirs[id as int].parent, dirs.len() as int));
        lemma_path_kept(dirs, all, dirs[id as int].parent, (levels - 1) as nat);
    }
}

impl Live {
    /// File `i` of the snapshot is accepted here as it is there.
    proof fn lemma_base_file(&self, q: Parsed, i: int)
        requires
            self.wf(),
            0 <= i < self@.base_files,
        ensures
            i < self.contents().recs.len(),
            file_hit(self@.dirs, self@.files, q, i) == file_hit(
                self.contents().dirs(),
                self.contents().files(),
                q,
                i,
            ),
    {
        self.lemma_base();
        self.lemma_sound();
        let c = self.contents();
        assert(c.files()[i] == self@.files[i]) by {
            assert(self@.files.take(self@.base_files as int)[i] == self@.files[i]);
        }
        assert(parent_ok(c.recs[i].parent, c.nodes.len() as int));
        assert forall|k: int| 0 <= k < c.dirs().len() implies parent_ok(
            (#[trigger] c.dirs()[k]).parent,
            c.dirs().len() as int,
        ) by {
            assert(parent_ok(c.nodes[k].parent, c.nodes.len() as int));
        }
        lemma_path_kept(c.dirs(), self@.dirs, c.files()[i].parent, MAX_CLIMB as nat);
    }

    /// Whether the query accepts directory `id`.
    fn accepts_dir(&self, q: &Query, id: u32) -> (r: bool)
        requires
            self.wf(),
            q@.canonical(),
            id < self@.dirs.len(),
        ensures
            r == dir_hit(self@.dirs, q@, id as int),
    {
        proof {
            self.lemma_sound();
        }
        let name = self.dir_name(id);
        if !q.matches(name) {
            return false;
        }
        if q.has_path_terms() {
            proof {
                let prefix = lemma_dir_path_ends(self@.dirs, id);
                if all_hit(q@.paths, self@.dir_path(id)) {
                    law_prefilter_is_sound(q@, prefix, name@);
                }
            }
            if !q.name_prefilter(name) {
                return false;
            }
            let full = self.dir_path(id);
            if !q.path_ok_dir(full.as_slice()) {
                return false;
            }
        }
        true
    }

    /// Whether the query accepts file `id`.
    fn accepts_file(&self, q: &Query, id: u32, buf: &mut Vec<u8>) -> (r: bool)
        requires
            self.wf(),
            q@.canonical(),
            id < self@.files.len(),
        ensures
            r == file_hit(self@.dirs, self@.files, q@, id as int),
    {
        let name = self.file_name(id);
        if !q.matches(name) {
            return false;
        }
        if q.has_path_terms() {
            let parent = self.file_parent(id);
            proof {
                let dir = self@.dir_path(parent);
                let prefix = lemma_join_ends(dir, name@);
                if all_hit(q@.paths, join(dir, name@)) {
                    law_prefilter_is_sound(q@, prefix, name@);
                }
            }
            if !q.name_prefilter(name) {
                return false;
            }
            let dir = self.dir_path(parent);
            if !q.path_ok_file(dir.as_slice(), name, buf) {
                return false;
            }
        }
        true
    }

    /// Looks at the files of the snapshot from `start` to `end`, one by one.
    #[verifier::rlimit(60)]
    fn scan_linear(&self, q: &Query, limit: usize, start: usize, end: usize) -> (r: (
        Vec<u32>,
        usize,
    ))
        requires
            self.wf(),
            q@.canonical(),
            start <= end <= self@.base_files,
        ensures
            r.0@ == at_most(between(start as int, end as int, self@.found(q@)), limit as int),
            r.1 == between(start as int, end as int, self@.found(q@)).len(),
    {
        let ghost p = self@.found(q@);
        let mut local: Vec<u32> = Vec::new();
        let mut count: usize = 0;
        let mut cache = PathCache::new();
        proof {
            self.lemma_sound();
            self.lemma_base();
            law_consistent_is_searchable(self.contents());
        }
        for i in start..end
            invariant
                self.wf(),
                q@.canonical(),
                self.contents().searchable(),
                self@.base_files <= self@.files.len() < u32::MAX,
                start <= i <= end <= self@.base_files,
                cache.holds(self.contents().dirs()),
                p == self@.found(q@),
                local@ == at_most(between(start as int, i as int, p), limit as int),
                count == between(start as int, i as int, p).len(),
                count <= i - start,
        {
            let ghost before = between(start as int, i as int, p);
            proof {
                self.lemma_base_file(q@, i as int);
            }
            if self.file_alive(i as u32) && file_accepted(self.base(), q, i, &mut cache) {
                count += 1;
                if local.len() < limit {
                    local.push(i as u32);
                }
                assert(local@ =~= at_most(before.push(i as u32), limit as int));
            }
        }
        (local, count)
    }
}

/// The anchor stands at `y`, inside the name of record `j`.
spec fn inside(recs: Seq<FileRec>, lower: Seq<u8>, anchor: Seq<u8>, j: int, y: int) -> bool {
    &&& recs[j].name_off <= y
    &&& y + anchor.len() <= recs[j].name_off + recs[j].name_len
    &&& occurs_at(lower, anchor, y)
}

/// The record, from `lo` to `hi`, whose name begins last at or before `pos`.
fn locate(recs: &[FileRec], lo: usize, hi: usize, pos: usize, Ghost(len): Ghost<int>) -> (r: usize)
    requires
        packed(recs@, len),
        lo < hi <= recs@.len(),
        recs@[lo as int].name_off <= pos,
    ensures
        lo <= r < hi,
        recs@[r as int].name_off <= pos,
        forall|j: int| r < j < hi ==> pos < (#[trigger] recs@[j]).name_off,
{
    let mut a = lo;
    let mut b = hi;
    while b - a > 1
        invariant
            packed(recs@, len),
            lo <= a < b <= hi <= recs@.len(),
            recs@[a as int].name_off <= pos,
            forall|j: int| b <= j < hi ==> pos < (#[trigger] recs@[j]).name_off,
        decreases b - a,
    {
        let mid = a + (b - a) / 2;
        if recs[mid].name_off as usize <= pos {
            a = mid;
        } else {
            proof {
                assert forall|j: int| mid <= j < hi implies pos < (#[trigger] recs@[j]).name_off by {
                    lemma_packed_at(recs@, len, mid as int, j);
                }
            }
            b = mid;
        }
    }
    a
}

/// No record from `lo` to `hi` has the anchor inside its name before `pos`.
spec fn clear_before(
    recs: Seq<FileRec>,
    lower: Seq<u8>,
    anchor: Seq<u8>,
    lo: int,
    hi: int,
    pos: int,
) -> bool {
    forall|j: int, y: int|
        lo <= j < hi && #[trigger] inside(recs, lower, anchor, j, y) ==> pos <= y
}

/// No record from `lo` to `hi` has the anchor inside its name.
spec fn clear(recs: Seq<FileRec>, lower: Seq<u8>, anchor: Seq<u8>, lo: int, hi: int) -> bool {
    forall|j: int, y: int| lo <= j < hi ==> !#[trigger] inside(recs, lower, anchor, j, y)
}

/// The place of the anchor that is found first is the first of all.
#[verifier::rlimit(60)]
proof fn lemma_first_place(
    recs: Seq<FileRec>,
    lower: Seq<u8>,
    anchor: Seq<u8>,
    lo: int,
    hi: int,
    pos: int,
    stop: int,
    first: Option<usize>,
)
    requires
        packed(recs, lower.len() as int),
        0 <= lo < hi <= recs.len(),
        0 <= pos <= stop == recs[hi - 1].name_off + recs[hi - 1].name_len,
        stop <= lower.len(),
        clear_before(recs, lower, anchor, lo, hi, pos),
        match first {
            Some(x) => forall|j: int|
                j < x ==> !occurs_at(lower.subrange(pos, stop), anchor, j),
            None => !occurs(lower.subrange(pos, stop), anchor),
        },
    ensures
        match first {
            Some(x) => clear_before(recs, lower, anchor, lo, hi, pos + x),
            None => clear(recs, lower, anchor, lo, hi),
        },
{
    let hay = lower.subrange(pos, stop);
    assert forall|j: int, y: int|
        lo <= j < hi && #[trigger] inside(recs, lower, anchor, j, y) implies occurs_at(
        hay,
        anchor,
        y - pos,
    ) by {
        lemma_packed_at(recs, lower.len() as int, j, hi - 1);
        assert(hay.subrange(y - pos, y - pos + anchor.len()) =~= lower.subrange(
            y,
            y + anchor.len(),
        ));
    }
}

/// The first record, from `lo` to `hi`, that has the anchor inside its name.
///
/// A place of the anchor may lie across the border of two names; then the search goes
/// on one byte further.
#[verifier::rlimit(60)]
fn next_anchored(recs: &[FileRec], lower: &[u8], anchor: &[u8], lo: usize, hi: usize) -> (r: Option<
    usize,
>)
    requires
        packed(recs@, lower@.len() as int),
        lo < hi <= recs@.len(),
        anchor@.len() > 0,
    ensures
        match r {
            Some(i) => lo <= i < hi && clear(recs@, lower@, anchor@, lo as int, i as int) && exists|
                y: int,
            |
                inside(recs@, lower@, anchor@, i as int, y),
            None => clear(recs@, lower@, anchor@, lo as int, hi as int),
        },
{
    let ghost len = lower@.len() as int;
    let size = lower.len();
    proof {
        lemma_packed_at(recs@, len, lo as int, hi - 1);
    }
    let stop = recs[hi - 1].name_off as usize + recs[hi - 1].name_len as usize;
    let mut pos = recs[lo].name_off as usize;
    proof {
        assert forall|j: int, y: int|
            lo <= j < hi && #[trigger] inside(recs@, lower@, anchor@, j, y) implies pos <= y by {
            lemma_packed_at(recs@, len, lo as int, j);
        }
    }
    while pos < stop
        invariant
            packed(recs@, len),
            len == lower@.len(),
            size == len,
            lo < hi <= recs@.len(),
            anchor@.len() > 0,
            recs@[lo as int].name_off <= pos <= stop,
            stop == recs@[hi - 1].name_off + recs@[hi - 1].name_len,
            stop <= size,
            clear_before(recs@, lower@, anchor@, lo as int, hi as int, pos as int),
        decreases stop - pos,
    {
        let found = memchr::memmem::find(slice_subrange(lower, pos, stop), anchor);
        proof {
            lemma_first_place(
                recs@,
                lower@,
                anchor@,
                lo as int,
                hi as int,
                pos as int,
                stop as int,
                found,
            );
        }
        let at = match found {
            Some(x) => pos + x,
            None => {
                return None;
            },
        };
        let i = locate(recs, lo, hi, at, Ghost(len));
        let rec_end = recs[i].name_off as usize + recs[i].name_len as usize;
        proof {
            let hay = lower@.subrange(pos as int, stop as int);
            assert(lower@.subrange(at as int, at + anchor@.len()) =~= hay.subrange(
                at - pos,
                at - pos + anchor@.len(),
            ));
            assert(occurs_at(lower@, anchor@, at as int));
        }
        if at + anchor.len() <= rec_end {
            proof {
                assert(inside(recs@, lower@, anchor@, i as int, at as int));
                assert forall|j: int, y: int| lo <= j < i implies !#[trigger] inside(
                    recs@,
                    lower@,
                    anchor@,
                    j,
                    y,
                ) by {
                    if inside(recs@, lower@, anchor@, j, y) {
                        lemma_packed_at(recs@, len, j, i as int);
                        assert(at <= y);
                    }
                }
                assert(clear(recs@, lower@, anchor@, lo as int, i as int));
            }
            return Some(i);
        }
        proof {
            assert forall|j: int, y: int|
                lo <= j < hi && #[trigger] inside(recs@, lower@, anchor@, j, y) implies at < y by {
                if y == at {
                    if j < i {
                        lemma_packed_at(recs@, len, j, i as int);
                    }
                    if j > i {
                        assert(at < recs@[j].name_off);
                    }
                }
            }
        }
        pos = at + 1;
    }
    proof {
        assert forall|j: int, y: int| lo <= j < hi implies !#[trigger] inside(
            recs@,
            lower@,
            anchor@,
            j,
            y,
        ) by {
            if inside(recs@, lower@, anchor@, j, y) {
                lemma_packed_at(recs@, len, j, hi - 1);
            }
        }
    }
    None
}

impl Live {
    /// A file of the snapshot that the query accepts has the anchor inside its name.
    proof fn lemma_anchored(&self, q: Parsed, anchor: Seq<u8>, i: int) -> (y: int)
        requires
            self.wf(),
            q.canonical(),
            last_longest(q.anchors()) == Some(anchor),
            0 <= i < self@.base_files,
            file_hit(self@.dirs, self@.files, q, i),
        ensures
            inside(self.contents().recs, lowered(self.contents().file_names), anchor, i, y),
    {
        self.lemma_base();
        self.lemma_sound();
        let c = self.contents();
        let names = c.file_names;
        let r = c.recs[i];
        let name = self@.files[i].name;
        assert(c.files()[i] == self@.files[i]) by {
            assert(self@.files.take(self@.base_files as int)[i] == self@.files[i]);
        }
        lemma_packed_at(c.recs, names.len() as int, i, i);
        let dir = self@.dir_path(self@.files[i].parent);
        let prefix = lemma_join_ends(dir, name);
        law_anchor_is_sound(q, prefix, name);
        let x = choose|x: int| occurs_at(lowered(name), anchor, x);
        lemma_lowered(names);
        lemma_lowered(name);
        let y = r.name_off + x;
        assert(lowered(names).subrange(y, y + anchor.len()) =~= lowered(name).subrange(
            x,
            x + anchor.len(),
        ));
        y
    }

    /// Where the anchor stands in no name from `lo` to `hi`, none of them is found.
    proof fn lemma_none_found(&self, q: Parsed, anchor: Seq<u8>, start: int, lo: int, hi: int)
        requires
            self.wf(),
            q.canonical(),
            last_longest(q.anchors()) == Some(anchor),
            0 <= start <= lo <= hi <= self@.base_files,
            clear(self.contents().recs, lowered(self.contents().file_names), anchor, lo, hi),
        ensures
            between(start, hi, self@.found(q)) == between(start, lo, self@.found(q)),
        decreases hi - lo,
    {
        if lo < hi {
            self.lemma_none_found(q, anchor, start, lo, hi - 1);
            if self@.found(q)(hi - 1) {
                let y = self.lemma_anchored(q, anchor, hi - 1);
            }
        }
    }

    /// Looks at the files of the snapshot from `start` to `end`, where the anchor stands
    /// in their names.
    #[verifier::rlimit(60)]
    fn scan_anchored(&self, q: &Query, anchor: &[u8], limit: usize, start: usize, end: usize) -> (r:
        (Vec<u32>, usize))
        requires
            self.wf(),
            q@.canonical(),
            anchor@.len() > 0,
            last_longest(q@.anchors()) == Some(anchor@),
            start <= end <= self@.base_files,
        ensures
            r.0@ == at_most(between(start as int, end as int, self@.found(q@)), limit as int),
            r.1 == between(start as int, end as int, self@.found(q@)).len(),
    {
        let ghost p = self@.found(q@);
        let ghost c = self.contents();
        let ghost len = c.file_names.len() as int;
        proof {
            self.lemma_sound();
            self.lemma_base();
            law_consistent_is_searchable(c);
            lemma_lowered(c.file_names);
        }
        let mut local: Vec<u32> = Vec::new();
        let mut count: usize = 0;
        let recs = self.base().file_recs();
        let lower = self.lower();
        let mut next = start;
        let mut cache = PathCache::new();
        while next < end
            invariant
                self.wf(),
                q@.canonical(),
                anchor@.len() > 0,
                last_longest(q@.anchors()) == Some(anchor@),
                c == self.contents(),
                c.searchable(),
                packed(c.recs, lower@.len() as int),
                recs@ == c.recs,
                lower@ == lowered(c.file_names),
                self@.base_files <= self@.files.len() < u32::MAX,
                self@.base_files == c.recs.len(),
                start <= next <= end <= self@.base_files,
                cache.holds(c.dirs()),
                p == self@.found(q@),
                local@ == at_most(between(start as int, next as int, p), limit as int),
                count == between(start as int, next as int, p).len(),
                count <= next - start,
            ensures
                local@ == at_most(between(start as int, end as int, p), limit as int),
                count == between(start as int, end as int, p).len(),
            decreases end - next,
        {
            match next_anchored(recs, lower, anchor, next, end) {
                None => {
                    proof {
                        self.lemma_none_found(q@, anchor@, start as int, next as int, end as int);
                    }
                    break;
                },
                Some(i) => {
                    let ghost before = between(start as int, i as int, p);
                    proof {
                        self.lemma_none_found(q@, anchor@, start as int, next as int, i as int);
                        self.lemma_base_file(q@, i as int);
                    }
                    if self.file_alive(i as u32) && file_accepted(self.base(), q, i, &mut cache) {
                        count += 1;
                        if local.len() < limit {
                            local.push(i as u32);
                        }
                        assert(local@ =~= at_most(before.push(i as u32), limit as int));
                    }
                    next = i + 1;
                },
            }
        }
        (local, count)
    }

    /// Looks at the files of the snapshot from `start` to `end`: those that are there and
    /// that the query accepts, within the limit, and how many there are.
    pub fn search_base_range(&self, q: &Query, limit: usize, start: usize, end: usize) -> (r: (
        Vec<u32>,
        usize,
    ))
        requires
            self.wf(),
            q@.canonical(),
            start <= end <= self@.base_files,
        ensures
            r.0@ == at_most(between(start as int, end as int, self@.found(q@)), limit as int),
            r.1 == between(start as int, end as int, self@.found(q@)).len(),
    {
        match q.anchor() {
            Some(anchor) => if anchor.len() > 0 {
                self.scan_anchored(q, anchor, limit, start, end)
            } else {
                self.scan_linear(q, limit, start, end)
            },
            None => self.scan_linear(q, limit, start, end),
        }
    }
}

impl Live {
    /// Looks at the directories.
    #[verifier::rlimit(60)]
    fn search_dirs(&self, q: &Query, limit: usize) -> (r: (Vec<u32>, usize))
        requires
            self.wf(),
            q@.canonical(),
            !q@.is_empty(),
            q@.dirs(),
        ensures
            r.0@ == at_most(self@.dir_hits(q@), limit as int),
            r.1 == self@.dir_hits(q@).len(),
            r.1 <= self@.dirs.len(),
    {
        let ghost s = self@;
        let ghost p = |id: int|
            s.dir_alive[id] && (id >= s.base_dirs || s.dirs[id].name.len() > 0) && dir_hit(
                s.dirs,
                q@,
                id,
            );
        proof {
            self.lemma_sound();
        }
        let nb = self.n_base_dirs();
        let n = self.n_dirs();
        let mut dirs: Vec<u32> = Vec::new();
        let mut count: usize = 0;
        for id in 0..n
            invariant
                self.wf(),
                q@.canonical(),
                s == self@,
                nb == s.base_dirs,
                n == s.dirs.len(),
                p == (|id: int|
                    s.dir_alive[id] && (id >= s.base_dirs || s.dirs[id].name.len() > 0) && dir_hit(
                        s.dirs,
                        q@,
                        id,
                    )),
                dirs@ == at_most(between(0, id as int, p), limit as int),
                count == between(0, id as int, p).len(),
                count <= id,
        {
            let ghost before = between(0, id as int, p);
            if self.dir_alive(id) && (id >= nb || self.dir_name(id).len() > 0) && self.accepts_dir(
                q,
                id,
            ) {
                count += 1;
                if dirs.len() < limit {
                    dirs.push(id);
                }
                assert(dirs@ =~= at_most(before.push(id), limit as int));
            }
        }
        (dirs, count)
    }

    /// Completes a search: `base_hits` and `base_total` are what was found among the files
    /// of the snapshot, which may have been searched in parts.
    #[verifier::rlimit(60)]
    pub fn finish_search(&self, q: &Query, limit: usize, base_hits: Vec<u32>, base_total: usize) -> (r:
        (Vec<Hit>, usize))
        requires
            self.wf(),
            self@.dirs.len() + self@.files.len() <= usize::MAX,
            !q@.is_empty() && q@.files() ==> base_hits@ == at_most(
                between(0, self@.base_files as int, self@.found(q@)),
                limit as int,
            ) && base_total == between(0, self@.base_files as int, self@.found(q@)).len(),
        ensures
            r.0@ == hit_list(self@, q@, limit as int),
            r.1 == self@.dir_hits(q@).len() + self@.file_hits(q@).len(),
            r.1 == hit_total(self@, q@),
    {
        let ghost s = self@;
        let mut hits: Vec<Hit> = Vec::new();
        if q.is_empty() {
            assert(hits@ =~= hit_list(s, q@, limit as int));
            return (hits, 0);
        }
        proof {
            self.lemma_sound();
        }
        let (dirs, dir_total) = if q.wants_dirs() {
            self.search_dirs(q, limit)
        } else {
            (Vec::new(), 0)
        };
        assert(dirs@ == at_most(s.dir_hits(q@), limit as int));
        for k in 0..dirs.len()
            invariant
                hits@ =~= dirs@.take(k as int).map_values(|id: u32| Hit::Dir(id)),
        {
            hits.push(Hit::Dir(dirs[k]));
        }
        assert(dirs@.take(dirs@.len() as int) =~= dirs@);
        let room = limit - dirs.len();
        let mut total = dir_total;
        let mut files: Vec<u32> = Vec::new();
        if q.wants_files() {
            let ghost p = s.found(q@);
            files = base_hits;
            let mut count = base_total;
            let nb = self.n_base_files();
            let n = self.n_files();
            let mut buf: Vec<u8> = Vec::new();
            proof {
                lemma_between_len(0, nb as int, p);
            }
            for i in nb..n
                invariant
                    self.wf(),
                    q@.canonical(),
                    s == self@,
                    nb <= i <= n,
                    n == s.files.len(),
                    s.dirs.len() + s.files.len() <= usize::MAX,
                    p == s.found(q@),
                    files@ == at_most(between(0, i as int, p), limit as int),
                    count == between(0, i as int, p).len(),
                    count <= i,
            {
                let ghost before = between(0, i as int, p);
                if self.file_alive(i) && self.accepts_file(q, i, &mut buf) {
                    count += 1;
                    if files.len() < limit {
                        files.push(i);
                    }
                    assert(files@ =~= at_most(before.push(i), limit as int));
                }
            }
            assert(s.file_hits(q@) == between(0, n as int, p));
            total = dir_total + count;
        }
        let ghost found = files@;
        files.truncate(room);
        assert(files@ =~= at_most(s.file_hits(q@), room as int));
        let ghost first = hits@;
        for k in 0..files.len()
            invariant
                hits@ =~= first + files@.take(k as int).map_values(|i: u32| Hit::File(i)),
        {
            hits.push(Hit::File(files[k]));
        }
        assert(files@.take(files@.len() as int) =~= files@);
        (hits, total)
    }

    /// Searches the live index.
    ///
    /// The hits are those of a search of the index file that holds the same entries, in
    /// the same order: directories first, files fill what is left of the limit. The number
    /// of hits does not depend on the limit.
    pub fn search(&self, q: &Query, limit: usize) -> (r: (Vec<Hit>, usize))
        requires
            self.wf(),
            self@.dirs.len() + self@.files.len() <= usize::MAX,
        ensures
            r.0@ == hit_list(self@, q@, limit as int),
            r.1 == self@.dir_hits(q@).len() + self@.file_hits(q@).len(),
            r.1 == hit_total(self@, q@),
    {
        if q.is_empty() || !q.wants_files() {
            return self.finish_search(q, limit, Vec::new(), 0);
        }
        let (base_hits, base_total) = self.search_base_range(
            q,
            limit,
            0,
            self.n_base_files() as usize,
        );
        self.finish_search(q, limit, base_hits, base_total)
    }

    /// The path of a hit. That of a directory ends in a separator.
    pub fn path_of(&self, h: Hit) -> (r: Vec<u8>)
        requires
            self.wf(),
            match h {
                Hit::File(i) => i < self@.files.len(),
                Hit::Dir(i) => parent_ok(i, self@.dirs.len() as int),
            },
        ensures
            r@ == match h {
                Hit::File(i) => self@.file_path(i as int),
                Hit::Dir(i) => self@.dir_path(i).push(SLASH),
            },
            r@ == hit_path(self@, h),
    {
        match h {
            Hit::File(i) => self.file_path(i),
            Hit::Dir(i) => {
                let mut p = self.dir_path(i);
                p.push(SLASH);
                p
            },
        }
    }
}

/// What a search finds can be looked up: every hit is an entry that is there.
pub proof fn law_hits_are_entries(s: State, q: Parsed, limit: int, k: int)
    requires
        s.sound(),
        limit >= 0,
        0 <= k < hit_list(s, q, limit).len(),
    ensures
        hit_list(s, q, limit).len() <= limit,
        match hit_list(s, q, limit)[k] {
            Hit::File(i) => i < s.files.len() && s.file_alive[i as int] && file_hit(
                s.dirs,
                s.files,
                q,
                i as int,
            ),
            Hit::Dir(i) => i < s.dirs.len() && s.dir_alive[i as int] && dir_hit(
                s.dirs,
                q,
                i as int,
            ),
        },
{
    let dirs = at_most(s.dir_hits(q), limit);
    let files = at_most(s.file_hits(q), limit - dirs.len());
    let p = |id: int|
        s.dir_alive[id] && (id >= s.base_dirs || s.dirs[id].name.len() > 0) && dir_hit(
            s.dirs,
            q,
            id,
        );
    lemma_between_contains(0, s.dirs.len() as int, p);
    lemma_between_contains(0, s.files.len() as int, s.found(q));
    if k < dirs.len() {
        assert(s.dir_hits(q)[k] == dirs[k]);
        assert(s.dir_hits(q).contains(dirs[k]));
        assert(between(0, s.dirs.len() as int, p).contains(dirs[k]));
    } else {
        let f = files[k - dirs.len()];
        assert(s.file_hits(q)[k - dirs.len()] == f);
        assert(s.file_hits(q).contains(f));
        assert(between(0, s.files.len() as int, s.found(q)).contains(f));
    }
}

} // verus!
