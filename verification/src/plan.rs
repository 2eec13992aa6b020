//! From events to work.
//!
//! Most events ask for one directory to be listed again. Where events were dropped, one
//! subtree cannot be trusted and is read anew; there is no reason to throw away the rest.
//! Only when the root itself was moved or cannot be trusted, or event ids have wrapped
//! around, does the whole index have to be rebuilt.

use vstd::prelude::*;

use crate::fsevents::{
    EV_IDS_WRAPPED, EV_ITEM_IS_DIR, EV_KERNEL_DROPPED, EV_MOUNT, EV_MUST_SCAN_SUBDIRS,
    EV_ROOT_CHANGED, EV_UNMOUNT, EV_USER_DROPPED,
};
use crate::live::Live;
use crate::text::{bytes_eq, copy, is_within, parent_path};
#[allow(unused_imports)]
use crate::text::{parent_of, within};
#[allow(unused_imports)]
use crate::tree::State;

verus! {

/// Why something out of the ordinary is done.
pub enum Note {
    /// The root has changed, or event ids have wrapped around.
    RootChanged,
    /// A volume was mounted or unmounted inside the watched tree.
    MountInside,
    /// A volume was mounted or unmounted elsewhere, which is ignored.
    MountOutside,
    /// Events were dropped; the subtree has to be read anew.
    Dropped(Vec<u8>),
}

/// What a batch of events asks for.
pub struct Plan {
    /// Directories to be listed again: id and path.
    pub refresh: Vec<(u32, Vec<u8>)>,
    /// Subtrees to be read anew: id and path.
    pub rescan_ids: Vec<(u32, Vec<u8>)>,
    /// The whole index has to be rebuilt.
    pub need_full: bool,
    /// Why.
    pub notes: Vec<Note>,
}

impl Default for Plan {
    fn default() -> (r: Plan)
        ensures
            r.refresh@.len() == 0,
            r.rescan_ids@.len() == 0,
            !r.need_full,
            r.notes@.len() == 0,
    {
        Plan { refresh: Vec::new(), rescan_ids: Vec::new(), need_full: false, notes: Vec::new() }
    }
}

// --- what a batch of events asks for ---

/// What a note says.
pub ghost enum Remark {
    RootChanged,
    MountInside,
    MountOutside,
    Dropped(Seq<u8>),
}

impl Note {
    pub open spec fn view(&self) -> Remark {
        match self {
            Note::RootChanged => Remark::RootChanged,
            Note::MountInside => Remark::MountInside,
            Note::MountOutside => Remark::MountOutside,
            Note::Dropped(p) => Remark::Dropped(p@),
        }
    }
}

/// What was gathered from the events: directories to be listed, subtrees to be read.
pub ghost struct Gathered {
    pub wanted: Seq<Seq<u8>>,
    pub rescan: Seq<Seq<u8>>,
    pub need_full: bool,
    pub notes: Seq<Remark>,
}

/// `list` with `x`, once.
pub open spec fn with<A>(list: Seq<A>, x: A) -> Seq<A> {
    if list.contains(x) {
        list
    } else {
        list.push(x)
    }
}

/// What was gathered, and one event more.
pub open spec fn gather_one(s: State, g: Gathered, path: Seq<u8>, flags: u32) -> Gathered {
    if s.ignored(path) {
        g
    } else if flags & (EV_ROOT_CHANGED | EV_IDS_WRAPPED) != 0 {
        Gathered { need_full: true, notes: with(g.notes, Remark::RootChanged), ..g }
    } else if flags & (EV_MOUNT | EV_UNMOUNT) != 0 {
        if within(s.root, path) {
            Gathered {
                rescan: g.rescan.push(path),
                notes: with(g.notes, Remark::MountInside),
                ..g
            }
        } else {
            Gathered { notes: with(g.notes, Remark::MountOutside), ..g }
        }
    } else if flags & (EV_MUST_SCAN_SUBDIRS | EV_USER_DROPPED | EV_KERNEL_DROPPED) != 0 {
        Gathered {
            rescan: g.rescan.push(path),
            notes: with(g.notes, Remark::Dropped(path)),
            ..g
        }
    } else {
        match parent_of(path) {
            Some(dir) => Gathered {
                wanted: if flags & EV_ITEM_IS_DIR != 0 {
                    with(with(g.wanted, dir), path)
                } else {
                    with(g.wanted, dir)
                },
                ..g
            },
            None => g,
        }
    }
}

/// What is gathered from the events.
pub open spec fn gather(s: State, events: Seq<(Vec<u8>, u32)>) -> Gathered
    decreases events.len(),
{
    if events.len() == 0 {
        Gathered {
            wanted: Seq::empty(),
            rescan: Seq::empty(),
            need_full: false,
            notes: Seq::empty(),
        }
    } else {
        gather_one(
            s,
            gather(s, events.drop_last()),
            events.last().0@,
            events.last().1,
        )
    }
}

/// An entry of the list has this id.
pub open spec fn has_id(list: Seq<(u32, Seq<u8>)>, id: u32) -> bool {
    exists|i: int| 0 <= i < list.len() && (#[trigger] list[i]).0 == id
}

/// The known directories nearest to the paths, once each. The root is left out where
/// `but_root` says so.
pub open spec fn resolved(s: State, paths: Seq<Seq<u8>>, but_root: bool) -> Seq<(u32, Seq<u8>)>
    decreases paths.len(),
{
    if paths.len() == 0 {
        Seq::empty()
    } else {
        let before = resolved(s, paths.drop_last(), but_root);
        match s.resolve(paths.last()) {
            Some((id, p)) => if (but_root && id == 0) || has_id(before, id) {
                before
            } else {
                before.push((id, p))
            },
            None => before,
        }
    }
}

/// One of the paths is that of the root.
pub open spec fn names_root(s: State, paths: Seq<Seq<u8>>) -> bool {
    exists|i: int| 0 <= i < paths.len() && s.lookup(#[trigger] paths[i]) == Some(0u32)
}

/// The path is not known, and the nearest known directory above it is the root.
pub open spec fn falls_to_root(s: State, path: Seq<u8>) -> bool {
    s.lookup(path) is None && (s.resolve(path) matches Some((id, _)) && id == 0)
}

/// One of the paths falls back to the root.
pub open spec fn some_fall_to_root(s: State, paths: Seq<Seq<u8>>) -> bool {
    exists|i: int| 0 <= i < paths.len() && falls_to_root(s, #[trigger] paths[i])
}

/// The directories that are listed again. The root is among them where a subtree that is
/// to be read anew is not known and lies directly below it: listing the root brings the
/// subtree to light.
pub open spec fn to_refresh(s: State, g: Gathered) -> Seq<(u32, Seq<u8>)> {
    let list = resolved(s, g.wanted, false);
    if some_fall_to_root(s, g.rescan) && !has_id(list, 0) {
        list.push((0u32, s.root))
    } else {
        list
    }
}

/// The whole index has to be rebuilt.
pub open spec fn needs_full(s: State, events: Seq<(Vec<u8>, u32)>) -> bool {
    gather(s, events).need_full || names_root(s, gather(s, events).rescan)
}

/// Ids and paths.
pub open spec fn pairs(list: Seq<(u32, Vec<u8>)>) -> Seq<(u32, Seq<u8>)> {
    list.map_values(|x: (u32, Vec<u8>)| (x.0, x.1@))
}

/// Byte strings.
pub open spec fn strings(list: Seq<Vec<u8>>) -> Seq<Seq<u8>> {
    list.map_values(|v: Vec<u8>| v@)
}

/// What the notes say.
pub open spec fn remarks(list: Seq<Note>) -> Seq<Remark> {
    list.map_values(|n: Note| n@)
}

// --- planning ---

impl Note {
    fn same(&self, other: &Note) -> (r: bool)
        ensures
            r == (self@ == other@),
    {
        match (self, other) {
            (Note::RootChanged, Note::RootChanged) => true,
            (Note::MountInside, Note::MountInside) => true,
            (Note::MountOutside, Note::MountOutside) => true,
            (Note::Dropped(a), Note::Dropped(b)) => bytes_eq(a.as_slice(), b.as_slice()),
            _ => false,
        }
    }
}

impl Plan {
    /// Adds a note, once.
    fn note(&mut self, n: Note)
        ensures
            remarks(final(self).notes@) == with(remarks(old(self).notes@), n@),
            final(self).refresh == old(self).refresh,
            final(self).rescan_ids == old(self).rescan_ids,
            final(self).need_full == old(self).need_full,
    {
        let ghost all = remarks(self.notes@);
        for i in 0..self.notes.len()
            invariant
                all == remarks(self.notes@),
                forall|k: int| 0 <= k < i ==> all[k] != n@,
                *self == *old(self),
        {
            assert(all[i as int] == self.notes@[i as int]@);
            if self.notes[i].same(&n) {
                return ;
            }
        }
        self.notes.push(n);
        assert(remarks(self.notes@) =~= all.push(n@));
    }
}

/// Adds a path, once.
fn want(list: &mut Vec<Vec<u8>>, path: &[u8])
    ensures
        strings(final(list)@) == with(strings(old(list)@), path@),
{
    let ghost all = strings(list@);
    for i in 0..list.len()
        invariant
            all == strings(list@),
            forall|k: int| 0 <= k < i ==> all[k] != path@,
            *list == *old(list),
    {
        assert(all[i as int] == list@[i as int]@);
        if bytes_eq(list[i].as_slice(), path) {
            return ;
        }
    }
    list.push(copy(path));
    assert(strings(list@) =~= all.push(path@));
}

fn knows(list: &Vec<(u32, Vec<u8>)>, id: u32) -> (r: bool)
    ensures
        r == has_id(pairs(list@), id),
{
    for i in 0..list.len()
        invariant
            forall|k: int| 0 <= k < i ==> (#[trigger] pairs(list@)[k]).0 != id,
    {
        assert(pairs(list@)[i as int].0 == list@[i as int].0);
        if list[i].0 == id {
            return true;
        }
    }
    false
}

impl Live {
    /// Finds the known directories nearest to the paths, once each.
    #[verifier::rlimit(60)]
    fn resolve_all(&self, paths: &Vec<Vec<u8>>, but_root: bool) -> (r: Vec<(u32, Vec<u8>)>)
        requires
            self.wf(),
        ensures
            pairs(r@) == resolved(self@, strings(paths@), but_root),
            forall|i: int|
                0 <= i < r@.len() ==> (#[trigger] r@[i]).0 == 0 || r@[i].0 < self@.dirs.len(),
    {
        let ghost all = strings(paths@);
        let mut out: Vec<(u32, Vec<u8>)> = Vec::new();
        assert(pairs(out@) =~= resolved(self@, all.take(0), but_root));
        for i in 0..paths.len()
            invariant
                self.wf(),
                all == strings(paths@),
                pairs(out@) == resolved(self@, all.take(i as int), but_root),
                forall|k: int|
                    0 <= k < out@.len() ==> (#[trigger] out@[k]).0 == 0 || out@[k].0
                        < self@.dirs.len(),
        {
            let ghost before = out@;
            proof {
                assert(all[i as int] == paths@[i as int]@);
                assert(all.take(i + 1).drop_last() =~= all.take(i as int));
                assert(all.take(i + 1).last() == all[i as int]);
            }
            match self.resolve_or_ancestor(paths[i].as_slice()) {
                Some((id, p)) => {
                    if !(but_root && id == 0) && !knows(&out, id) {
                        out.push((id, p));
                        assert(pairs(out@) =~= pairs(before).push((id, p@)));
                    }
                },
                None => {},
            }
        }
        assert(all.take(all.len() as int) =~= all);
        out
    }

    /// Whether one of the paths is that of the root, and whether one falls back to it.
    fn root_among(&self, paths: &Vec<Vec<u8>>) -> (r: (bool, bool))
        requires
            self.wf(),
        ensures
            r.0 == names_root(self@, strings(paths@)),
            r.1 == some_fall_to_root(self@, strings(paths@)),
    {
        let ghost all = strings(paths@);
        let mut named = false;
        let mut fallen = false;
        for i in 0..paths.len()
            invariant
                self.wf(),
                all == strings(paths@),
                named ==> names_root(self@, all),
                fallen ==> some_fall_to_root(self@, all),
                !named ==> forall|k: int|
                    0 <= k < i ==> self@.lookup(#[trigger] all[k]) != Some(0u32),
                !fallen ==> forall|k: int| 0 <= k < i ==> !falls_to_root(self@, #[trigger] all[k]),
        {
            let path = paths[i].as_slice();
            assert(all[i as int] == path@);
            match self.lookup_dir(path) {
                Some(id) => if id == 0 {
                    named = true;
                    assert(self@.lookup(all[i as int]) == Some(0u32));
                },
                None => {
                    if let Some((id, _)) = self.resolve_or_ancestor(path) {
                        if id == 0 {
                            fallen = true;
                            assert(falls_to_root(self@, all[i as int]));
                        }
                    }
                },
            }
        }
        (named, fallen)
    }

    /// Turns a batch of events into work.
    ///
    /// Each event is a path and its flags.
    #[verifier::rlimit(60)]
    pub fn plan(&self, events: &[(Vec<u8>, u32)]) -> (r: Plan)
        requires
            self.wf(),
        ensures
            pairs(r.refresh@) == to_refresh(self@, gather(self@, events@)),
            pairs(r.rescan_ids@) == resolved(self@, gather(self@, events@).rescan, true),
            r.need_full == needs_full(self@, events@),
            remarks(r.notes@) == gather(self@, events@).notes,
            forall|i: int|
                0 <= i < r.refresh@.len() ==> (#[trigger] r.refresh@[i]).0 == 0 || r.refresh@[i].0
                    < self@.dirs.len(),
            forall|i: int|
                0 <= i < r.rescan_ids@.len() ==> (#[trigger] r.rescan_ids@[i]).0
                    < self@.dirs.len(),
    {
        let ghost s = self@;
        let mut plan = Plan::default();
        let mut wanted: Vec<Vec<u8>> = Vec::new();
        let mut rescan: Vec<Vec<u8>> = Vec::new();
        let root = self.base().root();
        proof {
            self.lemma_base();
            assert(events@.take(0) =~= Seq::empty());
            let g = gather(s, events@.take(0));
            assert(strings(wanted@) =~= g.wanted);
            assert(strings(rescan@) =~= g.rescan);
            assert(remarks(plan.notes@) =~= g.notes);
        }
        for i in 0..events.len()
            invariant
                self.wf(),
                s == self@,
                root@ == s.root,
                strings(wanted@) == gather(s, events@.take(i as int)).wanted,
                strings(rescan@) == gather(s, events@.take(i as int)).rescan,
                plan.need_full == gather(s, events@.take(i as int)).need_full,
                remarks(plan.notes@) == gather(s, events@.take(i as int)).notes,
        {
            let path = events[i].0.as_slice();
            let flags = events[i].1;
            let ghost old_rescan = rescan@;
            proof {
                assert(events@.take(i + 1).drop_last() =~= events@.take(i as int));
                assert(events@.take(i + 1).last() == events@[i as int]);
            }
            if self.ignored(path) {
            } else if flags & (EV_ROOT_CHANGED | EV_IDS_WRAPPED) != 0 {
                plan.need_full = true;
                plan.note(Note::RootChanged);
            } else if flags & (EV_MOUNT | EV_UNMOUNT) != 0 {
                if is_within(root, path) {
                    rescan.push(copy(path));
                    plan.note(Note::MountInside);
                    assert(strings(rescan@) =~= strings(old_rescan).push(path@));
                } else {
                    plan.note(Note::MountOutside);
                }
            } else if flags & (EV_MUST_SCAN_SUBDIRS | EV_USER_DROPPED | EV_KERNEL_DROPPED) != 0 {
                rescan.push(copy(path));
                plan.note(Note::Dropped(copy(path)));
                assert(strings(rescan@) =~= strings(old_rescan).push(path@));
            } else {
                match parent_path(path) {
                    Some(dir) => {
                        want(&mut wanted, dir.as_slice());
                        if flags & EV_ITEM_IS_DIR != 0 {
                            want(&mut wanted, path);
                        }
                    },
                    None => {},
                }
            }
        }
        assert(events@.take(events@.len() as int) =~= events@);
        let mut refresh = self.resolve_all(&wanted, false);
        let rescan_ids = self.resolve_all(&rescan, true);
        let (named, fallen) = self.root_among(&rescan);
        let ghost listed = refresh@;
        if fallen && !knows(&refresh, 0) {
            let path = copy(root);
            refresh.push((0, path));
            assert(pairs(refresh@) =~= pairs(listed).push((0u32, path@)));
        }
        proof {
            lemma_no_root(s, strings(rescan@));
            assert forall|i: int| 0 <= i < rescan_ids@.len() implies (#[trigger] rescan_ids@[i]).0
                < s.dirs.len() by {
                assert(pairs(rescan_ids@)[i].0 == rescan_ids@[i].0);
            }
            assert forall|i: int| 0 <= i < refresh@.len() implies (#[trigger] refresh@[i]).0 == 0
                || refresh@[i].0 < s.dirs.len() by {
                if i < listed.len() {
                    assert(refresh@[i] == listed[i]);
                }
            }
        }
        plan.refresh = refresh;
        plan.rescan_ids = rescan_ids;
        if named {
            plan.need_full = true;
        }
        plan
    }
}

proof fn lemma_no_root(s: State, paths: Seq<Seq<u8>>)
    ensures
        forall|i: int|
            0 <= i < resolved(s, paths, true).len() ==> (#[trigger] resolved(s, paths, true)[i]).0
                != 0,
    decreases paths.len(),
{
    if paths.len() > 0 {
        lemma_no_root(s, paths.drop_last());
        let before = resolved(s, paths.drop_last(), true);
        let all = resolved(s, paths, true);
        assert forall|i: int| 0 <= i < all.len() implies (#[trigger] all[i]).0 != 0 by {
            if i < before.len() {
                assert(all[i] == before[i]);
            }
        }
    }
}

// --- laws ---

/// The event asks by itself for the whole index to be rebuilt.
pub open spec fn voids_index(s: State, e: (Vec<u8>, u32)) -> bool {
    !s.ignored(e.0@) && e.1 & (EV_ROOT_CHANGED | EV_IDS_WRAPPED) != 0
}

/// The event asks for a subtree to be read anew: events below its path were dropped, or a
/// volume was mounted or unmounted there, inside the watched tree.
pub open spec fn distrusts(s: State, e: (Vec<u8>, u32)) -> bool {
    &&& !s.ignored(e.0@)
    &&& e.1 & (EV_ROOT_CHANGED | EV_IDS_WRAPPED) == 0
    &&& if e.1 & (EV_MOUNT | EV_UNMOUNT) != 0 {
        within(s.root, e.0@)
    } else {
        e.1 & (EV_MUST_SCAN_SUBDIRS | EV_USER_DROPPED | EV_KERNEL_DROPPED) != 0
    }
}

proof fn lemma_voids(s: State, events: Seq<(Vec<u8>, u32)>)
    ensures
        gather(s, events).need_full <==> exists|i: int|
            0 <= i < events.len() && #[trigger] voids_index(s, events[i]),
    decreases events.len(),
{
    if events.len() > 0 {
        let front = events.drop_last();
        lemma_voids(s, front);
        if exists|i: int| 0 <= i < front.len() && #[trigger] voids_index(s, front[i]) {
            let i = choose|i: int| 0 <= i < front.len() && #[trigger] voids_index(s, front[i]);
            assert(voids_index(s, events[i]));
        }
        if voids_index(s, events.last()) {
            assert(voids_index(s, events[events.len() - 1]));
        }
        if exists|i: int| 0 <= i < events.len() && #[trigger] voids_index(s, events[i]) {
            let i = choose|i: int| 0 <= i < events.len() && #[trigger] voids_index(s, events[i]);
            if i < front.len() {
                assert(voids_index(s, front[i]));
            }
        }
    }
}

proof fn lemma_distrusted(s: State, events: Seq<(Vec<u8>, u32)>, path: Seq<u8>)
    ensures
        gather(s, events).rescan.contains(path) <==> exists|i: int|
            0 <= i < events.len() && #[trigger] distrusts(s, events[i]) && events[i].0@ == path,
    decreases events.len(),
{
    let all = gather(s, events).rescan;
    if events.len() > 0 {
        let front = events.drop_last();
        let before = gather(s, front).rescan;
        let last = events.len() - 1;
        let e = events[last];
        lemma_distrusted(s, front, path);
        assert(all == if distrusts(s, e) {
            before.push(e.0@)
        } else {
            before
        });
        if before.contains(path) {
            let i = choose|i: int|
                0 <= i < front.len() && #[trigger] distrusts(s, front[i]) && front[i].0@ == path;
            assert(distrusts(s, events[i]) && events[i].0@ == path);
            let k = choose|k: int| 0 <= k < before.len() && before[k] == path;
            assert(all[k] == path);
        }
        if distrusts(s, e) && e.0@ == path {
            assert(all[before.len() as int] == path);
        }
        if all.contains(path) && !before.contains(path) {
            let k = choose|k: int| 0 <= k < all.len() && all[k] == path;
            if k < before.len() {
                assert(before[k] == path);
            }
            assert(distrusts(s, events[last]) && events[last].0@ == path);
        }
        if exists|i: int|
            0 <= i < events.len() && #[trigger] distrusts(s, events[i]) && events[i].0@ == path {
            let i = choose|i: int|
                0 <= i < events.len() && #[trigger] distrusts(s, events[i]) && events[i].0@ == path;
            if i < front.len() {
                assert(distrusts(s, front[i]) && front[i].0@ == path);
            }
        }
    }
}

/// The event leaves nothing of the index to be trusted: the root was moved, event ids have
/// wrapped around, or it is the root itself that has to be read anew.
pub open spec fn overturns(s: State, e: (Vec<u8>, u32)) -> bool {
    voids_index(s, e) || (distrusts(s, e) && s.lookup(e.0@) == Some(0u32))
}

/// A plan asks for the whole index to be rebuilt only where the root was moved, where event
/// ids have wrapped around, or where it is the root itself that cannot be trusted. Dropped
/// events anywhere else, below directories that are known or not, never do.
pub proof fn law_rebuild_is_rare(s: State, events: Seq<(Vec<u8>, u32)>)
    ensures
        needs_full(s, events) <==> exists|i: int|
            0 <= i < events.len() && #[trigger] overturns(s, events[i]),
{
    let rescan = gather(s, events).rescan;
    lemma_voids(s, events);
    if names_root(s, rescan) {
        let k = choose|k: int| 0 <= k < rescan.len() && s.lookup(#[trigger] rescan[k]) == Some(0u32);
        let path = rescan[k];
        assert(rescan.contains(path));
        lemma_distrusted(s, events, path);
        let i = choose|i: int|
            0 <= i < events.len() && #[trigger] distrusts(s, events[i]) && events[i].0@ == path;
        assert(overturns(s, events[i]));
    }
    if exists|i: int| 0 <= i < events.len() && #[trigger] voids_index(s, events[i]) {
        let i = choose|i: int| 0 <= i < events.len() && #[trigger] voids_index(s, events[i]);
        assert(overturns(s, events[i]));
    }
    if exists|i: int| 0 <= i < events.len() && #[trigger] overturns(s, events[i]) {
        let i = choose|i: int| 0 <= i < events.len() && #[trigger] overturns(s, events[i]);
        if !voids_index(s, events[i]) {
            let path = events[i].0@;
            lemma_distrusted(s, events, path);
            let k = choose|k: int| 0 <= k < rescan.len() && rescan[k] == path;
            assert(s.lookup(rescan[k]) == Some(0u32));
        }
    }
}

/// Where events were dropped below a directory that is not known and lies directly below
/// the root, the root is listed again: the directory is not lost.
pub proof fn law_unknown_subtrees_are_listed(s: State, events: Seq<(Vec<u8>, u32)>, i: int)
    requires
        0 <= i < events.len(),
        distrusts(s, events[i]),
        falls_to_root(s, events[i].0@),
    ensures
        has_id(to_refresh(s, gather(s, events)), 0),
{
    let g = gather(s, events);
    let path = events[i].0@;
    lemma_distrusted(s, events, path);
    let k = choose|k: int| 0 <= k < g.rescan.len() && g.rescan[k] == path;
    assert(falls_to_root(s, g.rescan[k]));
    let list = resolved(s, g.wanted, false);
    if !has_id(list, 0) {
        assert(to_refresh(s, g)[list.len() as int].0 == 0);
    }
}

/// An event below an ignored path changes nothing, wherever it stands among the others:
/// writing the index file does not set off an update.
pub proof fn law_ignored_events_change_nothing(
    s: State,
    before: Seq<(Vec<u8>, u32)>,
    e: (Vec<u8>, u32),
    after: Seq<(Vec<u8>, u32)>,
)
    requires
        s.ignored(e.0@),
    ensures
        gather(s, before.push(e) + after) == gather(s, before + after),
    decreases after.len(),
{
    if after.len() == 0 {
        assert(before.push(e) + after =~= before.push(e));
        assert(before + after =~= before);
        assert(before.push(e).drop_last() =~= before);
    } else {
        law_ignored_events_change_nothing(s, before, e, after.drop_last());
        assert((before.push(e) + after).drop_last() =~= before.push(e) + after.drop_last());
        assert((before + after).drop_last() =~= before + after.drop_last());
    }
}

proof fn lemma_resolved_distinct(s: State, paths: Seq<Seq<u8>>, but_root: bool, i: int, j: int)
    requires
        0 <= i < j < resolved(s, paths, but_root).len(),
    ensures
        resolved(s, paths, but_root)[i].0 != resolved(s, paths, but_root)[j].0,
    decreases paths.len(),
{
    if paths.len() > 0 {
        let before = resolved(s, paths.drop_last(), but_root);
        let all = resolved(s, paths, but_root);
        if j < before.len() {
            lemma_resolved_distinct(s, paths.drop_last(), but_root, i, j);
        } else {
            assert(all[i] == before[i]);
            assert(!has_id(before, all[j].0));
        }
    }
}

/// No directory is listed twice, and no subtree read twice, for one batch of events.
pub proof fn law_no_work_is_done_twice(s: State, g: Gathered, i: int, j: int)
    requires
        0 <= i < j,
    ensures
        j < to_refresh(s, g).len() ==> to_refresh(s, g)[i].0 != to_refresh(s, g)[j].0,
        j < resolved(s, g.rescan, true).len() ==> resolved(s, g.rescan, true)[i].0 != resolved(
            s,
            g.rescan,
            true,
        )[j].0,
{
    let list = resolved(s, g.wanted, false);
    if j < list.len() {
        lemma_resolved_distinct(s, g.wanted, false, i, j);
    } else if j < to_refresh(s, g).len() {
        assert(to_refresh(s, g)[i] == list[i]);
        assert(!has_id(list, 0));
    }
    if j < resolved(s, g.rescan, true).len() {
        lemma_resolved_distinct(s, g.rescan, true, i, j);
    }
}

/// The flags of an event, by the bits that the system sets.
pub proof fn law_flags_are_these_bits(f: u32)
    ensures
        f & (EV_ROOT_CHANGED | EV_IDS_WRAPPED) == f & 0x28,
        f & (EV_MOUNT | EV_UNMOUNT) == f & 0xc0,
        f & (EV_MUST_SCAN_SUBDIRS | EV_USER_DROPPED | EV_KERNEL_DROPPED) == f & 0x7,
        f & EV_ITEM_IS_DIR == f & 0x2_0000,
{
    assert(0x20u32 | 0x8 == 0x28) by (bit_vector);
    assert(0x40u32 | 0x80 == 0xc0) by (bit_vector);
    assert(0x1u32 | 0x2 | 0x4 == 0x7) by (bit_vector);
}

/// The event says that something changed in a directory: it is not ignored, and neither the
/// root nor event ids, a volume or dropped events are the matter.
pub open spec fn ordinary(s: State, e: (Vec<u8>, u32)) -> bool {
    !s.ignored(e.0@) && e.1 & 0xef == 0
}

proof fn lemma_ordinary_bits(f: u32)
    ensures
        f & 0xef == 0 <==> f & 0x28 == 0 && f & 0xc0 == 0 && f & 0x7 == 0,
{
    assert(f & 0xef == 0 <==> f & 0x28 == 0 && f & 0xc0 == 0 && f & 0x7 == 0) by (bit_vector);
}

/// The event asks for the directory at `path` to be listed.
pub open spec fn asks_to_list(s: State, e: (Vec<u8>, u32), path: Seq<u8>) -> bool {
    ordinary(s, e) && parent_of(e.0@) is Some && (parent_of(e.0@) == Some(path) || (e.1 & 0x2_0000
        != 0 && path == e.0@))
}

proof fn lemma_with(list: Seq<Seq<u8>>, x: Seq<u8>, y: Seq<u8>)
    ensures
        with(list, x).contains(y) <==> list.contains(y) || y == x,
{
    if !list.contains(x) {
        let all = list.push(x);
        if list.contains(y) {
            let k = choose|k: int| 0 <= k < list.len() && list[k] == y;
            assert(all[k] == y);
        }
        assert(all[list.len() as int] == x);
        if all.contains(y) && y != x {
            let k = choose|k: int| 0 <= k < all.len() && all[k] == y;
            assert(list[k] == y);
        }
    }
}

#[verifier::rlimit(60)]
proof fn lemma_wanted(s: State, events: Seq<(Vec<u8>, u32)>, path: Seq<u8>)
    ensures
        gather(s, events).wanted.contains(path) <==> exists|i: int|
            0 <= i < events.len() && #[trigger] asks_to_list(s, events[i], path),
    decreases events.len(),
{
    if events.len() > 0 {
        let front = events.drop_last();
        let last = events.len() - 1;
        let e = events[last];
        let list = gather(s, front).wanted;
        let all = gather(s, events).wanted;
        lemma_wanted(s, front, path);
        law_flags_are_these_bits(e.1);
        lemma_ordinary_bits(e.1);
        assert(all.contains(path) <==> list.contains(path) || asks_to_list(s, e, path)) by {
            if ordinary(s, e) && parent_of(e.0@) is Some {
                let dir = parent_of(e.0@)->0;
                lemma_with(list, dir, path);
                lemma_with(with(list, dir), e.0@, path);
            }
        }
        if list.contains(path) {
            let i = choose|i: int| 0 <= i < front.len() && #[trigger] asks_to_list(
                s,
                front[i],
                path,
            );
            assert(asks_to_list(s, events[i], path));
        }
        if exists|i: int| 0 <= i < events.len() && #[trigger] asks_to_list(s, events[i], path) {
            let i = choose|i: int|
                0 <= i < events.len() && #[trigger] asks_to_list(s, events[i], path);
            if i < last {
                assert(asks_to_list(s, front[i], path));
            }
        }
    }
}

proof fn lemma_resolved_has(s: State, paths: Seq<Seq<u8>>, but_root: bool, id: u32)
    ensures
        has_id(resolved(s, paths, but_root), id) <==> !(but_root && id == 0) && exists|i: int|
            0 <= i < paths.len() && (s.resolve(#[trigger] paths[i]) matches Some((x, _)) && x == id),
    decreases paths.len(),
{
    let all = resolved(s, paths, but_root);
    if paths.len() > 0 {
        let front = paths.drop_last();
        let last = paths.len() - 1;
        let list = resolved(s, front, but_root);
        lemma_resolved_has(s, front, but_root, id);
        let here = s.resolve(paths[last]) matches Some((x, _)) && x == id;
        assert(has_id(all, id) <==> has_id(list, id) || (here && !(but_root && id == 0))) by {
            if has_id(list, id) {
                let k = choose|k: int| 0 <= k < list.len() && (#[trigger] list[k]).0 == id;
                assert(all[k].0 == id);
            }
            if here && !(but_root && id == 0) && !has_id(list, id) {
                assert(all[list.len() as int].0 == id);
            }
            if has_id(all, id) && !has_id(list, id) {
                let k = choose|k: int| 0 <= k < all.len() && (#[trigger] all[k]).0 == id;
                if k < list.len() {
                    assert(list[k].0 == id);
                }
            }
        }
        if exists|i: int|
            0 <= i < front.len() && (s.resolve(#[trigger] front[i]) matches Some((x, _)) && x
                == id) {
            let i = choose|i: int|
                0 <= i < front.len() && (s.resolve(#[trigger] front[i]) matches Some((x, _)) && x
                    == id);
            assert(paths[i] == front[i]);
        }
        if exists|i: int|
            0 <= i < paths.len() && (s.resolve(#[trigger] paths[i]) matches Some((x, _)) && x
                == id) {
            let i = choose|i: int|
                0 <= i < paths.len() && (s.resolve(#[trigger] paths[i]) matches Some((x, _)) && x
                    == id);
            if i < last {
                assert(front[i] == paths[i]);
            }
        }
    }
}

/// Whatever happened to an entry, the directory that it lies in is listed again, or the
/// nearest one that is known; and where the entry is a directory, it too. No flag of an event
/// but those of the root, event ids, volumes and dropped events changes this.
pub proof fn law_changes_are_looked_at(s: State, events: Seq<(Vec<u8>, u32)>, i: int)
    requires
        0 <= i < events.len(),
        !s.ignored(events[i].0@),
        events[i].1 & 0xef == 0,
        parent_of(events[i].0@) is Some,
    ensures
        s.resolve(parent_of(events[i].0@)->0) matches Some((id, _)) ==> has_id(
            to_refresh(s, gather(s, events)),
            id,
        ),
        events[i].1 & 0x2_0000 != 0 ==> (s.resolve(events[i].0@) matches Some((id, _)) ==> has_id(
            to_refresh(s, gather(s, events)),
            id,
        )),
{
    let g = gather(s, events);
    let list = resolved(s, g.wanted, false);
    let dir = parent_of(events[i].0@)->0;
    assert(asks_to_list(s, events[i], dir));
    lemma_wanted(s, events, dir);
    if let Some((id, _)) = s.resolve(dir) {
        lemma_resolved_has(s, g.wanted, false, id);
        let k = choose|k: int| 0 <= k < g.wanted.len() && g.wanted[k] == dir;
        assert(s.resolve(g.wanted[k]) == s.resolve(dir));
        lemma_still_has(s, g, id);
    }
    if events[i].1 & 0x2_0000 != 0 {
        assert(asks_to_list(s, events[i], events[i].0@));
        lemma_wanted(s, events, events[i].0@);
        if let Some((id, _)) = s.resolve(events[i].0@) {
            lemma_resolved_has(s, g.wanted, false, id);
            let k = choose|k: int| 0 <= k < g.wanted.len() && g.wanted[k] == events[i].0@;
            assert(s.resolve(g.wanted[k]) == s.resolve(events[i].0@));
            lemma_still_has(s, g, id);
        }
    }
}

proof fn lemma_still_has(s: State, g: Gathered, id: u32)
    requires
        has_id(resolved(s, g.wanted, false), id),
    ensures
        has_id(to_refresh(s, g), id),
{
    let list = resolved(s, g.wanted, false);
    let k = choose|k: int| 0 <= k < list.len() && (#[trigger] list[k]).0 == id;
    assert(to_refresh(s, g)[k].0 == id);
}

/// Nothing is listed that no event asks for: a directory that a plan lists is the nearest to
/// where an ordinary event points, or it is the root, below which events were dropped that
/// lead nowhere else.
pub proof fn law_only_changes_are_looked_at(s: State, events: Seq<(Vec<u8>, u32)>, id: u32)
    requires
        has_id(to_refresh(s, gather(s, events)), id),
    ensures
        (exists|i: int, path: Seq<u8>|
            0 <= i < events.len() && #[trigger] asks_to_list(s, events[i], path) && (s.resolve(
                path,
            ) matches Some((x, _)) && x == id)) || (id == 0 && exists|i: int|
            0 <= i < events.len() && #[trigger] distrusts(s, events[i]) && falls_to_root(
                s,
                events[i].0@,
            )),
{
    let g = gather(s, events);
    let list = resolved(s, g.wanted, false);
    if has_id(list, id) {
        lemma_resolved_has(s, g.wanted, false, id);
        let k = choose|k: int|
            0 <= k < g.wanted.len() && (s.resolve(#[trigger] g.wanted[k]) matches Some((x, _)) && x
                == id);
        let path = g.wanted[k];
        assert(g.wanted.contains(path));
        lemma_wanted(s, events, path);
        let i = choose|i: int| 0 <= i < events.len() && #[trigger] asks_to_list(s, events[i], path);
        assert(asks_to_list(s, events[i], path));
    } else {
        let all = to_refresh(s, g);
        let n = choose|n: int| 0 <= n < all.len() && (#[trigger] all[n]).0 == id;
        if n < list.len() {
            assert(list[n].0 == id);
        }
        assert(some_fall_to_root(s, g.rescan));
        let k = choose|k: int| 0 <= k < g.rescan.len() && falls_to_root(s, #[trigger] g.rescan[k]);
        let path = g.rescan[k];
        assert(g.rescan.contains(path));
        lemma_distrusted(s, events, path);
    }
}

/// An event asks for a subtree to be read anew where it says that events were dropped, or
/// that a volume came or went inside the watched tree; and for a rebuild where it says that
/// the root was changed or that event ids wrapped around. Ignored events ask for nothing.
pub proof fn law_what_dropped_events_ask_for(s: State, e: (Vec<u8>, u32))
    ensures
        s.ignored(e.0@) ==> !distrusts(s, e) && !voids_index(s, e) && !ordinary(s, e),
        !s.ignored(e.0@) && e.1 & 0x28 != 0 ==> voids_index(s, e) && !distrusts(s, e),
        !s.ignored(e.0@) && e.1 & 0x28 == 0 ==> !voids_index(s, e),
        !s.ignored(e.0@) && e.1 & 0x28 == 0 && e.1 & 0xc0 != 0 ==> (distrusts(s, e) <==> within(
            s.root,
            e.0@,
        )),
        !s.ignored(e.0@) && e.1 & 0xe8 == 0 ==> (distrusts(s, e) <==> e.1 & 0x7 != 0),
{
    let f = e.1;
    law_flags_are_these_bits(f);
    assert(f & 0xe8 == 0 <==> f & 0x28 == 0 && f & 0xc0 == 0) by (bit_vector);
    lemma_ordinary_bits(f);
}

/// A subtree that an event asks for is read anew: the nearest known directory, unless that is
/// the root; and nothing is read anew that no event asks for.
pub proof fn law_dropped_subtrees_are_read(s: State, events: Seq<(Vec<u8>, u32)>, id: u32)
    ensures
        has_id(resolved(s, gather(s, events).rescan, true), id) <==> id != 0 && exists|i: int|
            0 <= i < events.len() && #[trigger] distrusts(s, events[i]) && (s.resolve(
                events[i].0@,
            ) matches Some((x, _)) && x == id),
{
    let g = gather(s, events);
    lemma_resolved_has(s, g.rescan, true, id);
    if has_id(resolved(s, g.rescan, true), id) {
        let k = choose|k: int|
            0 <= k < g.rescan.len() && (s.resolve(#[trigger] g.rescan[k]) matches Some((x, _)) && x
                == id);
        let path = g.rescan[k];
        assert(g.rescan.contains(path));
        lemma_distrusted(s, events, path);
    }
    if id != 0 && exists|i: int|
        0 <= i < events.len() && #[trigger] distrusts(s, events[i]) && (s.resolve(
            events[i].0@,
        ) matches Some((x, _)) && x == id) {
        let i = choose|i: int|
            0 <= i < events.len() && #[trigger] distrusts(s, events[i]) && (s.resolve(
                events[i].0@,
            ) matches Some((x, _)) && x == id);
        let path = events[i].0@;
        lemma_distrusted(s, events, path);
        let k = choose|k: int| 0 <= k < g.rescan.len() && g.rescan[k] == path;
        assert(s.resolve(g.rescan[k]) == s.resolve(path));
    }
}

proof fn lemma_resolved_paths(s: State, paths: Seq<Seq<u8>>, but_root: bool, k: int)
    requires
        0 <= k < resolved(s, paths, but_root).len(),
    ensures
        exists|i: int|
            0 <= i < paths.len() && s.resolve(#[trigger] paths[i]) == Some(
                resolved(s, paths, but_root)[k],
            ),
    decreases paths.len(),
{
    let front = paths.drop_last();
    let last = paths.len() - 1;
    let list = resolved(s, front, but_root);
    let x = resolved(s, paths, but_root)[k];
    if k < list.len() {
        lemma_resolved_paths(s, front, but_root, k);
        assert(list[k] == x);
        let i = choose|i: int| 0 <= i < front.len() && s.resolve(#[trigger] front[i]) == Some(x);
        assert(paths[i] == front[i]);
    } else {
        assert(s.resolve(paths[last]) == Some(x));
    }
}

/// The path that a plan gives with a directory is where the directory was found.
pub proof fn law_work_is_named_by_path(s: State, g: Gathered, k: int)
    requires
        0 <= k,
    ensures
        k < resolved(s, g.rescan, true).len() ==> s.lookup(resolved(s, g.rescan, true)[k].1) == Some(
            resolved(s, g.rescan, true)[k].0,
        ),
        k < to_refresh(s, g).len() ==> to_refresh(s, g)[k] == (0u32, s.root) || s.lookup(
            to_refresh(s, g)[k].1,
        ) == Some(to_refresh(s, g)[k].0),
{
    if k < resolved(s, g.rescan, true).len() {
        lemma_resolved_paths(s, g.rescan, true, k);
        let i = choose|i: int|
            0 <= i < g.rescan.len() && s.resolve(#[trigger] g.rescan[i]) == Some(
                resolved(s, g.rescan, true)[k],
            );
        lemma_resolve_looks_up(s, g.rescan[i]);
    }
    let list = resolved(s, g.wanted, false);
    if k < list.len() {
        lemma_resolved_paths(s, g.wanted, false, k);
        let i = choose|i: int|
            0 <= i < g.wanted.len() && s.resolve(#[trigger] g.wanted[i]) == Some(list[k]);
        lemma_resolve_looks_up(s, g.wanted[i]);
        assert(to_refresh(s, g)[k] == list[k]);
    }
}

proof fn lemma_resolve_looks_up(s: State, path: Seq<u8>)
    ensures
        s.resolve(path) matches Some((id, p)) ==> s.lookup(p) == Some(id),
{
    lemma_ancestor_looks_up(s, path, crate::tree::MAX_ANCESTORS as nat);
}

proof fn lemma_ancestor_looks_up(s: State, path: Seq<u8>, steps: nat)
    ensures
        s.ancestor(path, steps) matches Some((id, p)) ==> s.lookup(p) == Some(id),
    decreases steps,
{
    if steps > 0 {
        if let Some(up) = parent_of(path) {
            if s.lookup(up) is None {
                lemma_ancestor_looks_up(s, up, (steps - 1) as nat);
            }
        }
    }
}

/// An event is ignored where its path begins with one of the paths to be ignored.
pub proof fn law_ignoring_is_by_prefix(s: State, path: Seq<u8>)
    ensures
        s.ignored(path) <==> exists|i: int, rest: Seq<u8>|
            0 <= i < s.ignores.len() && path == #[trigger] (s.ignores[i] + rest),
{
    if s.ignored(path) {
        let i = choose|i: int|
            0 <= i < s.ignores.len() && (#[trigger] s.ignores[i]).is_prefix_of(path);
        let x = s.ignores[i];
        let rest = path.skip(x.len() as int);
        assert(path.subrange(0, x.len() as int) == x);
        assert forall|k: int| 0 <= k < path.len() implies path[k] == (x + rest)[k] by {
            if k < x.len() {
                assert(path.subrange(0, x.len() as int)[k] == path[k]);
            }
        }
        assert(path =~= s.ignores[i] + rest);
    }
    if exists|i: int, rest: Seq<u8>|
        0 <= i < s.ignores.len() && path == #[trigger] (s.ignores[i] + rest) {
        let (i, rest) = choose|i: int, rest: Seq<u8>|
            0 <= i < s.ignores.len() && path == #[trigger] (s.ignores[i] + rest);
        let x = s.ignores[i];
        assert(path.subrange(0, x.len() as int) =~= x);
        assert(s.ignores[i].is_prefix_of(path));
    }
}

/// A plan says why: which events were dropped, and that the root or a volume changed.
pub proof fn law_plans_say_why(s: State, events: Seq<(Vec<u8>, u32)>, path: Seq<u8>)
    ensures
        ({
            let notes = gather(s, events).notes;
            &&& notes.contains(Remark::Dropped(path)) <==> exists|i: int|
                0 <= i < events.len() && #[trigger] events[i].0@ == path && !s.ignored(path)
                    && events[i].1 & 0xe8 == 0 && events[i].1 & 0x7 != 0
            &&& notes.contains(Remark::RootChanged) <==> exists|i: int|
                0 <= i < events.len() && !s.ignored((#[trigger] events[i]).0@) && events[i].1 & 0x28
                    != 0
            &&& notes.contains(Remark::MountInside) <==> exists|i: int|
                0 <= i < events.len() && !s.ignored((#[trigger] events[i]).0@) && events[i].1 & 0x28
                    == 0 && events[i].1 & 0xc0 != 0 && within(s.root, events[i].0@)
            &&& notes.contains(Remark::MountOutside) <==> exists|i: int|
                0 <= i < events.len() && !s.ignored((#[trigger] events[i]).0@) && events[i].1 & 0x28
                    == 0 && events[i].1 & 0xc0 != 0 && !within(s.root, events[i].0@)
        }),
{
    lemma_notes(s, events, Remark::Dropped(path));
    lemma_notes(s, events, Remark::RootChanged);
    lemma_notes(s, events, Remark::MountInside);
    lemma_notes(s, events, Remark::MountOutside);
}

/// What the event says, in a word.
spec fn says(s: State, e: (Vec<u8>, u32), r: Remark) -> bool {
    !s.ignored(e.0@) && match r {
        Remark::RootChanged => e.1 & 0x28 != 0,
        Remark::MountInside => e.1 & 0x28 == 0 && e.1 & 0xc0 != 0 && within(s.root, e.0@),
        Remark::MountOutside => e.1 & 0x28 == 0 && e.1 & 0xc0 != 0 && !within(s.root, e.0@),
        Remark::Dropped(path) => e.0@ == path && e.1 & 0xe8 == 0 && e.1 & 0x7 != 0,
    }
}

proof fn lemma_with_remark(list: Seq<Remark>, x: Remark, y: Remark)
    ensures
        with(list, x).contains(y) <==> list.contains(y) || y == x,
{
    if !list.contains(x) {
        let all = list.push(x);
        if list.contains(y) {
            let k = choose|k: int| 0 <= k < list.len() && list[k] == y;
            assert(all[k] == y);
        }
        assert(all[list.len() as int] == x);
        if all.contains(y) && y != x {
            let k = choose|k: int| 0 <= k < all.len() && all[k] == y;
            assert(list[k] == y);
        }
    }
}

#[verifier::rlimit(60)]
proof fn lemma_notes(s: State, events: Seq<(Vec<u8>, u32)>, r: Remark)
    ensures
        gather(s, events).notes.contains(r) <==> exists|i: int|
            0 <= i < events.len() && says(s, #[trigger] events[i], r),
    decreases events.len(),
{
    if events.len() > 0 {
        let front = events.drop_last();
        let last = events.len() - 1;
        let e = events[last];
        let f = e.1;
        let list = gather(s, front).notes;
        lemma_notes(s, front, r);
        law_flags_are_these_bits(f);
        assert(f & 0xe8 == 0 <==> f & 0x28 == 0 && f & 0xc0 == 0) by (bit_vector);
        lemma_with_remark(list, Remark::RootChanged, r);
        lemma_with_remark(list, Remark::MountInside, r);
        lemma_with_remark(list, Remark::MountOutside, r);
        lemma_with_remark(list, Remark::Dropped(e.0@), r);
        assert(gather(s, events).notes.contains(r) <==> list.contains(r) || says(s, e, r));
        if list.contains(r) {
            let i = choose|i: int| 0 <= i < front.len() && says(s, #[trigger] front[i], r);
            assert(says(s, events[i], r));
        }
        if exists|i: int| 0 <= i < events.len() && says(s, #[trigger] events[i], r) {
            let i = choose|i: int| 0 <= i < events.len() && says(s, #[trigger] events[i], r);
            if i < last {
                assert(says(s, front[i], r));
            }
        }
    }
}

/// Work is done in the order in which events first ask for it: later events add to the end.
pub proof fn law_later_events_come_later(s: State, events: Seq<(Vec<u8>, u32)>, e: (Vec<u8>, u32))
    ensures
        ({
            let (a, b) = (gather(s, events), gather(s, events.push(e)));
            &&& a.wanted.is_prefix_of(b.wanted)
            &&& a.rescan.is_prefix_of(b.rescan)
            &&& a.notes.is_prefix_of(b.notes)
            &&& resolved(s, a.rescan, true).is_prefix_of(resolved(s, b.rescan, true))
            &&& resolved(s, a.wanted, false).is_prefix_of(resolved(s, b.wanted, false))
        }),
{
    let (a, b) = (gather(s, events), gather(s, events.push(e)));
    assert(events.push(e).drop_last() =~= events);
    assert(b == gather_one(s, a, e.0@, e.1));
    assert(a.wanted.is_prefix_of(b.wanted));
    assert(a.rescan.is_prefix_of(b.rescan));
    assert(a.notes.is_prefix_of(b.notes));
    lemma_resolved_grows(s, a.rescan, b.rescan, true);
    lemma_resolved_grows(s, a.wanted, b.wanted, false);
}

proof fn lemma_resolved_grows(s: State, a: Seq<Seq<u8>>, b: Seq<Seq<u8>>, but_root: bool)
    requires
        a.is_prefix_of(b),
    ensures
        resolved(s, a, but_root).is_prefix_of(resolved(s, b, but_root)),
    decreases b.len(),
{
    if a.len() == b.len() {
        assert(a =~= b);
    } else {
        assert(a.is_prefix_of(b.drop_last()));
        lemma_resolved_grows(s, a, b.drop_last(), but_root);
    }
}

/// A plan lists again the directories that changes ask for, in the order in which they ask,
/// and the root last where only a subtree that is not known asks for it.
pub proof fn law_the_root_is_listed_last(s: State, g: Gathered)
    ensures
        resolved(s, g.wanted, false).is_prefix_of(to_refresh(s, g)),
        to_refresh(s, g).len() <= resolved(s, g.wanted, false).len() + 1,
{
}

} // verus!
