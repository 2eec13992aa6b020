//! Taking over what was read for one batch of events.
//!
//! A batch is worked off on a copy of the index, so that queries go on with the old state
//! until the new one is complete. First the subtrees that could not be trusted are put in
//! place, then the directories that were listed are compared. New subdirectories that come
//! to light are returned; the caller reads them and puts them in place.

use vstd::prelude::*;

use crate::live::Live;
use crate::scan::DirEntry;
#[allow(unused_imports)]
use crate::scan::{listing, listing_of, names_len, Listed};
use crate::text::{copy, join_path};
#[allow(unused_imports)]
use crate::plan::{pairs, strings};
#[allow(unused_imports)]
use crate::text::join;
#[allow(unused_imports)]
use crate::tree::State;
use crate::update::Subtree;
#[allow(unused_imports)]
use crate::update::{dir_bytes, dirs_of, file_bytes, files_of};

verus! {

/// A directory that was listed: its id, its path, and its entries, `None` where it is no
/// longer there.
pub type Refresh = (u32, Vec<u8>, Option<Vec<DirEntry>>);

/// After the subtrees have been put in place, one after the other.
pub open spec fn after_trees(s: State, trees: Seq<(u32, Subtree)>) -> State
    decreases trees.len(),
{
    if trees.len() == 0 {
        s
    } else {
        let (id, t) = trees.last();
        after_trees(s, trees.drop_last()).rescan(id, dirs_of(t), files_of(t))
    }
}

/// After the directories have been compared, one after the other.
pub open spec fn after_listings(s: State, ls: Seq<Refresh>) -> State
    decreases ls.len(),
{
    if ls.len() == 0 {
        s
    } else {
        after_listings(s, ls.drop_last()).applied(ls.last().0, listing_of(ls.last().2))
    }
}

/// The new subdirectories of one directory: id of the directory, and path.
pub open spec fn found_in(s: State, l: Refresh) -> Seq<(u32, Seq<u8>)> {
    match listing_of(l.2) {
        Some(es) => s.new_dirs(l.0, es, es.len() as int).map_values(
            |name: Seq<u8>| (l.0, join(l.1@, name)),
        ),
        None => Seq::empty(),
    }
}

/// The new subdirectories that come to light.
pub open spec fn to_read(s: State, ls: Seq<Refresh>) -> Seq<(u32, Seq<u8>)>
    decreases ls.len(),
{
    if ls.len() == 0 {
        Seq::empty()
    } else {
        let front = ls.drop_last();
        to_read(s, front) + found_in(after_listings(s, front), ls.last())
    }
}

/// How much room something takes.
pub ghost struct Need {
    pub dirs: int,
    pub files: int,
    pub dir_bytes: int,
    pub file_bytes: int,
}

impl Need {
    pub open spec fn plus(self, n: Need) -> Need {
        Need {
            dirs: self.dirs + n.dirs,
            files: self.files + n.files,
            dir_bytes: self.dir_bytes + n.dir_bytes,
            file_bytes: self.file_bytes + n.file_bytes,
        }
    }
}

/// The room that a subtree takes.
pub open spec fn tree_need(t: Subtree) -> Need {
    Need {
        dirs: t.dirs@.len() as int,
        files: t.files@.len() as int,
        dir_bytes: dir_bytes(dirs_of(t)) as int,
        file_bytes: file_bytes(files_of(t)) as int,
    }
}

/// The room that a listing may take.
pub open spec fn listing_need(entries: Option<Vec<DirEntry>>) -> Need {
    match listing_of(entries) {
        Some(es) => Need {
            dirs: 0,
            files: es.len() as int,
            dir_bytes: 0,
            file_bytes: names_len(es) as int,
        },
        None => Need { dirs: 0, files: 0, dir_bytes: 0, file_bytes: 0 },
    }
}

/// The room that subtrees take.
pub open spec fn trees_need(trees: Seq<(u32, Subtree)>) -> Need
    decreases trees.len(),
{
    if trees.len() == 0 {
        Need { dirs: 0, files: 0, dir_bytes: 0, file_bytes: 0 }
    } else {
        trees_need(trees.drop_last()).plus(tree_need(trees.last().1))
    }
}

/// The room that listings may take.
pub open spec fn listings_need(ls: Seq<Refresh>) -> Need
    decreases ls.len(),
{
    if ls.len() == 0 {
        Need { dirs: 0, files: 0, dir_bytes: 0, file_bytes: 0 }
    } else {
        listings_need(ls.drop_last()).plus(listing_need(ls.last().2))
    }
}

impl Live {
    /// There is so much room.
    pub open spec fn room_of(&self, n: Need) -> bool {
        self.room(n.dirs, n.files, n.dir_bytes, n.file_bytes)
    }

    /// There is room for a whole batch.
    pub open spec fn room_for_batch(&self, trees: Seq<(u32, Subtree)>, ls: Seq<Refresh>) -> bool {
        self.room_of(trees_need(trees).plus(listings_need(ls)))
    }
}

/// `n` takes no more room than `m`.
spec fn within(n: Need, m: Need) -> bool {
    n.dirs <= m.dirs && n.files <= m.files && n.dir_bytes <= m.dir_bytes && n.file_bytes
        <= m.file_bytes
}

proof fn lemma_trees_need(trees: Seq<(u32, Subtree)>, k: int)
    requires
        0 <= k <= trees.len(),
    ensures
        within(trees_need(trees.take(k)), trees_need(trees)),
        0 <= trees_need(trees.take(k)).dirs,
        0 <= trees_need(trees.take(k)).files,
        0 <= trees_need(trees.take(k)).dir_bytes,
        0 <= trees_need(trees.take(k)).file_bytes,
    decreases trees.len() - k,
{
    if k < trees.len() {
        lemma_trees_need(trees, k + 1);
        assert(trees.take(k + 1).drop_last() =~= trees.take(k));
    } else {
        assert(trees.take(k) =~= trees);
    }
    lemma_trees_need_positive(trees.take(k));
}

proof fn lemma_trees_need_positive(trees: Seq<(u32, Subtree)>)
    ensures
        0 <= trees_need(trees).dirs,
        0 <= trees_need(trees).files,
        0 <= trees_need(trees).dir_bytes,
        0 <= trees_need(trees).file_bytes,
    decreases trees.len(),
{
    if trees.len() > 0 {
        lemma_trees_need_positive(trees.drop_last());
    }
}

proof fn lemma_listings_need(ls: Seq<Refresh>, k: int)
    requires
        0 <= k <= ls.len(),
    ensures
        within(listings_need(ls.take(k)), listings_need(ls)),
    decreases ls.len() - k,
{
    if k < ls.len() {
        lemma_listings_need(ls, k + 1);
        assert(ls.take(k + 1).drop_last() =~= ls.take(k));
    } else {
        assert(ls.take(k) =~= ls);
    }
}

/// What is left of the room of `before` when `used` has been taken.
spec fn leaves(before: Live, used: Need, now: Live) -> bool {
    forall|d: int, f: int, db: int, fb: int|
        before.room(d + used.dirs, f + used.files, db + used.dir_bytes, fb + used.file_bytes)
            ==> #[trigger] now.room(d, f, db, fb)
}

impl Live {
    /// A copy of the index on which one batch has been worked off: the subtrees `trees`
    /// have been put in place and the directories `listings` compared. With it come the
    /// new subdirectories that are to be read: id of the directory, and path.
    ///
    /// `None` where there is not enough room.
    #[verifier::rlimit(60)]
    pub fn updated(&self, trees: &Vec<(u32, Subtree)>, listings: Vec<Refresh>) -> (r: Option<
        (Live, Vec<(u32, Vec<u8>)>),
    >)
        requires
            self.wf(),
            forall|k: int| 0 <= k < trees@.len() ==> (#[trigger] trees@[k]).0 < self@.dirs.len(),
            forall|k: int|
                0 <= k < listings@.len() ==> (#[trigger] listings@[k]).0 < self@.dirs.len(),
        ensures
            match r {
                Some((next, pending)) => {
                    let mid = after_trees(self@, trees@);
                    &&& next.wf()
                    &&& next.contents() == self.contents()
                    &&& next@ == after_listings(mid, listings@)
                    &&& pairs(pending@) == to_read(mid, listings@)
                },
                None => !self.room_for_batch(trees@, listings@),
            },
    {
        let ghost all = listings@;
        let ghost total = trees_need(trees@).plus(listings_need(all));
        let mut next = self.clone();
        assert(trees@.take(0) =~= Seq::empty());
        assert(leaves(*self, trees_need(trees@.take(0)), next)) by {
            assert forall|d: int, f: int, db: int, fb: int|
                self.room(d, f, db, fb) implies #[trigger] next.room(d, f, db, fb) by {
                self.lemma_room_same(&next, d, f, db, fb);
            }
        }
        for k in 0..trees.len()
            invariant
                next.wf(),
                next.contents() == self.contents(),
                next@.dirs.len() >= self@.dirs.len(),
                forall|k: int|
                    0 <= k < trees@.len() ==> (#[trigger] trees@[k]).0 < self@.dirs.len(),
                total == trees_need(trees@).plus(listings_need(all)),
                all == listings@,
                next@ == after_trees(self@, trees@.take(k as int)),
                leaves(*self, trees_need(trees@.take(k as int)), next),
        {
            let (id, tree) = &trees[k];
            proof {
                assert(trees@[k as int].0 < self@.dirs.len());
                assert(trees@.take(k + 1).drop_last() =~= trees@.take(k as int));
                assert(trees@.take(k + 1).last() == trees@[k as int]);
                lemma_trees_need(trees@, k + 1);
                assert(all.take(0) =~= Seq::empty());
                lemma_listings_need(all, 0);
            }
            if !next.has_room_for_tree(tree) {
                proof {
                    let used = trees_need(trees@.take(k as int));
                    let need = tree_need(*tree);
                    if self.room_for_batch(trees@, all) {
                        self.lemma_room(
                            total.dirs,
                            total.files,
                            total.dir_bytes,
                            total.file_bytes,
                            need.dirs + used.dirs,
                            need.files + used.files,
                            need.dir_bytes + used.dir_bytes,
                            need.file_bytes + used.file_bytes,
                        );
                        assert(next.room(need.dirs, need.files, need.dir_bytes, need.file_bytes));
                    }
                }
                return None;
            }
            let ghost prev = next;
            next.rescan_subtree(*id, tree);
            proof {
                let used = trees_need(trees@.take(k as int));
                let used2 = trees_need(trees@.take(k + 1));
                let need = tree_need(*tree);
                assert forall|d: int, f: int, db: int, fb: int|
                    self.room(
                        d + used2.dirs,
                        f + used2.files,
                        db + used2.dir_bytes,
                        fb + used2.file_bytes,
                    ) implies #[trigger] next.room(d, f, db, fb) by {
                    assert(self.room(
                        (d + need.dirs) + used.dirs,
                        (f + need.files) + used.files,
                        (db + need.dir_bytes) + used.dir_bytes,
                        (fb + need.file_bytes) + used.file_bytes,
                    ));
                    assert(prev.room(
                        d + need.dirs,
                        f + need.files,
                        db + need.dir_bytes,
                        fb + need.file_bytes,
                    ));
                }
            }
        }
        assert(trees@.take(trees@.len() as int) =~= trees@);
        let ghost mid = next@;
        let ghost base = trees_need(trees@);
        let mut pending: Vec<(u32, Vec<u8>)> = Vec::new();
        let mut rest = listings;
        let n = rest.len();
        proof {
            assert(all.take(0) =~= Seq::empty());
            assert(all.skip(0) =~= all);
            assert(pairs(pending@) =~= Seq::empty());
            lemma_trees_need_positive(trees@);
        }
        for k in 0..n
            invariant
                next.wf(),
                next.contents() == self.contents(),
                next@.dirs == mid.dirs,
                mid.dirs.len() >= self@.dirs.len(),
                n == all.len(),
                forall|k: int|
                    0 <= k < all.len() ==> (#[trigger] all[k]).0 < self@.dirs.len(),
                base == trees_need(trees@),
                total == base.plus(listings_need(all)),
                all == listings@,
                rest@ == all.skip(k as int),
                next@ == after_listings(mid, all.take(k as int)),
                pairs(pending@) == to_read(mid, all.take(k as int)),
                leaves(*self, base.plus(listings_need(all.take(k as int))), next),
        {
            let l = rest.remove(0);
            proof {
                assert(l == all[k as int]);
                assert(rest@ =~= all.skip(k + 1));
                assert(all.take(k + 1).drop_last() =~= all.take(k as int));
                assert(all.take(k + 1).last() == l);
                lemma_listings_need(all, k + 1);
            }
            let ghost used = base.plus(listings_need(all.take(k as int)));
            let ghost used2 = base.plus(listings_need(all.take(k + 1)));
            let ghost need = listing_need(l.2);
            let (id, path, entries) = l;
            let fits = match &entries {
                Some(es) => next.has_room_for_listing(es),
                None => true,
            };
            if !fits {
                proof {
                    if self.room_for_batch(trees@, all) {
                        self.lemma_room(
                            total.dirs,
                            total.files,
                            total.dir_bytes,
                            total.file_bytes,
                            need.dirs + used.dirs,
                            need.files + used.files,
                            need.dir_bytes + used.dir_bytes,
                            need.file_bytes + used.file_bytes,
                        );
                        assert(next.room(need.dirs, need.files, need.dir_bytes, need.file_bytes));
                    }
                }
                return None;
            }
            let ghost prev = next;
            let names = next.apply_listing(id, entries);
            proof {
                assert forall|d: int, f: int, db: int, fb: int|
                    self.room(
                        d + used2.dirs,
                        f + used2.files,
                        db + used2.dir_bytes,
                        fb + used2.file_bytes,
                    ) implies #[trigger] next.room(d, f, db, fb) by {
                    assert(self.room(
                        (d + need.dirs) + used.dirs,
                        (f + need.files) + used.files,
                        (db + need.dir_bytes) + used.dir_bytes,
                        (fb + need.file_bytes) + used.file_bytes,
                    ));
                    assert(prev.room(
                        d + need.dirs,
                        f + need.files,
                        db + need.dir_bytes,
                        fb + need.file_bytes,
                    ));
                }
            }
            let ghost before = pairs(pending@);
            let ghost found = found_in(prev@, l);
            proof {
                assert(strings(names@).map_values(|name: Seq<u8>| (l.0, join(l.1@, name)))
                    =~= found);
                assert(before + found.take(0) =~= before);
            }
            for j in 0..names.len()
                invariant
                    found.len() == names@.len(),
                    forall|i: int|
                        0 <= i < names@.len() ==> #[trigger] found[i] == (id, join(path@, names@[i]@)),
                    pairs(pending@) == before + found.take(j as int),
            {
                let ghost old_pending = pending@;
                let p = join_path(path.as_slice(), names[j].as_slice());
                pending.push((id, p));
                assert(pairs(pending@) =~= pairs(old_pending).push((id, p@)));
                assert(pairs(pending@) =~= before + found.take(j + 1));
            }
            assert(found.take(found.len() as int) =~= found);
        }
        assert(all.take(all.len() as int) =~= all);
        Some((next, pending))
    }
}

/// A batch needs room for what its subtrees hold and for what its listings list, and for no
/// more.
pub proof fn law_what_a_batch_needs(
    live: Live,
    trees: Seq<(u32, Subtree)>,
    tree: (u32, Subtree),
    ls: Seq<Refresh>,
    l: Refresh,
)
    ensures
        ({
            let (a, b) = (trees_need(trees), trees_need(trees.push(tree)));
            &&& b.dirs == a.dirs + tree.1.dirs@.len()
            &&& b.files == a.files + tree.1.files@.len()
            &&& b.dir_bytes == a.dir_bytes + dir_bytes(dirs_of(tree.1))
            &&& b.file_bytes == a.file_bytes + file_bytes(files_of(tree.1))
        }),
        ({
            let (a, b) = (listings_need(ls), listings_need(ls.push(l)));
            &&& b.dirs == a.dirs && b.dir_bytes == a.dir_bytes
            &&& l.2 is None ==> b.files == a.files && b.file_bytes == a.file_bytes
            &&& listing_of(l.2) matches Some(es) ==> b.files == a.files + es.len() && b.file_bytes
                == a.file_bytes + names_len(es)
        }),
        live.room_for_batch(trees, ls) <==> live.room(
            trees_need(trees).dirs + listings_need(ls).dirs,
            trees_need(trees).files + listings_need(ls).files,
            trees_need(trees).dir_bytes + listings_need(ls).dir_bytes,
            trees_need(trees).file_bytes + listings_need(ls).file_bytes,
        ),
        live.room_for_batch(Seq::empty(), Seq::empty()) <==> live.room(0, 0, 0, 0),
{
    assert(trees.push(tree).drop_last() =~= trees);
    assert(ls.push(l).drop_last() =~= ls);
}

/// Names are counted by their bytes.
pub proof fn law_names_are_counted_by_bytes(
    dirs: Seq<(u32, Seq<u8>)>,
    files: Seq<(u32, Seq<u8>, bool)>,
    es: Seq<Listed>,
    e: Listed,
)
    ensures
        dir_bytes(Seq::empty()) == 0,
        file_bytes(Seq::empty()) == 0,
        names_len(Seq::empty()) == 0,
        dir_bytes(dirs.push((0, e.name))) == dir_bytes(dirs) + e.name.len(),
        file_bytes(files.push((0, e.name, e.is_link))) == file_bytes(files) + e.name.len(),
        names_len(es.push(e)) == names_len(es) + e.name.len(),
{
    assert(dirs.push((0, e.name)).drop_last() =~= dirs);
    assert(files.push((0, e.name, e.is_link)).drop_last() =~= files);
    assert(es.push(e).drop_last() =~= es);
}

} // verus!
