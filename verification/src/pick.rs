//! Selections: the ids, of a list or of a range, that satisfy a condition, in order.

use vstd::prelude::*;

verus! {

/// The ids of `ids` that satisfy `p`, in order.
pub open spec fn picked(ids: Seq<u32>, p: spec_fn(u32) -> bool) -> Seq<u32>
    decreases ids.len(),
{
    if ids.len() == 0 {
        Seq::empty()
    } else {
        let before = picked(ids.drop_last(), p);
        if p(ids.last()) {
            before.push(ids.last())
        } else {
            before
        }
    }
}

/// The numbers from `lo` to `hi` that satisfy `p`, in order.
pub open spec fn between(lo: int, hi: int, p: spec_fn(int) -> bool) -> Seq<u32>
    decreases hi - lo,
{
    if hi <= lo {
        Seq::empty()
    } else {
        let before = between(lo, hi - 1, p);
        if p(hi - 1) {
            before.push((hi - 1) as u32)
        } else {
            before
        }
    }
}

/// At most the first `n` of `s`.
pub open spec fn at_most<A>(s: Seq<A>, n: int) -> Seq<A> {
    if s.len() <= n {
        s
    } else {
        s.take(n)
    }
}

pub proof fn lemma_picked_concat(a: Seq<u32>, b: Seq<u32>, p: spec_fn(u32) -> bool)
    ensures
        picked(a + b, p) == picked(a, p) + picked(b, p),
    decreases b.len(),
{
    if b.len() == 0 {
        assert(a + b =~= a);
        assert(picked(a, p) + picked(b, p) =~= picked(a, p));
    } else {
        assert((a + b).drop_last() =~= a + b.drop_last());
        lemma_picked_concat(a, b.drop_last(), p);
        assert(picked(a + b, p) =~= picked(a, p) + picked(b, p));
    }
}

pub proof fn lemma_picked_none(ids: Seq<u32>, p: spec_fn(u32) -> bool)
    requires
        forall|i: int| 0 <= i < ids.len() ==> !p(#[trigger] ids[i]),
    ensures
        picked(ids, p) == Seq::<u32>::empty(),
    decreases ids.len(),
{
    if ids.len() > 0 {
        let front = ids.drop_last();
        assert forall|i: int| 0 <= i < front.len() implies !p(#[trigger] front[i]) by {
            assert(front[i] == ids[i]);
        }
        lemma_picked_none(front, p);
        assert(ids[ids.len() - 1] == ids.last());
    }
}

pub proof fn lemma_picked_all(ids: Seq<u32>, p: spec_fn(u32) -> bool)
    requires
        forall|i: int| 0 <= i < ids.len() ==> p(#[trigger] ids[i]),
    ensures
        picked(ids, p) == ids,
    decreases ids.len(),
{
    if ids.len() > 0 {
        let front = ids.drop_last();
        assert forall|i: int| 0 <= i < front.len() implies p(#[trigger] front[i]) by {
            assert(front[i] == ids[i]);
        }
        lemma_picked_all(front, p);
        assert(ids[ids.len() - 1] == ids.last());
    }
    assert(picked(ids, p) =~= ids);
}

/// What was picked stood in the list and satisfies the condition, and the other way
/// round.
pub proof fn lemma_picked_contains(ids: Seq<u32>, p: spec_fn(u32) -> bool)
    ensures
        forall|id: u32| #[trigger] picked(ids, p).contains(id) <==> ids.contains(id) && p(id),
        picked(ids, p).len() <= ids.len(),
    decreases ids.len(),
{
    if ids.len() > 0 {
        let front = ids.drop_last();
        lemma_picked_contains(front, p);
        assert forall|id: u32| #[trigger] picked(ids, p).contains(id) implies ids.contains(id)
            && p(id) by {
            let k = choose|k: int| 0 <= k < picked(ids, p).len() && picked(ids, p)[k] == id;
            if k < picked(front, p).len() {
                assert(picked(front, p)[k] == id);
                assert(picked(front, p).contains(id));
                let m = choose|m: int| 0 <= m < front.len() && front[m] == id;
                assert(ids[m] == id);
            } else {
                assert(ids[ids.len() - 1] == id);
            }
        }
        assert forall|id: u32| ids.contains(id) && p(id) implies #[trigger] picked(
            ids,
            p,
        ).contains(id) by {
            let m = choose|m: int| 0 <= m < ids.len() && ids[m] == id;
            if m < front.len() {
                assert(front[m] == id);
                assert(picked(front, p).contains(id));
                let k = choose|k: int| 0 <= k < picked(front, p).len() && picked(front, p)[k] == id;
                assert(picked(ids, p)[k] == id);
            } else {
                assert(picked(ids, p)[picked(front, p).len() as int] == id);
            }
        }
    }
}

/// Picking keeps a list free of duplicates.
pub proof fn lemma_picked_distinct(ids: Seq<u32>, p: spec_fn(u32) -> bool)
    requires
        ids.no_duplicates(),
    ensures
        picked(ids, p).no_duplicates(),
    decreases ids.len(),
{
    if ids.len() > 0 {
        let front = ids.drop_last();
        assert(front.no_duplicates()) by {
            assert forall|i: int, j: int| 0 <= i < front.len() && 0 <= j < front.len() && i
                != j implies front[i] != front[j] by {
                assert(ids[i] != ids[j]);
            }
        }
        lemma_picked_distinct(front, p);
        lemma_picked_contains(front, p);
        let before = picked(front, p);
        if before.contains(ids.last()) {
            let m = choose|m: int| 0 <= m < front.len() && front[m] == ids.last();
            assert(ids[m] != ids[ids.len() - 1]);
        }
        assert forall|i: int, j: int| 0 <= i < picked(ids, p).len() && 0 <= j < picked(ids, p).len()
            && i != j implies picked(ids, p)[i] != picked(ids, p)[j] by {
            if i < before.len() {
                assert(before.contains(before[i]));
            }
            if j < before.len() {
                assert(before.contains(before[j]));
            }
        }
    }
}

pub proof fn lemma_between_same(lo: int, hi: int, p: spec_fn(int) -> bool, q: spec_fn(int) -> bool)
    requires
        forall|i: int| lo <= i < hi ==> #[trigger] p(i) == q(i),
    ensures
        between(lo, hi, p) == between(lo, hi, q),
    decreases hi - lo,
{
    if lo < hi {
        lemma_between_same(lo, hi - 1, p, q);
        assert(p(hi - 1) == q(hi - 1));
    }
}

pub proof fn lemma_between_split(lo: int, mid: int, hi: int, p: spec_fn(int) -> bool)
    requires
        lo <= mid <= hi,
    ensures
        between(lo, hi, p) == between(lo, mid, p) + between(mid, hi, p),
    decreases hi - mid,
{
    if mid < hi {
        lemma_between_split(lo, mid, hi - 1, p);
        assert(between(lo, hi, p) =~= between(lo, mid, p) + between(mid, hi, p));
    } else {
        assert(between(lo, mid, p) + between(mid, hi, p) =~= between(lo, mid, p));
    }
}

pub proof fn lemma_between_len(lo: int, hi: int, p: spec_fn(int) -> bool)
    requires
        lo <= hi,
    ensures
        between(lo, hi, p).len() <= hi - lo,
    decreases hi - lo,
{
    if lo < hi {
        lemma_between_len(lo, hi - 1, p);
    }
}

/// What was selected lies in the range and satisfies the condition, and the other way
/// round.
pub proof fn lemma_between_contains(lo: int, hi: int, p: spec_fn(int) -> bool)
    requires
        0 <= lo,
        hi <= u32::MAX,
    ensures
        forall|id: u32| #[trigger] between(lo, hi, p).contains(id) <==> lo <= id < hi && p(id as int),
    decreases hi - lo,
{
    if lo < hi {
        lemma_between_contains(lo, hi - 1, p);
        let before = between(lo, hi - 1, p);
        let all = between(lo, hi, p);
        assert forall|id: u32| #[trigger] all.contains(id) <==> lo <= id < hi && p(id as int) by {
            if all.contains(id) {
                let k = choose|k: int| 0 <= k < all.len() && all[k] == id;
                if k < before.len() {
                    assert(before[k] == id);
                    assert(before.contains(id));
                }
            }
            if lo <= id < hi && p(id as int) {
                if id == hi - 1 {
                    assert(all[before.len() as int] == id);
                } else {
                    assert(before.contains(id));
                    let k = choose|k: int| 0 <= k < before.len() && before[k] == id;
                    assert(all[k] == id);
                }
            }
        }
    }
}

/// Picking from what was picked.
pub proof fn lemma_picked_twice(
    ids: Seq<u32>,
    p: spec_fn(u32) -> bool,
    q: spec_fn(u32) -> bool,
    both: spec_fn(u32) -> bool,
)
    requires
        forall|i: int| 0 <= i < ids.len() ==> both(#[trigger] ids[i]) == (p(ids[i]) && q(ids[i])),
    ensures
        picked(picked(ids, p), q) == picked(ids, both),
    decreases ids.len(),
{
    if ids.len() > 0 {
        let front = ids.drop_last();
        assert forall|i: int| 0 <= i < front.len() implies both(#[trigger] front[i]) == (p(front[i])
            && q(front[i])) by {
            assert(front[i] == ids[i]);
        }
        lemma_picked_twice(front, p, q, both);
        assert(ids[ids.len() - 1] == ids.last());
        if p(ids.last()) {
            let before = picked(front, p);
            assert(before.push(ids.last()).drop_last() =~= before);
        }
    }
}

/// Picking from what was selected.
pub proof fn lemma_between_picked(
    lo: int,
    hi: int,
    p: spec_fn(int) -> bool,
    q: spec_fn(u32) -> bool,
    both: spec_fn(int) -> bool,
)
    requires
        0 <= lo,
        hi <= u32::MAX,
        forall|i: int| lo <= i < hi ==> #[trigger] both(i) == (p(i) && q(i as u32)),
    ensures
        picked(between(lo, hi, p), q) == between(lo, hi, both),
    decreases hi - lo,
{
    if lo < hi {
        lemma_between_picked(lo, hi - 1, p, q, both);
        assert(both(hi - 1) == (p(hi - 1) && q((hi - 1) as u32)));
        if p(hi - 1) {
            let before = between(lo, hi - 1, p);
            assert(before.push((hi - 1) as u32).drop_last() =~= before);
        }
    }
}

/// What was selected rises.
pub proof fn lemma_between_rises(lo: int, hi: int, p: spec_fn(int) -> bool)
    requires
        0 <= lo,
        hi <= u32::MAX,
    ensures
        forall|i: int, j: int|
            0 <= i < j < between(lo, hi, p).len() ==> (#[trigger] between(lo, hi, p)[i]) < (
            #[trigger] between(lo, hi, p)[j]),
    decreases hi - lo,
{
    if lo < hi {
        lemma_between_rises(lo, hi - 1, p);
        lemma_between_contains(lo, hi - 1, p);
        let front = between(lo, hi - 1, p);
        let all = between(lo, hi, p);
        assert forall|i: int, j: int| 0 <= i < j < all.len() implies (#[trigger] all[i]) < (
        #[trigger] all[j]) by {
            assert(all[i] == front[i]);
            assert(front.contains(front[i]));
            if j < front.len() {
                assert(all[j] == front[j]);
            }
        }
    }
}

} // verus!
