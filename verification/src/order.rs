//! Stable ordering of positions by key.
//!
//! Both tables of an index are looked up by parent, so both are laid out in the
//! order of their parents. Entries of one parent stay in the order in which they
//! came.

use vstd::prelude::*;

verus! {

/// Position `a` comes before position `b`: by key, and where the keys are equal by
/// position.
pub open spec fn before(keys: Seq<u32>, a: int, b: int) -> bool {
    keys[a] < keys[b] || (keys[a] == keys[b] && a < b)
}

/// `order` lists every position of `keys` once, each before the next.
pub open spec fn is_stable_order(keys: Seq<u32>, order: Seq<u32>) -> bool {
    &&& order.len() == keys.len()
    &&& forall|i: int| 0 <= i < order.len() ==> (#[trigger] order[i]) < keys.len()
    &&& forall|i: int, j: int|
        0 <= i < j < order.len() ==> before(keys, #[trigger] order[i] as int, #[trigger] order[j] as int)
    &&& forall|k: u32| k < keys.len() ==> #[trigger] order.contains(k)
}

/// The positions of `keys` in stable order.
pub open spec fn stable_order(keys: Seq<u32>) -> Seq<u32> {
    choose|order: Seq<u32>| is_stable_order(keys, order)
}

/// There is but one stable order.
pub proof fn law_stable_order_is_unique(keys: Seq<u32>, a: Seq<u32>, b: Seq<u32>)
    requires
        is_stable_order(keys, a),
        is_stable_order(keys, b),
    ensures
        a == b,
{
    assert forall|i: int| 0 <= i < a.len() implies a[i] == b[i] by {
        lemma_same_at(keys, a, b, i);
    }
    assert(a =~= b);
}

proof fn lemma_same_at(keys: Seq<u32>, a: Seq<u32>, b: Seq<u32>, i: int)
    requires
        is_stable_order(keys, a),
        is_stable_order(keys, b),
        0 <= i < a.len(),
    ensures
        a[i] == b[i],
    decreases i,
{
    assert forall|j: int| 0 <= j < i implies a[j] == b[j] by {
        lemma_same_at(keys, a, b, j);
    }
    assert(b.contains(a[i]));
    assert(a.contains(b[i]));
    let p = choose|p: int| 0 <= p < b.len() && b[p] == a[i];
    let q = choose|q: int| 0 <= q < a.len() && a[q] == b[i];
    if p < i {
        assert(a[p] == a[i]);
        assert(before(keys, a[p] as int, a[i] as int));
    }
    if q < i {
        assert(b[q] == b[i]);
        assert(before(keys, b[q] as int, b[i] as int));
    }
}

/// In stable order the keys never fall.
pub proof fn lemma_keys_ascend(keys: Seq<u32>, order: Seq<u32>, i: int, j: int)
    requires
        is_stable_order(keys, order),
        0 <= i <= j < order.len(),
    ensures
        keys[order[i] as int] <= keys[order[j] as int],
{
    if i < j {
        assert(before(keys, order[i] as int, order[j] as int));
    }
}

/// Where the keys above `bound` begin.
proof fn lemma_cut(keys: Seq<u32>, order: Seq<u32>, bound: u32, m: int) -> (p: int)
    requires
        is_stable_order(keys, order),
        0 <= m <= order.len(),
    ensures
        0 <= p <= m,
        forall|i: int| 0 <= i < p ==> keys[#[trigger] order[i] as int] <= bound,
        forall|i: int| p <= i < m ==> keys[#[trigger] order[i] as int] > bound,
    decreases m,
{
    if m == 0 {
        0
    } else {
        let p = lemma_cut(keys, order, bound, m - 1);
        if keys[order[m - 1] as int] <= bound {
            if p < m - 1 {
                lemma_keys_ascend(keys, order, p, m - 1);
            }
            m
        } else {
            p
        }
    }
}

proof fn lemma_insert(keys: Seq<u32>, f: Seq<u32>, p: int)
    requires
        0 < keys.len() <= u32::MAX,
        is_stable_order(keys.drop_last(), f),
        0 <= p <= f.len(),
        forall|i: int| 0 <= i < p ==> keys.drop_last()[#[trigger] f[i] as int] <= keys.last(),
        forall|i: int| p <= i < f.len() ==> keys.drop_last()[#[trigger] f[i] as int] > keys.last(),
    ensures
        is_stable_order(keys, f.insert(p, (keys.len() - 1) as u32)),
{
    let front = keys.drop_last();
    let n = front.len() as int;
    let order = f.insert(p, n as u32);
    assert forall|i: int| 0 <= i < n implies front[i] == #[trigger] keys[i] by {}
    assert forall|i: int| 0 <= i < order.len() implies order[i] == if i < p {
        f[i]
    } else if i == p {
        n as u32
    } else {
        f[i - 1]
    } by {}
    assert forall|i: int, j: int| 0 <= i < j < order.len() implies before(
        keys,
        #[trigger] order[i] as int,
        #[trigger] order[j] as int,
    ) by {
        let a = if i < p {
            i
        } else {
            i - 1
        };
        let b = if j < p {
            j
        } else {
            j - 1
        };
        if i != p && j != p {
            assert(before(front, f[a] as int, f[b] as int));
        }
    }
    assert forall|k: u32| k < keys.len() implies #[trigger] order.contains(k) by {
        if k == n {
            assert(order[p] == k);
        } else {
            assert(f.contains(k));
            let x = choose|x: int| 0 <= x < f.len() && f[x] == k;
            assert(order[if x < p {
                x
            } else {
                x + 1
            }] == k);
        }
    }
}

proof fn lemma_insertion(keys: Seq<u32>) -> (order: Seq<u32>)
    requires
        keys.len() <= u32::MAX,
    ensures
        is_stable_order(keys, order),
    decreases keys.len(),
{
    if keys.len() == 0 {
        Seq::empty()
    } else {
        let front = keys.drop_last();
        let f = lemma_insertion(front);
        let p = lemma_cut(front, f, keys.last(), front.len() as int);
        lemma_insert(keys, f, p);
        f.insert(p, front.len() as u32)
    }
}

/// The order of one key more is the order of the others, with the new position put in.
pub proof fn lemma_stable_order_step(keys: Seq<u32>) -> (p: int)
    requires
        0 < keys.len() <= u32::MAX,
    ensures
        0 <= p <= keys.len() - 1,
        stable_order(keys.drop_last()).len() == keys.len() - 1,
        stable_order(keys) == stable_order(keys.drop_last()).insert(p, (keys.len() - 1) as u32),
{
    let front = keys.drop_last();
    law_stable_order_exists(front);
    law_stable_order_exists(keys);
    let f = stable_order(front);
    let p = lemma_cut(front, f, keys.last(), front.len() as int);
    lemma_insert(keys, f, p);
    law_stable_order_is_unique(keys, stable_order(keys), f.insert(p, front.len() as u32));
    p
}

/// There is a stable order.
pub proof fn law_stable_order_exists(keys: Seq<u32>)
    requires
        keys.len() <= u32::MAX,
    ensures
        is_stable_order(keys, stable_order(keys)),
{
    let order = lemma_insertion(keys);
    assert(is_stable_order(keys, order));
}

/// `order` lists the positions from `lo` to `hi` once each, each before the next.
spec fn sorts(keys: Seq<u32>, order: Seq<u32>, lo: int, hi: int) -> bool {
    &&& order.len() == hi - lo
    &&& forall|i: int| 0 <= i < order.len() ==> lo <= #[trigger] order[i] < hi
    &&& forall|i: int, j: int|
        0 <= i < j < order.len() ==> before(keys, #[trigger] order[i] as int, #[trigger] order[j] as int)
    &&& forall|k: u32| lo <= k < hi ==> #[trigger] order.contains(k)
}

/// Merges two ordered runs that lie side by side.
#[verifier::rlimit(60)]
fn merge_runs(
    keys: &[u32],
    a: &Vec<u32>,
    b: &Vec<u32>,
    Ghost(lo): Ghost<int>,
    Ghost(mid): Ghost<int>,
    Ghost(hi): Ghost<int>,
) -> (r: Vec<u32>)
    requires
        0 <= lo <= mid <= hi <= keys@.len(),
        sorts(keys@, a@, lo, mid),
        sorts(keys@, b@, mid, hi),
        hi - lo <= u32::MAX,
    ensures
        sorts(keys@, r@, lo, hi),
{
    let mut out: Vec<u32> = Vec::with_capacity(a.len());
    let mut i: usize = 0;
    let mut j: usize = 0;
    while i < a.len() || j < b.len()
        invariant
            0 <= lo <= mid <= hi <= keys@.len(),
            sorts(keys@, a@, lo, mid),
            sorts(keys@, b@, mid, hi),
            i <= a@.len(),
            j <= b@.len(),
            out@.len() == i + j,
            forall|x: int| 0 <= x < out@.len() ==> lo <= #[trigger] out@[x] < hi,
            forall|x: int, y: int|
                0 <= x < y < out@.len() ==> before(
                    keys@,
                    #[trigger] out@[x] as int,
                    #[trigger] out@[y] as int,
                ),
            forall|x: int, y: int|
                0 <= x < out@.len() && i <= y < a@.len() ==> before(
                    keys@,
                    #[trigger] out@[x] as int,
                    #[trigger] a@[y] as int,
                ),
            forall|x: int, y: int|
                0 <= x < out@.len() && j <= y < b@.len() ==> before(
                    keys@,
                    #[trigger] out@[x] as int,
                    #[trigger] b@[y] as int,
                ),
            forall|x: int| 0 <= x < i ==> out@.contains(#[trigger] a@[x]),
            forall|x: int| 0 <= x < j ==> out@.contains(#[trigger] b@[x]),
        decreases a@.len() - i + b@.len() - j,
    {
        let ghost old_out = out@;
        let from_a = j >= b.len() || (i < a.len() && keys[a[i] as usize] <= keys[b[j] as usize]);
        let next = if from_a {
            a[i]
        } else {
            b[j]
        };
        out.push(next);
        proof {
            assert(out@[old_out.len() as int] == next);
            assert(out@.contains(next));
            assert forall|v: u32| old_out.contains(v) implies out@.contains(v) by {
                let x = choose|x: int| 0 <= x < old_out.len() && old_out[x] == v;
                assert(out@[x] == v);
            }
        }
        if from_a {
            i += 1;
        } else {
            j += 1;
        }
    }
    proof {
        assert forall|k: u32| lo <= k < hi implies #[trigger] out@.contains(k) by {
            if k < mid {
                assert(a@.contains(k));
            } else {
                assert(b@.contains(k));
            }
        }
    }
    out
}

fn sort_range(keys: &[u32], lo: usize, hi: usize) -> (r: Vec<u32>)
    requires
        lo <= hi <= keys@.len(),
        keys@.len() <= u32::MAX,
    ensures
        sorts(keys@, r@, lo as int, hi as int),
    decreases hi - lo,
{
    let mut out: Vec<u32> = Vec::new();
    if hi - lo == 0 {
        return out;
    }
    if hi - lo == 1 {
        out.push(lo as u32);
        assert(out@[0] == lo);
        return out;
    }
    let mid = lo + (hi - lo) / 2;
    let a = sort_range(keys, lo, mid);
    let b = sort_range(keys, mid, hi);
    merge_runs(keys, &a, &b, Ghost(lo as int), Ghost(mid as int), Ghost(hi as int))
}

/// The positions of `keys` in stable order.
pub fn order_by_key(keys: &[u32]) -> (r: Vec<u32>)
    requires
        keys@.len() <= u32::MAX,
    ensures
        is_stable_order(keys@, r@),
        r@ == stable_order(keys@),
{
    let n = keys.len();
    let out = sort_range(keys, 0, n);
    proof {
        assert(is_stable_order(keys@, out@));
        law_stable_order_is_unique(keys@, out@, stable_order(keys@));
    }
    out
}

/// The order is by key, and by place where keys are equal; every place stands in it once.
pub proof fn law_order_is_by_key_and_place(keys: Seq<u32>, a: int, b: int, k: u32)
    requires
        keys.len() <= u32::MAX,
        0 <= a < b < keys.len(),
        k < keys.len(),
    ensures
        ({
            let order = stable_order(keys);
            let (x, y) = (order[a], order[b]);
            &&& order.len() == keys.len()
            &&& x < keys.len() && y < keys.len()
            &&& keys[x as int] <= keys[y as int]
            &&& keys[x as int] == keys[y as int] ==> x < y
            &&& x != y
            &&& order.contains(k)
        }),
{
    law_stable_order_exists(keys);
    let order = stable_order(keys);
    assert(before(keys, order[a] as int, order[b] as int));
}

} // verus!
