//! A set of small numbers, one bit each: the entries that have been deleted.

use vstd::prelude::*;

verus! {

/// A set of small numbers.
pub struct BitSet {
    bits: Vec<u64>,
}

/// Bit `k` of `w` is set.
spec fn bit(w: u64, k: u64) -> bool {
    w & (1u64 << k) != 0
}

/// Room for `n` numbers, in whole words.
pub open spec fn room_for(n: int) -> int {
    (n + 63) / 64 * 64
}

/// How many of `s` are true.
pub open spec fn trues(s: Seq<bool>) -> nat
    decreases s.len(),
{
    if s.len() == 0 {
        0
    } else {
        trues(s.drop_last()) + if s.last() {
            1nat
        } else {
            0
        }
    }
}

proof fn lemma_bit_set(w: u64, k: u64, j: u64)
    requires
        k < 64,
        j < 64,
    ensures
        bit(w | (1u64 << k), j) == (j == k || bit(w, j)),
{
    assert((w | (1u64 << k)) & (1u64 << j) != 0 <==> (j == k || w & (1u64 << j) != 0))
        by (bit_vector)
        requires
            k < 64,
            j < 64,
    ;
}

proof fn lemma_bit_zero(j: u64)
    requires
        j < 64,
    ensures
        !bit(0, j),
{
    assert(0u64 & (1u64 << j) == 0) by (bit_vector);
}

pub proof fn lemma_trues_concat(a: Seq<bool>, b: Seq<bool>)
    ensures
        trues(a + b) == trues(a) + trues(b),
    decreases b.len(),
{
    if b.len() == 0 {
        assert(a + b =~= a);
    } else {
        assert((a + b).drop_last() =~= a + b.drop_last());
        lemma_trues_concat(a, b.drop_last());
    }
}

/// What is left of `n` when those in `gone` are taken away.
pub proof fn lemma_trues_left(gone: Seq<bool>, n: int)
    requires
        0 <= n <= gone.len(),
        forall|i: int| n <= i < gone.len() ==> !#[trigger] gone[i],
    ensures
        trues(Seq::new(n as nat, |i: int| !gone[i])) + trues(gone) == n,
    decreases gone.len(),
{
    let left = Seq::new(n as nat, |i: int| !gone[i]);
    if gone.len() > 0 {
        let front = gone.drop_last();
        assert forall|i: int| 0 <= i < front.len() implies front[i] == #[trigger] gone[i] by {}
        let m = if n == gone.len() {
            n - 1
        } else {
            n
        };
        lemma_trues_left(front, m);
        let fleft = Seq::new(m as nat, |i: int| !front[i]);
        if n == gone.len() {
            assert(left.drop_last() =~= fleft);
            assert(left.last() == !gone.last());
        } else {
            assert(left =~= fleft);
            assert(!gone[gone.len() - 1]);
        }
    }
}

impl View for BitSet {
    type V = Seq<bool>;

    /// For each number below the capacity, whether it is in the set.
    closed spec fn view(&self) -> Seq<bool> {
        Seq::new(
            64 * self.bits@.len(),
            |i: int| bit(self.bits@[i / 64], (i % 64) as u64),
        )
    }
}

impl BitSet {
    /// An empty set with room for `n` numbers.
    pub fn new(n: usize) -> (r: BitSet)
        ensures
            r@.len() == room_for(n as int),
            r@.len() >= n,
            forall|i: int| 0 <= i < r@.len() ==> !#[trigger] r@[i],
    {
        let words = n / 64 + if n % 64 == 0 {
            0
        } else {
            1usize
        };
        let mut bits: Vec<u64> = Vec::with_capacity(words);
        for i in 0..words
            invariant
                bits@.len() == i,
                forall|k: int| 0 <= k < i ==> bits@[k] == 0,
        {
            bits.push(0);
        }
        let r = BitSet { bits };
        proof {
            assert forall|i: int| 0 <= i < r@.len() implies !#[trigger] r@[i] by {
                lemma_bit_zero((i % 64) as u64);
            }
        }
        r
    }

    /// Puts `i` into the set, where there is room for it.
    #[verifier::rlimit(60)]
    pub fn set(&mut self, i: usize)
        ensures
            final(self)@ == if i < old(self)@.len() {
                old(self)@.update(i as int, true)
            } else {
                old(self)@
            },
    {
        let w = i / 64;
        if w < self.bits.len() {
            let k = (i % 64) as u64;
            let ghost before = self.bits@;
            let word = self.bits[w] | (1u64 << k);
            self.bits.set(w, word);
            proof {
                assert forall|j: int| 0 <= j < self@.len() implies self@[j] == (j == i
                    || old(self)@[j]) by {
                    if j / 64 == w {
                        lemma_bit_set(before[w as int], k, (j % 64) as u64);
                    }
                }
                assert(self@ =~= old(self)@.update(i as int, true));
            }
        }
    }

    /// Whether `i` is in the set.
    pub fn get(&self, i: usize) -> (r: bool)
        ensures
            r == (i < self@.len() && self@[i as int]),
    {
        let w = i / 64;
        w < self.bits.len() && self.bits[w] & (1u64 << (i % 64) as u64) != 0
    }

    /// Makes room for `n` numbers.
    #[verifier::rlimit(60)]
    pub fn grow(&mut self, n: usize)
        ensures
            final(self)@.len() == if room_for(n as int) > old(self)@.len() {
                room_for(n as int)
            } else {
                old(self)@.len() as int
            },
            final(self)@.len() >= n,
            forall|i: int|
                0 <= i < final(self)@.len() ==> #[trigger] final(self)@[i] == (i < old(self)@.len()
                    && old(self)@[i]),
    {
        let words = n / 64 + if n % 64 == 0 {
            0
        } else {
            1usize
        };
        let ghost before = self.bits@;
        let ghost seen = self@;
        proof {
            assert forall|i: int| 0 <= i < self@.len() implies self@[i] == (i < seen.len()
                && seen[i]) by {}
        }
        while self.bits.len() < words
            invariant
                before.len() <= self.bits@.len(),
                self.bits@.len() <= words || self.bits@.len() == before.len(),
                forall|k: int| 0 <= k < before.len() ==> self.bits@[k] == before[k],
                forall|k: int| before.len() <= k < self.bits@.len() ==> self.bits@[k] == 0,
            decreases words - self.bits@.len(),
        {
            self.bits.push(0);
        }
        proof {
            assert forall|i: int| 0 <= i < self@.len() implies #[trigger] self@[i] == (i
                < seen.len() && seen[i]) by {
                if i >= seen.len() {
                    lemma_bit_zero((i % 64) as u64);
                }
            }
        }
    }

    /// How many numbers are in the set.
    #[verifier::rlimit(60)]
    pub fn count(&self) -> (r: usize)
        requires
            trues(self@) <= usize::MAX,
        ensures
            r == trues(self@),
    {
        let mut n: usize = 0;
        assert(self@.take(0) =~= Seq::empty());
        for w in 0..self.bits.len()
            invariant
                trues(self@) <= usize::MAX,
                n == trues(self@.take(64 * w)),
        {
            let word = self.bits[w];
            for k in 0..64u64
                invariant
                    trues(self@) <= usize::MAX,
                    0 <= w < self.bits@.len(),
                    word == self.bits@[w as int],
                    n == trues(self@.take(64 * w + k)),
            {
                let ghost i = 64 * w + k;
                proof {
                    assert(self@.take(i + 1).drop_last() =~= self@.take(i));
                    assert(self@.take(i + 1).last() == self@[i]);
                    assert(self@[i] == bit(word, k));
                    assert(self@ =~= self@.take(i + 1) + self@.skip(i + 1));
                    lemma_trues_concat(self@.take(i + 1), self@.skip(i + 1));
                }
                if word & (1u64 << k) != 0 {
                    n += 1;
                }
            }
        }
        assert(self@.take(self@.len() as int) =~= self@);
        n
    }
}

impl Clone for BitSet {
    fn clone(&self) -> (r: BitSet)
        ensures
            r@ == self@,
    {
        let r = BitSet { bits: self.bits.clone() };
        assert(r.bits@ =~= self.bits@);
        r
    }
}

/// Each mark that is set counts once.
pub proof fn law_marks_count_once(s: Seq<bool>, i: int)
    ensures
        trues(Seq::empty()) == 0,
        trues(s.push(true)) == trues(s) + 1,
        trues(s.push(false)) == trues(s),
        0 <= i < s.len() && s[i] ==> trues(s.update(i, false)) == trues(s) - 1,
        0 <= i < s.len() && !s[i] ==> trues(s.update(i, true)) == trues(s) + 1,
        trues(s) <= s.len(),
    decreases s.len(),
{
    assert(s.push(true).drop_last() =~= s);
    assert(s.push(false).drop_last() =~= s);
    if s.len() > 0 {
        let front = s.drop_last();
        law_marks_count_once(front, i);
        if 0 <= i < s.len() {
            let b = !s[i];
            let t = s.update(i, b);
            if i < front.len() {
                assert(t.drop_last() =~= front.update(i, b));
                assert(t.last() == s.last());
            } else {
                assert(t.drop_last() =~= front);
            }
        }
    }
}

} // verus!
