//! A list of names that can be searched by name.

use vstd::prelude::*;

use crate::groups::Groups;
#[allow(unused_imports)]
use crate::pick::{between, lemma_between_contains, lemma_between_rises};
use crate::text::bytes_eq;

verus! {

/// A list of names, with the positions of those that share a hash kept together.
pub struct NameIndex {
    names: Vec<Vec<u8>>,
    groups: Groups,
}

/// The hash of a name.
spec fn hash(name: Seq<u8>) -> u32
    decreases name.len(),
{
    if name.len() == 0 {
        0
    } else {
        ((hash(name.drop_last()) as int * 31 + name.last()) % 0x1_0000_0000) as u32
    }
}

/// The last position at which `name` stands among `names`.
pub open spec fn last_at(names: Seq<Seq<u8>>, name: Seq<u8>) -> Option<int>
    decreases names.len(),
{
    if names.len() == 0 {
        None
    } else if names.last() == name {
        Some(names.len() - 1)
    } else {
        last_at(names.drop_last(), name)
    }
}

proof fn lemma_last_at(names: Seq<Seq<u8>>, name: Seq<u8>, j: int)
    requires
        0 <= j < names.len(),
        names[j] == name,
        forall|i: int| j < i < names.len() ==> names[i] != name,
    ensures
        last_at(names, name) == Some(j),
    decreases names.len(),
{
    if j < names.len() - 1 {
        assert(names[names.len() - 1] != name);
        lemma_last_at(names.drop_last(), name, j);
    }
}

proof fn lemma_last_at_none(names: Seq<Seq<u8>>, name: Seq<u8>)
    requires
        forall|i: int| 0 <= i < names.len() ==> names[i] != name,
    ensures
        last_at(names, name) is None,
    decreases names.len(),
{
    if names.len() > 0 {
        assert(names[names.len() - 1] != name);
        assert forall|i: int| 0 <= i < names.drop_last().len() implies names.drop_last()[i]
            != name by {
            assert(names[i] != name);
        }
        lemma_last_at_none(names.drop_last(), name);
    }
}

/// Where a name stands last, it stands.
pub proof fn lemma_last_at_stands(names: Seq<Seq<u8>>, name: Seq<u8>)
    ensures
        last_at(names, name) matches Some(j) ==> 0 <= j < names.len() && names[j] == name,
        last_at(names, name) is None <==> !names.contains(name),
    decreases names.len(),
{
    if names.len() > 0 {
        let front = names.drop_last();
        lemma_last_at_stands(front, name);
        if names.last() == name {
            assert(names[names.len() - 1] == name);
        }
        if front.contains(name) {
            let i = choose|i: int| 0 <= i < front.len() && front[i] == name;
            assert(names[i] == name);
        }
        if names.contains(name) && names.last() != name {
            let i = choose|i: int| 0 <= i < names.len() && names[i] == name;
            assert(front[i] == name);
        }
    }
}

fn hash_name(name: &[u8]) -> (r: u32)
    ensures
        r == hash(name@),
{
    let mut h: u64 = 0;
    assert(name@.take(0) =~= Seq::empty());
    for i in 0..name.len()
        invariant
            h == hash(name@.take(i as int)),
            h < 0x1_0000_0000,
    {
        assert(name@.take(i + 1).drop_last() =~= name@.take(i as int));
        h = (h * 31 + name[i] as u64) % 0x1_0000_0000;
    }
    assert(name@.take(name@.len() as int) =~= name@);
    h as u32
}

impl View for NameIndex {
    type V = Seq<Seq<u8>>;

    closed spec fn view(&self) -> Seq<Seq<u8>> {
        self.names@.map_values(|v: Vec<u8>| v@)
    }
}

impl NameIndex {
    #[verifier::type_invariant]
    closed spec fn wf(&self) -> bool {
        &&& self.names@.len() < u32::MAX
        &&& forall|h: u32| #[trigger]
            self.groups.of(h) == between(
                0,
                self.names@.len() as int,
                |j: int| hash(self.names@[j]@) == h,
            )
    }

    /// An index of `names`.
    pub fn new(names: Vec<Vec<u8>>) -> (r: NameIndex)
        requires
            names@.len() < u32::MAX,
        ensures
            r@ == names@.map_values(|v: Vec<u8>| v@),
    {
        let mut groups = Groups::new();
        for j in 0..names.len()
            invariant
                names@.len() < u32::MAX,
                forall|h: u32| #[trigger]
                    groups.of(h) == between(0, j as int, |j: int| hash(names@[j]@) == h),
        {
            groups.push(hash_name(names[j].as_slice()), j as u32);
        }
        NameIndex { names, groups }
    }

    /// The last position at which `name` stands.
    #[verifier::rlimit(60)]
    pub fn last(&self, name: &[u8]) -> (r: Option<usize>)
        ensures
            match r {
                Some(j) => last_at(self@, name@) == Some(j as int) && j < self@.len(),
                None => last_at(self@, name@) is None,
            },
    {
        proof {
            use_type_invariant(self);
        }
        let h = hash_name(name);
        let ghost same = |j: int| hash(self.names@[j]@) == h;
        let ghost list = self.groups.of(h);
        let ghost n = self.names@.len() as int;
        proof {
            lemma_between_contains(0, n, same);
            lemma_between_rises(0, n, same);
            assert(list == between(0, n, same));
        }
        let mut k = self.groups.len(h);
        while k > 0
            invariant
                k <= list.len(),
                list == self.groups.of(h),
                n == self.names@.len(),
                h == hash(name@),
                same == (|j: int| hash(self.names@[j]@) == h),
                forall|id: u32| #[trigger] list.contains(id) <==> 0 <= id < n && same(id as int),
                forall|i: int, j: int|
                    0 <= i < j < list.len() ==> (#[trigger] list[i]) < (#[trigger] list[j]),
                forall|i: int| k <= i < list.len() ==> self@[(#[trigger] list[i]) as int] != name@,
                n < u32::MAX,
            decreases k,
        {
            k -= 1;
            let j = self.groups.at(h, k) as usize;
            assert(list.contains(list[k as int]));
            assert(self@[j as int] == self.names@[j as int]@);
            if bytes_eq(self.names[j].as_slice(), name) {
                proof {
                    assert forall|i: int| j < i < self@.len() implies self@[i] != name@ by {
                        if self@[i] == name@ {
                            assert(same(i));
                            assert(list.contains(i as u32));
                            let x = choose|x: int| 0 <= x < list.len() && list[x] == i as u32;
                            assert(x > k) by {
                                if x < k {
                                    assert(list[x] < list[k as int]);
                                }
                            }
                            assert(self@[list[x] as int] != name@);
                        }
                    }
                    lemma_last_at(self@, name@, j as int);
                }
                return Some(j);
            }
        }
        proof {
            assert forall|i: int| 0 <= i < self@.len() implies self@[i] != name@ by {
                if self@[i] == name@ {
                    assert(same(i));
                    assert(list.contains(i as u32));
                    let x = choose|x: int| 0 <= x < list.len() && list[x] == i as u32;
                    assert(self@[list[x] as int] != name@);
                }
            }
            lemma_last_at_none(self@, name@);
        }
        None
    }

    /// Whether the name at `j` stands nowhere behind it.
    pub fn is_last(&self, j: usize) -> (r: bool)
        requires
            j < self@.len(),
        ensures
            r == (last_at(self@, self@[j as int]) == Some(j as int)),
    {
        match self.last(self.names[j].as_slice()) {
            Some(k) => k == j,
            None => false,
        }
    }
}

/// Where a name stands last: it stands there, and nowhere behind.
pub proof fn law_last_place_of_a_name(names: Seq<Seq<u8>>, name: Seq<u8>, j: int)
    requires
        0 <= j < names.len(),
    ensures
        last_at(names, name) == Some(j) <==> names[j] == name && forall|i: int|
            j < i < names.len() ==> #[trigger] names[i] != name,
        last_at(names, name) is None <==> forall|i: int|
            0 <= i < names.len() ==> #[trigger] names[i] != name,
    decreases names.len(),
{
    lemma_last_at_stands(names, name);
    if names.last() == name {
        assert(names[names.len() - 1] == name);
    } else if j < names.len() - 1 {
        let front = names.drop_last();
        law_last_place_of_a_name(front, name, j);
        assert(forall|i: int| 0 <= i < front.len() ==> front[i] == #[trigger] names[i]);
        assert(forall|i: int| 0 <= i < front.len() ==> #[trigger] front[i] == names[i]);
    }
}

} // verus!
