//! An insertion-order-preserving mapping from names to values, with unique
//! keys. It backs the type registry, the security-scheme registry and the
//! parameter lists.

use vstd::prelude::*;

verus! {

broadcast use vstd::std_specs::vec::group_vec_axioms, vstd::seq::group_seq_axioms;

/// An insertion-ordered mapping from string keys to values. The keys are
/// pairwise distinct.
#[derive(Debug)]
pub struct Dict<T> {
    entries: Vec<(String, T)>,
}

impl<T> View for Dict<T> {
    type V = Seq<(Seq<char>, T)>;

    closed spec fn view(&self) -> Seq<(Seq<char>, T)> {
        Seq::new(self.entries@.len(), |i: int| (self.entries@[i].0@, self.entries@[i].1))
    }
}

impl<T> Dict<T> {
    /// Key distinctness: no two entries share a key.
    pub open spec fn wf(&self) -> bool {
        forall|i: int, j: int|
            #![trigger self@[i], self@[j]]
            0 <= i < j < self@.len() ==> self@[i].0 != self@[j].0
    }

    /// Whether some entry has key `k`.
    pub open spec fn spec_contains_key(&self, k: Seq<char>) -> bool {
        exists|i: int| 0 <= i < self@.len() && self@[i].0 == k
    }

    /// The position of the entry with key `k`.
    pub open spec fn key_index(&self, k: Seq<char>) -> int {
        choose|i: int| 0 <= i < self@.len() && self@[i].0 == k
    }

    /// The value stored under key `k`.
    pub open spec fn spec_get(&self, k: Seq<char>) -> T {
        self@[self.key_index(k)].1
    }

    pub fn new() -> (d: Dict<T>)
        ensures
            d@ == Seq::<(Seq<char>, T)>::empty(),
            d.wf(),
    {
        let d = Dict { entries: Vec::new() };
        proof {
            assert(d@ =~= Seq::<(Seq<char>, T)>::empty());
        }
        d
    }

    pub fn len(&self) -> (n: usize)
        ensures
            n == self@.len(),
    {
        self.entries.len()
    }

    pub fn is_empty(&self) -> (r: bool)
        ensures
            r == (self@.len() == 0),
    {
        self.entries.len() == 0
    }

    pub fn contains_key(&self, k: &String) -> (r: bool)
        ensures
            r == self.spec_contains_key(k@),
    {
        let n = self.entries.len();
        let mut i: usize = 0;
        while i < n
            invariant
                n == self@.len(),
                i <= n,
                n == self.entries@.len(),
                forall|j: int| 0 <= j < i ==> self@[j].0 != k@,
            decreases n - i,
        {
            if crate::util::str_eq(self.entries[i].0.as_str(), k.as_str()) {
                proof {
                    assert(self@[i as int].0 == k@);
                }
                return true;
            }
            i = i + 1;
        }
        false
    }

    /// The value under key `k`, when one is there.
    pub fn get(&self, k: &String) -> (r: Option<&T>)
        requires
            self.wf(),
        ensures
            match r {
                Some(v) => self.spec_contains_key(k@) && *v == self.spec_get(k@),
                None => !self.spec_contains_key(k@),
            },
    {
        let n = self.entries.len();
        let mut i: usize = 0;
        while i < n
            invariant
                self.wf(),
                n == self@.len(),
                i <= n,
                n == self.entries@.len(),
                forall|j: int| 0 <= j < i ==> self@[j].0 != k@,
            decreases n - i,
        {
            if crate::util::str_eq(self.entries[i].0.as_str(), k.as_str()) {
                proof {
                    let idx = i as int;
                    assert(self@[idx].0 == k@);
                    assert(self.spec_contains_key(k@));
                    let ki = self.key_index(k@);
                    assert(0 <= ki < self@.len() && self@[ki].0 == k@);
                    if idx < ki {
                        assert(self@[idx].0 != self@[ki].0);
                    }
                    assert(ki == idx);
                }
                return Some(&self.entries[i].1);
            }
            i = i + 1;
        }
        None
    }

    /// Inserts `v` under `k`: an existing entry keeps its position and takes
    /// the new value, a new key is appended at the end.
    pub fn insert(&mut self, k: String, v: T)
        requires
            old(self).wf(),
        ensures
            final(self).wf(),
            old(self).spec_contains_key(k@) ==> final(self)@ == old(self)@.update(
                old(self).key_index(k@),
                (k@, v),
            ),
            !old(self).spec_contains_key(k@) ==> final(self)@ == old(self)@.push((k@, v)),
    {
        let n = self.entries.len();
        let mut i: usize = 0;
        while i < n
            invariant
                *self == *old(self),
                old(self).wf(),
                n == self@.len(),
                i <= n,
                n == self.entries@.len(),
                forall|j: int| 0 <= j < i ==> self@[j].0 != k@,
            decreases n - i,
        {
            if crate::util::str_eq(self.entries[i].0.as_str(), k.as_str()) {
                let ghost prev = self@;
                let ghost idx = i as int;
                proof {
                    assert(prev[idx].0 == k@);
                    assert(old(self).spec_contains_key(k@));
                    let ki = old(self).key_index(k@);
                    assert(0 <= ki < prev.len() && prev[ki].0 == k@);
                    if idx < ki {
                        assert(old(self)@[idx].0 != old(self)@[ki].0);
                    }
                    assert(ki == idx);
                }
                self.entries.set(i, (k, v));
                proof {
                    assert(self@ =~= prev.update(idx, (k@, v)));
                    assert forall|a: int, b: int|
                        0 <= a < b < self@.len() implies self@[a].0 != self@[b].0 by {
                        assert(old(self)@[a].0 != old(self)@[b].0);
                        assert(self@[a].0 == prev[a].0);
                        assert(self@[b].0 == prev[b].0);
                    }
                }
                return ;
            }
            i = i + 1;
        }
        proof {
            assert(!old(self).spec_contains_key(k@));
        }
        let ghost prev = self@;
        self.entries.push((k, v));
        proof {
            assert(self@ =~= prev.push((k@, v)));
        }
    }

    /// Registry idempotence: a mapping with distinct keys holds exactly
    /// one entry per name — two positions holding the same key are the
    /// same position.
    pub proof fn lemma_key_unique(&self, k: Seq<char>, i: int, j: int)
        requires
            self.wf(),
            0 <= i < self@.len(),
            0 <= j < self@.len(),
            self@[i].0 == k,
            self@[j].0 == k,
        ensures
            i == j,
    {
        if i < j {
            assert(self@[i].0 != self@[j].0);
        }
        if j < i {
            assert(self@[j].0 != self@[i].0);
        }
    }

    /// The entry at position `i`, in insertion order.
    pub fn entry_at(&self, i: usize) -> (r: &(String, T))
        requires
            i < self@.len(),
        ensures
            r.0@ == self@[i as int].0,
            r.1 == self@[i as int].1,
    {
        &self.entries[i]
    }
}

} // verus!
