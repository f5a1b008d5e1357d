//! The fold set: the collapse state, owned by the caller and consulted by
//! every stepping and rendering operation. A member means "this container's
//! interior is collapsed". Keys are fold keys: a root index and the child
//! indices of the container, with no sub-position.

use vstd::prelude::*;

verus! {

/// The model of one fold key.
pub open spec fn key_view(k: (usize, Vec<usize>)) -> (int, Seq<int>) {
    (k.0 as int, Seq::new(k.1@.len(), |i: int| k.1@[i] as int))
}

/// A set of fold keys.
pub struct FoldSet {
    pub keys: Vec<(usize, Vec<usize>)>,
}

impl View for FoldSet {
    type V = Set<(int, Seq<int>)>;

    open spec fn view(&self) -> Set<(int, Seq<int>)> {
        Set::new(
            |k: (int, Seq<int>)|
                exists|i: int|
                    0 <= i < self.keys@.len() && key_view(#[trigger] self.keys@[i]) == k,
        )
    }
}

/// The two keys are the same fold key.
fn key_eq(a: &(usize, Vec<usize>), b: &(usize, Vec<usize>)) -> (r: bool)
    ensures
        r == (key_view(*a) == key_view(*b)),
{
    if a.0 != b.0 {
        proof {
            assert(key_view(*a).0 != key_view(*b).0);
        }
        return false;
    }
    if a.1.len() != b.1.len() {
        proof {
            assert(key_view(*a).1.len() != key_view(*b).1.len());
        }
        return false;
    }
    let mut i: usize = 0;
    while i < a.1.len()
        invariant
            i <= a.1@.len(),
            a.1@.len() == b.1@.len(),
            a.0 == b.0,
            forall|j: int| 0 <= j < i ==> a.1@[j] == b.1@[j],
        decreases a.1@.len() - i,
    {
        if a.1[i] != b.1[i] {
            proof {
                assert(key_view(*a).1[i as int] != key_view(*b).1[i as int]);
            }
            return false;
        }
        i = i + 1;
    }
    proof {
        assert(key_view(*a).1 =~= key_view(*b).1);
    }
    true
}

impl FoldSet {
    /// No key occurs twice.
    pub open spec fn wf(&self) -> bool {
        forall|i: int, j: int|
            0 <= i < j < self.keys@.len() ==> key_view(#[trigger] self.keys@[i]) != key_view(
                #[trigger] self.keys@[j],
            )
    }

    /// The empty fold set: nothing is collapsed.
    pub fn new() -> (r: FoldSet)
        ensures
            r.wf(),
            r@ == Set::<(int, Seq<int>)>::empty(),
    {
        let r = FoldSet { keys: Vec::new() };
        proof {
            assert(r@ =~= Set::<(int, Seq<int>)>::empty());
        }
        r
    }

    /// Whether `key` is folded.
    pub fn contains(&self, key: &(usize, Vec<usize>)) -> (r: bool)
        ensures
            r == self@.contains(key_view(*key)),
    {
        let mut i: usize = 0;
        while i < self.keys.len()
            invariant
                i <= self.keys@.len(),
                forall|j: int|
                    0 <= j < i ==> key_view(#[trigger] self.keys@[j]) != key_view(*key),
            decreases self.keys@.len() - i,
        {
            if key_eq(&self.keys[i], key) {
                return true;
            }
            i = i + 1;
        }
        false
    }

    /// Collapse `key`. Inserting a member leaves the set unchanged.
    pub fn insert(&mut self, key: (usize, Vec<usize>))
        requires
            old(self).wf(),
        ensures
            final(self).wf(),
            final(self)@ == old(self)@.insert(key_view(key)),
    {
        if self.contains(&key) {
            proof {
                assert(self@ =~= self@.insert(key_view(key)));
            }
            return;
        }
        self.keys.push(key);
        proof {
            let prior = old(self)@;
            assert forall|k: (int, Seq<int>)| self@.contains(k) implies prior.insert(
                key_view(key),
            ).contains(k) by {
                let i = choose|i: int|
                    0 <= i < self.keys@.len() && key_view(#[trigger] self.keys@[i]) == k;
                if i < self.keys@.len() - 1 {
                    assert(old(self).keys@[i] == self.keys@[i]);
                }
            }
            assert forall|k: (int, Seq<int>)| prior.insert(key_view(key)).contains(
                k,
            ) implies self@.contains(k) by {
                if k == key_view(key) {
                    assert(key_view(self.keys@[self.keys@.len() - 1]) == k);
                } else {
                    let i = choose|i: int|
                        0 <= i < old(self).keys@.len() && key_view(
                            #[trigger] old(self).keys@[i],
                        ) == k;
                    assert(key_view(self.keys@[i]) == k);
                }
            }
            assert(self@ =~= prior.insert(key_view(key)));
        }
    }

    /// Expand `key`. Removing a non-member leaves the set unchanged.
    pub fn remove(&mut self, key: &(usize, Vec<usize>))
        requires
            old(self).wf(),
        ensures
            final(self).wf(),
            final(self)@ == old(self)@.remove(key_view(*key)),
    {
        let mut i: usize = 0;
        while i < self.keys.len()
            invariant
                i <= self.keys@.len(),
                self.keys@ == old(self).keys@,
                old(self).wf(),
                forall|j: int|
                    0 <= j < i ==> key_view(#[trigger] self.keys@[j]) != key_view(*key),
            decreases self.keys@.len() - i,
        {
            if key_eq(&self.keys[i], key) {
                self.keys.remove(i);
                proof {
                    let prior = old(self)@;
                    assert forall|k: (int, Seq<int>)| self@.contains(k) implies prior.remove(
                        key_view(*key),
                    ).contains(k) by {
                        let m = choose|m: int|
                            0 <= m < self.keys@.len() && key_view(#[trigger] self.keys@[m]) == k;
                        if m < i {
                            assert(old(self).keys@[m] == self.keys@[m]);
                        } else {
                            assert(old(self).keys@[m + 1] == self.keys@[m]);
                        }
                    }
                    assert forall|k: (int, Seq<int>)| prior.remove(key_view(*key)).contains(
                        k,
                    ) implies self@.contains(k) by {
                        let m = choose|m: int|
                            0 <= m < old(self).keys@.len() && key_view(
                                #[trigger] old(self).keys@[m],
                            ) == k;
                        if m < i {
                            assert(key_view(self.keys@[m]) == k);
                        } else {
                            assert(m != i);
                            assert(key_view(self.keys@[m - 1]) == k);
                        }
                    }
                    assert(self@ =~= prior.remove(key_view(*key)));
                }
                return;
            }
            i = i + 1;
        }
        proof {
            assert(!self@.contains(key_view(*key)));
            assert(self@ =~= self@.remove(key_view(*key)));
        }
    }
}

} // verus!
