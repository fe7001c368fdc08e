use vstd::prelude::*;

verus! {

/// An association table from surgeon identifiers to per-surgeon trackers.
///
/// It replaces a hash map: the identifiers live in `ids` and the tracker of
/// `ids[i]` is `vals[i]`. Identifiers are pairwise distinct, so the position
/// of a key, and with it `spec_get`, is well defined.
#[verifier::ext_equal]
#[derive(Debug)]
pub struct SurgeonMap<V> {
    pub ids: Vec<u64>,
    pub vals: Vec<V>,
}

impl<V> SurgeonMap<V> {
    pub open spec fn wf(self) -> bool {
        &&& self.ids@.len() == self.vals@.len()
        &&& forall|i: int, j: int|
            0 <= i < j < self.ids@.len() ==> self.ids@[i] != self.ids@[j]
    }

    pub open spec fn contains_spec(self, k: u64) -> bool {
        self.ids@.contains(k)
    }

    /// The position of key `k`; meaningful only when the map is well formed
    /// and contains `k`.
    pub open spec fn key_index(self, k: u64) -> int {
        choose|i: int| 0 <= i < self.ids@.len() && self.ids@[i] == k
    }

    /// The tracker stored under key `k`.
    pub open spec fn spec_get(self, k: u64) -> V {
        self.vals@[self.key_index(k)]
    }

    /// The position of a contained key is in range, holds that key, and is
    /// the only position that does.
    pub proof fn lemma_key_index(self, k: u64)
        requires
            self.wf(),
            self.contains_spec(k),
        ensures
            0 <= self.key_index(k) < self.ids@.len(),
            self.ids@[self.key_index(k)] == k,
            forall|i: int|
                0 <= i < self.ids@.len() && self.ids@[i] == k ==> i == self.key_index(k),
    {
        let w = choose|i: int| 0 <= i < self.ids@.len() && self.ids@[i] == k;
        assert(self.ids@[w] == k);
    }

    pub fn new() -> (m: SurgeonMap<V>)
        ensures
            m.wf(),
            m.ids@ == Seq::<u64>::empty(),
            m.vals@ == Seq::<V>::empty(),
            forall|k: u64| !m.contains_spec(k),
    {
        SurgeonMap { ids: Vec::new(), vals: Vec::new() }
    }

    pub fn contains_key(&self, k: u64) -> (r: bool)
        ensures
            r == self.contains_spec(k),
    {
        let mut i: usize = 0;
        while i < self.ids.len()
            invariant
                0 <= i <= self.ids@.len(),
                forall|j: int| 0 <= j < i ==> self.ids@[j] != k,
            decreases self.ids@.len() - i,
        {
            if self.ids[i] == k {
                return true;
            }
            i += 1;
        }
        false
    }

    pub fn insert_new(&mut self, k: u64, v: V)
        requires
            old(self).wf(),
            !old(self).contains_spec(k),
        ensures
            final(self).wf(),
            final(self).ids@ == old(self).ids@.push(k),
            final(self).vals@ == old(self).vals@.push(v),
            final(self).contains_spec(k),
            final(self).spec_get(k) == v,
            forall|k2: u64|
                final(self).contains_spec(k2) <==> (old(self).contains_spec(k2) || k2 == k),
            forall|k2: u64|
                old(self).contains_spec(k2) ==> final(self).spec_get(k2) == old(self).spec_get(k2),
    {
        self.ids.push(k);
        self.vals.push(v);
        proof {
            let pre = *old(self);
            let post = *self;
            assert(post.ids@[post.ids@.len() - 1] == k);
            assert(post.contains_spec(k));
            post.lemma_key_index(k);
            assert(post.key_index(k) == post.ids@.len() - 1);
            assert(post.spec_get(k) == v);
            assert forall|k2: u64| pre.contains_spec(k2) implies
                post.spec_get(k2) == pre.spec_get(k2) && post.contains_spec(k2) by {
                pre.lemma_key_index(k2);
                let i = pre.key_index(k2);
                assert(post.ids@[i] == k2);
                assert(post.contains_spec(k2));
                post.lemma_key_index(k2);
                assert(post.key_index(k2) == i);
            }
            assert forall|k2: u64| post.contains_spec(k2) implies
                (pre.contains_spec(k2) || k2 == k) by {
                let i = choose|i: int| 0 <= i < post.ids@.len() && post.ids@[i] == k2;
                if i < pre.ids@.len() {
                    assert(pre.ids@[i] == k2);
                }
            }
        }
    }

    pub fn get(&self, k: u64) -> (r: &V)
        requires
            self.wf(),
            self.contains_spec(k),
        ensures
            *r == self.spec_get(k),
    {
        proof {
            self.lemma_key_index(k);
        }
        let mut i: usize = 0;
        while i < self.ids.len()
            invariant
                self.wf(),
                self.contains_spec(k),
                0 <= i <= self.ids@.len(),
                forall|j: int| 0 <= j < i ==> self.ids@[j] != k,
            decreases self.ids@.len() - i,
        {
            if self.ids[i] == k {
                proof {
                    self.lemma_key_index(k);
                }
                return &self.vals[i];
            }
            i += 1;
        }
        proof {
            self.lemma_key_index(k);
            assert(false);
        }
        unreached()
    }

    pub fn set_value(&mut self, k: u64, v: V)
        requires
            old(self).wf(),
            old(self).contains_spec(k),
        ensures
            final(self).wf(),
            final(self).ids@ == old(self).ids@,
            final(self).vals@ == old(self).vals@.update(old(self).key_index(k), v),
            final(self).contains_spec(k),
            final(self).key_index(k) == old(self).key_index(k),
            final(self).spec_get(k) == v,
            forall|k2: u64|
                final(self).contains_spec(k2) == old(self).contains_spec(k2),
            forall|k2: u64|
                old(self).contains_spec(k2) && k2 != k ==> #[trigger] final(self).spec_get(k2)
                    == old(self).spec_get(k2),
    {
        proof {
            old(self).lemma_key_index(k);
        }
        let mut i: usize = 0;
        let n = self.ids.len();
        while i < n
            invariant
                n == self.ids@.len(),
                *self == *old(self),
                old(self).wf(),
                old(self).contains_spec(k),
                0 <= i <= self.ids@.len(),
                forall|j: int| 0 <= j < i ==> self.ids@[j] != k,
            decreases self.ids@.len() - i,
        {
            if self.ids[i] == k {
                proof {
                    old(self).lemma_key_index(k);
                    assert(i == old(self).key_index(k));
                }
                let _ = self.vals.remove(i);
                self.vals.insert(i, v);
                proof {
                    let pre = *old(self);
                    let post = *self;
                    let ki = pre.key_index(k);
                    assert(post.vals@ =~= pre.vals@.update(ki, v));
                    assert forall|k2: u64| pre.contains_spec(k2) implies
                        post.key_index(k2) == pre.key_index(k2) by {
                        pre.lemma_key_index(k2);
                        post.lemma_key_index(k2);
                    }
                    assert(post.spec_get(k) == v);
                }
                return;
            }
            i += 1;
        }
        proof {
            old(self).lemma_key_index(k);
            assert(false);
        }
    }
}

} // verus!
