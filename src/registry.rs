use vstd::prelude::*;

verus! {

/// The handles of a sequence of (handle, continuation) entries.
pub open spec fn keys_of<C>(s: Seq<(usize, C)>) -> Seq<usize> {
    s.map_values(|e: (usize, C)| e.0)
}

/// Maps each pending callback handle to its single-use continuation.
pub struct Registry<C> {
    entries: Vec<(usize, C)>,
    contents: Ghost<Map<usize, C>>,
}

impl<C> View for Registry<C> {
    type V = Map<usize, C>;

    closed spec fn view(&self) -> Map<usize, C> {
        self.contents@
    }
}

impl<C> Registry<C> {
    /// The handles held, one per entry, in storage order.
    pub closed spec fn handles(&self) -> Seq<usize> {
        keys_of(self.entries@)
    }

    /// The handles are unique, and the map view holds exactly the entries.
    pub closed spec fn wf(&self) -> bool {
        &&& self.handles().no_duplicates()
        &&& self@.dom() == self.handles().to_set()
        &&& forall|i: int|
            0 <= i < self.entries@.len() ==> #[trigger] self@[self.entries@[i].0]
                == self.entries@[i].1
    }

    /// The number of pending continuations.
    pub closed spec fn size(&self) -> nat {
        self.entries@.len()
    }

    /// The size is the number of handles in the map view.
    pub proof fn lemma_size(&self)
        requires
            self.wf(),
        ensures
            self@.dom().finite(),
            self@.dom().len() == self.size(),
    {
        self.handles().unique_seq_to_set();
    }

    pub fn new() -> (r: Self)
        ensures
            r.wf(),
            r@ == Map::<usize, C>::empty(),
            r.size() == 0,
    {
        let r = Registry { entries: Vec::new(), contents: Ghost(Map::empty()) };
        assert(r.handles() =~= Seq::<usize>::empty());
        assert(r@.dom() =~= r.handles().to_set());
        r
    }

    pub fn len(&self) -> (r: usize)
        requires
            self.wf(),
        ensures
            r == self.size(),
            r == self@.dom().len(),
    {
        proof {
            self.lemma_size();
        }
        self.entries.len()
    }

    /// Whether a continuation is pending under `handle`.
    pub fn contains_key(&self, handle: usize) -> (r: bool)
        requires
            self.wf(),
        ensures
            r == self@.contains_key(handle),
    {
        let mut i: usize = 0;
        while i < self.entries.len()
            invariant
                self.wf(),
                i <= self.entries@.len(),
                forall|j: int| 0 <= j < i ==> self.entries@[j].0 != handle,
            decreases self.entries@.len() - i,
        {
            if self.entries[i].0 == handle {
                assert(self.handles()[i as int] == handle);
                return true;
            }
            i = i + 1;
        }
        assert(!self.handles().contains(handle));
        false
    }

    /// Stores `cont` under a handle that is not pending yet.
    pub fn insert(&mut self, handle: usize, cont: C)
        requires
            old(self).wf(),
            !old(self)@.contains_key(handle),
        ensures
            final(self).wf(),
            final(self)@ == old(self)@.insert(handle, cont),
            final(self).size() == old(self).size() + 1,
    {
        let ghost old_entries = self.entries@;
        self.entries.push((handle, cont));
        self.contents = Ghost(self.contents@.insert(handle, cont));
        proof {
            assert(self.handles() =~= keys_of(old_entries).push(handle));
            keys_of(old_entries).lemma_push_to_set_commute(handle);
            assert(self@.dom() =~= self.handles().to_set());
            assert(self.handles().no_duplicates()) by {
                assert forall|a: int, b: int|
                    0 <= a < b < self.handles().len() implies self.handles()[a]
                    != self.handles()[b] by {
                    if b == old_entries.len() {
                        assert(keys_of(old_entries).to_set().contains(keys_of(old_entries)[a]));
                    }
                }
            }
            assert forall|i: int| 0 <= i < self.entries@.len() implies #[trigger] self@[
                self.entries@[i].0] == self.entries@[i].1 by {
                if i < old_entries.len() {
                    assert(keys_of(old_entries)[i] == old_entries[i].0);
                }
            }
        }
    }

    /// Removes the continuation pending under `handle` and hands it out.
    pub fn take(&mut self, handle: usize) -> (r: C)
        requires
            old(self).wf(),
            old(self)@.contains_key(handle),
        ensures
            final(self).wf(),
            r == old(self)@[handle],
            final(self)@ == old(self)@.remove(handle),
            final(self).size() + 1 == old(self).size(),
    {
        let ghost old_entries = self.entries@;
        let ghost old_keys = self.handles();
        assert(old_keys.to_set().contains(handle));
        let ghost k = choose|k: int| 0 <= k < old_keys.len() && old_keys[k] == handle;
        let mut i: usize = 0;
        while i < self.entries.len()
            invariant
                self.wf(),
                self.entries@ == old_entries,
                0 <= k < old_entries.len(),
                old_entries[k].0 == handle,
                i <= k,
            ensures
                i < old_entries.len(),
                old_entries[i as int].0 == handle,
            decreases k - i,
        {
            if self.entries[i].0 == handle {
                break;
            }
            i = i + 1;
        }
        proof {
            assert(old_keys[i as int] == old_entries[i as int].0);
            assert(old_keys[i as int] == old_keys[k]);
        }
        let (_, cont) = self.entries.remove(i);
        self.contents = Ghost(self.contents@.remove(handle));
        proof {
            assert(self.handles() =~= old_keys.remove(i as int));
            assert forall|j: int| 0 <= j < self.handles().len() implies self.handles()[j]
                != handle by {
                if j < i {
                    assert(old_keys[j] == self.handles()[j]);
                } else {
                    assert(old_keys[j + 1] == self.handles()[j]);
                }
            }
            assert(self@.dom() =~= self.handles().to_set()) by {
                assert forall|h: usize| self.handles().to_set().contains(h) implies self@.dom().contains(h) by {
                    let j = choose|j: int| 0 <= j < self.handles().len() && self.handles()[j] == h;
                    if j < i {
                        assert(old_keys[j] == h);
                    } else {
                        assert(old_keys[j + 1] == h);
                    }
                }
                assert forall|h: usize| self@.dom().contains(h) implies self.handles().to_set().contains(h) by {
                    assert(old_keys.to_set().contains(h));
                    let j = choose|j: int| 0 <= j < old_keys.len() && old_keys[j] == h;
                    if j < i {
                        assert(self.handles()[j] == h);
                    } else {
                        assert(j != i);
                        assert(self.handles()[j - 1] == h);
                    }
                }
            }
            assert forall|j: int| 0 <= j < self.entries@.len() implies #[trigger] self@[
                self.entries@[j].0] == self.entries@[j].1 by {
                if j < i {
                    assert(old_entries[j] == self.entries@[j]);
                    assert(keys_of(old_entries)[j] == old_entries[j].0);
                } else {
                    assert(old_entries[j + 1] == self.entries@[j]);
                    assert(keys_of(old_entries)[j + 1] == old_entries[j + 1].0);
                }
                assert(self.handles()[j] == self.entries@[j].0);
            }
        }
        cont
    }
}

} // verus!
