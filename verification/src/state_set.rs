//! Sets of state indices below a fixed bound, kept as one flag per index.

use vstd::prelude::*;
use vstd::set_lib::*;

verus! {

/// A set of state indices, each below `capacity()`.
///
/// Two sets of one capacity hold the same indices exactly when their flags
/// agree, so a set is its own canonical form.
#[derive(Debug)]
pub struct StateSet {
    marks: Vec<bool>,
}

impl View for StateSet {
    type V = Set<int>;

    closed spec fn view(&self) -> Set<int> {
        Set::new(|i: int| 0 <= i < self.marks@.len() && self.marks@[i])
    }
}

impl StateSet {
    /// The exclusive upper bound of the indices the set can hold.
    pub closed spec fn capacity(&self) -> nat {
        self.marks@.len()
    }

    /// Every member lies below the capacity, so the set is finite and no
    /// larger than its capacity.
    pub proof fn lemma_bounded(&self)
        ensures
            forall|i: int| self@.contains(i) ==> 0 <= i < self.capacity(),
            self@.finite(),
            self@.len() <= self.capacity(),
    {
        let range = set_int_range(0, self.capacity() as int);
        lemma_int_range(0, self.capacity() as int);
        assert(self@.subset_of(range));
        lemma_len_subset(self@, range);
    }

    /// The empty set of the given capacity.
    pub fn new(capacity: usize) -> (set: StateSet)
        ensures
            set.capacity() == capacity,
            set@ == Set::<int>::empty(),
    {
        let mut marks: Vec<bool> = Vec::new();
        let mut i: usize = 0;
        while i < capacity
            invariant
                i <= capacity,
                marks@.len() == i,
                forall|j: int| 0 <= j < i ==> !marks@[j],
            decreases capacity - i,
        {
            marks.push(false);
            i += 1;
        }
        let set = StateSet { marks };
        assert(set@ =~= Set::<int>::empty());
        set
    }

    /// Whether `i` is in the set.
    pub fn contains(&self, i: usize) -> (found: bool)
        requires
            i < self.capacity(),
        ensures
            found == self@.contains(i as int),
    {
        self.marks[i]
    }

    /// Adds `i`; tells whether it was absent before.
    pub fn insert(&mut self, i: usize) -> (fresh: bool)
        requires
            i < old(self).capacity(),
        ensures
            final(self).capacity() == old(self).capacity(),
            final(self)@ == old(self)@.insert(i as int),
            fresh == !old(self)@.contains(i as int),
    {
        let fresh = !self.marks[i];
        self.marks.set(i, true);
        assert(self@ =~= old(self)@.insert(i as int));
        fresh
    }

    /// Whether the set holds no index.
    pub fn is_empty(&self) -> (empty: bool)
        ensures
            empty == (self@ == Set::<int>::empty()),
    {
        let mut i: usize = 0;
        while i < self.marks.len()
            invariant
                i <= self.marks@.len(),
                forall|j: int| 0 <= j < i ==> !self.marks@[j],
            decreases self.marks@.len() - i,
        {
            if self.marks[i] {
                assert(self@.contains(i as int));
                return false;
            }
            i += 1;
        }
        assert(self@ =~= Set::<int>::empty());
        true
    }

    /// A set of the same capacity with the same members.
    pub fn duplicate(&self) -> (copy: StateSet)
        ensures
            copy.capacity() == self.capacity(),
            copy@ == self@,
    {
        let mut marks: Vec<bool> = Vec::new();
        let mut i: usize = 0;
        while i < self.marks.len()
            invariant
                i <= self.marks@.len(),
                marks@.len() == i,
                forall|j: int| 0 <= j < i ==> marks@[j] == self.marks@[j],
            decreases self.marks@.len() - i,
        {
            marks.push(self.marks[i]);
            i += 1;
        }
        let copy = StateSet { marks };
        assert(copy@ =~= self@);
        copy
    }

    /// Whether both sets hold the same indices.
    pub fn same_as(&self, other: &StateSet) -> (same: bool)
        requires
            self.capacity() == other.capacity(),
        ensures
            same == (self@ == other@),
    {
        let mut i: usize = 0;
        while i < self.marks.len()
            invariant
                i <= self.marks@.len(),
                self.marks@.len() == other.marks@.len(),
                forall|j: int| 0 <= j < i ==> self.marks@[j] == other.marks@[j],
            decreases self.marks@.len() - i,
        {
            if self.marks[i] != other.marks[i] {
                assert(self@.contains(i as int) != other@.contains(i as int));
                return false;
            }
            i += 1;
        }
        assert(self@ =~= other@);
        true
    }
}

} // verus!
