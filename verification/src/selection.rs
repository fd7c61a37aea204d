//! Sets of positions in an ordered list of packages.

use vstd::prelude::*;
use vstd::set_lib::*;

verus! {

/// The members of `flags` whose position is below `bound`.
pub open spec fn marked_below(flags: Seq<bool>, bound: int) -> Set<int> {
    Set::new(|i: int| 0 <= i < bound && i < flags.len() && flags[i])
}

/// `marked_below` is finite, bounded by `bound`, and grows by one position at a time.
pub proof fn lemma_marked_below(flags: Seq<bool>, bound: int)
    requires
        0 <= bound,
    ensures
        marked_below(flags, bound).finite(),
        marked_below(flags, bound).len() <= bound,
        !marked_below(flags, bound).contains(bound),
        marked_below(flags, bound + 1) == if bound < flags.len() && flags[bound] {
            marked_below(flags, bound).insert(bound)
        } else {
            marked_below(flags, bound)
        },
{
    lemma_int_range(0, bound);
    assert(marked_below(flags, bound).subset_of(set_int_range(0, bound)));
    lemma_len_subset(marked_below(flags, bound), set_int_range(0, bound));
    if bound < flags.len() && flags[bound] {
        assert(marked_below(flags, bound + 1) =~= marked_below(flags, bound).insert(bound));
    } else {
        assert(marked_below(flags, bound + 1) =~= marked_below(flags, bound));
    }
}

/// The members of `chosen` below `bound`, in ascending order.
pub open spec fn ascending(chosen: Set<int>, bound: int) -> Seq<int>
    decreases bound,
{
    if bound <= 0 {
        Seq::empty()
    } else if chosen.contains(bound - 1) {
        ascending(chosen, bound - 1).push(bound - 1)
    } else {
        ascending(chosen, bound - 1)
    }
}

/// `ascending` lists each member below the bound once, smaller ones first.
pub proof fn lemma_ascending(chosen: Set<int>, bound: int)
    requires
        0 <= bound,
    ensures
        ascending(chosen, bound).len() == chosen.intersect(set_int_range(0, bound)).len(),
        forall|a: int|
            0 <= a < ascending(chosen, bound).len() ==> 0 <= #[trigger] ascending(chosen, bound)[a]
                < bound && chosen.contains(ascending(chosen, bound)[a]),
        forall|a: int, b: int|
            0 <= a < b < ascending(chosen, bound).len() ==> ascending(chosen, bound)[a]
                < ascending(chosen, bound)[b],
        forall|p: int|
            0 <= p < bound && chosen.contains(p) ==> ascending(chosen, bound).contains(p),
    decreases bound,
{
    lemma_int_range(0, bound);
    if bound == 0 {
        assert(chosen.intersect(set_int_range(0, bound)) =~= Set::<int>::empty());
    } else {
        let shorter = ascending(chosen, bound - 1);
        let longer = ascending(chosen, bound);
        lemma_ascending(chosen, bound - 1);
        lemma_int_range(0, bound - 1);
        let below = chosen.intersect(set_int_range(0, bound - 1));
        if chosen.contains(bound - 1) {
            assert(chosen.intersect(set_int_range(0, bound)) =~= below.insert(bound - 1));
            assert forall|p: int| 0 <= p < bound && chosen.contains(p) implies longer.contains(
                p,
            ) by {
                if p == bound - 1 {
                    assert(longer[longer.len() - 1] == p);
                } else {
                    let a = choose|a: int| 0 <= a < shorter.len() && shorter[a] == p;
                    assert(longer[a] == p);
                }
            }
        } else {
            assert(chosen.intersect(set_int_range(0, bound)) =~= below);
        }
    }
}

/// A set of positions below a fixed capacity.
///
/// Its view is the set of selected positions; iteration goes by ascending
/// position, so every walk over a selection is reproducible.
#[derive(Debug)]
pub struct Selection {
    flags: Vec<bool>,
}

impl View for Selection {
    type V = Set<int>;

    closed spec fn view(&self) -> Set<int> {
        marked_below(self.flags@, self.flags@.len() as int)
    }
}

impl Selection {
    /// The number of positions that the selection ranges over.
    pub closed spec fn spec_capacity(&self) -> usize {
        self.flags.len()
    }

    /// The selected positions are finitely many and all lie below the capacity.
    pub proof fn lemma_bounded(&self)
        ensures
            self@.finite(),
            self@.len() <= self.capacity(),
            forall|i: int| self@.contains(i) ==> 0 <= i < self.capacity(),
    {
        lemma_marked_below(self.flags@, self.flags@.len() as int);
    }

    /// The empty selection over `capacity` positions.
    pub fn new(capacity: usize) -> (empty: Selection)
        ensures
            empty@ == Set::<int>::empty(),
            empty.capacity() == capacity,
    {
        let mut flags: Vec<bool> = Vec::new();
        let mut i: usize = 0;
        while i < capacity
            invariant
                i <= capacity,
                flags@.len() == i,
                forall|k: int| 0 <= k < i ==> !flags@[k],
            decreases capacity - i,
        {
            flags.push(false);
            i += 1;
        }
        let empty = Selection { flags };
        assert(empty@ =~= Set::<int>::empty());
        empty
    }

    #[verifier::when_used_as_spec(spec_capacity)]
    pub fn capacity(&self) -> (capacity: usize)
        ensures
            capacity == self.spec_capacity(),
    {
        self.flags.len()
    }

    /// Whether `position` is selected.
    pub fn contains(&self, position: usize) -> (found: bool)
        ensures
            found == self@.contains(position as int),
    {
        position < self.flags.len() && self.flags[position]
    }

    /// Adds `position` to the selection.
    pub fn insert(&mut self, position: usize)
        requires
            position < old(self).capacity(),
        ensures
            final(self)@ == old(self)@.insert(position as int),
            final(self).capacity() == old(self).capacity(),
    {
        self.flags.set(position, true);
        assert(self@ =~= old(self)@.insert(position as int));
    }

    /// The number of selected positions.
    pub fn len(&self) -> (count: usize)
        ensures
            count == self@.len(),
    {
        let mut count: usize = 0;
        let mut i: usize = 0;
        assert(marked_below(self.flags@, 0) =~= Set::<int>::empty());
        while i < self.flags.len()
            invariant
                i <= self.flags.len(),
                count == marked_below(self.flags@, i as int).len(),
                count <= i,
            decreases self.flags.len() - i,
        {
            proof {
                lemma_marked_below(self.flags@, i as int);
            }
            if self.flags[i] {
                count += 1;
            }
            i += 1;
        }
        count
    }

    /// Adds every position of `other` to the selection.
    pub fn merge(&mut self, other: &Selection)
        requires
            other.capacity() == old(self).capacity(),
        ensures
            final(self)@ == old(self)@.union(other@),
            final(self).capacity() == old(self).capacity(),
    {
        let mut i: usize = 0;
        while i < self.flags.len()
            invariant
                i <= self.flags.len(),
                self.flags@.len() == old(self).flags@.len(),
                other.flags@.len() == self.flags@.len(),
                forall|k: int|
                    0 <= k < i ==> #[trigger] self.flags@[k] == (old(self).flags@[k]
                        || other.flags@[k]),
                forall|k: int|
                    i <= k < self.flags@.len() ==> #[trigger] self.flags@[k] == old(self).flags@[k],
            decreases self.flags.len() - i,
        {
            if other.flags[i] {
                self.flags.set(i, true);
            }
            i += 1;
        }
        assert(self@ =~= old(self)@.union(other@));
    }

    /// The positions below the capacity that are not selected.
    pub fn complement(&self) -> (rest: Selection)
        ensures
            rest.capacity() == self.capacity(),
            rest@ == set_int_range(0, self.capacity() as int).difference(self@),
    {
        let mut flags: Vec<bool> = Vec::new();
        let mut i: usize = 0;
        while i < self.flags.len()
            invariant
                i <= self.flags.len(),
                flags@.len() == i,
                forall|k: int| 0 <= k < i ==> flags@[k] == !self.flags@[k],
            decreases self.flags.len() - i,
        {
            flags.push(!self.flags[i]);
            i += 1;
        }
        let rest = Selection { flags };
        assert(rest@ =~= set_int_range(0, self.capacity() as int).difference(self@));
        rest
    }

    /// The selected positions in ascending order.
    pub fn positions(&self) -> (list: Vec<usize>)
        ensures
            list@.map_values(|p: usize| p as int) == ascending(self@, self.capacity() as int),
    {
        let mut list: Vec<usize> = Vec::new();
        let mut i: usize = 0;
        assert(list@.map_values(|p: usize| p as int) =~= ascending(self@, 0));
        while i < self.flags.len()
            invariant
                i <= self.flags.len(),
                list@.map_values(|p: usize| p as int) == ascending(self@, i as int),
            decreases self.flags.len() - i,
        {
            let ghost before = list@;
            if self.flags[i] {
                list.push(i);
                assert(list@.map_values(|p: usize| p as int) =~= before.map_values(
                    |p: usize| p as int,
                ).push(i as int));
            }
            i += 1;
        }
        list
    }
}

} // verus!
