//! A small set of cell coordinates, kept as a duplicate-free vector and
//! viewed as a mathematical set.

use vstd::prelude::*;

verus! {

broadcast use vstd::seq_lib::group_seq_properties;

/// A set of `(column, row)` coordinates without duplicates.
#[derive(Debug)]
pub struct RefSet {
    pub items: Vec<(u32, u32)>,
}

impl View for RefSet {
    type V = Set<(u32, u32)>;

    open spec fn view(&self) -> Set<(u32, u32)> {
        self.items@.to_set()
    }
}

impl RefSet {
    /// No coordinate appears twice.
    pub open spec fn wf(self) -> bool {
        forall|i: int, j: int|
            0 <= i < j < self.items@.len() ==> self.items@[i] != self.items@[j]
    }

    pub fn new() -> (r: RefSet)
        ensures
            r@ =~= Set::<(u32, u32)>::empty(),
            r.wf(),
            r.items@.len() == 0,
    {
        RefSet { items: Vec::new() }
    }

    pub fn contains(&self, x: (u32, u32)) -> (r: bool)
        ensures
            r == self@.contains(x),
    {
        let n = self.items.len();
        let mut i: usize = 0;
        while i < n
            invariant
                i <= n == self.items@.len(),
                forall|k: int| 0 <= k < i ==> self.items@[k] != x,
            decreases n - i,
        {
            let it = self.items[i];
            if it.0 == x.0 && it.1 == x.1 {
                assert(self.items@.contains(x));
                return true;
            }
            i = i + 1;
        }
        assert(!self.items@.contains(x));
        false
    }

    /// Adds a coordinate; nothing changes when it is already present.
    pub fn insert(&mut self, x: (u32, u32))
        requires
            old(self).wf(),
        ensures
            final(self).wf(),
            final(self)@ =~= old(self)@.insert(x),
    {
        if !self.contains(x) {
            self.items.push(x);
            assert(self.items@.drop_last() == old(self).items@);
            assert(self@ =~= old(self)@.insert(x));
        } else {
            assert(self@ =~= old(self)@.insert(x));
        }
    }

    /// Removes a coordinate if present.
    pub fn remove(&mut self, x: (u32, u32))
        requires
            old(self).wf(),
        ensures
            final(self).wf(),
            final(self)@ =~= old(self)@.remove(x),
    {
        let n = self.items.len();
        let mut i: usize = 0;
        while i < n
            invariant
                i <= n == self.items@.len(),
                self.items@ == old(self).items@,
                old(self).wf(),
                forall|k: int| 0 <= k < i ==> self.items@[k] != x,
            decreases n - i,
        {
            let it = self.items[i];
            if it.0 == x.0 && it.1 == x.1 {
                self.items.remove(i);
                assert(forall|y: (u32, u32)|
                    old(self).items@.contains(y) && y != x ==> self.items@.contains(y)) by {
                    assert forall|y: (u32, u32)|
                        old(self).items@.contains(y) && y != x implies self.items@.contains(
                        y,
                    ) by {
                        let k = choose|k: int|
                            0 <= k < old(self).items@.len() && old(self).items@[k] == y;
                        if k < i {
                            assert(self.items@[k] == y);
                        } else {
                            assert(self.items@[k - 1] == y);
                        }
                    }
                }
                assert(self@ =~= old(self)@.remove(x));
                return ;
            }
            i = i + 1;
        }
        assert(!self.items@.contains(x));
        assert(self@ =~= old(self)@.remove(x));
    }

    pub fn is_empty(&self) -> (r: bool)
        ensures
            r == (self@ =~= Set::<(u32, u32)>::empty()),
    {
        if self.items.len() == 0 {
            assert(self@ =~= Set::<(u32, u32)>::empty());
            true
        } else {
            assert(self@.contains(self.items@[0]));
            false
        }
    }

    pub fn len(&self) -> (r: usize)
        ensures
            r == self.items@.len(),
    {
        self.items.len()
    }

    /// The coordinate at a position of the backing vector.
    pub fn item_at(&self, i: usize) -> (r: (u32, u32))
        requires
            i < self.items@.len(),
        ensures
            r == self.items@[i as int],
            self@.contains(r),
    {
        self.items[i]
    }
}

impl Clone for RefSet {
    fn clone(&self) -> (r: RefSet)
        ensures
            r.items@ == self.items@,
            r@ =~= self@,
    {
        let n = self.items.len();
        let mut items: Vec<(u32, u32)> = Vec::new();
        let mut i: usize = 0;
        while i < n
            invariant
                i <= n == self.items@.len(),
                items@ == self.items@.subrange(0, i as int),
            decreases n - i,
        {
            items.push(self.items[i]);
            assert(items@ =~= self.items@.subrange(0, i + 1));
            i = i + 1;
        }
        assert(items@ =~= self.items@);
        RefSet { items }
    }
}

impl PartialEq for RefSet {
    /// Two sets are equal when they hold the same coordinates, in any order.
    fn eq(&self, other: &RefSet) -> (r: bool) {
        let n = self.items.len();
        let mut i: usize = 0;
        while i < n
            invariant
                i <= n == self.items@.len(),
                forall|k: int| 0 <= k < i ==> other@.contains(self.items@[k]),
            decreases n - i,
        {
            if !other.contains(self.items[i]) {
                assert(self@.contains(self.items@[i as int]));
                assert(!(self@ =~= other@));
                return false;
            }
            i = i + 1;
        }
        let m = other.items.len();
        let mut j: usize = 0;
        while j < m
            invariant
                j <= m == other.items@.len(),
                forall|k: int| 0 <= k < self.items@.len() ==> other@.contains(self.items@[k]),
                forall|k: int| 0 <= k < j ==> self@.contains(other.items@[k]),
            decreases m - j,
        {
            if !self.contains(other.items[j]) {
                assert(other@.contains(other.items@[j as int]));
                assert(!(self@ =~= other@));
                return false;
            }
            j = j + 1;
        }
        proof {
            assert forall|y: (u32, u32)| self@.contains(y) implies other@.contains(y) by {
                let k = choose|k: int| 0 <= k < self.items@.len() && self.items@[k] == y;
                assert(other@.contains(self.items@[k]));
            }
            assert forall|y: (u32, u32)| other@.contains(y) implies self@.contains(y) by {
                let k = choose|k: int| 0 <= k < other.items@.len() && other.items@[k] == y;
                assert(self@.contains(other.items@[k]));
            }
            assert(self@ =~= other@);
        }
        true
    }
}

impl vstd::std_specs::cmp::PartialEqSpecImpl for RefSet {
    open spec fn obeys_eq_spec() -> bool {
        true
    }

    open spec fn eq_spec(&self, other: &RefSet) -> bool {
        self@ =~= other@
    }
}

} // verus!
