//! The dependency-aware sheet: it owns the cells, keeps the reverse
//! dependency index consistent with them, refuses formulas that would close
//! a reference cycle, and recomputes the affected cells in dependency order
//! after every edit.

use vstd::prelude::*;

use crate::cell::{cell_update_response, resp_of, cv_eq, cv_wf, Cell, CellUpdateRequest, CellUpdateResponse,
    CellValue, CellValueS, RespS};
use crate::decimal::Dec;
use crate::expression::Expression;
use crate::refs::RefSet;
use crate::solve::{CellLookup, FuncTable};

verus! {

// ---------------------------------------------------------------------------
// Association maps keyed by a cell coordinate, viewed as mathematical maps.
// ---------------------------------------------------------------------------
/// An association from cell coordinates to values, with distinct keys. The
/// sheet keys its cells and its reverse dependency index this way.
pub struct PairMap<V> {
    pub items: Vec<((u32, u32), V)>,
}

/// Whether a key sequence holds a key.
pub open spec fn has_key<V>(items: Seq<((u32, u32), V)>, k: (u32, u32)) -> bool {
    exists|i: int| 0 <= i < items.len() && (#[trigger] items[i]).0 == k
}

/// The map a key-value sequence denotes; meaningful when keys are distinct.
pub open spec fn map_of<V>(items: Seq<((u32, u32), V)>) -> Map<(u32, u32), V> {
    Map::new(
        |k: (u32, u32)| has_key(items, k),
        |k: (u32, u32)|
            items[choose|i: int| 0 <= i < items.len() && (#[trigger] items[i]).0 == k].1,
    )
}

pub open spec fn distinct_keys<V>(items: Seq<((u32, u32), V)>) -> bool {
    forall|i: int, j: int|
        0 <= i < j < items.len() ==> (#[trigger] items[i]).0 != (#[trigger] items[j]).0
}

/// With distinct keys, the denoted map reads each entry back.
pub proof fn lemma_map_of_index<V>(items: Seq<((u32, u32), V)>, i: int)
    requires
        distinct_keys(items),
        0 <= i < items.len(),
    ensures
        map_of(items).dom().contains(items[i].0),
        map_of(items)[items[i].0] == items[i].1,
{
    let k = items[i].0;
    assert(has_key(items, k));
    let j = choose|j: int| 0 <= j < items.len() && (#[trigger] items[j]).0 == k;
    if i != j {
        if i < j {
            assert(items[i].0 != items[j].0);
        } else {
            assert(items[j].0 != items[i].0);
        }
    }
}

impl<V> PairMap<V> {
    pub open spec fn wf(self) -> bool {
        distinct_keys(self.items@)
    }

    pub open spec fn view_map(self) -> Map<(u32, u32), V> {
        map_of(self.items@)
    }

    pub fn new() -> (r: PairMap<V>)
        ensures
            r.wf(),
            r.view_map() =~= Map::<(u32, u32), V>::empty(),
    {
        let r = PairMap { items: Vec::new() };
        proof {
            assert(r.view_map() =~= Map::<(u32, u32), V>::empty());
        }
        r
    }

    fn find(&self, k: (u32, u32)) -> (r: Option<usize>)
        ensures
            match r {
                Some(i) => i < self.items@.len() && self.items@[i as int].0 == k,
                None => !has_key(self.items@, k),
            },
    {
        let n = self.items.len();
        let mut i: usize = 0;
        while i < n
            invariant
                i <= n == self.items@.len(),
                forall|j: int| 0 <= j < i ==> (#[trigger] self.items@[j]).0 != k,
            decreases n - i,
        {
            let key = self.items[i].0;
            if key.0 == k.0 && key.1 == k.1 {
                return Some(i);
            }
            i = i + 1;
        }
        None
    }

    pub fn get(&self, k: (u32, u32)) -> (r: Option<&V>)
        requires
            self.wf(),
        ensures
            match r {
                Some(c) => self.view_map().dom().contains(k) && *c == self.view_map()[k],
                None => !self.view_map().dom().contains(k),
            },
    {
        match self.find(k) {
            Some(i) => {
                proof {
                    lemma_map_of_index(self.items@, i as int);
                }
                Some(&self.items[i].1)
            },
            None => None,
        }
    }

    /// Stores a value under a coordinate, handing back the one it replaces.
    pub fn insert(&mut self, k: (u32, u32), v: V) -> (r: Option<V>)
        requires
            old(self).wf(),
        ensures
            final(self).wf(),
            final(self).view_map() =~= old(self).view_map().insert(k, v),
            match r {
                Some(c) => old(self).view_map().dom().contains(k) && c == old(self).view_map()[k],
                None => !old(self).view_map().dom().contains(k),
            },
    {
        let ghost items0 = self.items@;
        match self.find(k) {
            Some(i) => {
                proof {
                    lemma_map_of_index(items0, i as int);
                }
                let old_entry = self.items.remove(i);
                self.items.push((k, v));
                proof {
                    let items1 = self.items@;
                    assert forall|a: int, b: int|
                        0 <= a < b < items1.len() implies (#[trigger] items1[a]).0 != (
                    #[trigger] items1[b]).0 by {
                        lemma_removed_push_keys(items0, i as int, k, v, a, b);
                    }
                    assert_maps_equal_post_insert(items0, i as int, k, v, items1);
                }
                Some(old_entry.1)
            },
            None => {
                self.items.push((k, v));
                proof {
                    let items1 = self.items@;
                    assert(items1.drop_last() == items0);
                    assert(items1[items1.len() - 1].0 == k);
                    assert(has_key(items1, k));
                    assert forall|x: (u32, u32)|
                        has_key(items1, x) implies has_key(items0, x) || x == k by {
                        let i = choose|i: int|
                            0 <= i < items1.len() && (#[trigger] items1[i]).0 == x;
                        if i < items0.len() {
                            assert(items0[i].0 == x);
                        }
                    }
                    assert forall|x: (u32, u32)| has_key(items0, x) implies has_key(
                        items1,
                        x,
                    ) by {
                        let i = choose|i: int|
                            0 <= i < items0.len() && (#[trigger] items0[i]).0 == x;
                        assert(items1[i].0 == x);
                    }
                    assert forall|x: (u32, u32)|
                        map_of(items1).dom().contains(x) implies #[trigger] map_of(items1)[x]
                        == map_of(items0).insert(k, v)[x] by {
                        let i = choose|i: int|
                            0 <= i < items1.len() && (#[trigger] items1[i]).0 == x;
                        lemma_map_of_index(items1, i);
                        if x == k {
                            assert(items1[items1.len() - 1].0 == k);
                            lemma_map_of_index(items1, items1.len() - 1);
                        } else {
                            assert(i < items0.len());
                            lemma_map_of_index(items0, i);
                        }
                    }
                    assert(self.view_map() =~= map_of(items0).insert(k, v));
                }
                None
            },
        }
    }

    /// Removes a coordinate's value, handing it back if it was there.
    pub fn remove(&mut self, k: (u32, u32)) -> (r: Option<V>)
        requires
            old(self).wf(),
        ensures
            final(self).wf(),
            final(self).view_map() =~= old(self).view_map().remove(k),
            match r {
                Some(c) => old(self).view_map().dom().contains(k) && c == old(self).view_map()[k],
                None => !old(self).view_map().dom().contains(k),
            },
    {
        let ghost items0 = self.items@;
        match self.find(k) {
            Some(i) => {
                proof {
                    lemma_map_of_index(items0, i as int);
                }
                let old_entry = self.items.remove(i);
                proof {
                    let items1 = self.items@;
                    lemma_removed_keys(items0, i as int, items1);
                    assert(self.view_map() =~= map_of(items0).remove(k));
                }
                Some(old_entry.1)
            },
            None => {
                proof {
                    assert(self.view_map() =~= map_of(items0).remove(k));
                }
                None
            },
        }
    }
}

/// After removing entry `i` and pushing `(k, v)` the keys stay distinct,
/// where `k` was entry `i`'s key.
proof fn lemma_removed_push_keys<V>(
    items0: Seq<((u32, u32), V)>,
    i: int,
    k: (u32, u32),
    v: V,
    a: int,
    b: int,
)
    requires
        distinct_keys(items0),
        0 <= i < items0.len(),
        items0[i].0 == k,
        0 <= a < b < items0.remove(i).push((k, v)).len(),
    ensures
        items0.remove(i).push((k, v))[a].0 != items0.remove(i).push((k, v))[b].0,
{
    let items1 = items0.remove(i).push((k, v));
    let n0 = items0.len();
    if b < n0 - 1 {
        let a0 = if a < i {
            a
        } else {
            a + 1
        };
        let b0 = if b < i {
            b
        } else {
            b + 1
        };
        assert(items1[a] == items0[a0]);
        assert(items1[b] == items0[b0]);
    } else {
        let a0 = if a < i {
            a
        } else {
            a + 1
        };
        assert(items1[a] == items0[a0]);
        assert(items1[b].0 == k);
        assert(items0[a0].0 != items0[i].0);
    }
}

/// The insert-by-replacement denotes the inserted map.
proof fn assert_maps_equal_post_insert<V>(
    items0: Seq<((u32, u32), V)>,
    i: int,
    k: (u32, u32),
    v: V,
    items1: Seq<((u32, u32), V)>,
)
    requires
        distinct_keys(items0),
        distinct_keys(items1),
        0 <= i < items0.len(),
        items0[i].0 == k,
        items1 == items0.remove(i).push((k, v)),
    ensures
        map_of(items1) =~= map_of(items0).insert(k, v),
{
    let n0 = items0.len();
    assert forall|x: (u32, u32)| has_key(items1, x) implies has_key(items0, x) by {
        let j = choose|j: int| 0 <= j < items1.len() && (#[trigger] items1[j]).0 == x;
        if j < n0 - 1 {
            let j0 = if j < i {
                j
            } else {
                j + 1
            };
            assert(items1[j] == items0[j0]);
            assert(items0[j0].0 == x);
        } else {
            assert(items0[i].0 == x);
        }
    }
    assert forall|x: (u32, u32)| has_key(items0, x) implies has_key(items1, x) by {
        let j = choose|j: int| 0 <= j < items0.len() && (#[trigger] items0[j]).0 == x;
        if j == i {
            assert(items1[items1.len() - 1].0 == k);
        } else {
            let j1 = if j < i {
                j
            } else {
                j - 1
            };
            assert(items1[j1] == items0[j]);
            assert(items1[j1].0 == x);
        }
    }
    assert forall|x: (u32, u32)| map_of(items1).dom().contains(x) implies #[trigger] map_of(items1)[x] == map_of(items0).insert(k, v)[x] by {
        let j = choose|j: int| 0 <= j < items1.len() && (#[trigger] items1[j]).0 == x;
        lemma_map_of_index(items1, j);
        if x == k {
            assert(items1[items1.len() - 1].0 == k);
            lemma_map_of_index(items1, items1.len() - 1);
        } else {
            assert(j < items1.len() - 1);
            let j0 = if j < i {
                j
            } else {
                j + 1
            };
            assert(items1[j] == items0[j0]);
            lemma_map_of_index(items0, j0);
        }
    }
}

/// After removing entry `i` the keys stay distinct and the denoted map
/// loses exactly that key.
proof fn lemma_removed_keys<V>(
    items0: Seq<((u32, u32), V)>,
    i: int,
    items1: Seq<((u32, u32), V)>,
)
    requires
        distinct_keys(items0),
        0 <= i < items0.len(),
        items1 == items0.remove(i),
    ensures
        distinct_keys(items1),
        map_of(items1) =~= map_of(items0).remove(items0[i].0),
{
    let k = items0[i].0;
    assert forall|a: int, b: int|
        0 <= a < b < items1.len() implies (#[trigger] items1[a]).0 != (#[trigger] items1[b]).0 by {
        let a0 = if a < i {
            a
        } else {
            a + 1
        };
        let b0 = if b < i {
            b
        } else {
            b + 1
        };
        assert(items1[a] == items0[a0]);
        assert(items1[b] == items0[b0]);
    }
    assert forall|x: (u32, u32)| has_key(items1, x) implies has_key(items0, x) && x != k by {
        let j = choose|j: int| 0 <= j < items1.len() && (#[trigger] items1[j]).0 == x;
        let j0 = if j < i {
            j
        } else {
            j + 1
        };
        assert(items1[j] == items0[j0]);
        assert(items0[j0].0 == x);
        if j0 != i {
            if j0 < i {
                assert(items0[j0].0 != items0[i].0);
            } else {
                assert(items0[i].0 != items0[j0].0);
            }
        }
    }
    assert forall|x: (u32, u32)| has_key(items0, x) && x != k implies has_key(items1, x) by {
        let j = choose|j: int| 0 <= j < items0.len() && (#[trigger] items0[j]).0 == x;
        let j1 = if j < i {
            j
        } else {
            j - 1
        };
        assert(items1[j1] == items0[j]);
        assert(items1[j1].0 == x);
    }
    assert forall|x: (u32, u32)| map_of(items1).dom().contains(x) implies #[trigger] map_of(items1)[x] == map_of(items0)[x] by {
        let j = choose|j: int| 0 <= j < items1.len() && (#[trigger] items1[j]).0 == x;
        lemma_map_of_index(items1, j);
        let j0 = if j < i {
            j
        } else {
            j + 1
        };
        assert(items1[j] == items0[j0]);
        lemma_map_of_index(items0, j0);
    }
}

// ---------------------------------------------------------------------------
// The dependency graph over committed cells.
// ---------------------------------------------------------------------------
/// `a`'s committed formula reads `b`.
pub open spec fn dep_edge(cells: Map<(u32, u32), Cell>, a: (u32, u32), b: (u32, u32)) -> bool {
    cells.dom().contains(a) && cells[a].deps().contains(b)
}

/// `b` lies within `n` dependency steps of `a` (zero steps included).
pub open spec fn reaches(cells: Map<(u32, u32), Cell>, a: (u32, u32), b: (u32, u32), n: nat) -> bool
    decreases n,
{
    a == b || (n > 0 && exists|m: (u32, u32)|
        #[trigger] dep_edge(cells, a, m) && reaches(cells, m, b, (n - 1) as nat))
}

/// No committed cell's transitive dependency closure holds its own address.
pub open spec fn acyclic(cells: Map<(u32, u32), Cell>) -> bool {
    forall|a: (u32, u32), m: (u32, u32), n: nat|
        !(#[trigger] dep_edge(cells, a, m) && #[trigger] reaches(cells, m, a, n))
}

/// Some start coordinate lies within finitely many steps of `x`.
pub open spec fn reachable_from(
    cells: Map<(u32, u32), Cell>,
    start: Set<(u32, u32)>,
    x: (u32, u32),
) -> bool {
    exists|d: (u32, u32), n: nat| start.contains(d) && #[trigger] reaches(cells, d, x, n)
}

pub proof fn lemma_reaches_compose(
    cells: Map<(u32, u32), Cell>,
    x: (u32, u32),
    y: (u32, u32),
    z: (u32, u32),
    n: nat,
    m: nat,
)
    requires
        reaches(cells, x, y, n),
        reaches(cells, y, z, m),
    ensures
        reaches(cells, x, z, n + m),
    decreases n,
{
    if x == y {
        lemma_reaches_mono(cells, y, z, m, n + m);
    } else {
        let w = choose|w: (u32, u32)|
            #[trigger] dep_edge(cells, x, w) && reaches(cells, w, y, (n - 1) as nat);
        lemma_reaches_compose(cells, w, y, z, (n - 1) as nat, m);
    }
}

pub proof fn lemma_reaches_mono(
    cells: Map<(u32, u32), Cell>,
    x: (u32, u32),
    y: (u32, u32),
    n: nat,
    m: nat,
)
    requires
        reaches(cells, x, y, n),
        n <= m,
    ensures
        reaches(cells, x, y, m),
    decreases n,
{
    if x != y {
        let w = choose|w: (u32, u32)|
            #[trigger] dep_edge(cells, x, w) && reaches(cells, w, y, (n - 1) as nat);
        lemma_reaches_mono(cells, w, y, (n - 1) as nat, (m - 1) as nat);
    }
}

/// A set closed under dependency edges holds everything its members reach.
pub proof fn lemma_closed_reach(
    cells: Map<(u32, u32), Cell>,
    s: Set<(u32, u32)>,
    x: (u32, u32),
    y: (u32, u32),
    n: nat,
)
    requires
        s.contains(x),
        forall|v: (u32, u32), m: (u32, u32)|
            s.contains(v) && #[trigger] dep_edge(cells, v, m) ==> s.contains(m),
        reaches(cells, x, y, n),
    ensures
        s.contains(y),
    decreases n,
{
    if x != y {
        let w = choose|w: (u32, u32)|
            #[trigger] dep_edge(cells, x, w) && reaches(cells, w, y, (n - 1) as nat);
        lemma_closed_reach(cells, s, w, y, (n - 1) as nat);
    }
}

// ---------------------------------------------------------------------------
// A finite universe bounding everything the cycle check can visit: the
// candidate dependencies and every committed cell's dependencies.
// ---------------------------------------------------------------------------
pub open spec fn dep_universe(
    items: Seq<((u32, u32), Cell)>,
    start: Set<(u32, u32)>,
) -> Set<(u32, u32)>
    decreases items.len(),
{
    if items.len() == 0 {
        start
    } else {
        dep_universe(items.drop_last(), start) + items.last().1.deps()
    }
}

proof fn lemma_universe_finite(items: Seq<((u32, u32), Cell)>, start: Set<(u32, u32)>)
    requires
        start.finite(),
        forall|i: int| 0 <= i < items.len() ==> (#[trigger] items[i]).1.deps().finite(),
    ensures
        dep_universe(items, start).finite(),
        start.subset_of(dep_universe(items, start)),
        forall|i: int|
            0 <= i < items.len() ==> (#[trigger] items[i]).1.deps().subset_of(
                dep_universe(items, start),
            ),
    decreases items.len(),
{
    if items.len() > 0 {
        lemma_universe_finite(items.drop_last(), start);
        assert forall|i: int|
            0 <= i < items.len() implies (#[trigger] items[i]).1.deps().subset_of(
            dep_universe(items, start),
        ) by {
            if i < items.len() - 1 {
                assert(items.drop_last()[i] == items[i]);
            }
        }
    }
}

/// Every committed cell's dependencies lie in the universe.
proof fn lemma_universe_covers(
    items: Seq<((u32, u32), Cell)>,
    start: Set<(u32, u32)>,
    k: (u32, u32),
)
    requires
        distinct_keys(items),
        map_of(items).dom().contains(k),
    ensures
        map_of(items)[k].deps().subset_of(dep_universe(items, start)),
{
    let i = choose|i: int| 0 <= i < items.len() && (#[trigger] items[i]).0 == k;
    lemma_map_of_index(items, i);
    assert forall|j: int|
        0 <= j < items.len() implies (#[trigger] items[j]).1.deps().finite() by {
        assert(items[j].1.deps() =~= if items[j].1.expression is Some {
            items[j].1.expression->0.cell_dependencies.items@.to_set()
        } else {
            Set::empty()
        });
    }
    lemma_universe_finite_weak(items, start, i);
}

proof fn lemma_universe_finite_weak(
    items: Seq<((u32, u32), Cell)>,
    start: Set<(u32, u32)>,
    i: int,
)
    requires
        0 <= i < items.len(),
    ensures
        items[i].1.deps().subset_of(dep_universe(items, start)),
    decreases items.len(),
{
    if i < items.len() - 1 {
        lemma_universe_finite_weak(items.drop_last(), start, i);
        assert(items.drop_last()[i] == items[i]);
    }
}

// ---------------------------------------------------------------------------
// The sheet.
// ---------------------------------------------------------------------------
/// P5, the index consistency law: the reverse index holds exactly the live
/// dependency edges, and no entry is kept empty.
pub open spec fn index_consistent(
    cells: Map<(u32, u32), Cell>,
    index: Map<(u32, u32), RefSet>,
) -> bool {
    &&& forall|c: (u32, u32), d: (u32, u32)|
        #[trigger] dep_edge(cells, c, d) ==> index.dom().contains(d) && index[d]@.contains(c)
    &&& forall|d: (u32, u32), c: (u32, u32)|
        index.dom().contains(d) && #[trigger] index[d]@.contains(c) ==> dep_edge(cells, c, d)
    &&& forall|d: (u32, u32)|
        #[trigger] index.dom().contains(d) ==> exists|c: (u32, u32)| index[d]@.contains(c)
}

/// A sheet: the cells, the shared function table, and the reverse
/// dependency index.
pub struct Sheet<F: FuncTable> {
    pub cells: PairMap<Cell>,
    pub functions: F,
    pub dependencies: PairMap<RefSet>,
}

impl<F: FuncTable> Sheet<F> {
    pub open spec fn cells_map(self) -> Map<(u32, u32), Cell> {
        self.cells.view_map()
    }

    pub open spec fn index_map(self) -> Map<(u32, u32), RefSet> {
        self.dependencies.view_map()
    }

    /// The sheet's validity: well-formed stores, the index consistency law
    /// and the cycle-freedom law.
    pub open spec fn wf(self) -> bool {
        &&& self.cells.wf()
        &&& self.dependencies.wf()
        &&& forall|k: (u32, u32)|
            self.cells_map().dom().contains(k) ==> (#[trigger] self.cells_map()[k]).wf()
        &&& forall|k: (u32, u32)|
            self.index_map().dom().contains(k) ==> (#[trigger] self.index_map()[k]).wf()
        &&& index_consistent(self.cells_map(), self.index_map())
        &&& acyclic(self.cells_map())
    }

    /// A fresh sheet over a function table.
    pub fn new(functions: F) -> (r: Sheet<F>)
        ensures
            r.wf(),
            r.cells_map() =~= Map::<(u32, u32), Cell>::empty(),
            r.index_map() =~= Map::<(u32, u32), RefSet>::empty(),
    {
        let r = Sheet { cells: PairMap::new(), functions, dependencies: PairMap::new() };
        proof {
            assert forall|a: (u32, u32), m: (u32, u32), n: nat|
                !(#[trigger] dep_edge(r.cells_map(), a, m) && #[trigger] reaches(
                    r.cells_map(),
                    m,
                    a,
                    n,
                )) by {}
        }
        r
    }

    /// Walks the committed dependency closure from the candidate set; an
    /// error if and only if the closure holds the edited cell itself.
    #[verifier::loop_isolation(false)]
    #[verifier::rlimit(100)]
    fn check_for_cycles(&self, cell_addr: (u32, u32), new_cell_dependencies: &RefSet) -> (r:
        Result<(), ()>)
        requires
            self.cells.wf(),
            forall|k: (u32, u32)|
                self.cells_map().dom().contains(k) ==> (#[trigger] self.cells_map()[k]).wf(),
            new_cell_dependencies.wf(),
        ensures
            r is Ok ==> forall|d: (u32, u32), n: nat|
                new_cell_dependencies@.contains(d) ==> !#[trigger] reaches(
                    self.cells_map(),
                    d,
                    cell_addr,
                    n,
                ),
            r is Err ==> reachable_from(self.cells_map(), new_cell_dependencies@, cell_addr),
    {
        let ghost cm = self.cells_map();
        let ghost start = new_cell_dependencies@;
        let ghost uni = dep_universe(self.cells.items@, start);
        proof {
            assert forall|i: int|
                0 <= i < self.cells.items@.len() implies (
            #[trigger] self.cells.items@[i]).1.deps().finite() by {
                let c = self.cells.items@[i].1;
                if c.expression is Some {
                    assert(c.deps() == c.expression->0.cell_dependencies.items@.to_set());
                }
            }
            lemma_universe_finite(self.cells.items@, start);
        }
        let mut visited = RefSet::new();
        let mut new = new_cell_dependencies.clone();
        proof {
            assert forall|x: (u32, u32)| new@.contains(x) implies #[trigger] reachable_from(
                cm,
                start,
                x,
            ) by {
                assert(reaches(cm, x, x, 0));
            }
        }
        if new.is_empty() {
            return Ok(());
        }
        loop
            invariant
                self.cells.wf(),
                visited.wf(),
                new.wf(),
                cm == self.cells_map(),
                start == new_cell_dependencies@,
                uni == dep_universe(self.cells.items@, start),
                uni.finite(),
                visited@.subset_of(uni),
                new@.subset_of(uni),
                forall|d: (u32, u32)|
                    start.contains(d) ==> visited@.contains(d) || new@.contains(d),
                !visited@.contains(cell_addr),
                forall|v: (u32, u32)|
                    visited@.contains(v) ==> #[trigger] reachable_from(cm, start, v),
                forall|x: (u32, u32)|
                    new@.contains(x) ==> #[trigger] reachable_from(cm, start, x),
                forall|v: (u32, u32), m: (u32, u32)|
                    visited@.contains(v) && #[trigger] dep_edge(cm, v, m) ==> visited@.contains(m)
                        || new@.contains(m),
            decreases uni.len() - visited@.len(),
        {
            let pending = new;
            new = RefSet::new();
            let ghost visited0 = visited@;
            let pn = pending.len();
            let mut i: usize = 0;
            while i < pn
                invariant
                    self.cells.wf(),
                    visited.wf(),
                    new.wf(),
                    pending.wf(),
                    cm == self.cells_map(),
                    uni == dep_universe(self.cells.items@, start),
                    uni.finite(),
                    i <= pn == pending.items@.len(),
                    visited@.subset_of(uni),
                    new@.subset_of(uni),
                    pending@.subset_of(uni),
                    visited0.subset_of(visited@),
                    !(new@ =~= Set::<(u32, u32)>::empty()) ==> visited@.len() >= visited0.len()
                        + 1,
                    forall|d: (u32, u32)|
                        start.contains(d) ==> visited@.contains(d) || new@.contains(d) || exists|
                            k: int,
                        | i <= k < pn && pending.items@[k] == d,
                    !visited@.contains(cell_addr),
                    forall|v: (u32, u32)|
                        visited@.contains(v) ==> #[trigger] reachable_from(cm, start, v),
                    forall|x: (u32, u32)|
                        new@.contains(x) ==> #[trigger] reachable_from(cm, start, x),
                    forall|x: (u32, u32)|
                        pending@.contains(x) ==> #[trigger] reachable_from(cm, start, x),
                    forall|v: (u32, u32), m: (u32, u32)|
                        visited@.contains(v) && #[trigger] dep_edge(cm, v, m) ==> visited@.contains(m) || new@.contains(m) || exists|k: int|
                            i <= k < pn && pending.items@[k] == m,
                decreases pn - i,
            {
                let ghost v_entry = visited@;
                let ghost n_entry = new@;
                let cell_ref = pending.item_at(i);
                if cell_ref.0 == cell_addr.0 && cell_ref.1 == cell_addr.1 {
                    proof {
                        assert(cell_ref == cell_addr);
                        assert(pending@.contains(cell_ref));
                        assert(reachable_from(cm, start, cell_ref));
                        assert(reachable_from(self.cells_map(), new_cell_dependencies@, cell_addr));
                    }
                    return Err(());
                }
                let fresh = !visited.contains(cell_ref);
                if fresh {
                    let ghost vpre = visited@;
                    visited.insert(cell_ref);
                    proof {
                        vstd::set_lib::lemma_len_subset(vpre, uni);
                        vstd::set_lib::lemma_len_subset(visited0, vpre);
                        assert(visited@ =~= vpre.insert(cell_ref));
                        assert(visited@.len() == vpre.len() + 1);
                    }
                    match self.cells.get(cell_ref) {
                        Some(cell) => {
                            match cell.get_dependencies() {
                                Some(ds) => {
                                    proof {
                                        lemma_universe_covers(self.cells.items@, start, cell_ref);
                                        assert(self.cells_map().dom().contains(cell_ref));
                                        assert(self.cells_map()[cell_ref].wf());
                                        assert(ds@ =~= cm[cell_ref].deps());
                                        assert(ds.wf());
                                    }
                                    let dn = ds.len();
                                    let mut j: usize = 0;
                                    while j < dn
                                        invariant
                                            visited.wf(),
                                            new.wf(),
                                            ds.wf(),
                                            n_entry.subset_of(new@),
                                            j <= dn == ds.items@.len(),
                                            cm == self.cells_map(),
                                            uni == dep_universe(self.cells.items@, start),
                                            uni.finite(),
                                            new@.subset_of(uni),
                                            ds@.subset_of(uni),
                                            visited@.contains(cell_ref),
                                            reachable_from(cm, start, cell_ref),
                                            forall|x: (u32, u32)|
                                                ds@.contains(x) ==> #[trigger] dep_edge(
                                                    cm,
                                                    cell_ref,
                                                    x,
                                                ),
                                            forall|x: (u32, u32)|
                                                new@.contains(x) ==> #[trigger] reachable_from(
                                                    cm,
                                                    start,
                                                    x,
                                                ),
                                            forall|k2: int|
                                                0 <= k2 < j ==> new@.contains(
                                                    #[trigger] ds.items@[k2],
                                                ),
                                        decreases dn - j,
                                    {
                                        let d = ds.item_at(j);
                                        proof {
                                            assert(reachable_from(cm, start, d)) by {
                                                let (d1, n1) = choose|d1: (u32, u32), n1: nat|
                                                    start.contains(d1) && #[trigger] reaches(
                                                        cm,
                                                        d1,
                                                        cell_ref,
                                                        n1,
                                                    );
                                                assert(dep_edge(cm, cell_ref, d));
                                                assert(reaches(cm, d, d, 0));
                                                assert(reaches(cm, cell_ref, d, 1));
                                                lemma_reaches_compose(
                                                    cm,
                                                    d1,
                                                    cell_ref,
                                                    d,
                                                    n1,
                                                    1,
                                                );
                                            }
                                        }
                                        new.insert(d);
                                        j = j + 1;
                                    }
                                },
                                None => {},
                            }
                        },
                        None => {},
                    }
                }
                proof {
                    assert(visited@.contains(cell_ref));
                    assert(v_entry.subset_of(visited@));
                    assert(n_entry.subset_of(new@));
                    assert forall|d: (u32, u32)|
                        start.contains(d) implies visited@.contains(d) || new@.contains(d)
                        || exists|k: int| i + 1 <= k < pn && pending.items@[k] == d by {
                        if !(visited@.contains(d) || new@.contains(d)) {
                            assert(!(v_entry.contains(d) || n_entry.contains(d)));
                            let k = choose|k: int|
                                i <= k < pn && #[trigger] pending.items@[k] == d;
                            if k == i {
                                assert(d == cell_ref);
                            } else {
                                assert(i + 1 <= k < pn && pending.items@[k] == d);
                            }
                        }
                    }
                    assert forall|v: (u32, u32), m: (u32, u32)|
                        visited@.contains(v) && #[trigger] dep_edge(cm, v, m) implies visited@
                        .contains(m) || new@.contains(m) || exists|k: int|
                        i + 1 <= k < pn && pending.items@[k] == m by {
                        if v == cell_ref && fresh {
                            if self.cells_map().dom().contains(cell_ref) {
                                let c = self.cells_map()[cell_ref];
                                if c.expression is Some {
                                    assert(c.deps().contains(m));
                                    assert(new@.contains(m));
                                } else {
                                    assert(c.deps() =~= Set::<(u32, u32)>::empty());
                                }
                            }
                        } else {
                            assert(v_entry.contains(v));
                            if !(visited@.contains(m) || new@.contains(m)) {
                                assert(!(v_entry.contains(m) || n_entry.contains(m)));
                                let k = choose|k: int|
                                    i <= k < pn && #[trigger] pending.items@[k] == m;
                                if k == i {
                                    assert(m == cell_ref);
                                } else {
                                    assert(i + 1 <= k < pn && pending.items@[k] == m);
                                }
                            }
                        }
                    }
                }
                i = i + 1;
            }
            if new.is_empty() {
                proof {
                    assert forall|d: (u32, u32), n: nat|
                        start.contains(d) implies !#[trigger] reaches(cm, d, cell_addr, n) by {
                        if reaches(cm, d, cell_addr, n) {
                            lemma_closed_reach(cm, visited@, d, cell_addr, n);
                        }
                    }
                }
                return Ok(());
            }
            proof {
                vstd::set_lib::lemma_len_subset(visited@, uni);
            }
        }
    }
}

// ---------------------------------------------------------------------------
// Preservation of cycle-freedom across an edit.
// ---------------------------------------------------------------------------
/// A path in a graph with fewer edges is a path in the larger graph.
proof fn lemma_reaches_sub(
    g1: Map<(u32, u32), Cell>,
    g2: Map<(u32, u32), Cell>,
    x: (u32, u32),
    y: (u32, u32),
    n: nat,
)
    requires
        forall|a: (u32, u32), b: (u32, u32)|
            #[trigger] dep_edge(g2, a, b) ==> dep_edge(g1, a, b),
        reaches(g2, x, y, n),
    ensures
        reaches(g1, x, y, n),
    decreases n,
{
    if x != y {
        let w = choose|w: (u32, u32)|
            #[trigger] dep_edge(g2, x, w) && reaches(g2, w, y, (n - 1) as nat);
        lemma_reaches_sub(g1, g2, w, y, (n - 1) as nat);
    }
}

/// Removing a cell, or replacing one by a cell without a formula, removes
/// edges only, so cycle-freedom is kept.
pub proof fn lemma_acyclic_sub(g1: Map<(u32, u32), Cell>, g2: Map<(u32, u32), Cell>)
    requires
        acyclic(g1),
        forall|a: (u32, u32), b: (u32, u32)|
            #[trigger] dep_edge(g2, a, b) ==> dep_edge(g1, a, b),
    ensures
        acyclic(g2),
{
    assert forall|a: (u32, u32), m: (u32, u32), n: nat|
        !(#[trigger] dep_edge(g2, a, m) && #[trigger] reaches(g2, m, a, n)) by {
        if dep_edge(g2, a, m) && reaches(g2, m, a, n) {
            lemma_reaches_sub(g1, g2, m, a, n);
        }
    }
}

/// A path to the edited cell in the new graph that does not start there is
/// a path in the old graph.
#[verifier::rlimit(100)]
proof fn lemma_reaches_to_addr(
    g0: Map<(u32, u32), Cell>,
    g1: Map<(u32, u32), Cell>,
    addr: (u32, u32),
    x: (u32, u32),
    n: nat,
)
    requires
        forall|a: (u32, u32), b: (u32, u32)|
            a != addr ==> (#[trigger] dep_edge(g1, a, b) <==> dep_edge(g0, a, b)),
        reaches(g1, x, addr, n),
        x != addr,
    ensures
        reaches(g0, x, addr, n),
    decreases n,
{
    let w = choose|w: (u32, u32)|
        #[trigger] dep_edge(g1, x, w) && reaches(g1, w, addr, (n - 1) as nat);
    if w == addr {
        assert(dep_edge(g0, x, addr));
        assert(reaches(g0, addr, addr, (n - 1) as nat));
        assert(reaches(g0, x, addr, n));
    } else {
        lemma_reaches_to_addr(g0, g1, addr, w, (n - 1) as nat);
        assert(dep_edge(g0, x, w));
        assert(reaches(g0, x, addr, n));
    }
}

/// A path in the new graph is a path in the old graph, or it passes through
/// the edited cell.
#[verifier::rlimit(100)]
proof fn lemma_reaches_split(
    g0: Map<(u32, u32), Cell>,
    g1: Map<(u32, u32), Cell>,
    addr: (u32, u32),
    x: (u32, u32),
    y: (u32, u32),
    n: nat,
)
    requires
        forall|a: (u32, u32), b: (u32, u32)|
            a != addr ==> (#[trigger] dep_edge(g1, a, b) <==> dep_edge(g0, a, b)),
        reaches(g1, x, y, n),
    ensures
        reaches(g0, x, y, n) || exists|j: nat| j <= n && #[trigger] reaches(g1, addr, y, j),
    decreases n,
{
    if x == y {
    } else {
        let w = choose|w: (u32, u32)|
            #[trigger] dep_edge(g1, x, w) && reaches(g1, w, y, (n - 1) as nat);
        if x == addr {
            assert(reaches(g1, addr, y, n));
        } else {
            lemma_reaches_split(g0, g1, addr, w, y, (n - 1) as nat);
            if reaches(g0, w, y, (n - 1) as nat) {
                assert(dep_edge(g0, x, w));
                assert(reaches(g0, x, y, n));
            }
        }
    }
}

/// Committing a formula whose dependencies cannot reach the edited cell in
/// the committed graph keeps the graph cycle-free.
#[verifier::rlimit(100)]
pub proof fn lemma_acyclic_insert(
    g0: Map<(u32, u32), Cell>,
    g1: Map<(u32, u32), Cell>,
    addr: (u32, u32),
    deps: Set<(u32, u32)>,
)
    requires
        acyclic(g0),
        g1.dom() =~= g0.dom().insert(addr),
        g1.dom().contains(addr) && g1[addr].deps() == deps,
        forall|k: (u32, u32)| k != addr && g0.dom().contains(k) ==> g1[k] == g0[k],
        forall|d: (u32, u32), n: nat|
            deps.contains(d) ==> !#[trigger] reaches(g0, d, addr, n),
    ensures
        acyclic(g1),
{
    assert forall|a: (u32, u32), b: (u32, u32)|
        a != addr implies (#[trigger] dep_edge(g1, a, b) <==> dep_edge(g0, a, b)) by {}
    assert(!deps.contains(addr)) by {
        if deps.contains(addr) {
            assert(reaches(g0, addr, addr, 0));
        }
    }
    assert forall|a: (u32, u32), m: (u32, u32), n: nat|
        !(#[trigger] dep_edge(g1, a, m) && #[trigger] reaches(g1, m, a, n)) by {
        if dep_edge(g1, a, m) && reaches(g1, m, a, n) {
            if a == addr {
                assert(deps.contains(m));
                assert(m != addr);
                lemma_reaches_to_addr(g0, g1, addr, m, n);
            } else {
                lemma_reaches_split(g0, g1, addr, m, a, n);
                if reaches(g0, m, a, n) {
                    assert(dep_edge(g0, a, m));
                } else {
                    let j = choose|j: nat| j <= n && #[trigger] reaches(g1, addr, a, j);
                    lemma_cycle_at_addr(g0, g1, addr, a, m, n, j);
                    let (d, k) = choose|d: (u32, u32), k: nat|
                        #[trigger] dep_edge(g1, addr, d) && #[trigger] reaches(g0, d, addr, k);
                    assert(deps.contains(d));
                }
            }
        }
    }
}

/// With `addr` reaching `a`, an edge `a -> m`, and `m` reaching `a`, some
/// dependency of the edited cell reaches it back in the old graph.
#[verifier::rlimit(100)]
proof fn lemma_cycle_at_addr(
    g0: Map<(u32, u32), Cell>,
    g1: Map<(u32, u32), Cell>,
    addr: (u32, u32),
    a: (u32, u32),
    m: (u32, u32),
    n: nat,
    j: nat,
)
    requires
        acyclic(g0),
        forall|x: (u32, u32), b: (u32, u32)|
            x != addr ==> (#[trigger] dep_edge(g1, x, b) <==> dep_edge(g0, x, b)),
        g1.dom().contains(addr),
        dep_edge(g1, a, m),
        a != addr,
        reaches(g1, m, a, n),
        reaches(g1, addr, a, j),
    ensures
        exists|d: (u32, u32), k: nat|
            #[trigger] dep_edge(g1, addr, d) && #[trigger] reaches(g0, d, addr, k),
    decreases j,
{
    if j == 0 {
        assert(addr == a);
        assert(false);
    } else {
        let d = choose|d: (u32, u32)|
            #[trigger] dep_edge(g1, addr, d) && reaches(g1, d, a, (j - 1) as nat);
        lemma_reaches_split(g0, g1, addr, d, a, (j - 1) as nat);
        if reaches(g0, d, a, (j - 1) as nat) {
            lemma_reaches_split(g0, g1, addr, m, a, n);
            if reaches(g0, m, a, n) {
                assert(dep_edge(g0, a, m));
                assert(false);
            } else {
                lemma_reaches_hits(g0, g1, addr, m, a, n);
                let k2 = choose|k2: nat| #[trigger] reaches(g0, m, addr, k2);
                assert(dep_edge(g0, a, m));
                assert(reaches(g0, a, addr, 1 + k2)) by {
                    assert(reaches(g0, a, m, 1)) by {
                        assert(reaches(g0, m, m, 0));
                    }
                    lemma_reaches_compose(g0, a, m, addr, 1, k2);
                }
                lemma_reaches_compose(g0, d, a, addr, (j - 1) as nat, 1 + k2);
            }
        } else {
            let j2 = choose|j2: nat| j2 <= (j - 1) as nat && #[trigger] reaches(g1, addr, a, j2);
            lemma_cycle_at_addr(g0, g1, addr, a, m, n, j2);
        }
    }
}

/// A new-graph path to a target that is only reachable past the edited cell
/// yields an old-graph path from the source to the edited cell.
#[verifier::rlimit(100)]
proof fn lemma_reaches_hits(
    g0: Map<(u32, u32), Cell>,
    g1: Map<(u32, u32), Cell>,
    addr: (u32, u32),
    x: (u32, u32),
    y: (u32, u32),
    n: nat,
)
    requires
        forall|a: (u32, u32), b: (u32, u32)|
            a != addr ==> (#[trigger] dep_edge(g1, a, b) <==> dep_edge(g0, a, b)),
        reaches(g1, x, y, n),
        !reaches(g0, x, y, n),
    ensures
        exists|k: nat| #[trigger] reaches(g0, x, addr, k),
    decreases n,
{
    assert(x != y);
    let w = choose|w: (u32, u32)|
        #[trigger] dep_edge(g1, x, w) && reaches(g1, w, y, (n - 1) as nat);
    if x == addr {
        assert(reaches(g0, x, addr, 0));
    } else {
        assert(dep_edge(g0, x, w));
        if w == addr {
            assert(reaches(g0, addr, addr, 0));
            assert(reaches(g0, x, addr, 1));
        } else if reaches(g0, w, y, (n - 1) as nat) {
            assert(reaches(g0, x, y, n));
            assert(false);
        } else {
            lemma_reaches_hits(g0, g1, addr, w, y, (n - 1) as nat);
            let k = choose|k: nat| #[trigger] reaches(g0, w, addr, k);
            assert(reaches(g0, x, w, 1)) by {
                assert(reaches(g0, w, w, 0));
            }
            lemma_reaches_compose(g0, x, w, addr, 1, k);
        }
    }
}

// ---------------------------------------------------------------------------
// Dependency bookkeeping: keeping the reverse index in step with an edit.
// ---------------------------------------------------------------------------
impl<F: FuncTable> Sheet<F> {
    /// Strikes `referencing_cell` from the index entries of every dropped
    /// dependency, pruning entries that become empty.
    #[verifier::loop_isolation(false)]
    #[verifier::rlimit(100)]
    #[verifier::spinoff_prover]
    fn remove_cell_dependencies(
        &mut self,
        referencing_cell: (u32, u32),
        old_deps: &RefSet,
        new_deps: &RefSet,
    )
        requires
            old(self).dependencies.wf(),
            old_deps.wf(),
            forall|k: (u32, u32)|
                old(self).index_map().dom().contains(k) ==> (#[trigger] old(self).index_map()[k]).wf(),
        ensures
            final(self).cells == old(self).cells,
            final(self).functions == old(self).functions,
            final(self).dependencies.wf(),
            forall|k: (u32, u32)|
                final(self).index_map().dom().contains(k) ==> (#[trigger] final(self).index_map()[k]).wf(),
            forall|d: (u32, u32)|
                #[trigger] final(self).index_map().dom().contains(d) <==> (old(self).index_map().dom().contains(d) && (!(old_deps@.contains(d)
                    && !new_deps@.contains(d)) || !(old(self).index_map()[d]@.remove(referencing_cell) =~= Set::<(u32, u32)>::empty()))),
            forall|d: (u32, u32)|
                final(self).index_map().dom().contains(d) ==> (#[trigger] final(self).index_map()[d])@ =~= if old_deps@.contains(d) && !new_deps@.contains(d) {
                    old(self).index_map()[d]@.remove(referencing_cell)
                } else {
                    old(self).index_map()[d]@
                },
    {
        let n = old_deps.len();
        let mut i: usize = 0;
        while i < n
            invariant
                i <= n == old_deps.items@.len(),
                self.cells == old(self).cells,
                self.functions == old(self).functions,
                self.dependencies.wf(),
                forall|k: (u32, u32)|
                    self.index_map().dom().contains(k) ==> (#[trigger] self.index_map()[k]).wf(),
                forall|d: (u32, u32)|
                    #[trigger] self.index_map().dom().contains(d) <==> (old(self).index_map().dom().contains(d) && (!(dropped(old_deps@, new_deps@, d)
                        && touched(old_deps.items@, i as int, d)) || !(old(self).index_map()[d]@.remove(referencing_cell) =~= Set::<(u32, u32)>::empty()))),
                forall|d: (u32, u32)|
                    self.index_map().dom().contains(d) ==> (#[trigger] self.index_map()[d])@
                        =~= if dropped(old_deps@, new_deps@, d) && touched(
                        old_deps.items@,
                        i as int,
                        d,
                    ) {
                        old(self).index_map()[d]@.remove(referencing_cell)
                    } else {
                        old(self).index_map()[d]@
                    },
            decreases n - i,
        {
            let ghost im0 = self.index_map();
            let referenced_cell = old_deps.item_at(i);
            if !new_deps.contains(referenced_cell) {
                match self.dependencies.remove(referenced_cell) {
                    Some(mut dependent_cells) => {
                        dependent_cells.remove(referencing_cell);
                        if !dependent_cells.is_empty() {
                            self.dependencies.insert(referenced_cell, dependent_cells);
                        }
                    },
                    None => {},
                }
            }
            proof {
                assert forall|k2: (u32, u32)|
                    self.index_map().dom().contains(k2) implies (#[trigger] self.index_map()[
                    k2]).wf() by {
                    if k2 != referenced_cell {
                        assert(self.index_map()[k2] == im0[k2]);
                        assert(im0[k2].wf());
                    }
                }
                assert forall|d: (u32, u32)|
                    #[trigger] touched(old_deps.items@, i + 1, d) implies touched(
                    old_deps.items@,
                    i as int,
                    d,
                ) || d == referenced_cell by {
                    let k = choose|k: int| 0 <= k < i + 1 && old_deps.items@[k] == d;
                    if k < i {
                        assert(touched(old_deps.items@, i as int, d));
                    }
                }
                assert(touched(old_deps.items@, i + 1, referenced_cell));
            }
            i = i + 1;
        }
        proof {
            assert forall|d: (u32, u32)|
                dropped(old_deps@, new_deps@, d) implies touched(old_deps.items@, n as int, d) by {
                assert(old_deps.items@.to_set().contains(d));
            }
        }
    }

    /// Records `referencing_cell` in the index entry of every gained
    /// dependency, creating entries as needed.
    #[verifier::loop_isolation(false)]
    #[verifier::rlimit(100)]
    #[verifier::spinoff_prover]
    fn add_cell_dependencies(
        &mut self,
        referencing_cell: (u32, u32),
        new_deps: &RefSet,
        old_deps: &RefSet,
    )
        requires
            old(self).dependencies.wf(),
            new_deps.wf(),
            forall|k: (u32, u32)|
                old(self).index_map().dom().contains(k) ==> (#[trigger] old(self).index_map()[k]).wf(),
        ensures
            final(self).cells == old(self).cells,
            final(self).functions == old(self).functions,
            final(self).dependencies.wf(),
            forall|k: (u32, u32)|
                final(self).index_map().dom().contains(k) ==> (#[trigger] final(self).index_map()[k]).wf(),
            forall|d: (u32, u32)|
                #[trigger] final(self).index_map().dom().contains(d) <==> (old(self).index_map().dom().contains(d) || dropped(new_deps@, old_deps@, d)),
            forall|d: (u32, u32)|
                final(self).index_map().dom().contains(d) ==> (#[trigger] final(self).index_map()[d])@ =~= if dropped(new_deps@, old_deps@, d) {
                    (if old(self).index_map().dom().contains(d) {
                        old(self).index_map()[d]@
                    } else {
                        Set::<(u32, u32)>::empty()
                    }).insert(referencing_cell)
                } else {
                    old(self).index_map()[d]@
                },
    {
        let n = new_deps.len();
        let mut i: usize = 0;
        while i < n
            invariant
                i <= n == new_deps.items@.len(),
                self.cells == old(self).cells,
                self.functions == old(self).functions,
                self.dependencies.wf(),
                forall|k: (u32, u32)|
                    self.index_map().dom().contains(k) ==> (#[trigger] self.index_map()[k]).wf(),
                forall|d: (u32, u32)|
                    #[trigger] self.index_map().dom().contains(d) <==> (old(self).index_map().dom().contains(d) || (dropped(new_deps@, old_deps@, d)
                        && touched(new_deps.items@, i as int, d))),
                forall|d: (u32, u32)|
                    self.index_map().dom().contains(d) ==> (#[trigger] self.index_map()[d])@
                        =~= if dropped(new_deps@, old_deps@, d) && touched(
                        new_deps.items@,
                        i as int,
                        d,
                    ) {
                        (if old(self).index_map().dom().contains(d) {
                            old(self).index_map()[d]@
                        } else {
                            Set::<(u32, u32)>::empty()
                        }).insert(referencing_cell)
                    } else {
                        old(self).index_map()[d]@
                    },
            decreases n - i,
        {
            let ghost im0 = self.index_map();
            let referenced_cell = new_deps.item_at(i);
            if !old_deps.contains(referenced_cell) {
                match self.dependencies.remove(referenced_cell) {
                    Some(mut dependent_cells) => {
                        dependent_cells.insert(referencing_cell);
                        self.dependencies.insert(referenced_cell, dependent_cells);
                    },
                    None => {
                        let mut dependent_cells = RefSet::new();
                        dependent_cells.insert(referencing_cell);
                        self.dependencies.insert(referenced_cell, dependent_cells);
                    },
                }
            }
            proof {
                assert forall|k2: (u32, u32)|
                    self.index_map().dom().contains(k2) implies (#[trigger] self.index_map()[
                    k2]).wf() by {
                    if k2 != referenced_cell {
                        assert(self.index_map()[k2] == im0[k2]);
                        assert(im0[k2].wf());
                    }
                }
                assert forall|d: (u32, u32)|
                    #[trigger] touched(new_deps.items@, i + 1, d) implies touched(
                    new_deps.items@,
                    i as int,
                    d,
                ) || d == referenced_cell by {
                    let k = choose|k: int| 0 <= k < i + 1 && new_deps.items@[k] == d;
                    if k < i {
                        assert(touched(new_deps.items@, i as int, d));
                    }
                }
                assert(touched(new_deps.items@, i + 1, referenced_cell));
            }
            i = i + 1;
        }
        proof {
            assert forall|d: (u32, u32)|
                dropped(new_deps@, old_deps@, d) implies touched(new_deps.items@, n as int, d) by {
                assert(new_deps.items@.to_set().contains(d));
            }
        }
    }
}

/// The dependency is in the first set and not the second.
pub open spec fn dropped(a: Set<(u32, u32)>, b: Set<(u32, u32)>, d: (u32, u32)) -> bool {
    a.contains(d) && !b.contains(d)
}

/// The dependency stands in the first `i` entries of the walked set.
pub open spec fn touched(items: Seq<(u32, u32)>, i: int, d: (u32, u32)) -> bool {
    exists|k: int| 0 <= k < i && items[k] == d
}

// ---------------------------------------------------------------------------
// Compiling an edit, and looking cells up during a propagation pass.
// ---------------------------------------------------------------------------
pub open spec fn circular_msg() -> Seq<char> {
    "Circular references detected"@
}

pub open spec fn no_value_msg() -> Seq<char> {
    "No value"@
}

impl<F: FuncTable> Sheet<F> {
    /// Compiles the text and runs the cycle check against the candidate
    /// dependency set; a cycle is reported as its own error.
    #[verifier::rlimit(100)]
    fn get_expression_from_str(
        &self,
        cell_addr: (u32, u32),
        expression: &str,
        optimize: bool,
    ) -> (r: Result<Expression, String>)
        requires
            self.cells.wf(),
            forall|k: (u32, u32)|
                self.cells_map().dom().contains(k) ==> (#[trigger] self.cells_map()[k]).wf(),
        ensures
            match Expression::from_spec(expression@, optimize) {
                Err(m) => r matches Err(e) && e@ == m,
                Ok(n) => {
                    if reachable_from(self.cells_map(), crate::node::node_deps(n), cell_addr) {
                        r matches Err(e) && e@ == circular_msg()
                    } else {
                        r matches Ok(e) && e.node@ == n && e.wf()
                    }
                },
            },
    {
        match Expression::from(expression, optimize) {
            Ok(expression) => {
                match self.check_for_cycles(cell_addr, expression.get_cell_dependencies()) {
                    Ok(_) => {
                        proof {
                            if reachable_from(
                                self.cells_map(),
                                expression.cell_dependencies@,
                                cell_addr,
                            ) {
                                let (d, n) = choose|d: (u32, u32), n: nat|
                                    expression.cell_dependencies@.contains(d) && #[trigger] reaches(
                                        self.cells_map(),
                                        d,
                                        cell_addr,
                                        n,
                                    );
                                assert(!reaches(self.cells_map(), d, cell_addr, n));
                            }
                        }
                        Ok(expression)
                    },
                    Err(_) => Err("Circular references detected".to_owned()),
                }
            },
            Err(error) => Err(error),
        }
    }

    /// Replaces one cell's stored output, leaving its formula in place.
    fn set_cell_value(&mut self, k: (u32, u32), v: CellValue)
        requires
            old(self).cells.wf(),
        ensures
            final(self).cells.wf(),
            final(self).functions == old(self).functions,
            final(self).dependencies == old(self).dependencies,
            final(self).cells_map() =~= if old(self).cells_map().dom().contains(k) {
                old(self).cells_map().insert(
                    k,
                    Cell { expression: old(self).cells_map()[k].expression, value: v },
                )
            } else {
                old(self).cells_map()
            },
    {
        match self.cells.remove(k) {
            Some(c) => {
                self.cells.insert(k, Cell { expression: c.expression, value: v });
                proof {
                    assert(final(self).cells_map() =~= old(self).cells_map().insert(
                        k,
                        Cell { expression: old(self).cells_map()[k].expression, value: v },
                    ));
                }
            },
            None => {},
        }
    }
}

/// The lookup a propagation pass evaluates against: the scratch overlay of
/// values already recomputed in this pass, else the committed cells.
pub struct OverlayLookup<'a> {
    pub scratch: &'a PairMap<CellValue>,
    pub cells: &'a PairMap<Cell>,
}

/// A cell's usable decimal, if its output is a decimal.
pub open spec fn value_of_cv(v: CellValueS) -> Option<Dec> {
    match v {
        CellValueS::Decimal(d) => Some(d),
        _ => None,
    }
}

impl<'a> CellLookup for OverlayLookup<'a> {
    open spec fn inv(&self) -> bool {
        &&& self.scratch.wf()
        &&& self.cells.wf()
        &&& forall|k: (u32, u32)|
            self.scratch.view_map().dom().contains(k) ==> cv_wf(
                (#[trigger] self.scratch.view_map()[k])@,
            )
        &&& forall|k: (u32, u32)|
            self.cells.view_map().dom().contains(k) ==> (#[trigger] self.cells.view_map()[k]).wf()
    }

    open spec fn spec_lookup(&self, col: u32, row: u32) -> Option<Dec> {
        if self.scratch.view_map().dom().contains((col, row)) {
            value_of_cv(self.scratch.view_map()[(col, row)]@)
        } else if self.cells.view_map().dom().contains((col, row)) {
            value_of_cv(self.cells.view_map()[(col, row)].value@)
        } else {
            None
        }
    }

    fn lookup(&self, col: u32, row: u32) -> (r: Result<Dec, String>) {
        let cell_addr = (col, row);
        match self.scratch.get(cell_addr) {
            Some(value) => match value {
                CellValue::Decimal(decimal) => Ok(*decimal),
                _ => Err(String::new()),
            },
            None => match self.cells.get(cell_addr) {
                Some(c) => match &c.value {
                    CellValue::Decimal(decimal) => Ok(*decimal),
                    _ => Err(String::new()),
                },
                None => Err(String::new()),
            },
        }
    }
}

// ---------------------------------------------------------------------------
// The update plan: the downstream closure of the edited cell, leveled and
// ordered.
// ---------------------------------------------------------------------------
/// An edge of the reverse index: `b`'s formula reads `a`.
pub open spec fn idx_edge(index: Map<(u32, u32), RefSet>, a: (u32, u32), b: (u32, u32)) -> bool {
    index.dom().contains(a) && index[a]@.contains(b)
}

/// `b` lies within `n` reverse-index steps of `a`.
pub open spec fn idx_reaches(
    index: Map<(u32, u32), RefSet>,
    a: (u32, u32),
    b: (u32, u32),
    n: nat,
) -> bool
    decreases n,
{
    a == b || (n > 0 && exists|m: (u32, u32)|
        #[trigger] idx_edge(index, a, m) && idx_reaches(index, m, b, (n - 1) as nat))
}

proof fn lemma_idx_step(
    index: Map<(u32, u32), RefSet>,
    a: (u32, u32),
    x: (u32, u32),
    y: (u32, u32),
    n: nat,
)
    requires
        idx_reaches(index, a, x, n),
        idx_edge(index, x, y),
    ensures
        idx_reaches(index, a, y, n + 1),
    decreases n,
{
    if a == x {
        assert(idx_reaches(index, y, y, n));
    } else {
        let m = choose|m: (u32, u32)|
            #[trigger] idx_edge(index, a, m) && idx_reaches(index, m, x, (n - 1) as nat);
        lemma_idx_step(index, m, x, y, (n - 1) as nat);
    }
}

/// The plan entries are affected cells: the edited cell, or one downstream
/// of it through the reverse index.
pub open spec fn affected(
    index: Map<(u32, u32), RefSet>,
    cell_addr: (u32, u32),
    x: (u32, u32),
) -> bool {
    exists|n: nat| #[trigger] idx_reaches(index, cell_addr, x, n)
}

/// A walk through the reverse index: each entry feeds the next.
pub open spec fn idx_chain(index: Map<(u32, u32), RefSet>, s: Seq<(u32, u32)>) -> bool {
    forall|i: int| 0 <= i < s.len() - 1 ==> idx_edge(index, #[trigger] s[i], s[i + 1])
}

proof fn lemma_chain_to_reaches(index: Map<(u32, u32), RefSet>, s: Seq<(u32, u32)>)
    requires
        idx_chain(index, s),
        s.len() >= 1,
    ensures
        idx_reaches(index, s[0], s.last(), (s.len() - 1) as nat),
    decreases s.len(),
{
    if s.len() > 1 {
        let t = s.subrange(1, s.len() as int);
        assert forall|i: int| 0 <= i < t.len() - 1 implies idx_edge(
            index,
            #[trigger] t[i],
            t[i + 1],
        ) by {
            assert(t[i] == s[i + 1]);
            assert(t[i + 1] == s[i + 2]);
        }
        lemma_chain_to_reaches(index, t);
        assert(t[0] == s[1]);
        assert(t.last() == s.last());
        assert(idx_edge(index, s[0], s[1]));
    }
}

/// The downstream level of an affected cell: the length of the longest walk
/// from the edited cell to it through the reverse index.
pub open spec fn is_level(
    index: Map<(u32, u32), RefSet>,
    addr: (u32, u32),
    x: (u32, u32),
    n: nat,
) -> bool {
    &&& idx_reach_len(index, addr, x, n)
    &&& forall|m: nat| #[trigger] idx_reach_len(index, addr, x, m) ==> m <= n
}

/// A walk's entries past the first all name committed cells, so a walk in a
/// consistent, cycle-free sheet cannot be longer than the cell count plus
/// one.
proof fn lemma_chain_bound(
    cells: Map<(u32, u32), Cell>,
    index: Map<(u32, u32), RefSet>,
    s: Seq<(u32, u32)>,
)
    requires
        index_consistent(cells, index),
        acyclic(cells),
        cells.dom().finite(),
        idx_chain(index, s),
        s.len() >= 1,
    ensures
        s.len() <= cells.dom().len() + 1,
{
    broadcast use vstd::seq_lib::group_seq_properties;

    let t = s.subrange(1, s.len() as int);
    assert forall|i: int| 0 <= i < t.len() implies cells.dom().contains(#[trigger] t[i]) by {
        assert(idx_edge(index, s[i], s[i + 1]));
        assert(index[s[i]]@.contains(s[i + 1]));
        assert(dep_edge(cells, s[i + 1], s[i]));
        assert(t[i] == s[i + 1]);
    }
    if t.no_duplicates() {
        t.unique_seq_to_set();
        assert(t.to_set().subset_of(cells.dom())) by {
            assert forall|x: (u32, u32)| t.to_set().contains(x) implies cells.dom().contains(x) by {
                let i = choose|i: int| 0 <= i < t.len() && t[i] == x;
            }
        }
        vstd::set_lib::lemma_len_subset(t.to_set(), cells.dom());
    } else {
        let (i, j) = choose|i: int, j: int| 0 <= i < j < t.len() && t[i] == t[j];
        let c = s.subrange(i + 1, j + 2);
        assert forall|k: int| 0 <= k < c.len() - 1 implies idx_edge(
            index,
            #[trigger] c[k],
            c[k + 1],
        ) by {
            assert(c[k] == s[k + i + 1]);
            assert(c[k + 1] == s[k + i + 2]);
        }
        assert(c[0] == t[i]);
        assert(c.last() == t[j]);
        assert(c.len() >= 2);
        lemma_chain_rev_reaches(cells, index, c.drop_last());
        assert(c.drop_last()[0] == c[0]);
        assert(c.drop_last().last() == c[c.len() - 2]);
        assert(idx_edge(index, c[c.len() - 2], c.last()));
        assert(dep_edge(cells, c.last(), c[c.len() - 2]));
        assert(reaches(cells, c[c.len() - 2], c.last(), (c.len() - 2) as nat)) by {
            assert(c[0] == c.last());
        }
        assert(false);
    }
}

/// Walking the reverse index forward is walking the dependency graph
/// backward.
proof fn lemma_chain_rev_reaches(
    cells: Map<(u32, u32), Cell>,
    index: Map<(u32, u32), RefSet>,
    c: Seq<(u32, u32)>,
)
    requires
        index_consistent(cells, index),
        idx_chain(index, c),
        c.len() >= 1,
    ensures
        reaches(cells, c.last(), c[0], (c.len() - 1) as nat),
    decreases c.len(),
{
    if c.len() > 1 {
        let p = c.drop_last();
        assert forall|i: int| 0 <= i < p.len() - 1 implies idx_edge(
            index,
            #[trigger] p[i],
            p[i + 1],
        ) by {
            assert(p[i] == c[i]);
            assert(p[i + 1] == c[i + 1]);
        }
        lemma_chain_rev_reaches(cells, index, p);
        assert(idx_edge(index, c[c.len() - 2], c.last()));
        assert(dep_edge(cells, c.last(), c[c.len() - 2]));
        assert(p.last() == c[c.len() - 2]);
        assert(p[0] == c[0]);
        assert(reaches(cells, c.last(), c[0], (c.len() - 1) as nat));
    }
}

/// `b` lies at exactly `n` reverse-index steps of `a` along some walk.
pub open spec fn idx_reach_len(
    index: Map<(u32, u32), RefSet>,
    a: (u32, u32),
    b: (u32, u32),
    n: nat,
) -> bool
    decreases n,
{
    if n == 0 {
        a == b
    } else {
        exists|m: (u32, u32)|
            #[trigger] idx_edge(index, a, m) && idx_reach_len(index, m, b, (n - 1) as nat)
    }
}

proof fn lemma_reaches_to_len(index: Map<(u32, u32), RefSet>, a: (u32, u32), b: (u32, u32), n: nat)
    requires
        idx_reaches(index, a, b, n),
    ensures
        exists|m: nat| m <= n && #[trigger] idx_reach_len(index, a, b, m),
    decreases n,
{
    if a == b {
        assert(idx_reach_len(index, a, b, 0));
    } else {
        let w = choose|w: (u32, u32)|
            #[trigger] idx_edge(index, a, w) && idx_reaches(index, w, b, (n - 1) as nat);
        lemma_reaches_to_len(index, w, b, (n - 1) as nat);
        let m = choose|m: nat| m <= n - 1 && #[trigger] idx_reach_len(index, w, b, m);
        assert(idx_reach_len(index, a, b, m + 1));
    }
}

proof fn lemma_len_to_reaches(index: Map<(u32, u32), RefSet>, a: (u32, u32), b: (u32, u32), n: nat)
    requires
        idx_reach_len(index, a, b, n),
    ensures
        idx_reaches(index, a, b, n),
    decreases n,
{
    if n > 0 {
        let w = choose|w: (u32, u32)|
            #[trigger] idx_edge(index, a, w) && idx_reach_len(index, w, b, (n - 1) as nat);
        lemma_len_to_reaches(index, w, b, (n - 1) as nat);
    }
}

/// Extending a walk by one edge.
proof fn lemma_len_step(
    index: Map<(u32, u32), RefSet>,
    a: (u32, u32),
    x: (u32, u32),
    y: (u32, u32),
    n: nat,
)
    requires
        idx_reach_len(index, a, x, n),
        idx_edge(index, x, y),
    ensures
        idx_reach_len(index, a, y, n + 1),
    decreases n,
{
    if n == 0 {
        assert(idx_reach_len(index, y, y, 0));
    } else {
        let m = choose|m: (u32, u32)|
            #[trigger] idx_edge(index, a, m) && idx_reach_len(index, m, x, (n - 1) as nat);
        lemma_len_step(index, m, x, y, (n - 1) as nat);
    }
}

/// Along a walk inside a level-ordered closed set, the level grows at least
/// one per step.
proof fn lemma_len_dom_levels(
    index: Map<(u32, u32), RefSet>,
    um: Map<(u32, u32), u128>,
    a: (u32, u32),
    x: (u32, u32),
    n: nat,
)
    requires
        forall|v: (u32, u32), y: (u32, u32)|
            um.dom().contains(v) && #[trigger] idx_edge(index, v, y) ==> um.dom().contains(y)
                && um[y] > um[v],
        um.dom().contains(a),
        idx_reach_len(index, a, x, n),
    ensures
        um.dom().contains(x),
        um[x] as int >= um[a] as int + n,
    decreases n,
{
    if n > 0 {
        let m = choose|m: (u32, u32)|
            #[trigger] idx_edge(index, a, m) && idx_reach_len(index, m, x, (n - 1) as nat);
        lemma_len_dom_levels(index, um, m, x, (n - 1) as nat);
    }
}

/// An exact-length walk gives a chain of that length.
proof fn lemma_len_to_chain(index: Map<(u32, u32), RefSet>, a: (u32, u32), b: (u32, u32), n: nat)
    requires
        idx_reach_len(index, a, b, n),
    ensures
        exists|s: Seq<(u32, u32)>|
            #[trigger] idx_chain(index, s) && s.len() == n + 1 && s[0] == a && s.last() == b,
    decreases n,
{
    if n == 0 {
        let s = seq![a];
        assert(idx_chain(index, s));
        assert(idx_chain(index, s) && s.len() == n + 1 && s[0] == a && s.last() == b);
    } else {
        let m = choose|m: (u32, u32)|
            #[trigger] idx_edge(index, a, m) && idx_reach_len(index, m, b, (n - 1) as nat);
        lemma_len_to_chain(index, m, b, (n - 1) as nat);
        let s0 = choose|s0: Seq<(u32, u32)>|
            #[trigger] idx_chain(index, s0) && s0.len() == (n - 1) + 1 && s0[0] == m && s0.last()
                == b;
        let s = seq![a] + s0;
        assert forall|i: int| 0 <= i < s.len() - 1 implies idx_edge(
            index,
            #[trigger] s[i],
            s[i + 1],
        ) by {
            if i == 0 {
                assert(s[0] == a);
                assert(s[1] == s0[0]);
            } else {
                assert(s[i] == s0[i - 1]);
                assert(s[i + 1] == s0[i]);
            }
        }
        assert(s.last() == s0.last());
        assert(idx_chain(index, s) && s.len() == n + 1 && s[0] == a && s.last() == b);
    }
}

/// Over a consistent, cycle-free sheet, walk lengths are bounded by the
/// number of committed cells.
proof fn lemma_len_bound(
    cells: Map<(u32, u32), Cell>,
    index: Map<(u32, u32), RefSet>,
    a: (u32, u32),
    b: (u32, u32),
    n: nat,
)
    requires
        index_consistent(cells, index),
        acyclic(cells),
        cells.dom().finite(),
        idx_reach_len(index, a, b, n),
    ensures
        n <= cells.dom().len(),
{
    lemma_len_to_chain(index, a, b, n);
    let s = choose|s: Seq<(u32, u32)>|
        #[trigger] idx_chain(index, s) && s.len() == n + 1 && s[0] == a && s.last() == b;
    lemma_chain_bound(cells, index, s);
}

/// A walk from the edited cell back to itself has no steps: a longer one
/// would close a dependency cycle.
proof fn lemma_no_self_walk(
    cells: Map<(u32, u32), Cell>,
    index: Map<(u32, u32), RefSet>,
    addr: (u32, u32),
)
    requires
        index_consistent(cells, index),
        acyclic(cells),
    ensures
        forall|n: nat| #[trigger] idx_reach_len(index, addr, addr, n) ==> n == 0,
{
    assert forall|n: nat| #[trigger] idx_reach_len(index, addr, addr, n) implies n == 0 by {
        if n > 0 {
            let m = choose|m: (u32, u32)|
                #[trigger] idx_edge(index, addr, m) && idx_reach_len(
                    index,
                    m,
                    addr,
                    (n - 1) as nat,
                );
            lemma_len_to_chain(index, m, addr, (n - 1) as nat);
            let s = choose|s: Seq<(u32, u32)>|
                #[trigger] idx_chain(index, s) && s.len() == (n - 1) + 1 && s[0] == m && s.last()
                    == addr;
            lemma_chain_rev_reaches(cells, index, s);
            assert(reaches(cells, addr, m, (n - 1) as nat));
            assert(dep_edge(cells, m, addr));
            assert(false);
        }
    }
}

/// A committed-cells map covers at most as many coordinates as its backing
/// vector holds entries.
proof fn lemma_dom_bound(items: Seq<((u32, u32), Cell)>)
    ensures
        map_of(items).dom().finite(),
        map_of(items).dom().len() <= items.len(),
{
    broadcast use vstd::seq_lib::group_seq_properties;

    let keys = items.map(|i: int, p: ((u32, u32), Cell)| p.0);
    assert(map_of(items).dom() =~= keys.to_set()) by {
        assert forall|k: (u32, u32)| map_of(items).dom().contains(k) implies keys.to_set()
            .contains(k) by {
            let i = choose|i: int| 0 <= i < items.len() && (#[trigger] items[i]).0 == k;
            assert(keys[i] == k);
        }
        assert forall|k: (u32, u32)| keys.to_set().contains(k) implies map_of(items)
            .dom().contains(k) by {
            let i = choose|i: int| 0 <= i < keys.len() && keys[i] == k;
            assert(items[i].0 == k);
        }
    }
    vstd::seq_lib::seq_to_set_is_finite(keys);
    keys.lemma_cardinality_of_set();
}

/// The ordering of plan entries: level first, then column, then row.
pub open spec fn plan_le(a: ((u32, u32), u128), b: ((u32, u32), u128)) -> bool {
    a.1 < b.1 || (a.1 == b.1 && (a.0.0 < b.0.0 || (a.0.0 == b.0.0 && a.0.1 <= b.0.1)))
}

/// Sorts plan entries by level, then coordinate, by insertion.
#[verifier::loop_isolation(false)]
fn sort_plan(entries: Vec<((u32, u32), u128)>) -> (r: Vec<((u32, u32), u128)>)
    ensures
        r@.to_multiset() == entries@.to_multiset(),
        forall|i: int, j: int| 0 <= i < j < r@.len() ==> plan_le(#[trigger] r@[i], #[trigger] r@[j]),
{
    broadcast use vstd::seq_lib::group_seq_properties;
    broadcast use vstd::seq::Seq::to_multiset_ensures;

    let n = entries.len();
    let mut sorted: Vec<((u32, u32), u128)> = Vec::new();
    let mut i: usize = 0;
    while i < n
        invariant
            i <= n == entries@.len(),
            sorted@.to_multiset() == entries@.subrange(0, i as int).to_multiset(),
            forall|a: int, b: int|
                0 <= a < b < sorted@.len() ==> plan_le(#[trigger] sorted@[a], #[trigger] sorted@[b]),
        decreases n - i,
    {
        let e = entries[i];
        let mut j: usize = sorted.len();
        while j > 0
            invariant
                j <= sorted@.len(),
                forall|k: int| j <= k < sorted@.len() ==> !plan_le(#[trigger] sorted@[k], e),
            decreases j,
        {
            let c = sorted[j - 1];
            let le = c.1 < e.1 || (c.1 == e.1 && (c.0.0 < e.0.0 || (c.0.0 == e.0.0 && c.0.1
                <= e.0.1)));
            if le {
                break ;
            }
            j = j - 1;
        }
        let ghost sorted0 = sorted@;
        sorted.insert(j, e);
        proof {
            assert(sorted@ =~= sorted0.insert(j as int, e));
            assert forall|a: int, b: int|
                0 <= a < b < sorted@.len() implies plan_le(
                #[trigger] sorted@[a],
                #[trigger] sorted@[b],
            ) by {
                if a == j {
                    assert(sorted@[b] == sorted0[b - 1]);
                    assert(!plan_le(sorted0[b - 1], e));
                    assert(plan_le(e, sorted0[b - 1]));
                } else if b == j {
                    assert(sorted@[a] == sorted0[a]);
                } else {
                    let a0: int = if a < j {
                        a
                    } else {
                        a - 1
                    };
                    let b0: int = if b < j {
                        b
                    } else {
                        b - 1
                    };
                    assert(sorted@[a] == sorted0[a0]);
                    assert(sorted@[b] == sorted0[b0]);
                }
            }
            assert(entries@.subrange(0, i + 1) =~= entries@.subrange(0, i as int).push(e));
            assert(sorted0.insert(j as int, e) =~= sorted0.subrange(0, j as int).push(e)
                + sorted0.subrange(j as int, sorted0.len() as int));
            vstd::seq_lib::lemma_multiset_commutative(
                sorted0.subrange(0, j as int).push(e),
                sorted0.subrange(j as int, sorted0.len() as int),
            );
            vstd::seq_lib::lemma_multiset_commutative(
                sorted0.subrange(0, j as int),
                sorted0.subrange(j as int, sorted0.len() as int),
            );
            assert(sorted0.subrange(0, j as int) + sorted0.subrange(
                j as int,
                sorted0.len() as int,
            ) =~= sorted0);
            assert(sorted0.insert(j as int, e).to_multiset() =~= sorted0.to_multiset().insert(e));
            assert(entries@.subrange(0, i + 1).to_multiset() =~= entries@.subrange(
                0,
                i as int,
            ).to_multiset().insert(e));
        }
        i = i + 1;
    }
    proof {
        assert(entries@.subrange(0, n as int) =~= entries@);
    }
    sorted
}

proof fn lemma_reaches_to_chain(
    index: Map<(u32, u32), RefSet>,
    a: (u32, u32),
    b: (u32, u32),
    n: nat,
)
    requires
        idx_reaches(index, a, b, n),
    ensures
        exists|s: Seq<(u32, u32)>|
            #[trigger] idx_chain(index, s) && 1 <= s.len() <= n + 1 && s[0] == a && s.last() == b,
    decreases n,
{
    if a == b {
        let s = seq![a];
        assert(idx_chain(index, s));
        assert(s.last() == b);
        assert(idx_chain(index, s) && 1 <= s.len() <= n + 1 && s[0] == a && s.last() == b);
    } else {
        let m = choose|m: (u32, u32)|
            #[trigger] idx_edge(index, a, m) && idx_reaches(index, m, b, (n - 1) as nat);
        lemma_reaches_to_chain(index, m, b, (n - 1) as nat);
        let s0 = choose|s0: Seq<(u32, u32)>|
            #[trigger] idx_chain(index, s0) && 1 <= s0.len() <= (n - 1) + 1 && s0[0] == m
                && s0.last() == b;
        let s = seq![a] + s0;
        assert forall|i: int| 0 <= i < s.len() - 1 implies idx_edge(
            index,
            #[trigger] s[i],
            s[i + 1],
        ) by {
            if i == 0 {
                assert(s[0] == a);
                assert(s[1] == s0[0]);
            } else {
                assert(s[i] == s0[i - 1]);
                assert(s[i + 1] == s0[i]);
            }
        }
        assert(s.last() == s0.last());
        assert(idx_chain(index, s) && 1 <= s.len() <= n + 1 && s[0] == a && s.last() == b);
    }
}

/// Along a walk inside a level-ordered closed set, the level grows at least
/// one per step.
proof fn lemma_chain_dom_levels(
    index: Map<(u32, u32), RefSet>,
    um: Map<(u32, u32), u128>,
    s: Seq<(u32, u32)>,
)
    requires
        forall|x: (u32, u32), y: (u32, u32)|
            um.dom().contains(x) && #[trigger] idx_edge(index, x, y) ==> um.dom().contains(y)
                && um[y] > um[x],
        idx_chain(index, s),
        s.len() >= 1,
        um.dom().contains(s[0]),
    ensures
        um.dom().contains(s.last()),
        um[s.last()] as int >= um[s[0]] as int + s.len() - 1,
    decreases s.len(),
{
    if s.len() > 1 {
        let p = s.drop_last();
        assert forall|i: int| 0 <= i < p.len() - 1 implies idx_edge(
            index,
            #[trigger] p[i],
            p[i + 1],
        ) by {
            assert(p[i] == s[i]);
            assert(p[i + 1] == s[i + 1]);
        }
        lemma_chain_dom_levels(index, um, p);
        assert(p.last() == s[s.len() - 2]);
        assert(idx_edge(index, s[s.len() - 2], s.last()));
    }
}

/// A permutation of a distinct-keyed entry list is distinct-keyed.
proof fn lemma_perm_distinct_keys(s1: Seq<((u32, u32), u128)>, s2: Seq<((u32, u32), u128)>)
    requires
        s1.to_multiset() == s2.to_multiset(),
        distinct_keys(s1),
    ensures
        distinct_keys(s2),
{
    broadcast use vstd::seq::Seq::to_multiset_ensures;

    assert forall|i: int, j: int|
        0 <= i < j < s2.len() implies (#[trigger] s2[i]).0 != (#[trigger] s2[j]).0 by {
        if s2[i].0 == s2[j].0 {
            let p = s2[i];
            let q = s2[j];
            s1.to_multiset_ensures();
            s2.to_multiset_ensures();
            if p == q {
                assert(s2.remove(i).to_multiset() =~= s2.to_multiset().remove(p));
                assert(s2.remove(i)[j - 1] == q);
                assert(s2.remove(i).contains(q));
                s2.remove(i).to_multiset_ensures();
                assert(s2.remove(i).to_multiset().count(q) > 0);
                assert(s1.to_multiset().remove(p).count(p) > 0);
                assert(s1.contains(p));
                let i1 = choose|i1: int| 0 <= i1 < s1.len() && s1[i1] == p;
                s1.remove(i1).to_multiset_ensures();
                assert(s1.remove(i1).to_multiset() =~= s1.to_multiset().remove(p));
                assert(s1.remove(i1).to_multiset().count(p) > 0);
                assert(s1.remove(i1).contains(p));
                let i2 = choose|i2: int| 0 <= i2 < s1.remove(i1).len() && s1.remove(i1)[i2] == p;
                let i2o: int = if i2 < i1 {
                    i2
                } else {
                    i2 + 1
                };
                assert(s1[i2o] == p);
                if i1 < i2o {
                    assert(s1[i1].0 != s1[i2o].0);
                } else {
                    assert(s1[i2o].0 != s1[i1].0);
                }
            } else {
                assert(s2.contains(p));
                assert(s2.contains(q));
                assert(s2.to_multiset().count(p) > 0);
                assert(s2.to_multiset().count(q) > 0);
                assert(s1.to_multiset().count(p) > 0);
                assert(s1.to_multiset().count(q) > 0);
                assert(s1.contains(p));
                assert(s1.contains(q));
                let i1 = choose|i1: int| 0 <= i1 < s1.len() && s1[i1] == p;
                let i2 = choose|i2: int| 0 <= i2 < s1.len() && s1[i2] == q;
                assert(i1 != i2);
                if i1 < i2 {
                    assert(s1[i1].0 != s1[i2].0);
                } else {
                    assert(s1[i2].0 != s1[i1].0);
                }
            }
        }
    }
}

/// A drained walk's level map: its coordinates are exactly the affected
/// cells, each at its exact downstream level.
proof fn lemma_drained_levels(
    index: Map<(u32, u32), RefSet>,
    cell_addr: (u32, u32),
    um: Map<(u32, u32), u128>,
)
    requires
        um.dom().contains(cell_addr),
        um[cell_addr] == 0,
        forall|x: (u32, u32)|
            #[trigger] um.dom().contains(x) ==> idx_reach_len(
                index,
                cell_addr,
                x,
                um[x] as nat,
            ),
        forall|x: (u32, u32), y: (u32, u32)|
            um.dom().contains(x) && #[trigger] idx_edge(index, x, y) ==> um.dom().contains(y)
                && um[y] > um[x],
    ensures
        forall|x: (u32, u32)| #[trigger] affected(index, cell_addr, x) <==> um.dom().contains(x),
        forall|x: (u32, u32)|
            #[trigger] um.dom().contains(x) ==> is_level(index, cell_addr, x, um[x] as nat),
{
    assert forall|x: (u32, u32)|
        #[trigger] affected(index, cell_addr, x) implies um.dom().contains(x) by {
        let n = choose|n: nat| #[trigger] idx_reaches(index, cell_addr, x, n);
        lemma_reaches_to_len(index, cell_addr, x, n);
        let m = choose|m: nat| m <= n && #[trigger] idx_reach_len(index, cell_addr, x, m);
        lemma_len_dom_levels(index, um, cell_addr, x, m);
    }
    assert forall|x: (u32, u32)| #[trigger] um.dom().contains(x) implies affected(
        index,
        cell_addr,
        x,
    ) && is_level(index, cell_addr, x, um[x] as nat) by {
        lemma_len_to_reaches(index, cell_addr, x, um[x] as nat);
        assert(idx_reaches(index, cell_addr, x, um[x] as nat));
        assert forall|m: nat| #[trigger] idx_reach_len(index, cell_addr, x, m) implies m <= um[x]
            as nat by {
            lemma_len_dom_levels(index, um, cell_addr, x, m);
        }
    }
}

/// The views of a response list.
pub open spec fn resp_views(rs: Seq<CellUpdateResponse>) -> Seq<RespS> {
    rs.map(|i: int, r: CellUpdateResponse| r@)
}

/// The views of a scratch map's staged outputs.
pub open spec fn scratch_views(m: Map<(u32, u32), CellValue>) -> Map<(u32, u32), CellValueS> {
    Map::new(|k: (u32, u32)| m.dom().contains(k), |k: (u32, u32)| m[k]@)
}

/// The environment a propagation pass resolves cells against: the scratch
/// overlay first, the committed cells behind it, decimals only.
pub open spec fn overlay_env(
    scratch: Map<(u32, u32), CellValueS>,
    cells: Map<(u32, u32), Cell>,
) -> Map<(u32, u32), Dec> {
    Map::new(
        |k: (u32, u32)|
            if scratch.dom().contains(k) {
                scratch[k] is Decimal
            } else {
                cells.dom().contains(k) && cells[k].value@ is Decimal
            },
        |k: (u32, u32)|
            if scratch.dom().contains(k) {
                scratch[k]->Decimal_0
            } else {
                cells[k].value@->Decimal_0
            },
    )
}

/// A possible recomputed output for a stored formula against the pass
/// environment: a comment formula short-circuits to its text; a formula
/// without function calls evaluates exactly; a formula with calls yields a
/// representable decimal or an error, as the table decides.
pub open spec fn recomputed_value(e: Expression, env: Map<(u32, u32), Dec>, v: CellValueS) -> bool {
    match e.node@ {
        crate::node::NodeS::Comment(c) => v == CellValueS::Comment(c),
        _ => if !crate::solve::has_function(e.node@) {
            v == match crate::solve::eval_env(e.node@, env) {
                Ok(d) => CellValueS::Decimal(d),
                Err(m) => CellValueS::Error(m),
            }
        } else {
            (v matches CellValueS::Decimal(d) && d.wf()) || v is Error
        },
    }
}

/// One step of a propagation pass at `addr`: a formula cell is recomputed
/// against the overlay; an output unchanged by value is dropped, a changed
/// one is reported and staged; anything else leaves the pass state alone.
pub open spec fn pass_step(
    cells1: Map<(u32, u32), Cell>,
    addr: (u32, u32),
    r0: Seq<RespS>,
    s0: Map<(u32, u32), CellValueS>,
    r1: Seq<RespS>,
    s1: Map<(u32, u32), CellValueS>,
) -> bool {
    if cells1.dom().contains(addr) && cells1[addr].expression is Some {
        exists|v: CellValueS|
            #[trigger] recomputed_value(cells1[addr].expression->0, overlay_env(s0, cells1), v)
                && if cv_eq(v, cells1[addr].value@) {
                r1 == r0 && s1 == s0
            } else {
                r1 == r0.push(resp_of(addr, v)) && s1 == s0.insert(addr, v)
            }
    } else {
        r1 == r0 && s1 == s0
    }
}

/// The pass over the planned cells, in order, from an empty scratch.
pub open spec fn pass_rel(
    cells1: Map<(u32, u32), Cell>,
    plan: Seq<(u32, u32)>,
    r: Seq<RespS>,
    s: Map<(u32, u32), CellValueS>,
) -> bool
    decreases plan.len(),
{
    if plan.len() == 0 {
        r == Seq::<RespS>::empty() && s == Map::<(u32, u32), CellValueS>::empty()
    } else {
        exists|r0: Seq<RespS>, s0: Map<(u32, u32), CellValueS>|
            pass_rel(cells1, plan.drop_last(), r0, s0) && #[trigger] pass_step(
                cells1,
                plan.last(),
                r0,
                s0,
                r,
                s,
            )
    }
}

/// The unconditional self-report: a formula-less edited cell is reported
/// first, whatever its output; a deleted cell is not.
pub open spec fn head_of(cells1: Map<(u32, u32), Cell>, addr: (u32, u32)) -> Seq<
    RespS,
> {
    if cells1.dom().contains(addr) && cells1[addr].expression is None {
        seq![resp_of(addr, cells1[addr].value@)]
    } else {
        Seq::empty()
    }
}

/// After the pass, exactly the staged outputs are written back: every other
/// cell is untouched, and no formula changes.
pub open spec fn committed(
    cells1: Map<(u32, u32), Cell>,
    s: Map<(u32, u32), CellValueS>,
    cells2: Map<(u32, u32), Cell>,
) -> bool {
    &&& cells2.dom() =~= cells1.dom()
    &&& forall|k: (u32, u32)|
        #[trigger] cells2.dom().contains(k) ==> cells2[k].expression == cells1[k].expression && if
            s.dom().contains(k) {
            cells2[k].value@ == s[k]
        } else {
            cells2[k] == cells1[k]
        }
}

/// Mapping responses to their views commutes with appending one.
pub proof fn lemma_resp_views_push(s: Seq<CellUpdateResponse>, x: CellUpdateResponse)
    ensures
        resp_views(s.push(x)) == resp_views(s).push(x@),
{
    assert(resp_views(s.push(x)) =~= resp_views(s).push(x@));
}

/// Extends a pass trace by one planned cell.
#[verifier::spinoff_prover]
pub proof fn lemma_pass_rel_step(
    cells1: Map<(u32, u32), Cell>,
    plan: Seq<(u32, u32)>,
    x: (u32, u32),
    r0: Seq<RespS>,
    s0: Map<(u32, u32), CellValueS>,
    r1: Seq<RespS>,
    s1: Map<(u32, u32), CellValueS>,
)
    requires
        pass_rel(cells1, plan, r0, s0),
        pass_step(cells1, x, r0, s0, r1, s1),
    ensures
        pass_rel(cells1, plan.push(x), r1, s1),
{
    reveal_with_fuel(pass_rel, 2);
    assert(plan.push(x).drop_last() =~= plan);
    assert(plan.push(x).last() == x);
    assert(pass_rel(cells1, plan.push(x).drop_last(), r0, s0));
    assert(pass_step(cells1, plan.push(x).last(), r0, s0, r1, s1));
    assert(pass_rel(cells1, plan.push(x), r1, s1));
}

/// The stored state right after the edit itself, before propagation: the
/// compiled formula (or the error cell the text earns) stands at the edited
/// address with its previous output, blank or absent text deletes the cell,
/// and every other cell is untouched.
pub open spec fn edited_cells(
    cells0: Map<(u32, u32), Cell>,
    request: CellUpdateRequest,
    cells1: Map<(u32, u32), Cell>,
) -> bool {
    let addr = (request.col, request.row);
    match request.expression {
        Some(text) => if !is_blank(text@) {
            &&& cells1.dom() =~= cells0.dom().insert(addr)
            &&& forall|k: (u32, u32)|
                k != addr && #[trigger] cells1.dom().contains(k) ==> cells1[k] == cells0[k]
            &&& match Expression::from_spec(text@, true) {
                Ok(n) => if reachable_from(cells0, crate::node::node_deps(n), addr) {
                    cells1[addr].expression is None && cells1[addr].value@ == CellValueS::Error(
                        circular_msg(),
                    )
                } else {
                    (cells1[addr].expression matches Some(e) && e.node@ == n && e.wf())
                        && cells1[addr].value == if cells0.dom().contains(addr) {
                        cells0[addr].value
                    } else {
                        CellValue::CalcPending
                    }
                },
                Err(m) => cells1[addr].expression is None && cells1[addr].value@
                    == CellValueS::Error(m),
            }
        } else {
            cells1 =~= cells0.remove(addr)
        },
        None => cells1 =~= cells0.remove(addr),
    }
}

/// What the update plan is: exactly the affected cells, each once, every
/// cell strictly after every planned cell its formula reads, ordered by
/// downstream level, then column, then row.
pub open spec fn is_update_plan(
    index: Map<(u32, u32), RefSet>,
    addr: (u32, u32),
    plan: Seq<(u32, u32)>,
    lv: Map<(u32, u32), u128>,
) -> bool {
    &&& forall|x: (u32, u32)| plan.contains(x) <==> #[trigger] affected(index, addr, x)
    &&& plan.no_duplicates()
    &&& forall|i: int|
        0 <= i < plan.len() ==> lv.dom().contains(#[trigger] plan[i]) && is_level(
            index,
            addr,
            plan[i],
            lv[plan[i]] as nat,
        )
    &&& forall|i: int, j: int|
        0 <= i < j < plan.len() ==> plan_le(
            (#[trigger] plan[i], lv[plan[i]]),
            (#[trigger] plan[j], lv[plan[j]]),
        )
    &&& forall|i: int, j: int|
        0 <= i < plan.len() && 0 <= j < plan.len() && idx_edge(
            index,
            #[trigger] plan[i],
            #[trigger] plan[j],
        ) ==> i < j
}

impl<F: FuncTable> Sheet<F> {
    /// One round of the walk: the frontier cells land on the current level,
    /// and everything they feed forms the next frontier.
    #[verifier::loop_isolation(false)]
    #[verifier::rlimit(100)]
    #[verifier::spinoff_prover]
    fn walk_round(
        &self,
        cell_addr: (u32, u32),
        level: u128,
        pending: &RefSet,
        updates: &mut PairMap<u128>,
    ) -> (new: RefSet)
        requires
            self.cells.wf(),
            self.dependencies.wf(),
            forall|k: (u32, u32)|
                self.index_map().dom().contains(k) ==> (#[trigger] self.index_map()[k]).wf(),
            index_consistent(self.cells_map(), self.index_map()),
            acyclic(self.cells_map()),
            pending.wf(),
            old(updates).wf(),
            old(updates).view_map().dom().contains(cell_addr),
            old(updates).view_map()[cell_addr] == 0,
            !pending@.contains(cell_addr),
            level >= 1,
            forall|x: (u32, u32)|
                #[trigger] old(updates).view_map().dom().contains(x) ==> old(updates).view_map()[x]
                    < level,
            forall|x: (u32, u32)|
                #[trigger] old(updates).view_map().dom().contains(x) ==> idx_reach_len(
                    self.index_map(),
                    cell_addr,
                    x,
                    old(updates).view_map()[x] as nat,
                ),
            forall|x: (u32, u32)|
                pending@.contains(x) ==> #[trigger] idx_reach_len(
                    self.index_map(),
                    cell_addr,
                    x,
                    level as nat,
                ),
            forall|x: (u32, u32), y: (u32, u32)|
                old(updates).view_map().dom().contains(x) && #[trigger] idx_edge(
                    self.index_map(),
                    x,
                    y,
                ) ==> (old(updates).view_map().dom().contains(y) && old(updates).view_map()[y]
                    > old(updates).view_map()[x]) || pending@.contains(y),
        ensures
            final(updates).wf(),
            new.wf(),
            final(updates).view_map().dom().contains(cell_addr),
            final(updates).view_map()[cell_addr] == 0,
            !new@.contains(cell_addr),
            forall|x: (u32, u32)|
                #[trigger] final(updates).view_map().dom().contains(x) ==> final(updates).view_map()[x] <= level,
            forall|x: (u32, u32)|
                #[trigger] final(updates).view_map().dom().contains(x) ==> idx_reach_len(
                    self.index_map(),
                    cell_addr,
                    x,
                    final(updates).view_map()[x] as nat,
                ),
            forall|x: (u32, u32)|
                new@.contains(x) ==> #[trigger] idx_reach_len(
                    self.index_map(),
                    cell_addr,
                    x,
                    level as nat + 1,
                ),
            forall|x: (u32, u32), y: (u32, u32)|
                final(updates).view_map().dom().contains(x) && #[trigger] idx_edge(
                    self.index_map(),
                    x,
                    y,
                ) ==> (final(updates).view_map().dom().contains(y) && final(updates).view_map()[y]
                    > final(updates).view_map()[x]) || new@.contains(y),
    {
        let ghost index = self.index_map();
        let ghost cellsm = self.cells_map();
        let mut new = RefSet::new();
        let pn = pending.len();
        let mut i: usize = 0;
        while i < pn
            invariant
                i <= pn == pending.items@.len(),
                updates.wf(),
                new.wf(),
                updates.view_map().dom().contains(cell_addr),
                updates.view_map()[cell_addr] == 0,
                !new@.contains(cell_addr),
                forall|x: (u32, u32)|
                    #[trigger] updates.view_map().dom().contains(x) ==> updates.view_map()[x]
                        <= level,
                forall|x: (u32, u32)|
                    #[trigger] updates.view_map().dom().contains(x) ==> idx_reach_len(
                        index,
                        cell_addr,
                        x,
                        updates.view_map()[x] as nat,
                    ),
                forall|x: (u32, u32)|
                    new@.contains(x) ==> #[trigger] idx_reach_len(
                        index,
                        cell_addr,
                        x,
                        level as nat + 1,
                    ),
                forall|x: (u32, u32), y: (u32, u32)|
                    updates.view_map().dom().contains(x) && #[trigger] idx_edge(index, x, y) ==> (
                    updates.view_map().dom().contains(y) && updates.view_map()[y]
                        > updates.view_map()[x]) || new@.contains(y) || (updates.view_map()[x]
                        < level && exists|k: int| i <= k < pn && pending.items@[k] == y),
            decreases pn - i,
        {
            let p = pending.item_at(i);
            let ghost upd0 = updates.view_map();
            let ghost n0_entry = new@;
            let _ = updates.insert(p, level);
            proof {
                assert(pending@.contains(p));
                assert(p != cell_addr);
                assert forall|x: (u32, u32)|
                    #[trigger] updates.view_map().dom().contains(x) implies idx_reach_len(
                    index,
                    cell_addr,
                    x,
                    updates.view_map()[x] as nat,
                ) by {
                    if x != p {
                        assert(upd0.dom().contains(x));
                    }
                }
            }
            match self.dependencies.get(p) {
                Some(new_dependencies) => {
                    let dn = new_dependencies.len();
                    let mut j: usize = 0;
                    while j < dn
                        invariant
                            j <= dn == new_dependencies.items@.len(),
                            new.wf(),
                            new_dependencies.wf(),
                            n0_entry.subset_of(new@),
                            index.dom().contains(p),
                            index[p]@ == new_dependencies@,
                            idx_reach_len(index, cell_addr, p, level as nat),
                            !new@.contains(cell_addr),
                            forall|x: (u32, u32)|
                                new@.contains(x) ==> #[trigger] idx_reach_len(
                                    index,
                                    cell_addr,
                                    x,
                                    level as nat + 1,
                                ),
                            forall|k2: int|
                                0 <= k2 < j ==> new@.contains(
                                    #[trigger] new_dependencies.items@[k2],
                                ),
                        decreases dn - j,
                    {
                        let d = new_dependencies.item_at(j);
                        proof {
                            assert(idx_edge(index, p, d));
                            lemma_len_step(index, cell_addr, p, d, level as nat);
                            if d == cell_addr {
                                lemma_no_self_walk(cellsm, index, cell_addr);
                            }
                        }
                        new.insert(d);
                        j = j + 1;
                    }
                    proof {
                        assert forall|y: (u32, u32)| #[trigger] index[p]@.contains(y)
                            implies new@.contains(y) by {
                            let k2 = choose|k2: int|
                                0 <= k2 < new_dependencies.items@.len()
                                    && new_dependencies.items@[k2] == y;
                            assert(new@.contains(new_dependencies.items@[k2]));
                        }
                    }
                },
                None => {},
            }
            proof {
                let v_now = updates.view_map();
                assert(n0_entry.subset_of(new@));
                assert forall|x: (u32, u32), y: (u32, u32)|
                    v_now.dom().contains(x) && #[trigger] idx_edge(index, x, y) implies (
                v_now.dom().contains(y) && v_now[y] > v_now[x]) || new@.contains(y) || (v_now[x]
                    < level && exists|k: int| i + 1 <= k < pn && pending.items@[k] == y) by {
                    if x == p {
                        assert(index.dom().contains(p));
                        assert(index[p]@.contains(y));
                        assert(new@.contains(y));
                    } else {
                        assert(upd0.dom().contains(x));
                        assert(v_now[x] == upd0[x]);
                        if !((upd0.dom().contains(y) && upd0[y] > upd0[x]) || n0_entry.contains(
                            y,
                        )) {
                            assert(upd0[x] < level);
                            let k = choose|k: int|
                                i <= k < pn && #[trigger] pending.items@[k] == y;
                            if k == i {
                                assert(y == p);
                                assert(v_now[p] == level);
                            } else {
                                assert(i + 1 <= k < pn && pending.items@[k] == y);
                            }
                        } else {
                            if upd0.dom().contains(y) && upd0[y] > upd0[x] {
                                if y == p {
                                    assert(v_now[p] == level);
                                    assert(upd0[x] < level);
                                } else {
                                    assert(v_now[y] == upd0[y]);
                                }
                            }
                        }
                    }
                }
            }
            i = i + 1;
        }
        new
    }

    /// Walks the reverse index from the edited cell, re-visiting cells fed
    /// along longer chains, until the frontier drains: the resulting level
    /// map covers a closed set in which every edge climbs a level, and each
    /// level is witnessed by a walk of that length.
    #[verifier::loop_isolation(false)]
    #[verifier::rlimit(100)]
    #[verifier::spinoff_prover]
    fn walk_levels(&self, cell_addr: (u32, u32)) -> (updates: PairMap<u128>)
        requires
            self.cells.wf(),
            self.dependencies.wf(),
            forall|k: (u32, u32)|
                self.index_map().dom().contains(k) ==> (#[trigger] self.index_map()[k]).wf(),
            index_consistent(self.cells_map(), self.index_map()),
            acyclic(self.cells_map()),
        ensures
            updates.wf(),
            updates.view_map().dom().contains(cell_addr),
            updates.view_map()[cell_addr] == 0,
            forall|x: (u32, u32)|
                #[trigger] updates.view_map().dom().contains(x) ==> idx_reach_len(
                    self.index_map(),
                    cell_addr,
                    x,
                    updates.view_map()[x] as nat,
                ),
            forall|x: (u32, u32), y: (u32, u32)|
                updates.view_map().dom().contains(x) && #[trigger] idx_edge(
                    self.index_map(),
                    x,
                    y,
                ) ==> updates.view_map().dom().contains(y) && updates.view_map()[y]
                    > updates.view_map()[x],
    {
        let ghost index = self.index_map();
        let ghost cellsm = self.cells_map();
        proof {
            lemma_dom_bound(self.cells.items@);
        }
        let mut updates: PairMap<u128> = PairMap::new();
        let _ = updates.insert(cell_addr, 0);
        proof {
            assert(idx_reach_len(index, cell_addr, cell_addr, 0));
        }
        let mut new: RefSet = match self.dependencies.get(cell_addr) {
            Some(s) => {
                let c = s.clone();
                proof {
                    assert forall|x: (u32, u32)| #[trigger] c@.contains(x) implies idx_reach_len(
                        index,
                        cell_addr,
                        x,
                        1,
                    ) && x != cell_addr by {
                        assert(idx_edge(index, cell_addr, x));
                        assert(idx_reach_len(index, cell_addr, cell_addr, 0));
                        lemma_len_step(index, cell_addr, cell_addr, x, 0);
                        if x == cell_addr {
                            lemma_no_self_walk(cellsm, index, cell_addr);
                        }
                    }
                }
                c
            },
            None => RefSet::new(),
        };
        let cells_len = self.cells.items.len();
        let mut level: u128 = 1;
        let ghost mut rounds: int = 0;
        loop
            invariant
                cells_len == self.cells.items@.len(),
                self.cells.wf(),
                self.dependencies.wf(),
                index == self.index_map(),
                cellsm == self.cells_map(),
                index_consistent(cellsm, index),
                acyclic(cellsm),
                cellsm.dom().finite(),
                cellsm.dom().len() <= self.cells.items@.len(),
                updates.wf(),
                new.wf(),
                0 <= rounds,
                level as int == rounds + 1,
                updates.view_map().dom().contains(cell_addr),
                updates.view_map()[cell_addr] == 0,
                !new@.contains(cell_addr),
                forall|x: (u32, u32)|
                    #[trigger] updates.view_map().dom().contains(x) ==> updates.view_map()[x]
                        < level,
                forall|x: (u32, u32)|
                    #[trigger] updates.view_map().dom().contains(x) ==> idx_reach_len(
                        index,
                        cell_addr,
                        x,
                        updates.view_map()[x] as nat,
                    ),
                forall|x: (u32, u32)|
                    new@.contains(x) ==> #[trigger] idx_reach_len(
                        index,
                        cell_addr,
                        x,
                        level as nat,
                    ),
                forall|x: (u32, u32), y: (u32, u32)|
                    updates.view_map().dom().contains(x) && #[trigger] idx_edge(index, x, y)
                        ==> (updates.view_map().dom().contains(y) && updates.view_map()[y]
                        > updates.view_map()[x]) || new@.contains(y),
            decreases self.cells.items@.len() + 2 - rounds,
        {
            if new.is_empty() {
                break ;
            }
            proof {
                let w = new.items@[0];
                assert(new@.contains(w));
                lemma_len_bound(cellsm, index, cell_addr, w, level as nat);
                assert(rounds + 1 <= cellsm.dom().len());
            }
            let pending = new;
            new = self.walk_round(cell_addr, level, &pending, &mut updates);
            proof {
                rounds = rounds + 1;
                assert(level as int + 1 < u128::MAX) by {
                    assert(level as int <= cellsm.dom().len());
                    assert(cellsm.dom().len() <= cells_len);
                    assert(usize::MAX as int <= u64::MAX as int);
                }
            }
            level = level + 1;
            proof {
                assert forall|x: (u32, u32)| new@.contains(x) implies #[trigger] idx_reach_len(
                    index,
                    cell_addr,
                    x,
                    level as nat,
                ) by {
                    assert(idx_reach_len(index, cell_addr, x, (level - 1) as nat + 1));
                }
            }
        }
        updates
    }

    /// The downstream closure of the edited cell: each affected cell leveled
    /// by the longest chain feeding it through the reverse index, ordered by
    /// level, then column, then row. The levels come along as ghost data.
    #[verifier::loop_isolation(false)]
    #[verifier::rlimit(100)]
    #[verifier::spinoff_prover]
    fn prepare_update_plan(&self, cell_addr: (u32, u32)) -> (r: (
        Vec<(u32, u32)>,
        Ghost<Map<(u32, u32), u128>>,
    ))
        requires
            self.cells.wf(),
            self.dependencies.wf(),
            forall|k: (u32, u32)|
                self.index_map().dom().contains(k) ==> (#[trigger] self.index_map()[k]).wf(),
            index_consistent(self.cells_map(), self.index_map()),
            acyclic(self.cells_map()),
        ensures
            is_update_plan(self.index_map(), cell_addr, r.0@, r.1@),
    {
        let ghost index = self.index_map();
        let updates = self.walk_levels(cell_addr);
        let ghost um = updates.view_map();
        proof {
            lemma_drained_levels(index, cell_addr, um);
        }
        let entries = sort_plan(updates.items);
        proof {
            lemma_perm_distinct_keys(updates.items@, entries@);
        }
        let en = entries.len();
        let mut plan: Vec<(u32, u32)> = Vec::new();
        let mut i: usize = 0;
        while i < en
            invariant
                i <= en == entries@.len(),
                um == updates.view_map(),
                updates.wf(),
                entries@.to_multiset() == updates.items@.to_multiset(),
                distinct_keys(entries@),
                plan@.len() == i,
                forall|k: int| 0 <= k < i ==> #[trigger] plan@[k] == entries@[k].0,
                forall|k: int|
                    0 <= k < i ==> um.dom().contains(#[trigger] plan@[k]) && um[plan@[k]]
                        == entries@[k].1,
            decreases en - i,
        {
            let e = entries[i];
            proof {
                entries@.to_multiset_ensures();
                updates.items@.to_multiset_ensures();
                assert(entries@.contains(e)) by {
                    assert(entries@[i as int] == e);
                }
                assert(entries@.to_multiset().count(e) > 0);
                assert(updates.items@.to_multiset().count(e) > 0);
                assert(updates.items@.contains(e));
                let k = choose|k: int| 0 <= k < updates.items@.len() && updates.items@[k] == e;
                lemma_map_of_index(updates.items@, k);
            }
            plan.push(e.0);
            i = i + 1;
        }
        proof {
            assert forall|x: (u32, u32)| plan@.contains(x) implies #[trigger] affected(
                index,
                cell_addr,
                x,
            ) by {
                let k = choose|k: int| 0 <= k < plan@.len() && plan@[k] == x;
                assert(um.dom().contains(x));
            }
            assert forall|x: (u32, u32)| #[trigger] affected(index, cell_addr, x) implies plan@
                .contains(x) by {
                entries@.to_multiset_ensures();
                updates.items@.to_multiset_ensures();
                assert(um.dom().contains(x));
                let k = choose|k: int|
                    0 <= k < updates.items@.len() && (#[trigger] updates.items@[k]).0 == x;
                lemma_map_of_index(updates.items@, k);
                assert(updates.items@.contains(updates.items@[k]));
                assert(updates.items@.to_multiset().count(updates.items@[k]) > 0);
                assert(entries@.to_multiset().count(updates.items@[k]) > 0);
                assert(entries@.contains(updates.items@[k]));
                let k2 = choose|k2: int|
                    0 <= k2 < entries@.len() && entries@[k2] == updates.items@[k];
                assert(plan@[k2] == x);
            }
            assert forall|i2: int, j2: int|
                0 <= i2 < j2 < plan@.len() implies #[trigger] plan@[i2] != #[trigger] plan@[j2] by {
                assert(entries@[i2].0 == plan@[i2]);
                assert(entries@[j2].0 == plan@[j2]);
            }
            assert forall|i2: int, j2: int|
                0 <= i2 < plan@.len() && 0 <= j2 < plan@.len() && idx_edge(
                    index,
                    #[trigger] plan@[i2],
                    #[trigger] plan@[j2],
                ) implies i2 < j2 by {
                assert(um.dom().contains(plan@[i2]));
                assert(um.dom().contains(plan@[j2]));
                assert(um[plan@[j2]] > um[plan@[i2]]);
                if j2 < i2 {
                    assert(plan_le(entries@[j2], entries@[i2]));
                } else if j2 == i2 {
                    let s = choose|s: Seq<(u32, u32)>|
                        #[trigger] idx_chain(index, s) && s.len() == um[plan@[i2]] + 1 && s[0]
                            == cell_addr && s.last() == plan@[i2];
                }
            }
        }
        (plan, Ghost(um))
    }

    /// Recomputes the downstream closure in plan order against the scratch
    /// overlay, reports each changed output, and commits the changes. A
    /// formula-less edited cell is always reported first.
    #[verifier::loop_isolation(false)]
    #[verifier::rlimit(100)]
    #[verifier::spinoff_prover]
    fn propagate_changes(&mut self, updated_cell: (u32, u32)) -> (r: Vec<CellUpdateResponse>)
        requires
            old(self).wf(),
        ensures
            final(self).wf(),
            final(self).dependencies == old(self).dependencies,
            final(self).functions == old(self).functions,
            final(self).cells_map().dom() =~= old(self).cells_map().dom(),
            forall|k: (u32, u32)|
                final(self).cells_map().dom().contains(k) ==> (#[trigger] final(self).cells_map()[k]).expression == old(self).cells_map()[k].expression,
            forall|k: (u32, u32)|
                old(self).cells_map().dom().contains(k) && (#[trigger] old(self).cells_map()[k]).expression is None ==> final(self).cells_map()[k].value == old(self).cells_map()[k].value,
            old(self).cells_map().dom().contains(updated_cell) && old(self).cells_map()[updated_cell].expression is None ==> r@.len() >= 1 && r@[0].col == updated_cell.0 && r@[0].row
                == updated_cell.1 && (old(self).cells_map()[updated_cell].value@ matches
                CellValueS::Error(e) ==> (r@[0].error matches Some(s) && s@ == e)),
            exists|plan: Seq<(u32, u32)>, lv: Map<(u32, u32), u128>, tail: Seq<RespS>, scratch: Map<(u32, u32), CellValueS>|
                #![trigger is_update_plan(old(self).index_map(), updated_cell, plan, lv), pass_rel(old(self).cells_map(), plan, tail, scratch)]
                is_update_plan(old(self).index_map(), updated_cell, plan, lv) && pass_rel(
                    old(self).cells_map(),
                    plan,
                    tail,
                    scratch,
                ) && resp_views(r@) == head_of(old(self).cells_map(), updated_cell) + tail
                    && committed(old(self).cells_map(), scratch, final(self).cells_map()),
    {
        let ghost cells0 = old(self).cells_map();
        let mut result: Vec<CellUpdateResponse> = Vec::new();
        let mut values: PairMap<CellValue> = PairMap::new();
        match self.cells.get(updated_cell) {
            Some(cell) => {
                match &cell.expression {
                    None => {
                        result.push(cell_update_response(updated_cell, &cell.value));
                        proof {
                            assert(resp_views(result@) =~= head_of(cells0, updated_cell));
                        }
                    },
                    Some(_) => {
                        proof {
                            assert(resp_views(result@) =~= head_of(cells0, updated_cell));
                        }
                    },
                }
            },
            None => {
                proof {
                    assert(resp_views(result@) =~= head_of(cells0, updated_cell));
                }
            },
        }
        let ghost head = head_of(cells0, updated_cell);
        let ghost mut tail: Seq<RespS> = Seq::empty();
        proof {
            assert(scratch_views(values.view_map()) =~= Map::<(u32, u32), CellValueS>::empty());
            assert(resp_views(result@) =~= head + tail);
        }
        let (plan, levels) = self.prepare_update_plan(updated_cell);
        proof {
            assert(plan@.subrange(0, 0) =~= Seq::<(u32, u32)>::empty());
            assert(pass_rel(cells0, plan@.subrange(0, 0), tail, scratch_views(values.view_map())));
        }
        let pn = plan.len();
        let mut i: usize = 0;
        while i < pn
            invariant
                i <= pn == plan@.len(),
                self.cells == old(self).cells,
                self.dependencies == old(self).dependencies,
                self.functions == old(self).functions,
                values.wf(),
                forall|k: (u32, u32)|
                    values.view_map().dom().contains(k) ==> cv_wf(
                        (#[trigger] values.view_map()[k])@,
                    ),
                forall|k: (u32, u32)|
                    #[trigger] values.view_map().dom().contains(k) ==> cells0.dom().contains(k)
                        && cells0[k].expression is Some,
                pass_rel(cells0, plan@.subrange(0, i as int), tail, scratch_views(values.view_map())),
                resp_views(result@) == head + tail,
                head == head_of(cells0, updated_cell),
                result@.len() >= if cells0.dom().contains(updated_cell) && cells0[updated_cell].expression is None {
                    1int
                } else {
                    0int
                },
                cells0.dom().contains(updated_cell) && cells0[updated_cell].expression is None
                    ==> result@.len() >= 1 && result@[0].col == updated_cell.0 && result@[0].row
                    == updated_cell.1 && (cells0[updated_cell].value@ matches
                    CellValueS::Error(e) ==> (result@[0].error matches Some(s) && s@
                    == e)),
            decreases pn - i,
        {
            let dependent_cell = plan[i];
            let ghost s0 = scratch_views(values.view_map());
            let ghost tail0 = tail;
            match self.cells.get(dependent_cell) {
                Some(cell) => match &cell.expression {
                    Some(expression) => {
                        let lookup = OverlayLookup { scratch: &values, cells: &self.cells };
                        let value = match expression.comment() {
                            Some(comment) => CellValue::Comment(comment),
                            None => match expression.solve(&lookup, &self.functions) {
                                Ok(v) => CellValue::Decimal(v),
                                Err(e) => CellValue::Error(e),
                            },
                        };
                        proof {
                            assert(cells0.dom().contains(dependent_cell));
                            assert(*cell == cells0[dependent_cell]);
                            assert(overlay_env(s0, cells0) =~= crate::solve::env_of(&lookup));
                            if !(expression.node@ is Comment) && !crate::solve::has_function(
                                expression.node@,
                            ) {
                                crate::solve::lemma_eval_env_matches(expression.node@, &lookup);
                            }
                            assert(recomputed_value(
                                cells0[dependent_cell].expression->0,
                                overlay_env(s0, cells0),
                                value@,
                            ));
                        }
                        let ghost v_s = value@;
                        if value != cell.value {
                            let resp = cell_update_response(dependent_cell, &value);
                            proof {
                                lemma_resp_views_push(result@, resp);
                            }
                            result.push(resp);
                            let ghost vals0 = values.view_map();
                            let _ = values.insert(dependent_cell, value);
                            proof {
                                tail = tail0.push(resp_of(dependent_cell, v_s));
                                assert(scratch_views(values.view_map()) =~= s0.insert(
                                    dependent_cell,
                                    v_s,
                                ));
                                assert(!cv_eq(v_s, cells0[dependent_cell].value@));
                                assert(pass_step(
                                    cells0,
                                    dependent_cell,
                                    tail0,
                                    s0,
                                    tail,
                                    scratch_views(values.view_map()),
                                ));
                                assert(head + tail =~= (head + tail0).push(
                                    resp_of(dependent_cell, v_s),
                                ));
                                assert(resp_views(result@) == head + tail);
                                assert forall|k: (u32, u32)|
                                    #[trigger] values.view_map().dom().contains(k) implies cells0
                                    .dom().contains(k) && cells0[k].expression is Some by {
                                    if k != dependent_cell {
                                        assert(vals0.dom().contains(k));
                                    }
                                }
                            }
                        } else {
                            proof {
                                assert(cv_eq(v_s, cells0[dependent_cell].value@));
                                assert(pass_step(
                                    cells0,
                                    dependent_cell,
                                    tail0,
                                    s0,
                                    tail,
                                    scratch_views(values.view_map()),
                                ));
                            }
                        }
                    },
                    None => {
                        proof {
                            assert(pass_step(
                                cells0,
                                dependent_cell,
                                tail0,
                                s0,
                                tail,
                                scratch_views(values.view_map()),
                            ));
                        }
                    },
                },
                None => {
                    proof {
                        assert(!cells0.dom().contains(dependent_cell));
                        assert(pass_step(
                            cells0,
                            dependent_cell,
                            tail0,
                            s0,
                            tail,
                            scratch_views(values.view_map()),
                        ));
                    }
                },
            }
            proof {
                assert(plan@[i as int] == dependent_cell);
                lemma_pass_rel_step(
                    cells0,
                    plan@.subrange(0, i as int),
                    dependent_cell,
                    tail0,
                    s0,
                    tail,
                    scratch_views(values.view_map()),
                );
                assert(plan@.subrange(0, i as int).push(dependent_cell) =~= plan@.subrange(
                    0,
                    i as int + 1,
                ));
            }
            i = i + 1;
        }
        let ghost scratch_fin = scratch_views(values.view_map());
        let vn = values.items.len();
        let mut j: usize = 0;
        proof {
            assert(self.cells_map() == cells0);
            assert(self.cells_map().dom() =~= cells0.dom());
        }
        while j < vn
            invariant
                j <= vn == values.items@.len(),
                self.cells.wf(),
                self.dependencies == old(self).dependencies,
                self.functions == old(self).functions,
                values.wf(),
                scratch_fin == scratch_views(values.view_map()),
                forall|k: (u32, u32)|
                    values.view_map().dom().contains(k) ==> cv_wf(
                        (#[trigger] values.view_map()[k])@,
                    ),
                forall|k: (u32, u32)|
                    #[trigger] values.view_map().dom().contains(k) ==> cells0.dom().contains(k)
                        && cells0[k].expression is Some,
                self.cells_map().dom() =~= cells0.dom(),
                forall|k: (u32, u32)|
                    self.cells_map().dom().contains(k) ==> (#[trigger] self.cells_map()[k]).expression == cells0[k].expression,
                forall|k: (u32, u32)|
                    self.cells_map().dom().contains(k) ==> if (exists|j2: int|
                        0 <= j2 < j && (#[trigger] values.items@[j2]).0 == k) {
                        scratch_fin.dom().contains(k) && (#[trigger] self.cells_map()[k]).value@
                            == scratch_fin[k]
                    } else {
                        self.cells_map()[k] == cells0[k]
                    },
                forall|k: (u32, u32)|
                    self.cells_map().dom().contains(k) ==> (#[trigger] self.cells_map()[k]).value == cells0[k].value || (values.view_map().dom().contains(k) && cv_wf(
                        self.cells_map()[k].value@,
                    )),
                forall|k: (u32, u32)|
                    cells0.dom().contains(k) && (#[trigger] cells0[k]).expression is None
                        ==> self.cells_map()[k].value == cells0[k].value,
            decreases vn - j,
        {
            let a = values.items[j].0;
            let v = values.items[j].1.clone();
            proof {
                lemma_map_of_index(values.items@, j as int);
            }
            let ghost cm0 = self.cells_map();
            self.set_cell_value(a, v);
            proof {
                assert(self.cells_map().dom() =~= cm0.dom());
                assert forall|k: (u32, u32)|
                    self.cells_map().dom().contains(k) implies (#[trigger] self.cells_map()[
                    k]).expression == cells0[k].expression by {
                    if k != a {
                        assert(self.cells_map()[k] == cm0[k]);
                    }
                }
                assert forall|k: (u32, u32)|
                    cells0.dom().contains(k) && (#[trigger] cells0[k]).expression
                        is None implies self.cells_map()[k].value == cells0[k].value by {
                    if k != a {
                        assert(self.cells_map()[k] == cm0[k]);
                    } else {
                        assert(values.view_map().dom().contains(a));
                    }
                }
                assert forall|k: (u32, u32)|
                    self.cells_map().dom().contains(k) implies (#[trigger] self.cells_map()[
                    k]).value == cells0[k].value || (values.view_map().dom().contains(k)
                    && cv_wf(self.cells_map()[k].value@)) by {
                    if k == a {
                        assert(values.view_map().dom().contains(a));
                        assert(values.view_map()[a] == values.items@[j as int].1);
                        assert(cv_wf(values.view_map()[a]@));
                        assert(self.cells_map()[a].value == values.items@[j as int].1);
                    } else {
                        assert(self.cells_map()[k] == cm0[k]);
                    }
                }
                assert forall|k: (u32, u32)|
                    self.cells_map().dom().contains(k) implies if (exists|j2: int|
                        0 <= j2 < j + 1 && (#[trigger] values.items@[j2]).0 == k) {
                        scratch_fin.dom().contains(k) && (#[trigger] self.cells_map()[k]).value@
                            == scratch_fin[k]
                    } else {
                        self.cells_map()[k] == cells0[k]
                    } by {
                    if k == a {
                        assert(values.items@[j as int].0 == a);
                        assert(values.view_map().dom().contains(a));
                        assert(scratch_fin.dom().contains(a));
                        assert(self.cells_map()[a].value == values.items@[j as int].1);
                        assert(scratch_fin[a] == values.view_map()[a]@);
                    } else {
                        assert(self.cells_map()[k] == cm0[k]);
                        if exists|j2: int|
                            0 <= j2 < j + 1 && (#[trigger] values.items@[j2]).0 == k {
                            let j2 = choose|j2: int|
                                0 <= j2 < j + 1 && (#[trigger] values.items@[j2]).0 == k;
                            assert(j2 != j);
                            assert(0 <= j2 < j && values.items@[j2].0 == k);
                        }
                    }
                }
            }
            j = j + 1;
        }
        proof {
            assert(committed(cells0, scratch_fin, self.cells_map())) by {
                assert forall|k: (u32, u32)|
                    #[trigger] self.cells_map().dom().contains(k) implies self.cells_map()[
                    k].expression == cells0[k].expression && if scratch_fin.dom().contains(k) {
                    self.cells_map()[k].value@ == scratch_fin[k]
                } else {
                    self.cells_map()[k] == cells0[k]
                } by {
                    if scratch_fin.dom().contains(k) {
                        assert(values.view_map().dom().contains(k));
                        assert(has_key(values.items@, k));
                    }
                }
            }
            assert(is_update_plan(old(self).index_map(), updated_cell, plan@, levels@));
            assert(plan@.subrange(0, plan@.len() as int) =~= plan@);
            assert(pass_rel(cells0, plan@, tail, scratch_fin));
            assert(resp_views(result@) == head_of(cells0, updated_cell) + tail);
            assert forall|a: (u32, u32), b: (u32, u32)|
                #[trigger] dep_edge(self.cells_map(), a, b) <==> dep_edge(cells0, a, b) by {
                if self.cells_map().dom().contains(a) {
                    assert(self.cells_map()[a].deps() =~= cells0[a].deps());
                }
            }
            assert(acyclic(self.cells_map())) by {
                lemma_acyclic_sub(cells0, self.cells_map());
            }
            assert(index_consistent(self.cells_map(), self.index_map()));
            assert forall|k: (u32, u32)|
                self.cells_map().dom().contains(k) implies (#[trigger] self.cells_map()[k]).wf() by {
                assert(cells0[k].wf());
            }
        }
        result
    }
}

/// The text is empty or all whitespace: such an edit is a deletion.
pub open spec fn is_blank(s: Seq<char>) -> bool {
    forall|i: int| 0 <= i < s.len() ==> crate::tokenize::is_space_char(#[trigger] s[i])
}

fn is_blank_exec(s: &str) -> (r: bool)
    ensures
        r == is_blank(s@),
{
    let n = s.unicode_len();
    let mut i: usize = 0;
    while i < n
        invariant
            i <= n == s@.len(),
            forall|k: int| 0 <= k < i ==> crate::tokenize::is_space_char(#[trigger] s@[k]),
        decreases n - i,
    {
        let c = s.get_char(i);
        let code = c as u32;
        if !(code == 32 || code == 9 || code == 10 || code == 11 || code == 12 || code == 13) {
            return false;
        }
        i = i + 1;
    }
    true
}

impl<F: FuncTable> Sheet<F> {
    /// Applies one cell edit and returns the ordered list of changed
    /// outputs. Present non-blank text is compiled, cycle-checked and
    /// stored (as a formula, or as an error-valued cell); absent or blank
    /// text deletes the cell; propagation then recomputes the downstream
    /// closure. The sheet's two laws, dependency-index consistency and
    /// cycle-freedom, hold again when the edit is done.
    #[verifier::rlimit(100)]
    pub fn set_cell_expression(&mut self, request: CellUpdateRequest) -> (responses: Vec<
        CellUpdateResponse,
    >)
        requires
            old(self).wf(),
        ensures
            final(self).wf(),
            ({
                let addr = (request.col, request.row);
                match request.expression {
                    Some(text) => if !is_blank(text@) {
                        match Expression::from_spec(text@, true) {
                            Ok(n) => if reachable_from(
                                old(self).cells_map(),
                                crate::node::node_deps(n),
                                addr,
                            ) {
                                final(self).cells_map().dom().contains(addr) && final(self).cells_map()[addr].expression is None && final(self).cells_map()[addr].value@ == CellValueS::Error(circular_msg())
                                    && responses@.len() >= 1 && responses@[0].col == addr.0
                                    && responses@[0].row == addr.1 && (responses@[0].error matches
                                Some(s) && s@ == circular_msg())
                            } else {
                                final(self).cells_map().dom().contains(addr) && (final(self).cells_map()[addr].expression matches Some(e) && e.node@ == n)
                            },
                            Err(m) => final(self).cells_map().dom().contains(addr) && final(self).cells_map()[addr].expression is None && final(self).cells_map()[addr].value@ == CellValueS::Error(m)
                                && responses@.len() >= 1 && responses@[0].col == addr.0
                                && responses@[0].row == addr.1 && (responses@[0].error matches
                            Some(s) && s@ == m),
                        }
                    } else {
                        !final(self).cells_map().dom().contains(addr)
                    },
                    None => !final(self).cells_map().dom().contains(addr),
                }
            }),
            exists|
                cells1: Map<(u32, u32), Cell>,
                plan: Seq<(u32, u32)>,
                lv: Map<(u32, u32), u128>,
                tail: Seq<RespS>,
                scratch: Map<(u32, u32), CellValueS>,
            |
                #![trigger is_update_plan(final(self).index_map(), (request.col, request.row), plan, lv), pass_rel(cells1, plan, tail, scratch)]
                edited_cells(old(self).cells_map(), request, cells1) && is_update_plan(
                    final(self).index_map(),
                    (request.col, request.row),
                    plan,
                    lv,
                ) && pass_rel(cells1, plan, tail, scratch) && resp_views(responses@) == head_of(
                    cells1,
                    (request.col, request.row),
                ) + tail && committed(cells1, scratch, final(self).cells_map()),
    {
        let cell_addr = (request.col, request.row);
        let ghost cells0 = self.cells_map();
        let ghost index0 = self.index_map();
        let is_edit = match &request.expression {
            Some(s) => !is_blank_exec(s.as_str()),
            None => false,
        };
        let mut old_dependencies: Option<RefSet> = None;
        let mut new_dependencies: Option<RefSet> = None;
        let ghost mut cycle_free_deps: Set<(u32, u32)> = Set::empty();
        let ghost mut committed_formula: bool = false;
        if is_edit {
            let expression_string = match &request.expression {
                Some(s) => s,
                None => {
                    proof {
                        assert(false);
                    }
                    return Vec::new();
                },
            };
            let expression_result = self.get_expression_from_str(
                cell_addr,
                expression_string.as_str(),
                true,
            );
            let old_value = match self.cells.get(cell_addr) {
                Some(cell) => cell.value.clone(),
                None => CellValue::CalcPending,
            };
            let new_cell = match expression_result {
                Ok(e) => {
                    proof {
                        committed_formula = true;
                        cycle_free_deps = e.cell_dependencies@;
                    }
                    Cell { expression: Some(e), value: old_value }
                },
                Err(error) => Cell { expression: None, value: CellValue::Error(error) },
            };
            new_dependencies = new_cell.get_dependencies();
            match self.cells.insert(cell_addr, new_cell) {
                Some(old_cell) => {
                    old_dependencies = old_cell.get_dependencies();
                },
                None => {},
            }
        } else {
            match self.cells.remove(cell_addr) {
                Some(old_cell) => {
                    old_dependencies = old_cell.get_dependencies();
                },
                None => {},
            }
        }
        let old_d = match old_dependencies {
            Some(s) => s,
            None => RefSet::new(),
        };
        let new_d = match new_dependencies {
            Some(s) => s,
            None => RefSet::new(),
        };
        proof {
            assert(old_d.wf() && new_d.wf()) by {
                if cells0.dom().contains(cell_addr) {
                    assert(cells0[cell_addr].wf());
                }
            }
        }
        self.remove_cell_dependencies(cell_addr, &old_d, &new_d);
        self.add_cell_dependencies(cell_addr, &new_d, &old_d);
        proof {
            let cells1 = self.cells_map();
            let index2 = self.index_map();
            let od = old_d@;
            let nd = new_d@;
            assert(od =~= if cells0.dom().contains(cell_addr) {
                cells0[cell_addr].deps()
            } else {
                Set::<(u32, u32)>::empty()
            });
            assert(nd =~= if cells1.dom().contains(cell_addr) {
                cells1[cell_addr].deps()
            } else {
                Set::<(u32, u32)>::empty()
            });
            // P5 is re-established: both directions of the index law.
            assert forall|c: (u32, u32), d: (u32, u32)|
                #[trigger] dep_edge(cells1, c, d) implies index2.dom().contains(d) && index2[d]@.contains(c) by {
                if c == cell_addr {
                    assert(nd.contains(d));
                    if od.contains(d) {
                        assert(dep_edge(cells0, cell_addr, d));
                        assert(index0.dom().contains(d) && index0[d]@.contains(cell_addr));
                    }
                } else {
                    assert(dep_edge(cells0, c, d));
                    assert(index0.dom().contains(d) && index0[d]@.contains(c));
                    if dropped(od, nd, d) {
                        assert(index0[d]@.remove(cell_addr).contains(c));
                        assert(!(index0[d]@.remove(cell_addr) =~= Set::<(u32, u32)>::empty()));
                    }
                }
            }
            assert forall|d: (u32, u32), c: (u32, u32)|
                index2.dom().contains(d) && #[trigger] index2[d]@.contains(c) implies dep_edge(
                cells1,
                c,
                d,
            ) by {
                if dropped(nd, od, d) {
                    if c != cell_addr {
                        assert(index0.dom().contains(d) && index0[d]@.contains(c));
                        assert(dep_edge(cells0, c, d));
                    }
                } else if dropped(od, nd, d) {
                    assert(index0[d]@.contains(c));
                    assert(c != cell_addr || nd.contains(d));
                    assert(dep_edge(cells0, c, d));
                } else {
                    assert(index0.dom().contains(d) && index0[d]@.contains(c));
                    assert(dep_edge(cells0, c, d));
                    if c == cell_addr {
                        assert(od.contains(d));
                        assert(nd.contains(d));
                    }
                }
            }
            assert forall|d: (u32, u32)| #[trigger] index2.dom().contains(d) implies exists|
                c: (u32, u32),
            | index2[d]@.contains(c) by {
                if dropped(nd, od, d) {
                    assert(index2[d]@.contains(cell_addr));
                } else if dropped(od, nd, d) {
                    assert(!(index0[d]@.remove(cell_addr) =~= Set::<(u32, u32)>::empty()));
                    let c = choose|c: (u32, u32)| index0[d]@.remove(cell_addr).contains(c);
                    assert(index2[d]@.contains(c));
                } else {
                    let c = choose|c: (u32, u32)| index0[d]@.contains(c);
                    assert(index2[d]@.contains(c));
                }
            }
            // P4 is re-established: the graph stays cycle-free.
            if committed_formula {
                assert(cells1.dom() =~= cells0.dom().insert(cell_addr));
                assert forall|dd: (u32, u32), n: nat|
                    nd.contains(dd) implies !#[trigger] reaches(cells0, dd, cell_addr, n) by {
                    assert(!reachable_from(cells0, cycle_free_deps, cell_addr));
                }
                lemma_acyclic_insert(cells0, cells1, cell_addr, nd);
            } else {
                assert forall|a: (u32, u32), b: (u32, u32)|
                    #[trigger] dep_edge(cells1, a, b) implies dep_edge(cells0, a, b) by {
                    if a == cell_addr {
                        assert(nd =~= Set::<(u32, u32)>::empty());
                        assert(cells1[a].deps() =~= Set::<(u32, u32)>::empty());
                    }
                }
                lemma_acyclic_sub(cells0, cells1);
            }
            assert forall|k: (u32, u32)|
                cells1.dom().contains(k) implies (#[trigger] cells1[k]).wf() by {
                if k != cell_addr {
                    assert(cells0[k].wf());
                }
            }
            assert(self.wf());
        }
        let ghost cells1g = self.cells_map();
        let ghost index1 = self.index_map();
        proof {
            assert(edited_cells(cells0, request, cells1g));
        }
        let responses = self.propagate_changes(cell_addr);
        proof {
            let (plan, lv, tail, scratch) = choose|
                plan: Seq<(u32, u32)>,
                lv: Map<(u32, u32), u128>,
                tail: Seq<RespS>,
                scratch: Map<(u32, u32), CellValueS>,
            |
                #![trigger is_update_plan(index1, cell_addr, plan, lv), pass_rel(cells1g, plan, tail, scratch)]
                is_update_plan(index1, cell_addr, plan, lv) && pass_rel(cells1g, plan, tail, scratch)
                    && resp_views(responses@) == head_of(cells1g, cell_addr) + tail && committed(
                    cells1g,
                    scratch,
                    self.cells_map(),
                );
            assert(self.index_map() == index1);
            assert(edited_cells(cells0, request, cells1g) && is_update_plan(
                self.index_map(),
                cell_addr,
                plan,
                lv,
            ) && pass_rel(cells1g, plan, tail, scratch) && resp_views(responses@) == head_of(
                cells1g,
                cell_addr,
            ) + tail && committed(cells1g, scratch, self.cells_map()));
        }
        responses
    }
}

/// The sheet's two standing laws, read off its validity: after any sequence
/// of edits the reverse index holds exactly the live dependency edges, and
/// no committed cell's transitive dependency closure holds its own address.
pub proof fn lemma_sheet_invariants<F: FuncTable>(s: Sheet<F>)
    requires
        s.wf(),
    ensures
        index_consistent(s.cells_map(), s.index_map()),
        acyclic(s.cells_map()),
{
}

} // verus!
