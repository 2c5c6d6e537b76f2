use vstd::prelude::*;
use std::collections::HashSet;
use crate::cell::{face_of, leaf_cell, leaf_cell_of, vertex_neighbors, vertex_neighbors_of};

verus! {

/// Keys strictly ascending: the order in which the planner walks the cells.
pub open spec fn ascending(s: Seq<(u64, i32)>) -> bool {
    forall|i: int, j: int| 0 <= i < j < s.len() ==> s[i].0 < s[j].0
}

/// Every load is a count, hence not negative.
pub open spec fn loads_nonneg(s: Seq<(u64, i32)>) -> bool {
    forall|i: int| 0 <= i < s.len() ==> s[i].1 >= 0
}

/// The sum of all loads.
pub open spec fn total_load(s: Seq<(u64, i32)>) -> int
    decreases s.len(),
{
    if s.len() == 0 {
        0
    } else {
        total_load(s.drop_last()) + s.last().1
    }
}

/// Whether `cell` is a key of `s`.
pub open spec fn has_cell(s: Seq<(u64, i32)>, cell: u64) -> bool {
    exists|i: int| 0 <= i < s.len() && s[i].0 == cell
}

pub proof fn lemma_total_nonneg(s: Seq<(u64, i32)>)
    requires
        loads_nonneg(s),
    ensures
        total_load(s) >= 0,
    decreases s.len(),
{
    if s.len() > 0 {
        lemma_total_nonneg(s.drop_last());
    }
}

/// The leaf cell at latitude 0 and longitude 0: the middle of cube face 0.
pub open spec fn origin_cell() -> u64 {
    leaf_cell_of(0, 0x2000_0000, 0x2000_0000)
}

/// A walk from the origin: its first cell is a vertex neighbour of the
/// origin at `level`, and each further cell is a vertex neighbour of the one
/// before it.
pub open spec fn is_walk(level: u64, walk: Seq<u64>) -> bool {
    &&& walk.len() > 0
    &&& vertex_neighbors_of(origin_cell(), level).contains(walk[0])
    &&& forall|i: int|
        0 <= i < walk.len() - 1 ==> vertex_neighbors_of(walk[i], level).contains(
            #[trigger] walk[i + 1],
        )
}

/// `cell` is one of the cells of `level` that flooding vertex neighbours
/// from the origin reaches.
pub open spec fn reachable(level: u64, cell: u64) -> bool {
    exists|walk: Seq<u64>| #[trigger] is_walk(level, walk) && walk.last() == cell
}

/// Relies on std's `slice::sort_unstable`: the same elements, ascending.
#[verifier::external_body]
fn sort_cells(v: &mut Vec<u64>)
    ensures
        final(v)@.to_multiset() == old(v)@.to_multiset(),
        forall|i: int, j: int| 0 <= i < j < final(v)@.len() ==> final(v)@[i] <= final(v)@[j],
{
    v.sort_unstable()
}

/// Adds to `found` each of `cells` that `seen` does not hold yet.
fn visit_all(
    seen: &mut HashSet<u64>,
    found: &mut Vec<u64>,
    cells: &Vec<u64>,
    level: Ghost<u64>,
    via: Ghost<Seq<u64>>,
)
    requires
        forall|x: u64| old(seen)@.contains(x) <==> old(found)@.contains(x),
        old(found)@.no_duplicates(),
        forall|k: int| 0 <= k < cells@.len() ==> face_of(cells@[k]) < 6,
        forall|k: int| 0 <= k < cells@.len() ==> is_walk(level@, via@.push(#[trigger] cells@[k])),
    ensures
        forall|x: u64| final(seen)@.contains(x) <==> final(found)@.contains(x),
        final(found)@.no_duplicates(),
        final(found)@.len() >= old(found)@.len(),
        forall|k: int| 0 <= k < old(found)@.len() ==> final(found)@[k] == old(found)@[k],
        forall|k: int|
            old(found)@.len() <= k < final(found)@.len() ==> face_of(final(found)@[k]) < 6
                && reachable(level@, #[trigger] final(found)@[k]),
        forall|k: int| 0 <= k < cells@.len() ==> final(found)@.contains(#[trigger] cells@[k]),
{
    broadcast use vstd::std_specs::hash::group_hash_axioms;

    let ghost start = found@;
    let mut k: usize = 0;
    while k < cells.len()
        invariant
            0 <= k <= cells@.len(),
            forall|x: u64| seen@.contains(x) <==> found@.contains(x),
            found@.no_duplicates(),
            found@.len() >= start.len(),
            forall|m: int| 0 <= m < start.len() ==> found@[m] == start[m],
            forall|m: int| 0 <= m < cells@.len() ==> face_of(cells@[m]) < 6,
            forall|m: int| 0 <= m < cells@.len() ==> is_walk(level@, via@.push(#[trigger] cells@[m])),
            forall|m: int|
                start.len() <= m < found@.len() ==> face_of(found@[m]) < 6 && reachable(
                    level@,
                    #[trigger] found@[m],
                ),
            forall|m: int| 0 <= m < k ==> found@.contains(#[trigger] cells@[m]),
        decreases cells@.len() - k,
    {
        let c = cells[k];
        if !seen.contains(&c) {
            seen.insert(c);
            let ghost before = found@;
            found.push(c);
            assert(found@[found@.len() - 1] == c);
            assert(is_walk(level@, via@.push(c)) && via@.push(c).last() == c);
            assert forall|x: u64| found@.contains(x) <==> (before.contains(x) || x == c) by {
                if before.contains(x) {
                    let w = choose|w: int| 0 <= w < before.len() && before[w] == x;
                    assert(found@[w] == x);
                }
                if found@.contains(x) && x != c {
                    let w = choose|w: int| 0 <= w < found@.len() && found@[w] == x;
                    assert(before[w] == x);
                }
            }
            assert forall|m: int| 0 <= m < k + 1 implies found@.contains(#[trigger] cells@[m]) by {
                if m < k {
                    let w = choose|w: int| 0 <= w < before.len() && before[w] == cells@[m];
                    assert(found@[w] == cells@[m]);
                }
            }
        }
        k = k + 1;
    }
}

proof fn lemma_closed_holds_walk(level: u64, found: Seq<u64>, walk: Seq<u64>)
    requires
        forall|k: int|
            0 <= k < vertex_neighbors_of(origin_cell(), level).len() ==> found.contains(
                #[trigger] vertex_neighbors_of(origin_cell(), level)[k],
            ),
        forall|i: int, k: int|
            0 <= i < found.len() && 0 <= k < vertex_neighbors_of(found[i], level).len()
                ==> found.contains(#[trigger] vertex_neighbors_of(found[i], level)[k]),
        is_walk(level, walk),
    ensures
        found.contains(walk.last()),
    decreases walk.len(),
{
    if walk.len() == 1 {
        let k = choose|k: int|
            0 <= k < vertex_neighbors_of(origin_cell(), level).len() && vertex_neighbors_of(
                origin_cell(),
                level,
            )[k] == walk[0];
        assert(found.contains(vertex_neighbors_of(origin_cell(), level)[k]));
    } else {
        let prev = walk.drop_last();
        assert forall|i: int| 0 <= i < prev.len() - 1 implies vertex_neighbors_of(
            prev[i],
            level,
        ).contains(#[trigger] prev[i + 1]) by {
            assert(prev[i + 1] == walk[i + 1]);
        }
        lemma_closed_holds_walk(level, found, prev);
        let p = prev.last();
        let cell = walk.last();
        assert(walk[walk.len() - 2] == p);
        let j = walk.len() - 2;
        assert(vertex_neighbors_of(walk[j], level).contains(walk[j + 1]));
        let i = choose|i: int| 0 <= i < found.len() && found[i] == p;
        let k = choose|k: int|
            0 <= k < vertex_neighbors_of(p, level).len() && vertex_neighbors_of(p, level)[k] == cell;
        assert(found.contains(vertex_neighbors_of(found[i], level)[k]));
    }
}

/// The cells of one storage level, each with its load, ordered by cell id.
pub struct CellList {
    storage_level: u64,
    cells: Vec<(u64, i32)>,
}

impl View for CellList {
    type V = Seq<(u64, i32)>;

    closed spec fn view(&self) -> Seq<(u64, i32)> {
        self.cells@
    }
}

impl CellList {
    /// The storage level that the cells belong to.
    pub closed spec fn level(&self) -> u64 {
        self.storage_level
    }

    /// The storage level that the cells belong to.
    pub fn storage_level(&self) -> (r: u64)
        ensures
            r == self.level(),
    {
        self.storage_level
    }

    /// Well-formed: ascending keys and loads that are not negative.
    pub open spec fn wf(&self) -> bool {
        ascending(self@) && loads_nonneg(self@)
    }

    /// A list without cells.
    pub fn new(storage_level: u64) -> (r: CellList)
        ensures
            r.wf(),
            r@ == Seq::<(u64, i32)>::empty(),
            r.level() == storage_level,
    {
        CellList { storage_level, cells: Vec::new() }
    }

    /// The entries in ascending cell order.
    pub fn entries(&self) -> (r: &Vec<(u64, i32)>)
        ensures
            r@ == self@,
    {
        &self.cells
    }

    /// The number of cells.
    pub fn len(&self) -> (r: usize)
        ensures
            r == self@.len(),
    {
        self.cells.len()
    }

    /// Every cell of `storage_level`, each with load zero.
    ///
    /// Starting from the leaf cell at latitude and longitude zero, the vertex
    /// neighbours at `storage_level` are collected again and again until no new
    /// cell appears; the cells come out in ascending order.
    pub fn cell_list(storage_level: u64) -> (r: CellList)
        requires
            1 <= storage_level <= 15,
        ensures
            r.wf(),
            r.level() == storage_level,
            forall|i: int| 0 <= i < r@.len() ==> r@[i].1 == 0,
            forall|c: u64| has_cell(r@, c) <==> reachable(storage_level, c),
    {
        broadcast use vstd::std_specs::hash::group_hash_axioms;
        broadcast use vstd::seq_lib::group_to_multiset_ensures;

        let origin = leaf_cell(0, 0x2000_0000, 0x2000_0000);
        let mut seen: HashSet<u64> = HashSet::new();
        let mut found: Vec<u64> = Vec::new();
        let first = vertex_neighbors(origin, storage_level);
        assert forall|k: int| 0 <= k < first@.len() implies is_walk(
            storage_level,
            Seq::<u64>::empty().push(#[trigger] first@[k]),
        ) by {
            assert(Seq::<u64>::empty().push(first@[k])[0] == first@[k]);
            assert(first@.contains(first@[k]));
        }
        visit_all(&mut seen, &mut found, &first, Ghost(storage_level), Ghost(Seq::empty()));
        let mut head: usize = 0;
        while head < found.len()
            invariant
                1 <= storage_level <= 15,
                head <= found@.len(),
                first@ == vertex_neighbors_of(origin_cell(), storage_level),
                forall|x: u64| seen@.contains(x) <==> found@.contains(x),
                found@.no_duplicates(),
                forall|k: int| 0 <= k < found@.len() ==> face_of(found@[k]) < 6,
                forall|k: int| 0 <= k < found@.len() ==> reachable(storage_level, #[trigger] found@[k]),
                forall|k: int| 0 <= k < first@.len() ==> found@.contains(#[trigger] first@[k]),
                forall|i: int, k: int|
                    0 <= i < head && 0 <= k < vertex_neighbors_of(found@[i], storage_level).len()
                        ==> found@.contains(#[trigger] vertex_neighbors_of(found@[i], storage_level)[k]),
            decreases usize::MAX - head,
        {
            let cell = found[head];
            let nbrs = vertex_neighbors(cell, storage_level);
            let walk = Ghost(choose|walk: Seq<u64>| #[trigger] is_walk(storage_level, walk) && walk.last() == cell);
            assert forall|k: int| 0 <= k < nbrs@.len() implies is_walk(
                storage_level,
                walk@.push(#[trigger] nbrs@[k]),
            ) by {
                let w = walk@.push(nbrs@[k]);
                assert(nbrs@.contains(nbrs@[k]));
                assert forall|i: int| 0 <= i < w.len() - 1 implies vertex_neighbors_of(
                    w[i],
                    storage_level,
                ).contains(#[trigger] w[i + 1]) by {
                    if i < w.len() - 2 {
                        assert(w[i] == walk@[i] && w[i + 1] == walk@[i + 1]);
                    } else {
                        assert(w[i] == cell);
                    }
                }
            }
            let ghost before = found@;
            visit_all(&mut seen, &mut found, &nbrs, Ghost(storage_level), walk);
            assert forall|k: int| 0 <= k < found@.len() implies reachable(
                storage_level,
                #[trigger] found@[k],
            ) by {
                if k >= before.len() {
                } else {
                    assert(found@[k] == before[k]);
                }
            }
            assert forall|k: int| 0 <= k < first@.len() implies found@.contains(#[trigger] first@[k]) by {
                let w = choose|w: int| 0 <= w < before.len() && before[w] == first@[k];
                assert(found@[w] == first@[k]);
            }
            assert forall|i: int, k: int|
                0 <= i < head + 1 && 0 <= k < vertex_neighbors_of(found@[i], storage_level).len()
                    implies found@.contains(#[trigger] vertex_neighbors_of(found@[i], storage_level)[k]) by {
                assert(found@[i] == before[i]);
                if i < head {
                    let x = vertex_neighbors_of(before[i], storage_level)[k];
                    let w = choose|w: int| 0 <= w < before.len() && before[w] == x;
                    assert(found@[w] == x);
                }
            }
            head = head + 1;
        }
        assert forall|c: u64| reachable(storage_level, c) implies found@.contains(c) by {
            let walk = choose|walk: Seq<u64>| #[trigger] is_walk(storage_level, walk) && walk.last() == c;
            lemma_closed_holds_walk(storage_level, found@, walk);
        }
        let ghost unsorted = found@;
        sort_cells(&mut found);
        proof {
            unsorted.lemma_multiset_has_no_duplicates();
            found@.lemma_multiset_has_no_duplicates_conv();
            assert forall|x: u64| found@.contains(x) <==> reachable(storage_level, x) by {
                vstd::seq_lib::to_multiset_contains(found@, x);
                vstd::seq_lib::to_multiset_contains(unsorted, x);
                if unsorted.contains(x) {
                    let v = choose|v: int| 0 <= v < unsorted.len() && unsorted[v] == x;
                    assert(reachable(storage_level, unsorted[v]));
                }
            }
        }
        let mut cells: Vec<(u64, i32)> = Vec::new();
        let mut i: usize = 0;
        while i < found.len()
            invariant
                0 <= i <= found@.len(),
                cells@.len() == i,
                forall|k: int| 0 <= k < i ==> cells@[k] == (found@[k], 0i32),
                forall|x: u64| found@.contains(x) <==> reachable(storage_level, x),
                found@.no_duplicates(),
                forall|a: int, b: int| 0 <= a < b < found@.len() ==> found@[a] <= found@[b],
            decreases found@.len() - i,
        {
            cells.push((found[i], 0));
            i = i + 1;
        }
        assert forall|a: int, b: int| 0 <= a < b < cells@.len() implies cells@[a].0 < cells@[b].0 by {
            assert(found@[a] <= found@[b]);
            assert(found@[a] != found@[b]);
        }
        assert forall|c: u64| has_cell(cells@, c) <==> reachable(storage_level, c) by {
            if has_cell(cells@, c) {
                let w = choose|w: int| 0 <= w < cells@.len() && cells@[w].0 == c;
                assert(found@[w] == c);
                assert(found@.contains(c));
            }
            if reachable(storage_level, c) {
                assert(found@.contains(c));
                let w = choose|w: int| 0 <= w < found@.len() && found@[w] == c;
                assert(cells@[w].0 == c);
            }
        }
        CellList { storage_level, cells }
    }

    /// The position of the first entry whose key is not below `cell`.
    pub(crate) fn lower_bound(&self, cell: u64) -> (r: usize)
        requires
            self.wf(),
        ensures
            r <= self@.len(),
            forall|i: int| 0 <= i < r ==> self@[i].0 < cell,
            forall|i: int| r <= i < self@.len() ==> self@[i].0 >= cell,
    {
        let mut lo: usize = 0;
        let mut hi: usize = self.cells.len();
        while lo < hi
            invariant
                lo <= hi <= self@.len(),
                self.wf(),
                forall|i: int| 0 <= i < lo ==> self@[i].0 < cell,
                forall|i: int| hi <= i < self@.len() ==> self@[i].0 >= cell,
            decreases hi - lo,
        {
            let mid = lo + (hi - lo) / 2;
            if self.cells[mid].0 < cell {
                lo = mid + 1;
            } else {
                hi = mid;
            }
        }
        lo
    }

    /// Adds one to the load of `cell`, if it is a key and its load is below
    /// `i32::MAX`.
    pub(crate) fn add_one(&mut self, cell: u64)
        requires
            old(self).wf(),
        ensures
            final(self).wf(),
            final(self).level() == old(self).level(),
            final(self)@.len() == old(self)@.len(),
            forall|i: int|
                0 <= i < old(self)@.len() ==> (#[trigger] final(self)@[i]).0 == old(self)@[i].0
                    && final(self)@[i].1 == if old(self)@[i].0 == cell && old(self)@[i].1 < i32::MAX {
                    old(self)@[i].1 + 1
                } else {
                    old(self)@[i].1 as int
                },
    {
        let pos = self.lower_bound(cell);
        if pos < self.cells.len() && self.cells[pos].0 == cell && self.cells[pos].1 < i32::MAX {
            let load = self.cells[pos].1 + 1;
            self.cells[pos] = (cell, load);
        }
    }

    /// Replaces the load of the entry at `i`.
    pub(crate) fn set_load_at(&mut self, i: usize, load: i32)
        requires
            old(self).wf(),
            i < old(self)@.len(),
            load >= 0,
        ensures
            final(self).wf(),
            final(self).level() == old(self).level(),
            final(self)@ == old(self)@.update(i as int, (old(self)@[i as int].0, load)),
    {
        let cell = self.cells[i].0;
        self.cells[i] = (cell, load);
    }

    /// Sets the load of `cell`, adding the cell at its place if it is absent.
    pub fn insert(&mut self, cell: u64, load: i32)
        requires
            old(self).wf(),
            load >= 0,
        ensures
            final(self).wf(),
            final(self).level() == old(self).level(),
            has_cell(old(self)@, cell) ==> exists|i: int|
                0 <= i < old(self)@.len() && old(self)@[i].0 == cell && final(self)@ == old(
                    self,
                )@.update(i, (cell, load)),
            !has_cell(old(self)@, cell) ==> exists|i: int|
                0 <= i <= old(self)@.len() && final(self)@ == old(self)@.insert(i, (cell, load)),
    {
        let pos = self.lower_bound(cell);
        if pos < self.cells.len() && self.cells[pos].0 == cell {
            self.cells[pos] = (cell, load);
        } else {
            self.cells.insert(pos, (cell, load));
            assert(ascending(self@));
        }
    }
}

} // verus!
