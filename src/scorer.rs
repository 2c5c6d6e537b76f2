use vstd::prelude::*;
use rand::Rng;
use crate::cell_list::CellList;
use crate::cell::face_of;

verus! {

/// `after` holds the cells of `before`, in the same order.
pub open spec fn same_cells(before: Seq<(u64, i32)>, after: Seq<(u64, i32)>) -> bool {
    &&& after.len() == before.len()
    &&& forall|i: int| 0 <= i < before.len() ==> (#[trigger] after[i]).0 == before[i].0
}

/// How often `cell` occurs in `users`.
pub open spec fn occurrences(users: Seq<u64>, cell: u64) -> int
    decreases users.len(),
{
    if users.len() == 0 {
        0
    } else {
        occurrences(users.drop_last(), cell) + if users.last() == cell {
            1int
        } else {
            0int
        }
    }
}

/// A strategy that gives each cell of a list its load.
pub trait Scorer {
    /// `after` is a scoring of `before` that this strategy may give for the
    /// cells where `users` are.
    spec fn scores(&self, before: Seq<(u64, i32)>, users: Seq<u64>, after: Seq<(u64, i32)>) -> bool;

    /// Scores the cells, keeping the cells themselves.
    fn score_list(&self, cell_list: CellList, users: &Vec<u64>) -> (r: CellList)
        requires
            cell_list.wf(),
        ensures
            r.wf(),
            r.level() == cell_list.level(),
            same_cells(cell_list@, r@),
            self.scores(cell_list@, users@, r@),
    ;
}

/// Adds to each cell the number of users located in it; users outside the
/// listed cells are ignored, and a load stops at `i32::MAX`.
pub struct UserCountScorer;

impl Scorer for UserCountScorer {
    open spec fn scores(&self, before: Seq<(u64, i32)>, users: Seq<u64>, after: Seq<(u64, i32)>) -> bool {
        &&& same_cells(before, after)
        &&& forall|i: int|
            0 <= i < before.len() ==> (#[trigger] after[i]).1 == if before[i].1 + occurrences(
                users,
                before[i].0,
            ) > i32::MAX {
                i32::MAX as int
            } else {
                before[i].1 + occurrences(users, before[i].0)
            }
    }

    fn score_list(&self, cell_list: CellList, users: &Vec<u64>) -> (r: CellList) {
        let ghost before = cell_list@;
        let mut cells = cell_list;
        let mut k: usize = 0;
        while k < users.len()
            invariant
                0 <= k <= users@.len(),
                cells.wf(),
                cells.level() == cell_list.level(),
                before == cell_list@,
                cells@.len() == before.len(),
                forall|i: int|
                    0 <= i < before.len() ==> (#[trigger] cells@[i]).0 == before[i].0 && cells@[i].1
                        == if before[i].1 + occurrences(users@.subrange(0, k as int), before[i].0)
                        > i32::MAX {
                        i32::MAX as int
                    } else {
                        before[i].1 + occurrences(users@.subrange(0, k as int), before[i].0)
                    },
            decreases users@.len() - k,
        {
            let ghost prev = cells@;
            proof {
                let next = users@.subrange(0, k + 1);
                assert(next.drop_last() =~= users@.subrange(0, k as int));
                assert(next.last() == users@[k as int]);
                assert forall|i: int| 0 <= i < before.len() implies occurrences(next, before[i].0)
                    >= 0 by {
                    lemma_occurrences_nonneg(next, before[i].0);
                }
            }
            cells.add_one(users[k]);
            assert forall|i: int| 0 <= i < before.len() implies #[trigger] cells@[i] == cells@[i] by {
                assert(prev[i].0 == before[i].0);
            }
            k = k + 1;
        }
        assert(users@.subrange(0, users@.len() as int) =~= users@);
        cells
    }
}

proof fn lemma_occurrences_nonneg(users: Seq<u64>, cell: u64)
    ensures
        occurrences(users, cell) >= 0,
    decreases users.len(),
{
    if users.len() > 0 {
        lemma_occurrences_nonneg(users.drop_last(), cell);
    }
}

/// Relies on rand's `Rng::gen_range` on the thread-local generator: a value
/// in `[low, high)`; it panics unless `low < high`.
#[verifier::external_body]
fn random_in(low: i32, high: i32) -> (r: i32)
    requires
        low < high,
    ensures
        low <= r < high,
{
    rand::thread_rng().gen_range(low, high)
}

/// Gives every cell a load drawn uniformly from `[0, range)`, or zero when
/// `range` is not positive.
pub struct UniformScorer {
    pub range: i32,
}

impl Scorer for UniformScorer {
    open spec fn scores(&self, before: Seq<(u64, i32)>, users: Seq<u64>, after: Seq<(u64, i32)>) -> bool {
        &&& same_cells(before, after)
        &&& forall|i: int|
            0 <= i < before.len() ==> if self.range > 0 {
                0 <= (#[trigger] after[i]).1 < self.range
            } else {
                after[i].1 == 0
            }
    }

    fn score_list(&self, cell_list: CellList, users: &Vec<u64>) -> (r: CellList) {
        let ghost before = cell_list@;
        let mut cells = cell_list;
        let n = cells.len();
        let mut k: usize = 0;
        while k < n
            invariant
                0 <= k <= n,
                n == before.len(),
                cells.wf(),
                cells.level() == cell_list.level(),
                before == cell_list@,
                cells@.len() == before.len(),
                forall|i: int| 0 <= i < before.len() ==> (#[trigger] cells@[i]).0 == before[i].0,
                forall|i: int|
                    0 <= i < k ==> if self.range > 0 {
                        0 <= (#[trigger] cells@[i]).1 < self.range
                    } else {
                        cells@[i].1 == 0
                    },
            decreases n - k,
        {
            let load = if self.range > 0 {
                random_in(0, self.range)
            } else {
                0
            };
            cells.set_load_at(k, load);
            k = k + 1;
        }
        cells
    }
}

/// The range `[low, high)` of mock loads for a cell, by cube face: faces 1
/// and 2 stand for oceans, 3 and 4 for small and medium cities, the others
/// for big cities.
pub open spec fn population_band(cell: u64) -> (int, int) {
    let face = face_of(cell);
    if 1 <= face <= 2 {
        (0, 5)
    } else if 3 <= face <= 4 {
        (10, 500)
    } else {
        (1000, 2000)
    }
}

/// Gives every cell a random mock load from the band of its cube face.
pub struct PopulationLoadCounter;

impl PopulationLoadCounter {
    pub fn new() -> (r: Self) {
        PopulationLoadCounter
    }

    /// A random load from the band of `cell`'s cube face.
    pub fn load_count(&self, cell: u64) -> (r: i32)
        ensures
            population_band(cell).0 <= r < population_band(cell).1,
    {
        let face = cell >> 61u64;
        if 1 <= face && face <= 2 {
            random_in(0, 5)
        } else if 3 <= face && face <= 4 {
            random_in(10, 500)
        } else {
            random_in(1000, 2000)
        }
    }
}

impl Scorer for PopulationLoadCounter {
    open spec fn scores(&self, before: Seq<(u64, i32)>, users: Seq<u64>, after: Seq<(u64, i32)>) -> bool {
        &&& same_cells(before, after)
        &&& forall|i: int|
            0 <= i < before.len() ==> population_band(before[i].0).0 <= (#[trigger] after[i]).1
                < population_band(before[i].0).1
    }

    fn score_list(&self, cell_list: CellList, users: &Vec<u64>) -> (r: CellList) {
        let ghost before = cell_list@;
        let mut cells = cell_list;
        let n = cells.len();
        let mut k: usize = 0;
        while k < n
            invariant
                0 <= k <= n,
                n == before.len(),
                cells.wf(),
                cells.level() == cell_list.level(),
                before == cell_list@,
                cells@.len() == before.len(),
                forall|i: int| 0 <= i < before.len() ==> (#[trigger] cells@[i]).0 == before[i].0,
                forall|i: int|
                    0 <= i < k ==> population_band(before[i].0).0 <= (#[trigger] cells@[i]).1
                        < population_band(before[i].0).1,
            decreases n - k,
        {
            let cell = cells.entries()[k].0;
            let load = self.load_count(cell);
            cells.set_load_at(k, load);
            k = k + 1;
        }
        cells
    }
}

} // verus!
