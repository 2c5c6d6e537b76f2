use vstd::prelude::*;
use crate::cell_list::{CellList, ascending, has_cell, reachable};
use crate::error::ShardError;
use crate::planner::{generate_shards, plan_of, yields, GeoShard};
use crate::scorer::{Scorer, UniformScorer, UserCountScorer};

verus! {

/// The lowest storage level accepted.
pub const MIN_LEVEL: u64 = 1;

/// The highest storage level accepted.
pub const MAX_LEVEL: u64 = 15;

/// `s` is the enumeration of `level`: every reachable cell once, ascending,
/// each with load zero.
pub open spec fn enumerated(level: u64, s: Seq<(u64, i32)>) -> bool {
    &&& ascending(s)
    &&& forall|i: int| 0 <= i < s.len() ==> s[i].1 == 0
    &&& forall|c: u64| has_cell(s, c) <==> reachable(level, c)
}

/// Builds a shard map: enumerates the cells of a storage level, scores them
/// with a strategy and plans the shards.
pub struct GeoshardBuilder<ScoreStrategy> {
    pub storage_level: u64,
    pub users: Vec<u64>,
    pub score_strategy: ScoreStrategy,
}

impl<ScoreStrategy: Scorer> GeoshardBuilder<ScoreStrategy> {
    /// A builder at `storage_level` for users located in the cells `users`.
    pub fn new(storage_level: u64, users: Vec<u64>, score_strategy: ScoreStrategy) -> (r: Self)
        ensures
            r.storage_level == storage_level,
            r.users@ == users@,
            r.score_strategy == score_strategy,
    {
        GeoshardBuilder { storage_level, users, score_strategy }
    }

    /// Enumerates, scores and plans. A level outside `MIN_LEVEL ..= MAX_LEVEL`
    /// is refused; otherwise the outcome is the plan of some scoring that the
    /// strategy may give to the enumeration of the level.
    pub fn build(self) -> (r: Result<Vec<GeoShard>, ShardError>)
        ensures
            !(MIN_LEVEL <= self.storage_level <= MAX_LEVEL) ==> r == Err::<
                Vec<GeoShard>,
                ShardError,
            >(ShardError::InvalidLevel),
            MIN_LEVEL <= self.storage_level <= MAX_LEVEL ==> exists|
                before: Seq<(u64, i32)>,
                after: Seq<(u64, i32)>,
            |
                enumerated(self.storage_level, before) && #[trigger] self.score_strategy.scores(
                    before,
                    self.users@,
                    after,
                ) && yields(r, plan_of(after, self.storage_level)),
    {
        if self.storage_level < MIN_LEVEL || self.storage_level > MAX_LEVEL {
            return Err(ShardError::InvalidLevel);
        }
        let cells = CellList::cell_list(self.storage_level);
        let ghost before = cells@;
        let scored = self.score_strategy.score_list(cells, &self.users);
        let ghost after = scored@;
        let r = generate_shards(scored);
        assert(enumerated(self.storage_level, before) && self.score_strategy.scores(
            before,
            self.users@,
            after,
        ) && yields(r, plan_of(after, self.storage_level)));
        r
    }
}

impl GeoshardBuilder<UserCountScorer> {
    /// A builder whose loads count the users in each cell.
    pub fn user_count_scorer(storage_level: u64, users: Vec<u64>) -> (r: Self)
        ensures
            r.storage_level == storage_level,
            r.users@ == users@,
    {
        GeoshardBuilder { storage_level, users, score_strategy: UserCountScorer }
    }
}

/// The cells of one storage level with random loads, for trying the planner
/// without real users.
pub struct S2List {
    pub storage_level: u64,
}

/// The largest random load plus one.
pub const RANDOM_LOAD_RANGE: i32 = 2000;

impl S2List {
    pub fn new(storage_level: u64) -> (r: Self)
        ensures
            r.storage_level == storage_level,
    {
        S2List { storage_level }
    }

    /// Every cell of the level, each with a load drawn from
    /// `[0, RANDOM_LOAD_RANGE)`.
    pub fn into_list(self) -> (r: CellList)
        requires
            MIN_LEVEL <= self.storage_level <= MAX_LEVEL,
        ensures
            r.wf(),
            r.level() == self.storage_level,
            forall|c: u64| has_cell(r@, c) <==> reachable(self.storage_level, c),
            forall|i: int| 0 <= i < r@.len() ==> 0 <= #[trigger] r@[i].1 < RANDOM_LOAD_RANGE,
    {
        let cells = CellList::cell_list(self.storage_level);
        let ghost before = cells@;
        let scorer = UniformScorer { range: RANDOM_LOAD_RANGE };
        let none: Vec<u64> = Vec::new();
        let r = scorer.score_list(cells, &none);
        assert forall|c: u64| has_cell(r@, c) <==> has_cell(before, c) by {
            if has_cell(r@, c) {
                let i = choose|i: int| 0 <= i < r@.len() && r@[i].0 == c;
                assert(before[i].0 == c);
            }
            if has_cell(before, c) {
                let i = choose|i: int| 0 <= i < before.len() && before[i].0 == c;
                assert(r@[i].0 == c);
            }
        }
        r
    }
}

} // verus!
