use vstd::prelude::*;
use crate::error::ShardError;
use crate::planner::{GeoShard, ShardView, shards_view, plan_of, lemma_plan_partitions, in_some_shard};
use crate::cell_list::{ascending, loads_nonneg};

verus! {

/// The range of `s` holds `cell`, both ends included.
pub open spec fn holds(s: ShardView, cell: u64) -> bool {
    s.start <= cell <= s.end
}

/// Shards in routing order: each range is ordered, and both the starts and
/// the ends never decrease from one shard to the next.
pub open spec fn ordered(p: Seq<ShardView>) -> bool {
    &&& forall|k: int| 0 <= k < p.len() ==> p[k].start <= p[k].end
    &&& forall|j: int, k: int| 0 <= j < k < p.len() ==> p[j].start <= p[k].start && p[j].end <= p[k].end
}

/// `i` is the first shard whose range holds `cell`.
pub open spec fn first_holder(p: Seq<ShardView>, cell: u64, i: int) -> bool {
    &&& 0 <= i < p.len()
    &&& holds(p[i], cell)
    &&& forall|j: int| 0 <= j < i ==> !holds(#[trigger] p[j], cell)
}

/// The shard that a cell is routed to: the first one whose range holds it,
/// or the last one if none does.
pub open spec fn route_of(p: Seq<ShardView>, cell: u64) -> int {
    if exists|i: int| first_holder(p, cell, i) {
        choose|i: int| first_holder(p, cell, i)
    } else {
        p.len() - 1
    }
}

proof fn lemma_first_holder_unique(p: Seq<ShardView>, cell: u64, i: int, k: int)
    requires
        first_holder(p, cell, i),
        first_holder(p, cell, k),
    ensures
        i == k,
{
    if i < k {
        assert(!holds(p[i], cell));
    } else if k < i {
        assert(!holds(p[k], cell));
    }
}

/// The shards that a run of cells is routed to, each once, in the order in
/// which the cells first reach them.
pub open spec fn hit_routes(p: Seq<ShardView>, cells: Seq<u64>) -> Seq<int>
    decreases cells.len(),
{
    if cells.len() == 0 {
        Seq::empty()
    } else {
        let acc = hit_routes(p, cells.drop_last());
        let r = route_of(p, cells.last());
        if acc.contains(r) {
            acc
        } else {
            acc.push(r)
        }
    }
}

proof fn lemma_first_holder_exists(p: Seq<ShardView>, cell: u64, k: int)
    requires
        0 <= k < p.len(),
        holds(p[k], cell),
    ensures
        exists|i: int| first_holder(p, cell, i),
    decreases k,
{
    if exists|j: int| 0 <= j < k && holds(#[trigger] p[j], cell) {
        let j = choose|j: int| 0 <= j < k && holds(#[trigger] p[j], cell);
        lemma_first_holder_exists(p, cell, j);
    } else {
        assert(first_holder(p, cell, k));
    }
}

proof fn lemma_route_holds(p: Seq<ShardView>, cell: u64)
    requires
        in_some_shard(p, cell),
    ensures
        0 <= route_of(p, cell) < p.len(),
        holds(p[route_of(p, cell)], cell),
{
    let k = choose|k: int| 0 <= k < p.len() && #[trigger] p[k].start <= cell <= p[k].end;
    lemma_first_holder_exists(p, cell, k);
}

/// Routing over a successful plan: its shards are in routing order, and each
/// cell of the planned cells is routed to exactly one shard, whose range holds
/// the cell.
pub proof fn lemma_routing_finds_holder(cells: Seq<(u64, i32)>, level: u64, i: int)
    requires
        ascending(cells),
        loads_nonneg(cells),
        plan_of(cells, level) is Ok,
        0 <= i < cells.len(),
    ensures
        ordered(plan_of(cells, level)->Ok_0),
        0 <= route_of(plan_of(cells, level)->Ok_0, cells[i].0) < plan_of(cells, level)->Ok_0.len(),
        holds(
            plan_of(cells, level)->Ok_0[route_of(plan_of(cells, level)->Ok_0, cells[i].0)],
            cells[i].0,
        ),
{
    let p = plan_of(cells, level)->Ok_0;
    lemma_plan_partitions(cells, level);
    assert(in_some_shard(p, cells[i].0));
    lemma_route_holds(p, cells[i].0);
    assert forall|j: int, k: int| 0 <= j < k < p.len() implies p[j].start <= p[k].start
        && p[j].end <= p[k].end by {
        assert(p[j].start <= p[j].end);
        assert(p[j].end <= p[k].start);
        assert(p[k].start <= p[k].end);
    }
}

/// Routes cells to the shards of one shard map.
pub struct GeoShardSearcher {
    storage_level: i64,
    shards: Vec<GeoShard>,
}

impl View for GeoShardSearcher {
    type V = Seq<ShardView>;

    closed spec fn view(&self) -> Seq<ShardView> {
        shards_view(self.shards@)
    }
}

impl GeoShardSearcher {
    /// Well-formed: at least one shard, in routing order.
    pub open spec fn wf(&self) -> bool {
        self@.len() > 0 && ordered(self@)
    }

    pub closed spec fn level(&self) -> i64 {
        self.storage_level
    }

    /// A searcher over `shards`, at the storage level of the first one. An
    /// empty map is absent; shards out of routing order do not decode.
    pub fn from(shards: Vec<GeoShard>) -> (r: Result<GeoShardSearcher, ShardError>)
        ensures
            shards@.len() == 0 ==> r == Err::<GeoShardSearcher, ShardError>(
                ShardError::ShardMapAbsent,
            ),
            shards@.len() > 0 && !ordered(shards_view(shards@)) ==> r == Err::<
                GeoShardSearcher,
                ShardError,
            >(ShardError::DecodeError),
            shards@.len() > 0 && ordered(shards_view(shards@)) ==> r is Ok && r->Ok_0.wf()
                && r->Ok_0@ == shards_view(shards@) && r->Ok_0.level() == shards@[0].storage_level,
    {
        let n = shards.len();
        if n == 0 {
            return Err(ShardError::ShardMapAbsent);
        }
        let ghost v = shards_view(shards@);
        let mut k: usize = 0;
        while k < n
            invariant
                0 <= k <= n,
                n == shards@.len(),
                v == shards_view(shards@),
                forall|m: int| 0 <= m < k ==> v[m].start <= v[m].end,
                forall|j: int, m: int|
                    0 <= j < m < k ==> v[j].start <= v[m].start && v[j].end <= v[m].end,
            decreases n - k,
        {
            let s = &shards[k];
            if s.start > s.end {
                assert(v[k as int] == shards@[k as int]@);
                return Err(ShardError::DecodeError);
            }
            if k > 0 {
                let p = &shards[k - 1];
                if p.start > s.start || p.end > s.end {
                    assert(v[k - 1] == shards@[k - 1]@);
                    assert(v[k as int] == shards@[k as int]@);
                    return Err(ShardError::DecodeError);
                }
                assert(v[k - 1] == shards@[k - 1]@);
                assert(v[k as int] == shards@[k as int]@);
            }
            proof {
                assert(v[k as int] == shards@[k as int]@);
                assert forall|j: int, m: int|
                    0 <= j < m < k + 1 implies v[j].start <= v[m].start && v[j].end <= v[m].end by {
                    if m == k && j < k - 1 {
                        assert(v[j].start <= v[k - 1].start && v[j].end <= v[k - 1].end);
                    }
                }
            }
            k = k + 1;
        }
        let storage_level = shards[0].storage_level;
        Ok(GeoShardSearcher { storage_level, shards })
    }

    /// The storage level that the shards belong to.
    pub fn storage_level(&self) -> (r: i64)
        ensures
            r == self.level(),
    {
        self.storage_level
    }

    /// The shards in routing order.
    pub fn shards(&self) -> (r: &Vec<GeoShard>)
        ensures
            shards_view(r@) == self@,
    {
        &self.shards
    }

    /// The index of the shard that `cell` is routed to, found by binary
    /// search on the ends of the ranges.
    pub fn route(&self, cell: u64) -> (r: usize)
        requires
            self.wf(),
        ensures
            r == route_of(self@, cell),
            r < self@.len(),
    {
        let ghost v = self@;
        let n = self.shards.len();
        let mut lo: usize = 0;
        let mut hi: usize = n;
        while lo < hi
            invariant
                0 <= lo <= hi <= n,
                n == v.len(),
                v == shards_view(self.shards@),
                ordered(v),
                forall|j: int| 0 <= j < lo ==> v[j].end < cell,
                forall|j: int| hi <= j < n ==> v[j].end >= cell,
            decreases hi - lo,
        {
            let mid = lo + (hi - lo) / 2;
            assert(v[mid as int] == self.shards@[mid as int]@);
            if self.shards[mid].end < cell {
                lo = mid + 1;
            } else {
                hi = mid;
            }
        }
        if lo < n {
            assert(v[lo as int] == self.shards@[lo as int]@);
            if self.shards[lo].start <= cell {
                proof {
                    assert forall|j: int| 0 <= j < lo implies !holds(#[trigger] v[j], cell) by {}
                    assert(first_holder(v, cell, lo as int));
                    let c = choose|i: int| first_holder(v, cell, i);
                    lemma_first_holder_unique(v, cell, c, lo as int);
                }
                return lo;
            }
            proof {
                assert forall|i: int| !first_holder(v, cell, i) by {
                    if 0 <= i < v.len() && i >= lo {
                        assert(v[lo as int].start <= v[i].start);
                    }
                    if 0 <= i < lo {
                        assert(v[i].end < cell);
                    }
                }
            }
            return n - 1;
        }
        proof {
            assert forall|i: int| !first_holder(v, cell, i) by {
                if 0 <= i < v.len() {
                    assert(v[i].end < cell);
                }
            }
        }
        n - 1
    }

    /// The shard index of each cell, in the order of the cells.
    pub fn route_all(&self, cells: &Vec<u64>) -> (r: Vec<usize>)
        requires
            self.wf(),
        ensures
            r@.len() == cells@.len(),
            forall|k: int| 0 <= k < cells@.len() ==> r@[k] == route_of(self@, #[trigger] cells@[k]),
    {
        let mut out: Vec<usize> = Vec::new();
        let mut k: usize = 0;
        while k < cells.len()
            invariant
                self.wf(),
                0 <= k <= cells@.len(),
                out@.len() == k,
                forall|m: int| 0 <= m < k ==> out@[m] == route_of(self@, #[trigger] cells@[m]),
            decreases cells@.len() - k,
        {
            out.push(self.route(cells[k]));
            k = k + 1;
        }
        out
    }

    /// The indices of the shards that `cells` are routed to, each once, in
    /// the order in which the cells first reach them.
    pub fn route_distinct(&self, cells: &Vec<u64>) -> (r: Vec<usize>)
        requires
            self.wf(),
        ensures
            r@.len() == hit_routes(self@, cells@).len(),
            forall|k: int| 0 <= k < r@.len() ==> r@[k] == hit_routes(self@, cells@)[k],
            forall|k: int| 0 <= k < r@.len() ==> r@[k] < self@.len(),
    {
        let mut out: Vec<usize> = Vec::new();
        let mut k: usize = 0;
        while k < cells.len()
            invariant
                self.wf(),
                0 <= k <= cells@.len(),
                out@.len() == hit_routes(self@, cells@.subrange(0, k as int)).len(),
                forall|m: int| 0 <= m < out@.len() ==> out@[m] < self@.len(),
                forall|m: int|
                    0 <= m < out@.len() ==> out@[m] == hit_routes(
                        self@,
                        cells@.subrange(0, k as int),
                    )[m],
            decreases cells@.len() - k,
        {
            let ghost before = out@;
            let ghost prefix = cells@.subrange(0, k as int);
            let ghost next = cells@.subrange(0, k + 1);
            assert(next.drop_last() =~= prefix);
            assert(next.last() == cells@[k as int]);
            let ghost acc = hit_routes(self@, prefix);
            let r = self.route(cells[k]);
            let mut seen = false;
            let mut m: usize = 0;
            while m < out.len()
                invariant
                    0 <= m <= out@.len(),
                    out@.len() == acc.len(),
                    forall|j: int| 0 <= j < out@.len() ==> out@[j] == acc[j],
                    seen <==> exists|j: int| 0 <= j < m && acc[j] == r,
                decreases out@.len() - m,
            {
                assert(acc[m as int] == out@[m as int]);
                if out[m] == r {
                    seen = true;
                }
                m = m + 1;
            }
            if !seen {
                out.push(r);
                assert(!acc.contains(r as int));
                assert(forall|j: int| 0 <= j < before.len() ==> out@[j] == before[j]);
            } else {
                assert(acc.contains(r as int));
            }
            k = k + 1;
        }
        assert(cells@.subrange(0, cells@.len() as int) =~= cells@);
        out
    }

    /// The shards that `cells` are routed to, each once, in the order in
    /// which the cells first reach them. Given the cells that cover a disc,
    /// these are the shards that a radius query fans out to.
    pub fn get_shards_from_cells(&self, cells: &Vec<u64>) -> (r: Vec<&GeoShard>)
        requires
            self.wf(),
        ensures
            r@.len() == hit_routes(self@, cells@).len(),
            forall|k: int| 0 <= k < r@.len() ==> r@[k]@ == self@[hit_routes(self@, cells@)[k]],
    {
        let routes = self.route_distinct(cells);
        let mut out: Vec<&GeoShard> = Vec::new();
        let mut k: usize = 0;
        while k < routes.len()
            invariant
                self.wf(),
                0 <= k <= routes@.len(),
                out@.len() == k,
                routes@.len() == hit_routes(self@, cells@).len(),
                forall|m: int| 0 <= m < routes@.len() ==> routes@[m] == hit_routes(self@, cells@)[m],
                forall|m: int| 0 <= m < routes@.len() ==> routes@[m] < self@.len(),
                forall|m: int| 0 <= m < k ==> out@[m]@ == self@[routes@[m] as int],
            decreases routes@.len() - k,
        {
            let i = routes[k];
            out.push(&self.shards[i]);
            k = k + 1;
        }
        out
    }

    /// The shard that `cell` is routed to.
    pub fn get_shard_from_cell_id(&self, cell: u64) -> (r: &GeoShard)
        requires
            self.wf(),
        ensures
            r@ == self@[route_of(self@, cell)],
    {
        let i = self.route(cell);
        &self.shards[i]
    }
}

} // verus!
