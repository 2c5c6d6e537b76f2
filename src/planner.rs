use vstd::prelude::*;
use crate::cell_list::{ascending, loads_nonneg, total_load, lemma_total_nonneg, CellList};
use crate::error::ShardError;
use vstd::string::StringExecFns;

verus! {

/// The fewest shards that a plan may have.
pub const MIN_SHARD: i32 = 40;

/// The most shards that a plan may have.
pub const MAX_SHARD: i32 = 100;

/// A named, contiguous range of cells of one storage level, both ends
/// included, with the number of cells it accumulated and their total load.
pub struct GeoShard {
    pub name: String,
    pub storage_level: i64,
    pub start: u64,
    pub end: u64,
    pub cell_count: i32,
    pub cell_score: i32,
}

/// What a shard holds, with its name as a sequence of characters.
pub struct ShardView {
    pub name: Seq<char>,
    pub storage_level: i64,
    pub start: u64,
    pub end: u64,
    pub cell_count: i32,
    pub cell_score: i32,
}

impl View for GeoShard {
    type V = ShardView;

    open spec fn view(&self) -> ShardView {
        ShardView {
            name: self.name@,
            storage_level: self.storage_level,
            start: self.start,
            end: self.end,
            cell_count: self.cell_count,
            cell_score: self.cell_score,
        }
    }
}

pub open spec fn shards_view(v: Seq<GeoShard>) -> Seq<ShardView> {
    v.map_values(|g: GeoShard| g@)
}

pub open spec fn digit_char(d: int) -> char {
    if d == 0 {
        '0'
    } else if d == 1 {
        '1'
    } else if d == 2 {
        '2'
    } else if d == 3 {
        '3'
    } else if d == 4 {
        '4'
    } else if d == 5 {
        '5'
    } else if d == 6 {
        '6'
    } else if d == 7 {
        '7'
    } else if d == 8 {
        '8'
    } else {
        '9'
    }
}

/// The decimal digits of `n`, most significant first, without padding.
pub open spec fn decimal(n: nat) -> Seq<char>
    decreases n,
{
    if n < 10 {
        seq![digit_char(n as int)]
    } else {
        decimal(n / 10).push(digit_char((n % 10) as int))
    }
}

/// The name of the `k`-th shard of a plan.
pub open spec fn shard_name(k: nat) -> Seq<char> {
    "geoshard_user_index_"@ + decimal(k)
}

/// Relies on std's `ToString` for `u64` (its `Display`): the decimal digits
/// of the number, without sign or padding.
#[verifier::external_body]
fn decimal_string(n: u64) -> (r: String)
    ensures
        r@ == decimal(n as nat),
{
    n.to_string()
}

fn shard_name_of(k: u64) -> (r: String)
    ensures
        r@ == shard_name(k as nat),
{
    let mut name = String::from_str("geoshard_user_index_");
    let digits = decimal_string(k);
    name.append(digits.as_str());
    name
}

/// The shards of a plan: the parts in order, the `k`-th named `shard_name(k)`.
pub open spec fn named(p: Seq<PartView>, level: u64) -> Seq<ShardView> {
    Seq::new(
        p.len(),
        |k: int|
            ShardView {
                name: shard_name(k as nat),
                storage_level: level as i64,
                start: p[k].0,
                end: p[k].1,
                cell_count: p[k].2 as i32,
                cell_score: p[k].3 as i32,
            },
    )
}

/// A shard before it is named: first cell, last cell, cells counted, load.
pub type PartView = (u64, u64, int, int);

/// A contiguous run of cells produced by one sweep.
#[derive(Clone, Copy)]
pub struct Part {
    pub start: u64,
    pub end: u64,
    pub count: i32,
    pub score: i32,
}

impl View for Part {
    type V = PartView;

    open spec fn view(&self) -> PartView {
        (self.start, self.end, self.count as int, self.score as int)
    }
}

pub open spec fn parts_view(p: Seq<Part>) -> Seq<PartView> {
    p.map_values(|x: Part| x@)
}

/// The sweep after the first `n` cells, for one container size: the closed
/// parts, then the open part's first cell, count and load.
pub open spec fn sweep_state(cells: Seq<(u64, i32)>, size: int, n: nat) -> (
    Seq<PartView>,
    u64,
    int,
    int,
)
    decreases n,
{
    if n == 0 {
        (Seq::empty(), cells[0].0, 0, 0)
    } else {
        let prev = sweep_state(cells, size, (n - 1) as nat);
        let cell = cells[n - 1];
        if prev.3 + cell.1 < size {
            (prev.0, prev.1, prev.2 + 1, prev.3 + cell.1)
        } else {
            (prev.0.push((prev.1, cell.0, prev.2, prev.3)), cell.0, 0, cell.1 as int)
        }
    }
}

/// The parts that one sweep with container size `size` cuts the cells into.
/// The open part is kept at the end only if some cell accumulated into it.
pub open spec fn sweep(cells: Seq<(u64, i32)>, size: int) -> Seq<PartView> {
    let st = sweep_state(cells, size, cells.len());
    if st.2 != 0 {
        st.0.push((st.1, cells.last().0, st.2, st.3))
    } else {
        st.0
    }
}

pub open spec fn part_loads(p: Seq<PartView>) -> int
    decreases p.len(),
{
    if p.len() == 0 {
        0
    } else {
        part_loads(p.drop_last()) + p.last().3
    }
}

/// Parts that follow each other: each starts where the previous one ends.
pub open spec fn chained(p: Seq<PartView>) -> bool {
    &&& forall|k: int| 0 <= k < p.len() ==> p[k].0 <= p[k].1
    &&& forall|k: int| 0 <= k < p.len() - 1 ==> p[k + 1].0 == p[k].1
}

proof fn lemma_sweep_state(cells: Seq<(u64, i32)>, size: int, n: nat)
    requires
        0 < n <= cells.len(),
        ascending(cells),
        loads_nonneg(cells),
    ensures
        ({
            let st = sweep_state(cells, size, n);
            &&& chained(st.0)
            &&& st.0.len() > 0 ==> st.0[0].0 == cells[0].0 && st.1 == st.0.last().1
            &&& st.0.len() == 0 ==> st.1 == cells[0].0
            &&& st.1 <= cells[n - 1].0
            &&& st.2 == 0 ==> st.0.len() > 0 && st.0.last().1 == cells[n - 1].0
            &&& st.0.len() + st.2 <= n
            &&& st.2 >= 0
            &&& st.3 >= 0
            &&& forall|k: int| 0 <= k < st.0.len() ==> st.0[k].3 >= 0 && 0 <= st.0[k].2 <= n
            &&& part_loads(st.0) >= 0
            &&& part_loads(st.0) + st.3 == total_load(cells.subrange(0, n as int))
        }),
    decreases n,
{
    let cur = cells.subrange(0, n as int);
    assert(cur.drop_last() =~= cells.subrange(0, n - 1));
    assert(cur.last() == cells[n - 1]);
    assert(total_load(cur) == total_load(cells.subrange(0, n - 1)) + cells[n - 1].1);
    if n > 1 {
        lemma_sweep_state(cells, size, (n - 1) as nat);
        let prev = sweep_state(cells, size, (n - 1) as nat);
        assert(prev.1 <= cells[n - 2].0);
        assert(cells[n - 2].0 < cells[n - 1].0);
        let st = sweep_state(cells, size, n);
        if !(prev.3 + cells[n - 1].1 < size) {
            assert(st.0.drop_last() =~= prev.0);
            assert(part_loads(st.0) == part_loads(prev.0) + prev.3);
        }
    } else {
        assert(cells.subrange(0, 0) =~= Seq::<(u64, i32)>::empty());
        let st = sweep_state(cells, size, n);
        let prev = sweep_state(cells, size, 0);
        if !(prev.3 + cells[0].1 < size) {
            assert(st.0.drop_last() =~= prev.0);
            assert(part_loads(st.0) == part_loads(prev.0) + prev.3);
        }
    }
}

/// One sweep over the cells with container size `size`.
fn sweep_parts(cells: &Vec<(u64, i32)>, size: i64) -> (r: Vec<Part>)
    requires
        cells@.len() > 0,
        cells@.len() <= i32::MAX,
        ascending(cells@),
        loads_nonneg(cells@),
        total_load(cells@) <= i32::MAX,
    ensures
        parts_view(r@) == sweep(cells@, size as int),
{
    let mut parts: Vec<Part> = Vec::new();
    let mut start: u64 = cells[0].0;
    let mut count: i32 = 0;
    let mut score: i32 = 0;
    let mut i: usize = 0;
    while i < cells.len()
        invariant
            0 <= i <= cells@.len(),
            cells@.len() <= i32::MAX,
            ascending(cells@),
            loads_nonneg(cells@),
            total_load(cells@) <= i32::MAX,
            (parts_view(parts@), start, count as int, score as int) == sweep_state(
                cells@,
                size as int,
                i as nat,
            ),
        decreases cells@.len() - i,
    {
        proof {
            lemma_sweep_state(cells@, size as int, (i + 1) as nat);
            lemma_total_prefix(cells@, i + 1);
        }
        let (c, s) = cells[i];
        if (score as i64) + (s as i64) < size {
            score = score + s;
            count = count + 1;
        } else {
            let ghost before = parts@;
            parts.push(Part { start, end: c, count, score });
            assert(parts_view(parts@) =~= parts_view(before).push(parts@.last()@));
            start = c;
            count = 0;
            score = s;
        }
        i = i + 1;
    }
    if count != 0 {
        let ghost before = parts@;
        parts.push(Part { start, end: cells[cells.len() - 1].0, count, score });
        assert(parts_view(parts@) =~= parts_view(before).push(parts@.last()@));
    }
    parts
}

proof fn lemma_total_prefix(s: Seq<(u64, i32)>, n: int)
    requires
        0 <= n <= s.len(),
        loads_nonneg(s),
    ensures
        0 <= total_load(s.subrange(0, n)) <= total_load(s),
    decreases s.len(),
{
    if n == s.len() {
        assert(s.subrange(0, n) =~= s);
        lemma_total_nonneg(s);
    } else {
        lemma_total_prefix(s.drop_last(), n);
        assert(s.drop_last().subrange(0, n) =~= s.subrange(0, n));
    }
}

/// Facts about a complete sweep that the planner and the laws use.
pub proof fn lemma_sweep(cells: Seq<(u64, i32)>, size: int)
    requires
        cells.len() > 0,
        ascending(cells),
        loads_nonneg(cells),
    ensures
        ({
            let p = sweep(cells, size);
            &&& chained(p)
            &&& 1 <= p.len() <= cells.len()
            &&& p[0].0 == cells[0].0
            &&& p.last().1 == cells.last().0
            &&& forall|k: int| 0 <= k < p.len() ==> p[k].3 >= 0 && 0 <= p[k].2 <= cells.len()
            &&& 0 <= part_loads(p) <= total_load(cells)
        }),
{
    let n = cells.len();
    lemma_sweep_state(cells, size, n);
    lemma_total_prefix(cells, n as int);
    assert(cells.subrange(0, n as int) =~= cells);
    let st = sweep_state(cells, size, n);
    let p = sweep(cells, size);
    if st.2 != 0 {
        assert(p.drop_last() =~= st.0);
        assert(part_loads(p) == part_loads(st.0) + st.3);
    }
}

pub open spec fn load_squares(p: Seq<PartView>) -> int
    decreases p.len(),
{
    if p.len() == 0 {
        0
    } else {
        load_squares(p.drop_last()) + p.last().3 * p.last().3
    }
}

/// `|p|² · σ²` of the part loads: `|p| · Σx² − (Σx)²`.
pub open spec fn spread(p: Seq<PartView>) -> int {
    p.len() * load_squares(p) - part_loads(p) * part_loads(p)
}

/// The loads of `a` have a smaller population standard deviation than those
/// of `b`: `spread(a) / |a|² < spread(b) / |b|²`, compared exactly.
pub open spec fn more_even(a: Seq<PartView>, b: Seq<PartView>) -> bool {
    spread(a) * (b.len() * b.len()) < spread(b) * (a.len() * a.len())
}

spec fn deviations(p: Seq<PartView>, y: int) -> int
    decreases p.len(),
{
    if p.len() == 0 {
        0
    } else {
        deviations(p.drop_last(), y) + (p.last().3 - y) * (p.last().3 - y)
    }
}

proof fn lemma_deviations(p: Seq<PartView>, y: int)
    ensures
        deviations(p, y) >= 0,
        deviations(p, y) == load_squares(p) - 2 * y * part_loads(p) + p.len() * y * y,
    decreases p.len(),
{
    if p.len() > 0 {
        let q = p.drop_last();
        lemma_deviations(q, y);
        let x = p.last().3;
        let d = deviations(q, y);
        let sq = load_squares(q);
        let sm = part_loads(q);
        let n = q.len();
        assert((x - y) * (x - y) >= 0) by (nonlinear_arith);
        assert(d + (x - y) * (x - y) == (sq + x * x) - 2 * y * (sm + x) + (n + 1) * y * y)
            by (nonlinear_arith)
            requires
                d == sq - 2 * y * sm + n * y * y,
        ;
    }
}

/// The spread is never negative (the Cauchy-Schwarz inequality).
proof fn lemma_spread_nonneg(p: Seq<PartView>)
    ensures
        spread(p) >= 0,
    decreases p.len(),
{
    if p.len() > 0 {
        let q = p.drop_last();
        lemma_spread_nonneg(q);
        let y = p.last().3;
        lemma_deviations(q, y);
        let n = q.len();
        let sq = load_squares(q);
        let sm = part_loads(q);
        assert((n + 1) * (sq + y * y) - (sm + y) * (sm + y) == (n * sq - sm * sm) + (sq - 2 * y
            * sm + n * y * y)) by (nonlinear_arith);
    }
}

/// Exact comparison of two fractions: `a / b < c / d`.
fn ratio_lt(a: u128, b: u128, c: u128, d: u128) -> (r: bool)
    requires
        b > 0,
        d > 0,
    ensures
        r == (a * d < c * b),
    decreases b + d,
{
    let qa = a / b;
    let qc = c / d;
    let ra = a % b;
    let rc = c % d;
    proof {
        assert(a == qa * b + ra && ra < b) by (nonlinear_arith)
            requires
                qa == a / b,
                ra == a % b,
                b > 0,
        ;
        assert(c == qc * d + rc && rc < d) by (nonlinear_arith)
            requires
                qc == c / d,
                rc == c % d,
                d > 0,
        ;
    }
    if qa < qc {
        assert(a * d < c * b) by (nonlinear_arith)
            requires
                a == qa * b + ra,
                ra < b,
                c == qc * d + rc,
                qa < qc,
                b > 0,
                d > 0,
                rc >= 0,
        ;
        true
    } else if qc < qa {
        assert(c * b < a * d) by (nonlinear_arith)
            requires
                c == qc * d + rc,
                rc < d,
                a == qa * b + ra,
                qc < qa,
                b > 0,
                d > 0,
                ra >= 0,
        ;
        false
    } else {
        assert(a * d - c * b == ra * d - rc * b) by (nonlinear_arith)
            requires
                a == qa * b + ra,
                c == qc * d + rc,
                qa == qc,
        ;
        if rc == 0 {
            assert(ra * d >= 0) by (nonlinear_arith)
                requires
                    ra >= 0,
                    d > 0,
            ;
            assert(rc * b == 0) by (nonlinear_arith)
                requires
                    rc == 0,
            ;
            assert(!(a * d < c * b));
            false
        } else if ra == 0 {
            assert(rc * b > 0) by (nonlinear_arith)
                requires
                    rc > 0,
                    b > 0,
            ;
            assert(ra * d == 0) by (nonlinear_arith)
                requires
                    ra == 0,
            ;
            assert(a * d < c * b);
            true
        } else {
            let r = ratio_lt(d, rc, b, ra);
            assert(d * ra == ra * d && b * rc == rc * b) by (nonlinear_arith);
            assert(r == (a * d < c * b));
            r
        }
    }
}

/// The spread of a sweep and the square of its number of parts.
fn spread_of(parts: &Vec<Part>) -> (r: (u128, u128))
    requires
        0 < parts@.len() <= u32::MAX,
        forall|k: int| 0 <= k < parts@.len() ==> parts@[k].score >= 0,
        part_loads(parts_view(parts@)) <= i32::MAX,
    ensures
        r.0 == spread(parts_view(parts@)),
        r.1 == parts@.len() * parts@.len(),
        r.1 > 0,
{
    let ghost pv = parts_view(parts@);
    let mut sum: u64 = 0;
    let mut squares: u128 = 0;
    let mut i: usize = 0;
    proof {
        lemma_loads_prefix(pv, pv.len() as int);
        assert(pv.subrange(0, pv.len() as int) =~= pv);
    }
    while i < parts.len()
        invariant
            0 <= i <= parts@.len(),
            pv == parts_view(parts@),
            forall|k: int| 0 <= k < parts@.len() ==> parts@[k].score >= 0,
            part_loads(pv) <= i32::MAX,
            sum == part_loads(pv.subrange(0, i as int)),
            squares == load_squares(pv.subrange(0, i as int)),
            squares <= sum * sum,
        decreases parts@.len() - i,
    {
        proof {
            lemma_loads_prefix(pv, i + 1);
            let cur = pv.subrange(0, i + 1);
            assert(cur.drop_last() =~= pv.subrange(0, i as int));
            assert(cur.last() == pv[i as int]);
        }
        let x = parts[i].score;
        assert(sum + x <= 0x7fff_ffff);
        assert(squares + x * x <= (sum + x) * (sum + x)) by (nonlinear_arith)
            requires
                squares <= sum * sum,
                sum >= 0,
                x >= 0,
        ;
        assert((sum + x) * (sum + x) <= 0x7fff_ffff * 0x7fff_ffff) by (nonlinear_arith)
            requires
                sum + x <= 0x7fff_ffff,
                sum + x >= 0,
        ;
        let ghost old_sum = sum;
        let ghost old_sq = squares;
        sum = sum + x as u64;
        squares = squares + (x as u128) * (x as u128);
        assert(squares <= sum * sum) by (nonlinear_arith)
            requires
                old_sq <= old_sum * old_sum,
                squares == old_sq + x * x,
                sum == old_sum + x,
                old_sum >= 0,
                x >= 0,
        ;
        i = i + 1;
    }
    assert(pv.subrange(0, i as int) =~= pv);
    let n = parts.len() as u128;
    proof {
        lemma_spread_nonneg(pv);
        assert(n * squares <= 0x1_0000_0000 * 0x4000_0000_0000_0000) by (nonlinear_arith)
            requires
                n <= 0xffff_ffff,
                squares <= sum * sum,
                sum <= 0x7fff_ffff,
                sum >= 0,
        ;
        assert(sum * sum <= 0x4000_0000_0000_0000) by (nonlinear_arith)
            requires
                sum <= 0x7fff_ffff,
                sum >= 0,
        ;
        assert(0 < n * n <= 0xffff_ffff * 0xffff_ffff) by (nonlinear_arith)
            requires
                0 < n <= 0xffff_ffff,
        ;
    }
    let wide_sum = sum as u128;
    (n * squares - wide_sum * wide_sum, n * n)
}

proof fn lemma_loads_prefix(p: Seq<PartView>, n: int)
    requires
        0 <= n <= p.len(),
        forall|k: int| 0 <= k < p.len() ==> p[k].3 >= 0,
    ensures
        0 <= part_loads(p.subrange(0, n)) <= part_loads(p),
    decreases p.len(),
{
    if n == p.len() {
        assert(p.subrange(0, n) =~= p);
        if p.len() > 0 {
            lemma_loads_prefix(p.drop_last(), n - 1);
            assert(p.drop_last().subrange(0, n - 1) =~= p.drop_last());
        }
    } else {
        lemma_loads_prefix(p.drop_last(), n);
        assert(p.drop_last().subrange(0, n) =~= p.subrange(0, n));
    }
}

/// The plan kept after trying the container sizes `lo ..= lo + m` in turn:
/// a later sweep replaces the kept one only if its loads are strictly more even.
pub open spec fn best_plan(cells: Seq<(u64, i32)>, lo: int, m: nat) -> Seq<PartView>
    decreases m,
{
    if m == 0 {
        sweep(cells, lo)
    } else {
        let kept = best_plan(cells, lo, (m - 1) as nat);
        let next = sweep(cells, lo + m);
        if more_even(next, kept) {
            next
        } else {
            kept
        }
    }
}

/// What the planner yields for the cells of one storage level.
pub open spec fn plan_of(cells: Seq<(u64, i32)>, level: u64) -> Result<
    Seq<ShardView>,
    ShardError,
> {
    let total = total_load(cells);
    if cells.len() == 0 {
        Err(ShardError::UnsatisfiableBalance { level, total: 0, shards: 0 })
    } else if total > i32::MAX || cells.len() > i32::MAX {
        Err(ShardError::LoadOverflow)
    } else if total == 0 {
        Ok(named(seq![(cells[0].0, cells.last().0, cells.len() as int, 0int)], level))
    } else {
        let lo = total / (MAX_SHARD as int);
        let hi = total / (MIN_SHARD as int);
        let p = best_plan(cells, lo, (hi - lo) as nat);
        if MIN_SHARD <= p.len() <= MAX_SHARD {
            Ok(named(p, level))
        } else {
            Err(ShardError::UnsatisfiableBalance { level, total: total as i64, shards: p.len() as u64 })
        }
    }
}

/// `r` is the outcome `plan` describes.
pub open spec fn yields(r: Result<Vec<GeoShard>, ShardError>, plan: Result<Seq<ShardView>, ShardError>) -> bool {
    match r {
        Ok(v) => plan is Ok && shards_view(v@) == plan->Ok_0,
        Err(e) => plan is Err && e == plan->Err_0,
    }
}

proof fn lemma_parts_facts(p: Seq<Part>)
    requires
        forall|k: int| 0 <= k < parts_view(p).len() ==> parts_view(p)[k].3 >= 0,
    ensures
        forall|k: int| 0 <= k < p.len() ==> p[k].score >= 0,
{
    assert forall|k: int| 0 <= k < p.len() implies p[k].score >= 0 by {
        assert(parts_view(p)[k] == p[k]@);
    }
}

/// The parts that a sequence of shards describes.
pub open spec fn shard_parts(p: Seq<ShardView>) -> Seq<PartView> {
    p.map_values(|s: ShardView| (s.start, s.end, s.cell_count as int, s.cell_score as int))
}

/// The exact population variance of the shards' loads as a fraction: the
/// numerator `n · Σx² − (Σx)²` and the denominator `n²`, so that
/// `σ = sqrt(numerator / denominator)`.
pub fn score_spread(shards: &Vec<GeoShard>) -> (r: (u128, u128))
    requires
        0 < shards@.len() <= u32::MAX,
        forall|k: int| 0 <= k < shards@.len() ==> shards@[k].cell_score >= 0,
        part_loads(shard_parts(shards_view(shards@))) <= i32::MAX,
    ensures
        r.0 == spread(shard_parts(shards_view(shards@))),
        r.1 == shards@.len() * shards@.len(),
{
    let ghost target = shard_parts(shards_view(shards@));
    let mut parts: Vec<Part> = Vec::new();
    let mut k: usize = 0;
    while k < shards.len()
        invariant
            0 <= k <= shards@.len(),
            target == shard_parts(shards_view(shards@)),
            parts@.len() == k,
            forall|m: int| 0 <= m < k ==> parts@[m].score >= 0,
            forall|m: int| 0 <= m < shards@.len() ==> shards@[m].cell_score >= 0,
            parts_view(parts@) =~= target.subrange(0, k as int),
        decreases shards@.len() - k,
    {
        let s = &shards[k];
        parts.push(Part { start: s.start, end: s.end, count: s.cell_count, score: s.cell_score });
        k = k + 1;
    }
    assert(target.subrange(0, k as int) =~= target);
    spread_of(&parts)
}

/// `a` has strictly more even loads than `b`.
fn more_even_parts(a: &Vec<Part>, b: &Vec<Part>) -> (r: bool)
    requires
        0 < a@.len() <= u32::MAX,
        0 < b@.len() <= u32::MAX,
        forall|k: int| 0 <= k < a@.len() ==> a@[k].score >= 0,
        forall|k: int| 0 <= k < b@.len() ==> b@[k].score >= 0,
        part_loads(parts_view(a@)) <= i32::MAX,
        part_loads(parts_view(b@)) <= i32::MAX,
    ensures
        r == more_even(parts_view(a@), parts_view(b@)),
{
    let (va, na) = spread_of(a);
    let (vb, nb) = spread_of(b);
    ratio_lt(va, na, vb, nb)
}

fn name_parts(parts: &Vec<Part>, level: u64) -> (r: Vec<GeoShard>)
    requires
        parts@.len() <= u32::MAX,
    ensures
        shards_view(r@) == named(parts_view(parts@), level),
{
    let mut shards: Vec<GeoShard> = Vec::new();
    let mut k: usize = 0;
    while k < parts.len()
        invariant
            0 <= k <= parts@.len(),
            parts@.len() <= u32::MAX,
            shards_view(shards@) =~= named(parts_view(parts@), level).subrange(0, k as int),
        decreases parts@.len() - k,
    {
        let p = parts[k];
        let name = shard_name_of(k as u64);
        let ghost before = shards@;
        shards.push(
            GeoShard {
                name,
                storage_level: #[verifier::truncate] (level as i64),
                start: p.start,
                end: p.end,
                cell_count: p.count,
                cell_score: p.score,
            },
        );
        assert(shards_view(shards@) =~= shards_view(before).push(shards@.last()@));
        assert(parts_view(parts@)[k as int] == p@);
        k = k + 1;
    }
    shards
}

/// Cuts the ordered cells into shards whose loads are as even as possible.
///
/// Every container size from `total / MAX_SHARD` to `total / MIN_SHARD` is
/// swept; the sweep whose loads have the smallest population standard
/// deviation is kept, the first one on ties. A zero total gives one shard over
/// all cells. The plan fails if it does not hold between `MIN_SHARD` and
/// `MAX_SHARD` shards.
pub fn generate_shards(cell_list: CellList) -> (r: Result<Vec<GeoShard>, ShardError>)
    requires
        cell_list.wf(),
    ensures
        yields(r, plan_of(cell_list@, cell_list.level())),
{
    let level = cell_list.storage_level();
    let cells = cell_list.entries();
    let n = cells.len();
    if n == 0 {
        return Err(ShardError::UnsatisfiableBalance { level, total: 0, shards: 0 });
    }
    if n > i32::MAX as usize {
        return Err(ShardError::LoadOverflow);
    }
    let mut total: i64 = 0;
    let mut i: usize = 0;
    while i < n
        invariant
            0 <= i <= n,
            n == cells@.len(),
            cells@ == cell_list@,
            loads_nonneg(cells@),
            total == total_load(cells@.subrange(0, i as int)),
            0 <= total <= i32::MAX,
        decreases n - i,
    {
        proof {
            let cur = cells@.subrange(0, i + 1);
            assert(cur.drop_last() =~= cells@.subrange(0, i as int));
            assert(cur.last() == cells@[i as int]);
            lemma_total_prefix(cells@, i + 1);
        }
        total = total + cells[i].1 as i64;
        if total > i32::MAX as i64 {
            return Err(ShardError::LoadOverflow);
        }
        i = i + 1;
    }
    assert(cells@.subrange(0, n as int) =~= cells@);
    if total == 0 {
        let whole = Part { start: cells[0].0, end: cells[n - 1].0, count: n as i32, score: 0 };
        let mut parts: Vec<Part> = Vec::new();
        parts.push(whole);
        assert(parts_view(parts@) =~= seq![(cells@[0].0, cells@.last().0, n as int, 0int)]);
        return Ok(name_parts(&parts, level));
    }
    let lo = total / (MAX_SHARD as i64);
    let hi = total / (MIN_SHARD as i64);
    let mut best = sweep_parts(cells, lo);
    proof {
        lemma_sweep(cells@, lo as int);
        lemma_parts_facts(best@);
    }
    let mut size = lo + 1;
    while size <= hi
        invariant
            lo < size <= hi + 1,
            cells@ == cell_list@,
            hi <= i32::MAX,
            cells@.len() > 0,
            cells@.len() <= i32::MAX,
            ascending(cells@),
            loads_nonneg(cells@),
            total_load(cells@) == total,
            total <= i32::MAX,
            parts_view(best@) == best_plan(cells@, lo as int, (size - 1 - lo) as nat),
            0 < best@.len() <= u32::MAX,
            forall|k: int| 0 <= k < best@.len() ==> best@[k].score >= 0,
            part_loads(parts_view(best@)) <= i32::MAX,
        decreases hi + 1 - size,
    {
        let candidate = sweep_parts(cells, size);
        proof {
            lemma_sweep(cells@, size as int);
            lemma_parts_facts(candidate@);
        }
        if more_even_parts(&candidate, &best) {
            best = candidate;
        }
        size = size + 1;
    }
    let count = best.len();
    if count < MIN_SHARD as usize || count > MAX_SHARD as usize {
        return Err(ShardError::UnsatisfiableBalance { level, total, shards: count as u64 });
    }
    Ok(name_parts(&best, level))
}

proof fn lemma_best_plan(cells: Seq<(u64, i32)>, lo: int, m: nat)
    requires
        cells.len() > 0,
        ascending(cells),
        loads_nonneg(cells),
    ensures
        ({
            let p = best_plan(cells, lo, m);
            &&& chained(p)
            &&& 1 <= p.len() <= cells.len()
            &&& p[0].0 == cells[0].0
            &&& p.last().1 == cells.last().0
        }),
    decreases m,
{
    lemma_sweep(cells, lo + m);
    if m > 0 {
        lemma_best_plan(cells, lo, (m - 1) as nat);
    }
}

proof fn lemma_chained_ordered(p: Seq<PartView>, j: int, k: int)
    requires
        chained(p),
        0 <= j < k < p.len(),
    ensures
        p[j].1 <= p[k].0,
    decreases k - j,
{
    if k > j + 1 {
        lemma_chained_ordered(p, j, k - 1);
    }
}

proof fn lemma_chained_covers(p: Seq<PartView>, x: u64) -> (k: int)
    requires
        chained(p),
        p.len() > 0,
        p[0].0 <= x <= p.last().1,
    ensures
        0 <= k < p.len(),
        p[k].0 <= x <= p[k].1,
    decreases p.len(),
{
    if x <= p[0].1 {
        0
    } else {
        let rest = p.subrange(1, p.len() as int);
        assert(rest.last() == p.last());
        let k = lemma_chained_covers(rest, x);
        k + 1
    }
}

/// `x` lies in the range of one of the shards.
pub open spec fn in_some_shard(p: Seq<ShardView>, x: u64) -> bool {
    exists|k: int| 0 <= k < p.len() && #[trigger] p[k].start <= x <= p[k].end
}

/// A successful plan partitions the cells: the first shard starts at the
/// first cell, the last one ends at the last cell, every shard's range is
/// ordered, each shard starts where the previous one ends (so two ranges share
/// at most that one boundary cell), and every cell lies in some shard's range.
pub proof fn lemma_plan_partitions(cells: Seq<(u64, i32)>, level: u64)
    requires
        ascending(cells),
        loads_nonneg(cells),
        plan_of(cells, level) is Ok,
    ensures
        ({
            let p = plan_of(cells, level)->Ok_0;
            &&& p.len() > 0
            &&& p[0].start == cells[0].0
            &&& p.last().end == cells.last().0
            &&& forall|k: int| 0 <= k < p.len() ==> p[k].start <= p[k].end
            &&& forall|k: int| 0 <= k < p.len() - 1 ==> p[k + 1].start == p[k].end
            &&& forall|j: int, k: int| 0 <= j < k < p.len() ==> p[j].end <= p[k].start
            &&& forall|i: int| 0 <= i < cells.len() ==> in_some_shard(p, #[trigger] cells[i].0)
        }),
{
    let total = total_load(cells);
    let parts = if total == 0 {
        seq![(cells[0].0, cells.last().0, cells.len() as int, 0int)]
    } else {
        let lo = total / (MAX_SHARD as int);
        let hi = total / (MIN_SHARD as int);
        lemma_best_plan(cells, lo, (hi - lo) as nat);
        best_plan(cells, lo, (hi - lo) as nat)
    };
    let p = plan_of(cells, level)->Ok_0;
    assert(p == named(parts, level));
    assert(chained(parts));
    assert forall|j: int, k: int| 0 <= j < k < p.len() implies p[j].end <= p[k].start by {
        lemma_chained_ordered(parts, j, k);
    }
    assert forall|i: int| 0 <= i < cells.len() implies in_some_shard(p, #[trigger] cells[i].0) by {
        if i > 0 {
            assert(cells[0].0 < cells[i].0);
        }
        if i < cells.len() - 1 {
            assert(cells[i].0 < cells.last().0);
        }
        let k = lemma_chained_covers(parts, cells[i].0);
        assert(p[k].start == parts[k].0);
    }
}

/// A successful plan over cells with a positive total load holds between
/// `MIN_SHARD` and `MAX_SHARD` shards.
pub proof fn lemma_plan_within_bounds(cells: Seq<(u64, i32)>, level: u64)
    requires
        plan_of(cells, level) is Ok,
        total_load(cells) > 0,
    ensures
        MIN_SHARD <= plan_of(cells, level)->Ok_0.len() <= MAX_SHARD,
{
}

} // verus!
