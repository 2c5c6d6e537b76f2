use vstd::prelude::*;
use vstd::string::StringExecFns;
use crate::cell::{cell_from_token, cell_to_token, token_of, token_value, is_token, lemma_token_round_trip};
use crate::error::ShardError;
use crate::planner::{GeoShard, ShardView, shards_view, MAX_SHARD};

verus! {

/// The index under which the shard map is persisted.
pub struct GeoShardMappingIndex;

impl GeoShardMappingIndex {
    /// The name of the metadata index.
    pub fn name() -> (r: String)
        ensures
            r@ == "geoshard_mapping_index"@,
    {
        String::from_str("geoshard_mapping_index")
    }
}

/// The per-shard index that holds the users of one shard.
pub struct UserIndex<'a> {
    geoshard: &'a GeoShard,
}

impl<'a> UserIndex<'a> {
    pub closed spec fn shard(&self) -> GeoShard {
        *self.geoshard
    }

    /// The user index of `geoshard`.
    pub fn from(geoshard: &'a GeoShard) -> (r: UserIndex<'a>)
        ensures
            r.shard() == *geoshard,
    {
        UserIndex { geoshard }
    }

    /// The index is named after its shard.
    pub fn name(&self) -> (r: &String)
        ensures
            r@ == self.shard().name@,
    {
        &self.geoshard.name
    }
}

/// One shard as a document of the metadata index: cell ids as tokens.
pub struct ShardRecord {
    pub name: String,
    pub storage_level: i64,
    pub start: String,
    pub end: String,
    pub cell_count: i32,
    pub cell_score: i32,
}

/// What a shard document holds, its strings as character sequences.
pub struct RecordView {
    pub name: Seq<char>,
    pub storage_level: i64,
    pub start: Seq<char>,
    pub end: Seq<char>,
    pub cell_count: i32,
    pub cell_score: i32,
}

impl View for ShardRecord {
    type V = RecordView;

    open spec fn view(&self) -> RecordView {
        RecordView {
            name: self.name@,
            storage_level: self.storage_level,
            start: self.start@,
            end: self.end@,
            cell_count: self.cell_count,
            cell_score: self.cell_score,
        }
    }
}

pub open spec fn records_view(v: Seq<ShardRecord>) -> Seq<RecordView> {
    v.map_values(|r: ShardRecord| r@)
}

/// The document of a shard.
pub open spec fn record_of(s: ShardView) -> RecordView {
    RecordView {
        name: s.name,
        storage_level: s.storage_level,
        start: token_of(s.start),
        end: token_of(s.end),
        cell_count: s.cell_count,
        cell_score: s.cell_score,
    }
}

/// The shard a document describes, if both of its tokens are well formed.
pub open spec fn shard_of(r: RecordView) -> Option<ShardView> {
    if is_token(r.start) && is_token(r.end) {
        Some(
            ShardView {
                name: r.name,
                storage_level: r.storage_level,
                start: token_value(r.start) as u64,
                end: token_value(r.end) as u64,
                cell_count: r.cell_count,
                cell_score: r.cell_score,
            },
        )
    } else {
        None
    }
}

/// The document to write for `shard`.
pub fn to_record(shard: &GeoShard) -> (r: ShardRecord)
    ensures
        r@ == record_of(shard@),
{
    ShardRecord {
        name: shard.name.clone(),
        storage_level: shard.storage_level,
        start: cell_to_token(shard.start),
        end: cell_to_token(shard.end),
        cell_count: shard.cell_count,
        cell_score: shard.cell_score,
    }
}

/// The shard that a document describes; a malformed token does not decode.
pub fn from_record(record: &ShardRecord) -> (r: Result<GeoShard, ShardError>)
    ensures
        shard_of(record@) is Some <==> r is Ok,
        r is Ok ==> r->Ok_0@ == shard_of(record@)->Some_0,
        r is Err ==> r->Err_0 == ShardError::DecodeError,
{
    let start = match cell_from_token(record.start.as_str()) {
        Ok(c) => c,
        Err(e) => {
            return Err(e);
        },
    };
    let end = match cell_from_token(record.end.as_str()) {
        Ok(c) => c,
        Err(e) => {
            return Err(e);
        },
    };
    Ok(
        GeoShard {
            name: record.name.clone(),
            storage_level: record.storage_level,
            start,
            end,
            cell_count: record.cell_count,
            cell_score: record.cell_score,
        },
    )
}

/// A shard decodes from its own document, provided neither end is the zero
/// cell id (which no S2 cell has).
pub proof fn lemma_record_round_trip(s: ShardView)
    requires
        s.start != 0,
        s.end != 0,
    ensures
        shard_of(record_of(s)) == Some(s),
{
    lemma_token_round_trip(s.start);
    lemma_token_round_trip(s.end);
}

/// `x` placed into `s` after every shard whose start is not above its own.
pub open spec fn insert_by_start(s: Seq<ShardView>, x: ShardView) -> Seq<ShardView>
    decreases s.len(),
{
    if s.len() == 0 {
        seq![x]
    } else if s.last().start <= x.start {
        s.push(x)
    } else {
        insert_by_start(s.drop_last(), x).push(s.last())
    }
}

/// `s` ordered by start; shards with equal starts keep their order.
pub open spec fn sort_by_start(s: Seq<ShardView>) -> Seq<ShardView>
    decreases s.len(),
{
    if s.len() == 0 {
        s
    } else {
        insert_by_start(sort_by_start(s.drop_last()), s.last())
    }
}

pub open spec fn sorted_by_start(s: Seq<ShardView>) -> bool {
    forall|j: int, k: int| 0 <= j < k < s.len() ==> s[j].start <= s[k].start
}

/// How many of `n` documents a load reads.
pub open spec fn read_count(n: nat) -> int {
    if n < MAX_SHARD {
        n as int
    } else {
        MAX_SHARD as int
    }
}

/// What loading the metadata index yields when it holds `records`: at most
/// `MAX_SHARD` of them are read, each must decode, and the shards come out
/// ordered by start.
pub open spec fn loaded(records: Seq<RecordView>) -> Result<Seq<ShardView>, ShardError> {
    let read = records.take(read_count(records.len()));
    if records.len() == 0 {
        Err(ShardError::ShardMapAbsent)
    } else if forall|i: int| 0 <= i < read.len() ==> (#[trigger] shard_of(read[i])) is Some {
        Ok(sort_by_start(Seq::new(read.len(), |i: int| shard_of(read[i])->Some_0)))
    } else {
        Err(ShardError::DecodeError)
    }
}

proof fn lemma_insert_at(s: Seq<ShardView>, x: ShardView, j: int)
    requires
        0 <= j <= s.len(),
        forall|k: int| j <= k < s.len() ==> s[k].start > x.start,
        j > 0 ==> s[j - 1].start <= x.start,
    ensures
        insert_by_start(s, x) == s.subrange(0, j).push(x) + s.subrange(j, s.len() as int),
    decreases s.len(),
{
    if s.len() == 0 {
        assert(s.subrange(0, j).push(x) + s.subrange(j, s.len() as int) =~= seq![x]);
    } else if j == s.len() {
        assert(s.subrange(0, j).push(x) + s.subrange(j, s.len() as int) =~= s.push(x));
    } else {
        let t = s.drop_last();
        lemma_insert_at(t, x, j);
        assert(t.subrange(0, j).push(x) + t.subrange(j, t.len() as int) + seq![s.last()] =~= s.subrange(
            0,
            j,
        ).push(x) + s.subrange(j, s.len() as int));
        assert((t.subrange(0, j).push(x) + t.subrange(j, t.len() as int)).push(s.last()) =~= t.subrange(
            0,
            j,
        ).push(x) + t.subrange(j, t.len() as int) + seq![s.last()]);
    }
}

/// Puts `x` into `v` after every shard whose start is not above its own.
fn insert_sorted(v: &mut Vec<GeoShard>, x: GeoShard)
    ensures
        shards_view(final(v)@) == insert_by_start(shards_view(old(v)@), x@),
{
    let ghost before = shards_view(v@);
    let mut j = v.len();
    while j > 0 && v[j - 1].start > x.start
        invariant
            0 <= j <= v@.len(),
            before == shards_view(v@),
            forall|k: int| j <= k < v@.len() ==> v@[k].start > x.start,
        decreases j,
    {
        j = j - 1;
    }
    proof {
        lemma_insert_at(before, x@, j as int);
    }
    let ghost x_view = x@;
    v.insert(j, x);
    assert(shards_view(v@) =~= before.subrange(0, j as int).push(x_view) + before.subrange(
        j as int,
        before.len() as int,
    ));
}

/// The shard map held by the metadata index's `records`: the first
/// `MAX_SHARD` documents, decoded and ordered by start. No documents means the
/// map is absent; a malformed one does not decode.
pub fn load_shard_map(records: &Vec<ShardRecord>) -> (r: Result<Vec<GeoShard>, ShardError>)
    ensures
        match (r, loaded(records_view(records@))) {
            (Ok(v), Ok(p)) => shards_view(v@) == p,
            (Err(e), Err(f)) => e == f,
            _ => false,
        },
{
    let ghost recs = records_view(records@);
    if records.len() == 0 {
        return Err(ShardError::ShardMapAbsent);
    }
    let n = if records.len() < MAX_SHARD as usize {
        records.len()
    } else {
        MAX_SHARD as usize
    };
    let ghost read = recs.take(n as int);
    let ghost decoded = Seq::new(read.len(), |i: int| shard_of(read[i])->Some_0);
    let mut out: Vec<GeoShard> = Vec::new();
    let mut i: usize = 0;
    while i < n
        invariant
            0 <= i <= n,
            n <= records@.len(),
            recs == records_view(records@),
            recs.len() == records@.len(),
            n as int == read_count(recs.len()),
            read == recs.take(n as int),
            decoded == Seq::new(read.len(), |i: int| shard_of(read[i])->Some_0),
            forall|k: int| 0 <= k < i ==> (#[trigger] shard_of(read[k])) is Some,
            shards_view(out@) == sort_by_start(decoded.subrange(0, i as int)),
        decreases n - i,
    {
        assert(read[i as int] == records@[i as int]@);
        let shard = match from_record(&records[i]) {
            Ok(s) => s,
            Err(e) => {
                assert(!(shard_of(read[i as int]) is Some));
                return Err(e);
            },
        };
        proof {
            let next = decoded.subrange(0, i + 1);
            assert(next.drop_last() =~= decoded.subrange(0, i as int));
            assert(next.last() == shard@);
        }
        insert_sorted(&mut out, shard);
        i = i + 1;
    }
    assert(decoded.subrange(0, n as int) =~= decoded);
    Ok(out)
}

proof fn lemma_insert_sorted(s: Seq<ShardView>, x: ShardView)
    requires
        sorted_by_start(s),
    ensures
        sorted_by_start(insert_by_start(s, x)),
        insert_by_start(s, x).to_multiset() == s.to_multiset().insert(x),
    decreases s.len(),
{
    broadcast use vstd::seq_lib::group_to_multiset_ensures;

    if s.len() == 0 {
        assert(seq![x] =~= Seq::<ShardView>::empty().push(x));
    } else if s.last().start <= x.start {
    } else {
        let t = s.drop_last();
        lemma_insert_sorted(t, x);
        assert(s =~= t.push(s.last()));
        lemma_insert_members(t, x);
        assert(t.to_multiset().insert(x).insert(s.last()) =~= t.to_multiset().insert(s.last()).insert(x));
    }
}

proof fn lemma_insert_members(s: Seq<ShardView>, x: ShardView)
    ensures
        insert_by_start(s, x).len() == s.len() + 1,
        forall|k: int|
            0 <= k < insert_by_start(s, x).len() ==> #[trigger] insert_by_start(s, x)[k] == x
                || s.contains(insert_by_start(s, x)[k]),
    decreases s.len(),
{
    if s.len() > 0 && s.last().start > x.start {
        let t = s.drop_last();
        lemma_insert_members(t, x);
        let u = insert_by_start(s, x);
        assert forall|k: int| 0 <= k < u.len() implies #[trigger] u[k] == x || s.contains(u[k]) by {
            if k < u.len() - 1 {
                let w = insert_by_start(t, x);
                assert(u[k] == w[k]);
                if w[k] != x {
                    let m = choose|m: int| 0 <= m < t.len() && t[m] == w[k];
                    assert(s[m] == w[k]);
                }
            } else {
                assert(s[s.len() - 1] == u[k]);
            }
        }
    } else if s.len() > 0 {
        let u = insert_by_start(s, x);
        assert forall|k: int| 0 <= k < u.len() implies #[trigger] u[k] == x || s.contains(u[k]) by {
            if k < s.len() {
                assert(s[k] == u[k]);
            }
        }
    }
}

proof fn lemma_sort_by_start(s: Seq<ShardView>)
    ensures
        sorted_by_start(sort_by_start(s)),
        sort_by_start(s).to_multiset() == s.to_multiset(),
        sorted_by_start(s) ==> sort_by_start(s) == s,
    decreases s.len(),
{
    broadcast use vstd::seq_lib::group_to_multiset_ensures;

    if s.len() > 0 {
        let t = s.drop_last();
        lemma_sort_by_start(t);
        lemma_insert_sorted(sort_by_start(t), s.last());
        assert(s =~= t.push(s.last()));
        if sorted_by_start(s) {
            assert(sorted_by_start(t));
            assert(sort_by_start(t) == t);
            if t.len() > 0 {
                assert(t.last().start <= s.last().start);
            }
        }
    }
}

/// Writing shards to the metadata index and loading them back gives the same
/// shards ordered by start (equal starts keep their order): the result is
/// ordered, holds the same shards, and is the input itself when the input
/// was already ordered, as every plan is.
pub proof fn lemma_put_get(shards: Seq<ShardView>)
    requires
        1 <= shards.len() <= MAX_SHARD,
        forall|k: int| 0 <= k < shards.len() ==> (#[trigger] shards[k]).start != 0 && shards[k].end != 0,
    ensures
        loaded(shards.map_values(|s: ShardView| record_of(s))) == Ok::<
            Seq<ShardView>,
            ShardError,
        >(sort_by_start(shards)),
        sorted_by_start(sort_by_start(shards)),
        sort_by_start(shards).to_multiset() == shards.to_multiset(),
        sorted_by_start(shards) ==> sort_by_start(shards) == shards,
{
    let recs = shards.map_values(|s: ShardView| record_of(s));
    let read = recs.take(read_count(recs.len()));
    assert(read =~= recs);
    assert forall|i: int| 0 <= i < read.len() implies (#[trigger] shard_of(read[i])) is Some && shard_of(
        read[i],
    )->Some_0 == shards[i] by {
        lemma_record_round_trip(shards[i]);
    }
    assert(Seq::new(read.len(), |i: int| shard_of(read[i])->Some_0) =~= shards);
    lemma_sort_by_start(shards);
}

} // verus!
