use vstd::prelude::*;

verus! {

/// The ways in which building, loading or routing a shard map can fail.
#[derive(Debug, Clone, Copy, PartialEq, Eq, Structural)]
pub enum ShardError {
    /// A latitude or longitude lies outside its range.
    InvalidLocation,
    /// A storage level lies outside the accepted range.
    InvalidLevel,
    /// No plan with an admissible number of shards exists; carries the
    /// storage level, the total load and the number of shards obtained.
    UnsatisfiableBalance { level: u64, total: i64, shards: u64 },
    /// The total load, or the number of cells, does not fit an `i32`.
    LoadOverflow,
    /// A stored shard document does not match the expected schema.
    DecodeError,
    /// The metadata index holds no shard documents.
    ShardMapAbsent,
    /// The external store could not be reached.
    StoreUnavailable,
}

} // verus!
