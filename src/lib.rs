//! Geographic shard planning and routing over S2 cells.
//!
//! The sphere is discretised into the S2 cells of one storage level, each
//! cell gets an integer load, and the ordered cell sequence is cut into a
//! bounded number of contiguous shards whose loads are as even as possible.
//! At query time a cell is routed to the shard whose range holds it, and the
//! shard map is written to and read back from a metadata index as documents.

mod builder;
mod cell;
mod cell_list;
mod error;
mod planner;
mod scorer;
mod searcher;
mod store;

pub use builder::{GeoshardBuilder, S2List, MAX_LEVEL, MIN_LEVEL, RANDOM_LOAD_RANGE};
pub use cell::{cell_from_token, cell_to_token};
pub use cell_list::CellList;
pub use error::ShardError;
pub use planner::{generate_shards, score_spread, GeoShard, MAX_SHARD, MIN_SHARD};
pub use scorer::{PopulationLoadCounter, Scorer, UniformScorer, UserCountScorer};
pub use searcher::GeoShardSearcher;
pub use store::{
    from_record, load_shard_map, to_record, GeoShardMappingIndex, ShardRecord, UserIndex,
};
