use geoshard::{
    cell_from_token, cell_to_token, from_record, generate_shards, load_shard_map, score_spread,
    to_record, CellList, GeoShard, GeoShardMappingIndex, GeoShardSearcher, GeoshardBuilder,
    PopulationLoadCounter, S2List, Scorer, ShardError, ShardRecord, UniformScorer, UserCountScorer, UserIndex,
    MAX_SHARD, MIN_SHARD,
};
use rand::Rng;
use s2::cap::Cap;
use s2::cellid::CellID;
use s2::latlng::LatLng;
use s2::point::Point;
use s2::region::RegionCoverer;
use s2::s1::{Angle, Deg};

const EARTH_RADIUS: f64 = 6.37e6;

fn cell_of(lat: f64, lng: f64, level: u64) -> u64 {
    CellID::from(LatLng::from_degrees(lat, lng)).parent(level).0
}

fn covering(lat: f64, lng: f64, level: u64, radius_m: u32) -> Vec<u64> {
    let center = Point::from(LatLng::from_degrees(lat, lng));
    let degrees = (radius_m as f64 / EARTH_RADIUS).to_degrees();
    let cap = Cap::from_center_angle(&center, &Angle::from(Deg(degrees)));
    let coverer = RegionCoverer {
        min_level: level as u8,
        max_level: level as u8,
        level_mod: 0,
        max_cells: 0,
    };
    coverer.covering(&cap).0.iter().map(|c| c.0).collect()
}

fn random_cell_load() -> CellList {
    let mut list = CellList::new(4);
    let mut rng = rand::thread_rng();
    let buckets: [(usize, i32, i32); 4] = [(1001, 0, 5), (101, 10, 100), (51, 100, 500), (11, 1000, 2000)];
    for (n, lo, hi) in buckets.iter() {
        for _ in 0..*n {
            let lat: f64 = rng.gen_range(0.0, 2000.0);
            let lng: f64 = rng.gen_range(0.0, 2000.0);
            let cell = CellID::from(LatLng::from_degrees(lat, lng)).0;
            list.insert(cell, rng.gen_range(*lo, *hi));
        }
    }
    list
}

fn fake_shard(cell_score: i32) -> GeoShard {
    GeoShard {
        name: "fake".to_owned(),
        storage_level: 0,
        start: 0,
        end: 0,
        cell_count: 0,
        cell_score,
    }
}

fn sigma(shards: &Vec<GeoShard>) -> f64 {
    let (spread, n2) = score_spread(shards);
    (spread as f64 / n2 as f64).sqrt()
}

fn assert_contiguous(cells: &CellList, shards: &Vec<GeoShard>) {
    let entries = cells.entries();
    assert_eq!(shards[0].start, entries[0].0);
    assert_eq!(shards[shards.len() - 1].end, entries[entries.len() - 1].0);
    for k in 0..shards.len() {
        assert!(shards[k].start <= shards[k].end);
        if k + 1 < shards.len() {
            assert_eq!(shards[k + 1].start, shards[k].end);
        }
    }
    for (cell, _) in entries.iter() {
        assert!(shards.iter().any(|s| s.start <= *cell && *cell <= s.end));
    }
}

#[test]
fn test_s2_list() {
    let s2_list = S2List::new(8).into_list();
    assert_eq!(s2_list.len(), 393216);
}

#[test]
fn test_geoshard_cell_list() {
    let cell_list = CellList::cell_list(8);
    assert_eq!(cell_list.len(), 393216);
}

#[test]
fn cell_list_counts_small_levels() {
    for level in 1..=6u64 {
        let cells = CellList::cell_list(level);
        assert_eq!(cells.len(), 6 * 4usize.pow(level as u32));
        let entries = cells.entries();
        for k in 1..entries.len() {
            assert!(entries[k - 1].0 < entries[k].0);
        }
        assert!(entries.iter().all(|e| e.1 == 0));
        assert!(entries.iter().all(|e| CellID(e.0).level() == level));
    }
}

#[test]
fn s2_list_loads_stay_in_range() {
    let list = S2List::new(3).into_list();
    assert_eq!(list.len(), 384);
    assert!(list.entries().iter().all(|e| 0 <= e.1 && e.1 < 2000));
}

#[test]
fn location_test_generate_shards() {
    let cell_list = random_cell_load();
    let shards = generate_shards(cell_list).unwrap();
    if (shards.len() as i32) > MAX_SHARD || (shards.len() as i32) < MIN_SHARD {
        panic!("Shard len out of range: {}", shards.len());
    }
}

#[test]
fn sharding_test_generate_shards() {
    let cells = random_cell_load();
    let copy = CellList::new(4);
    let mut copy = copy;
    for (cell, load) in cells.entries().iter() {
        copy.insert(*cell, *load);
    }
    let shards = generate_shards(cells).unwrap();
    assert!(shards.len() as i32 >= MIN_SHARD && shards.len() as i32 <= MAX_SHARD);
    assert_contiguous(&copy, &shards);
    // the chosen plan is at least as even as cutting the cells into runs of
    // equal length
    let entries = copy.entries();
    let per = (entries.len() + shards.len() - 1) / shards.len();
    let mut naive: Vec<GeoShard> = Vec::new();
    for chunk in entries.chunks(per) {
        naive.push(fake_shard(chunk.iter().map(|e| e.1).sum()));
    }
    assert!(sigma(&shards) <= sigma(&naive));
    for (k, shard) in shards.iter().enumerate() {
        assert_eq!(shard.name, format!("geoshard_user_index_{}", k));
        assert_eq!(shard.storage_level, 4);
    }
}

#[test]
fn location_test_standard_deviation() {
    let loads = [9, 2, 5, 4, 12, 7, 8, 11, 9, 3, 7, 4, 12, 5, 4, 10, 9, 6, 9, 4];
    let shards: Vec<GeoShard> = loads.iter().map(|x| fake_shard(*x)).collect();
    let standard_dev = sigma(&shards);
    assert_eq!(standard_dev, 2.9832867780352594_f64)
}

#[test]
fn sharding_test_standard_deviation() {
    let loads = [9, 2, 5, 4, 12, 7, 8, 11, 9, 3, 7, 4, 12, 5, 4, 10, 9, 6, 9, 4];
    let shards: Vec<GeoShard> = loads.iter().map(|x| fake_shard(*x)).collect();
    assert_eq!(score_spread(&shards), (3560, 400));
    assert_eq!(sigma(&shards), 2.9832867780352594_f64)
}

#[test]
fn sharding_test_shard_search() {
    let geoshard = GeoshardBuilder::user_count_scorer(4, vec![]).build().unwrap();
    assert_eq!(geoshard.len(), 1);
    let geoshards = GeoShardSearcher::from(geoshard).unwrap();
    let cell_id = cell_of(34.181061, -103.345177, 4);
    let geoshard = geoshards.get_shard_from_cell_id(cell_id);
    assert!(geoshard.start <= cell_id && cell_id <= geoshard.end);
}

#[test]
fn sharding_test_shard_radius_search() {
    let geoshard = GeoshardBuilder::user_count_scorer(4, vec![]).build().unwrap();
    let geoshards = GeoShardSearcher::from(geoshard).unwrap();
    let cells = covering(34.181061, -103.345177, 4, 200);
    let geoshards = geoshards.get_shards_from_cells(&cells);
    assert_eq!(geoshards.len(), 1);
}

#[test]
fn location_test_shard_search() {
    let shards = generate_shards(random_cell_load()).unwrap();
    let searcher = GeoShardSearcher::from(shards).unwrap();
    let cell_id = cell_of(34.181061, -103.345177, 4);
    let shard = searcher.get_shard_from_cell_id(cell_id);
    assert!(shard.start <= cell_id && cell_id <= shard.end);
}

#[test]
fn location_test_shard_radius_search() {
    let shards = generate_shards(random_cell_load()).unwrap();
    let searcher = GeoShardSearcher::from(shards).unwrap();
    let cells = covering(34.181061, -103.345177, 4, 200);
    assert_eq!(searcher.get_shards_from_cells(&cells).len(), 1);
}

#[test]
fn routing_every_cell_lands_in_its_shard() {
    let cells = S2List::new(2).into_list();
    let keys: Vec<u64> = cells.entries().iter().map(|e| e.0).collect();
    let mut list = CellList::new(2);
    for (k, key) in keys.iter().enumerate() {
        list.insert(*key, 1 + (k as i32 % 7) * 30);
    }
    let shards = generate_shards(list).unwrap();
    let searcher = GeoShardSearcher::from(shards).unwrap();
    let routes = searcher.route_all(&keys);
    for (cell, r) in keys.iter().zip(routes.iter()) {
        let shard = &searcher.shards()[*r];
        assert!(shard.start <= *cell && *cell <= shard.end);
        // the first shard whose range holds the cell
        for earlier in &searcher.shards()[..*r] {
            assert!(!(earlier.start <= *cell && *cell <= earlier.end));
        }
    }
}

#[test]
fn radius_routing_deduplicates_in_first_hit_order() {
    let shards = vec![
        GeoShard { name: "a".to_owned(), storage_level: 4, start: 10, end: 20, cell_count: 1, cell_score: 1 },
        GeoShard { name: "b".to_owned(), storage_level: 4, start: 20, end: 30, cell_count: 1, cell_score: 1 },
        GeoShard { name: "c".to_owned(), storage_level: 4, start: 30, end: 40, cell_count: 1, cell_score: 1 },
    ];
    let searcher = GeoShardSearcher::from(shards).unwrap();
    assert_eq!(searcher.route(20), 0);
    assert_eq!(searcher.route(25), 1);
    assert_eq!(searcher.route(5), 2);
    assert_eq!(searcher.route(99), 2);
    assert_eq!(searcher.route_distinct(&vec![35, 12, 33, 15, 22]), vec![2, 0, 1]);
    let names: Vec<String> = searcher
        .get_shards_from_cells(&vec![35, 12, 33])
        .iter()
        .map(|s| s.name.clone())
        .collect();
    assert_eq!(names, vec!["c".to_owned(), "a".to_owned()]);
}

#[test]
fn searcher_refuses_empty_and_unordered_maps() {
    assert!(matches!(GeoShardSearcher::from(vec![]), Err(ShardError::ShardMapAbsent)));
    let backwards = vec![
        GeoShard { name: "a".to_owned(), storage_level: 4, start: 30, end: 40, cell_count: 1, cell_score: 1 },
        GeoShard { name: "b".to_owned(), storage_level: 4, start: 10, end: 20, cell_count: 1, cell_score: 1 },
    ];
    assert!(matches!(GeoShardSearcher::from(backwards), Err(ShardError::DecodeError)));
    let inverted = vec![GeoShard { name: "a".to_owned(), storage_level: 4, start: 40, end: 30, cell_count: 1, cell_score: 1 }];
    assert!(matches!(GeoShardSearcher::from(inverted), Err(ShardError::DecodeError)));
}

#[test]
fn token_round_trip_over_a_build() {
    let shards = generate_shards(random_cell_load()).unwrap();
    for s in &shards {
        assert_eq!(cell_from_token(&cell_to_token(s.start)).unwrap(), s.start);
        assert_eq!(cell_from_token(&cell_to_token(s.end)).unwrap(), s.end);
    }
}

#[test]
fn tokens_have_the_s2_form() {
    assert_eq!(cell_to_token(0x89c2_5000_0000_0000), "89c25");
    assert_eq!(cell_to_token(0x1000_0000_0000_0000), "1");
    assert_eq!(cell_to_token(0), "X");
    assert_eq!(cell_to_token(0x0000_0000_0000_0001), "0000000000000001");
    assert_eq!(cell_from_token("89c25").unwrap(), 0x89c2_5000_0000_0000);
    assert_eq!(cell_from_token("89C25").unwrap(), 0x89c2_5000_0000_0000);
    assert!(matches!(cell_from_token(""), Err(ShardError::DecodeError)));
    assert!(matches!(cell_from_token("X"), Err(ShardError::DecodeError)));
    assert!(matches!(cell_from_token("+1"), Err(ShardError::DecodeError)));
    assert!(matches!(cell_from_token("00000000000000001"), Err(ShardError::DecodeError)));
}

#[test]
fn metadata_round_trip() {
    let shards = generate_shards(random_cell_load()).unwrap();
    let index: Vec<ShardRecord> = shards.iter().map(to_record).collect();
    let loaded = load_shard_map(&index).unwrap();
    assert_eq!(loaded.len(), shards.len());
    for (a, b) in loaded.iter().zip(shards.iter()) {
        assert_eq!(a.name, b.name);
        assert_eq!(a.storage_level, b.storage_level);
        assert_eq!(a.start, b.start);
        assert_eq!(a.end, b.end);
        assert_eq!(a.cell_count, b.cell_count);
        assert_eq!(a.cell_score, b.cell_score);
    }
}

#[test]
fn metadata_load_orders_by_start() {
    let shards = vec![
        GeoShard { name: "late".to_owned(), storage_level: 7, start: 0x50, end: 0x60, cell_count: 2, cell_score: 3 },
        GeoShard { name: "early".to_owned(), storage_level: 7, start: 0x10, end: 0x50, cell_count: 4, cell_score: 5 },
    ];
    let index: Vec<ShardRecord> = shards.iter().map(to_record).collect();
    assert_eq!(index[0].start, "000000000000005");
    let loaded = load_shard_map(&index).unwrap();
    assert_eq!(loaded[0].name, "early");
    assert_eq!(loaded[1].name, "late");
    assert_eq!(loaded[0].end, 0x50);
}

#[test]
fn metadata_errors() {
    assert!(matches!(load_shard_map(&vec![]), Err(ShardError::ShardMapAbsent)));
    let bad = ShardRecord {
        name: "geoshard_user_index_0".to_owned(),
        storage_level: 7,
        start: "zz".to_owned(),
        end: "1".to_owned(),
        cell_count: 1,
        cell_score: 1,
    };
    assert!(matches!(from_record(&bad), Err(ShardError::DecodeError)));
    assert!(matches!(load_shard_map(&vec![bad]), Err(ShardError::DecodeError)));
}

#[test]
fn index_names() {
    assert_eq!(GeoShardMappingIndex::name(), "geoshard_mapping_index");
    let shard = fake_shard(3);
    assert_eq!(UserIndex::from(&shard).name(), "fake");
}

#[test]
fn user_count_scorer_counts_users() {
    let mut list = CellList::new(4);
    list.insert(10, 0);
    list.insert(20, 0);
    list.insert(30, 5);
    let scored = UserCountScorer.score_list(list, &vec![20, 30, 20, 99, 10, 20]);
    assert_eq!(scored.entries(), &vec![(10, 1), (20, 3), (30, 6)]);
}

#[test]
fn uniform_scorer_stays_in_range() {
    let mut list = CellList::new(4);
    for c in 1..200u64 {
        list.insert(c, 0);
    }
    let scored = UniformScorer { range: 3 }.score_list(list, &vec![]);
    assert!(scored.entries().iter().all(|e| 0 <= e.1 && e.1 < 3));
    assert!(scored.entries().iter().any(|e| e.1 != 0));
}

#[test]
fn build_refuses_bad_levels() {
    assert!(matches!(GeoshardBuilder::user_count_scorer(0, vec![]).build(), Err(ShardError::InvalidLevel)));
    assert!(matches!(GeoshardBuilder::user_count_scorer(16, vec![]).build(), Err(ShardError::InvalidLevel)));
}

#[test]
fn build_with_users() {
    let mut users: Vec<u64> = Vec::new();
    let all = CellList::cell_list(4);
    for (k, e) in all.entries().iter().enumerate() {
        let here = if k % 140 == 0 {
            1000 + k % 1000
        } else if k % 30 == 0 {
            100 + k % 400
        } else if k % 12 == 0 {
            10 + k % 90
        } else {
            k % 5
        };
        for _ in 0..here {
            users.push(e.0);
        }
    }
    let placed = users.len() as i32;
    let shards = GeoshardBuilder::new(4, users, UserCountScorer).build().unwrap();
    assert!(shards.len() as i32 >= MIN_SHARD && shards.len() as i32 <= MAX_SHARD);
    assert_contiguous(&all, &shards);
    let total: i32 = shards.iter().map(|s| s.cell_score).sum();
    assert!(total <= placed);
    assert_eq!(shards[12].name, "geoshard_user_index_12");
}

#[test]
fn zero_total_gives_one_shard() {
    let mut list = CellList::new(4);
    list.insert(5, 0);
    list.insert(9, 0);
    list.insert(7, 0);
    let shards = generate_shards(list).unwrap();
    assert_eq!(shards.len(), 1);
    assert_eq!((shards[0].start, shards[0].end, shards[0].cell_count, shards[0].cell_score), (5, 9, 3, 0));
    assert_eq!(shards[0].name, "geoshard_user_index_0");
}

#[test]
fn planner_errors() {
    assert!(matches!(
        generate_shards(CellList::new(4)),
        Err(ShardError::UnsatisfiableBalance { level: 4, total: 0, shards: 0 })
    ));
    let mut few = CellList::new(4);
    for c in 1..=10u64 {
        few.insert(c, 100);
    }
    assert!(matches!(generate_shards(few), Err(ShardError::UnsatisfiableBalance { level: 4, total: 1000, .. })));
    let mut heavy = CellList::new(4);
    heavy.insert(1, i32::MAX);
    heavy.insert(2, 1);
    assert!(matches!(generate_shards(heavy), Err(ShardError::LoadOverflow)));
}

#[test]
fn sweep_closes_on_oversize_cells() {
    // one cell per shard for 40 cells of equal load: every container size
    // from total / 100 to total / 40 closes a shard at each cell
    let mut list = CellList::new(4);
    for c in 1..=45u64 {
        list.insert(c * 16, 10);
    }
    let shards = generate_shards(list).unwrap();
    assert!(shards.len() as i32 >= MIN_SHARD);
    for k in 0..shards.len() - 1 {
        assert_eq!(shards[k + 1].start, shards[k].end);
    }
}

#[test]
fn insert_replaces_and_orders() {
    let mut list = CellList::new(2);
    list.insert(30, 1);
    list.insert(10, 2);
    list.insert(30, 4);
    list.insert(20, 3);
    assert_eq!(list.entries(), &vec![(10, 2), (20, 3), (30, 4)]);
    assert_eq!(list.storage_level(), 2);
}

#[test]
fn population_loads_follow_faces() {
    let scored = PopulationLoadCounter::new().score_list(CellList::cell_list(2), &vec![]);
    assert_eq!(scored.len(), 96);
    for (cell, load) in scored.entries().iter() {
        let range = match cell >> 61 {
            1 | 2 => 0..5,
            3 | 4 => 10..500,
            _ => 1000..2000,
        };
        assert!(range.contains(load));
    }
}
