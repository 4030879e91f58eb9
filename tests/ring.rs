use orby::logic::{OrbyRingBufferSilo, PersistenceChanges, RingOperation};
use orby::ring;
use orby::row::PulseCellPack;
use orby::scan::{self, RowFilter};
use orby::types::{LogicMode, SaveMode};
use orby::OrbyError;

fn store(name: &str, capacity: usize, lanes: usize) -> OrbyRingBufferSilo {
    OrbyRingBufferSilo::new(
        name.to_string(),
        capacity,
        lanes,
        SaveMode::MemoryOnly,
        LogicMode::RingBuffer,
        false,
        false,
        None,
    )
    .unwrap()
}

fn insert(s: &mut OrbyRingBufferSilo, rows: &[&[u128]]) -> Result<(), OrbyError> {
    let mut ch = PersistenceChanges::new();
    ring::insert_batch(s, rows.iter().map(|r| r.to_vec()).collect(), &mut ch)
}

fn all_rows(s: &OrbyRingBufferSilo) -> Vec<Vec<u128>> {
    scan::take(s, s.capacity)
}

#[test]
fn test_insert() {
    let mut s = store("test_insert", 5, 2);
    let val1 = (7u128 << 76) | 12345;
    let val2 = (7u128 << 76) | 67890;
    let row = PulseCellPack::new([val1, val2]);
    let mut ch = PersistenceChanges::new();
    ring::insert_fixed(&mut s, vec![row], &mut ch).unwrap();
    assert_eq!(s.len, 1);
}

#[test]
fn test_query_injection() {
    let mut s = store("test_query", 5, 2);
    insert(&mut s, &[&[100, 1], &[200, 2], &[300, 3]]).unwrap();

    let results = scan::query_raw(&s, |row: &[u128]| row[1] == 2, 10);
    assert_eq!(results.len(), 1);
    assert_eq!(results[0][0], 200);

    let results = scan::query_raw(&s, |row: &[u128]| row[0] >= 150 && row[0] <= 250, 10);
    assert_eq!(results.len(), 1);
    assert_eq!(results[0][0], 200);
    assert_eq!(results[0], vec![200, 2]);
}

#[test]
fn test_query_iter() {
    let mut s = store("test_iter", 5, 2);
    insert(&mut s, &[&[100, 1], &[200, 2], &[300, 3]]).unwrap();

    let f = |row: &[u128]| row[1] >= 2;
    let (pos, res1) = scan::next_match(&s, &f, 0);
    assert_eq!(res1.unwrap()[0], 300);
    let (pos, res2) = scan::next_match(&s, &f, pos);
    assert_eq!(res2.unwrap()[0], 200);
    let (_, res3) = scan::next_match(&s, &f, pos);
    assert!(res3.is_none());
}

#[test]
fn test_update_and_upsert() {
    let mut s = store("test_update", 5, 2);
    insert(&mut s, &[&[1, 10], &[2, 20]]).unwrap();
    let mut ch = PersistenceChanges::new();

    let found = ring::update_by_id(&mut s, 0, 1, &vec![1, 11], &mut ch);
    assert!(found);

    let results = scan::query_raw(&s, |row: &[u128]| row[0] == 1, 1);
    assert_eq!(results[0][1], 11);

    ring::upsert(&mut s, 0, 2, &vec![2, 22], &mut ch).unwrap();
    let results2 = scan::query_raw(&s, |row: &[u128]| row[0] == 2, 1);
    assert_eq!(results2[0][1], 22);

    ring::upsert(&mut s, 0, 3, &vec![3, 30], &mut ch).unwrap();
    assert_eq!(s.len, 3);
    let results3 = scan::query_raw(&s, |row: &[u128]| row[0] == 3, 1);
    assert_eq!(results3[0][1], 30);
    assert_eq!(results3[0], vec![3, 30]);
}

#[test]
fn test_get_at_and_take() {
    let mut s = store("test_get_at", 5, 1);
    insert(&mut s, &[&[10], &[20], &[30]]).unwrap();

    assert_eq!(scan::get_at(&s, 0).unwrap()[0], 30);
    assert_eq!(scan::get_at(&s, 1).unwrap()[0], 20);
    assert_eq!(scan::get_at(&s, 2).unwrap()[0], 10);
    assert!(scan::get_at(&s, 3).is_none());

    let list = scan::take(&s, 2);
    assert_eq!(list.len(), 2);
    assert_eq!(list[0][0], 30);
    assert_eq!(list[1][0], 20);
}

#[test]
fn test_find_indices() {
    let mut s = store("test_indices", 5, 1);
    insert(&mut s, &[&[10], &[20], &[30]]).unwrap();

    let indices = scan::find_indices(&s, |row: &[u128]| row[0] > 15, 10);
    assert_eq!(indices.len(), 2);
    assert_eq!(indices[0], 0);
    assert_eq!(indices[1], 1);

    assert_eq!(scan::get_at(&s, indices[0]).unwrap()[0], 30);
    assert_eq!(scan::get_at(&s, indices[1]).unwrap()[0], 20);
}

#[test]
fn test_purge_all_data() {
    let mut s = store("test_purge_all_data", 10, 1);
    insert(&mut s, &[&[100], &[200]]).unwrap();
    assert_eq!(s.len, 2);

    let mut ch = PersistenceChanges::new();
    ring::truncate(&mut s, vec![vec![300], vec![400], vec![500]], &mut ch).unwrap();
    assert_eq!(s.len, 3);
    assert_eq!(scan::get_at(&s, 0).unwrap()[0], 500);
    assert_eq!(scan::get_at(&s, 2).unwrap()[0], 300);

    let results = scan::query_raw(&s, |row: &[u128]| row[0] == 100, 10);
    assert_eq!(results.len(), 0);

    ring::truncate(&mut s, Vec::new(), &mut ch).unwrap();
    assert_eq!(s.len, 0);
}

#[test]
fn test_insert_lane_batch() {
    let mut s = store("test_lane_batch", 10, 3);
    let mut ch = PersistenceChanges::new();

    let values = vec![100, 200, 300, 400, 500];
    ring::insert_lane_batch(&mut s, 1, &values, &mut ch).unwrap();
    assert_eq!(s.len, 5);

    for i in 0..5 {
        let row = scan::get_at(&s, 4 - i).unwrap();
        assert_eq!(row[1], values[i]);
        assert_eq!(row[0], 0);
        assert_eq!(row[2], 0);
    }

    let values2 = vec![600, 700, 800, 900, 1000, 1100, 1200];
    ring::insert_lane_batch(&mut s, 0, &values2, &mut ch).unwrap();
    assert_eq!(s.len, 10);
    assert_eq!(scan::get_at(&s, 0).unwrap()[0], 1200);
}

#[test]
fn lane_batch_newest_first() {
    let mut s = store("lane_newest", 10, 3);
    let mut ch = PersistenceChanges::new();
    ring::insert_lane_batch(&mut s, 1, &vec![100, 200, 300, 400, 500], &mut ch).unwrap();
    let rows = scan::take(&s, 5);
    let second: Vec<u128> = rows.iter().map(|r| r[1]).collect();
    assert_eq!(second, vec![500, 400, 300, 200, 100]);
    assert!(rows.iter().all(|r| r[0] == 0 && r[2] == 0));
}

#[test]
fn lane_batch_errors() {
    let mut s = store("lane_err", 4, 2);
    let mut ch = PersistenceChanges::new();
    match ring::insert_lane_batch(&mut s, 2, &vec![1], &mut ch) {
        Err(OrbyError::LaneCountMismatch { expected, found, .. }) => {
            assert_eq!(expected, 2);
            assert_eq!(found, 3);
        }
        other => panic!("unexpected {:?}", other),
    }
    match ring::insert_lane_batch(&mut s, 0, &vec![1, 2, 3, 4, 5], &mut ch) {
        Err(OrbyError::StorageFull { capacity, .. }) => assert_eq!(capacity, 4),
        other => panic!("unexpected {:?}", other),
    }
    assert_eq!(s.len, 0);
    assert!(ch.is_empty());
}

#[test]
fn insert_rejects_wrong_width() {
    let mut s = store("width", 4, 2);
    insert(&mut s, &[&[1, 1]]).unwrap();
    match insert(&mut s, &[&[2, 2], &[3], &[4, 4, 4]]) {
        Err(OrbyError::LaneCountMismatch { expected, found, .. }) => {
            assert_eq!(expected, 2);
            assert_eq!(found, 1);
        }
        other => panic!("unexpected {:?}", other),
    }
    // nothing of the rejected batch was written
    assert_eq!(s.len, 1);
    assert_eq!(all_rows(&s), vec![vec![1, 1]]);
    let mut ch = PersistenceChanges::new();
    let packs = vec![PulseCellPack::new([1u128, 2, 3])];
    assert!(ring::insert_fixed(&mut s, packs, &mut ch).is_err());
}

#[test]
fn wrap_around_keeps_last_capacity_rows() {
    let cap = 4;
    let mut s = store("wrap", cap, 2);
    for m in 1..=(cap as u128 + 3) {
        insert(&mut s, &[&[m, m * 10]]).unwrap();
    }
    assert_eq!(s.len, cap);
    assert_eq!(s.cursor, 3);
    let markers: Vec<u128> = all_rows(&s).iter().map(|r| r[0]).collect();
    assert_eq!(markers, vec![7, 6, 5, 4]);
}

#[test]
fn single_insert_advances_cursor() {
    let mut s = store("cursor", 3, 1);
    for expected in [1usize, 2, 0, 1] {
        let before = s.cursor;
        insert(&mut s, &[&[9]]).unwrap();
        assert_eq!(s.cursor, expected);
        assert_eq!(s.lanes[0].buffer[before].as_u128(), 9);
    }
}

#[test]
fn tombstones_are_skipped() {
    let mut s = store("tomb", 5, 2);
    insert(&mut s, &[&[1, 1], &[0, 0], &[3, 3]]).unwrap();
    let rows = scan::query_raw(&s, |_: &[u128]| true, 10);
    assert_eq!(rows, vec![vec![3, 3], vec![1, 1]]);
    let idx = scan::find_indices(&s, |_: &[u128]| true, 10);
    assert_eq!(idx, vec![0, 2]);
    assert_eq!(scan::take(&s, 1), vec![vec![3, 3]]);
}

#[test]
fn purge_by_id_zeroes_matches() {
    let mut s = store("purge", 5, 2);
    insert(&mut s, &[&[7, 1], &[8, 2], &[7, 3]]).unwrap();
    let mut ch = PersistenceChanges::new();
    ring::purge_by_id(&mut s, 0, 7, &mut ch);
    assert_eq!(s.len, 1);
    assert_eq!(all_rows(&s), vec![vec![8, 2]]);
    match &ch.ops[0] {
        RingOperation::Purge { physical_indices, id, logical_column } => {
            assert_eq!(physical_indices, &vec![0, 2]);
            assert_eq!(*id, 7);
            assert_eq!(*logical_column, 0);
        }
        other => panic!("unexpected {:?}", other),
    }
    // a zero id purges nothing
    let mut ch2 = PersistenceChanges::new();
    ring::purge_by_id(&mut s, 0, 0, &mut ch2);
    assert!(ch2.is_empty());
}

#[test]
fn update_matches_every_slot() {
    let mut s = store("update_many", 5, 2);
    insert(&mut s, &[&[5, 1], &[6, 2], &[5, 3]]).unwrap();
    let mut ch = PersistenceChanges::new();
    assert!(ring::update_by_id(&mut s, 0, 5, &vec![9, 9], &mut ch));
    assert_eq!(all_rows(&s), vec![vec![9, 9], vec![6, 2], vec![9, 9]]);
    assert_eq!(ch.ops.len(), 3);
    assert!(!ring::update_by_id(&mut s, 0, 0, &vec![1, 1], &mut ch));
    assert!(!ring::update_by_id(&mut s, 0, 6, &vec![1], &mut ch));
    assert!(!ring::update_by_id(&mut s, 0, 42, &vec![1, 1], &mut ch));
}

#[test]
fn delete_sparse_and_compacting() {
    let mut s = store("del", 5, 1);
    insert(&mut s, &[&[1], &[2], &[3]]).unwrap();
    let mut ch = PersistenceChanges::new();
    assert!(ring::delete(&mut s, 1, &mut ch));
    assert_eq!(s.len, 2);
    assert_eq!(all_rows(&s), vec![vec![3], vec![1]]);
    assert!(!ring::delete(&mut s, 1, &mut ch));
    assert!(!ring::delete(&mut s, 9, &mut ch));

    let mut c = OrbyRingBufferSilo::new(
        "del_c".to_string(),
        5,
        1,
        SaveMode::MemoryOnly,
        LogicMode::RingBuffer,
        true,
        false,
        None,
    )
    .unwrap();
    insert(&mut c, &[&[1], &[2], &[3]]).unwrap();
    assert!(ring::delete(&mut c, 0, &mut ch));
    assert_eq!(c.len, 2);
    assert_eq!(c.cursor, 2);
    let lane: Vec<u128> = c.lanes[0].buffer.iter().map(|x| x.as_u128()).collect();
    assert_eq!(lane, vec![2, 3, 0, 0, 0]);
}

#[test]
fn count_active_walks_written_region() {
    let mut s = store("count", 3, 2);
    assert_eq!(scan::count_active(&s), 0);
    insert(&mut s, &[&[1, 1], &[0, 5]]).unwrap();
    assert_eq!(scan::count_active(&s), 1);
    insert(&mut s, &[&[3, 3]]).unwrap();
    assert_eq!(s.cursor, 0);
    assert_eq!(scan::count_active(&s), 2);
}

#[test]
fn zero_sizes_are_rejected() {
    let r = OrbyRingBufferSilo::new(
        "zero".to_string(),
        0,
        2,
        SaveMode::MemoryOnly,
        LogicMode::RingBuffer,
        false,
        false,
        None,
    );
    assert!(r.is_err());
}

#[test]
fn one_of_filter() {
    let mut s = store("oneof", 5, 2);
    insert(&mut s, &[&[1, 1], &[2, 2], &[3, 3]]).unwrap();
    let f = RowFilter::OneOf { lane: 0, values: vec![1, 3] };
    let rows = scan::query_raw(&s, |row: &[u128]| f.test(row), 10);
    assert_eq!(rows, vec![vec![3, 3], vec![1, 1]]);
    let g = RowFilter::Equals { lane: 5, value: 1 };
    let none = scan::query_raw(&s, |row: &[u128]| g.test(row), 10);
    // a predicate over two lanes
    let both = scan::query_raw(&s, |row: &[u128]| row[0] + row[1] == 4, 10);
    assert_eq!(both, vec![vec![2, 2]]);
    assert!(none.is_empty());
}

#[test]
fn shape_and_bounds_hold_after_mutations() {
    let mut s = store("shape", 4, 3);
    let mut ch = PersistenceChanges::new();
    let check = |s: &OrbyRingBufferSilo| {
        assert_eq!(s.lanes.len(), 3);
        assert!(s.lanes.iter().all(|l| l.buffer.len() == 4));
        assert!(s.cursor < 4);
        assert!(s.len <= 4);
    };
    check(&s);
    for v in 1..=6u128 {
        insert(&mut s, &[&[v, v, v]]).unwrap();
        check(&s);
    }
    ring::insert_lane_batch(&mut s, 2, &vec![9, 9, 9, 9], &mut ch).unwrap();
    check(&s);
    ring::purge_by_id(&mut s, 2, 9, &mut ch);
    check(&s);
    assert_eq!(s.len, 0);
    ring::truncate(&mut s, vec![vec![1, 2, 3]; 7], &mut ch).unwrap();
    check(&s);
    assert_eq!(s.len, 4);
    assert_eq!(s.cursor, 0);
}
