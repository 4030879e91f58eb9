use orby::aof::{parse_aof, parse_aof_prefix, AofRecord};
use orby::logic::{OrbyRingBufferSilo, PersistenceChanges, RingOperation};
use orby::replay::replay_record;
use orby::ring;
use orby::scan;
use orby::types::{LogicMode, SaveMode};
use orby::vault::{
    column_of, header_for, header_update, lane_bytes, lane_writes, validate_and_load_vault,
    LaneWrite, OrbyVault, VaultHeader,
};
use orby::OrbyError;
use orby::vault::check_restore_header;
use orby::vault::compaction_moves;
use orby::utils::check_memory_budget;

fn vault_store(name: &str, capacity: usize, lanes: usize) -> OrbyRingBufferSilo {
    OrbyRingBufferSilo::new(
        name.to_string(),
        capacity,
        lanes,
        SaveMode::Vault(None),
        LogicMode::RingBuffer,
        false,
        true,
        Some(format!("db_data/{}", name)),
    )
    .unwrap()
}

/// What a checkpoint writes: the header block and one file per lane.
fn checkpoint(s: &OrbyRingBufferSilo) -> (Vec<u8>, Vec<Vec<u8>>) {
    let header = OrbyVault::encode_header(&header_for(s));
    let lanes = (0..s.ring_buffer_lane_count).map(|d| lane_bytes(s, d)).collect();
    (header, lanes)
}

#[test]
fn test_auto_restore_from_vault() {
    let mut s = vault_store("test_ring_v2", 100, 2);
    let mut ch = PersistenceChanges::new();
    ring::insert_batch(&mut s, vec![vec![12345, 99999]], &mut ch).unwrap();
    let (header, lanes) = checkpoint(&s);
    assert_eq!(header.len(), 4096);
    assert!(lanes.iter().all(|l| l.len() == 100 * 16));

    let mut t = vault_store("test_ring_v2", 100, 2);
    validate_and_load_vault(&mut t, &header, &lanes, true).unwrap();
    assert_eq!(t.len, 1, "Length mismatch after restore");
    let results = scan::query_raw(&t, |row: &[u128]| row[0] == 12345, 10);
    assert_eq!(results.len(), 1, "Query failed after restore");
    assert_eq!(results[0][1], 99999, "Data mismatch after restore");
}

/// Applies positioned writes to an in-memory file image.
fn apply(image: &mut Vec<u8>, writes: &[LaneWrite]) {
    for w in writes {
        let at = w.offset as usize;
        image[at..at + w.bytes.len()].copy_from_slice(&w.bytes);
    }
}

/// Applies the lane and header writes that one change list asks of a vault.
fn write_through(header: &mut Vec<u8>, lanes: &mut [Vec<u8>], capacity: usize, ch: &PersistenceChanges) {
    for op in &ch.ops {
        match op {
            RingOperation::Insert { cursor, data, .. } => {
                for (d, lane) in lanes.iter_mut().enumerate() {
                    apply(lane, &lane_writes(*cursor, capacity, &column_of(data, d)));
                }
            }
            RingOperation::HeaderUpdate { len, cursor } => {
                apply(header, &header_update(*len as u64, *cursor as u64));
            }
            other => panic!("unexpected {:?}", other),
        }
    }
}

#[test]
fn test_vault_autoload() {
    // a freshly initialised vault: zeroed lanes and a header with no rows
    let (cap, dim) = (10usize, 2usize);
    let mut header = OrbyVault::encode_header(&VaultHeader {
        capacity: cap as u64,
        len: 0,
        cursor: 0,
        lane_count: dim as u32,
    });
    let mut lanes = vec![vec![0u8; cap * 16]; dim];

    // inserts written through, without a checkpoint
    let mut s = vault_store("test_vault_autoload", cap, dim);
    let mut ch = PersistenceChanges::new();
    ring::insert_batch(&mut s, vec![vec![101, 201], vec![102, 202]], &mut ch).unwrap();
    write_through(&mut header, &mut lanes, cap, &ch);

    let mut t = vault_store("test_vault_autoload", cap, dim);
    validate_and_load_vault(&mut t, &header, &lanes, true).unwrap();
    assert_eq!(t.len, 2);
    let items = scan::take(&t, 2);
    assert_eq!(items[0][0], 102);
    assert_eq!(items[0][1], 202);
    assert_eq!(items[1][0], 101);
    assert_eq!(items[1][1], 201);
    assert_eq!(scan::take(&t, 10), scan::take(&s, 10));
}

#[test]
fn test_vault_config_mismatch() {
    let s = vault_store("test_vault_mismatch", 10, 2);
    let (header, lanes) = checkpoint(&s);
    let mut t = vault_store("test_vault_mismatch", 10, 3);
    let result = validate_and_load_vault(&mut t, &header, &lanes, true);
    match result {
        Err(OrbyError::ConfigMismatch { .. }) => {}
        e => panic!("Expected ConfigMismatch, got {:?}", e),
    }
}

#[test]
fn vault_load_rejects_bad_files() {
    let s = vault_store("bad", 4, 2);
    let (mut header, lanes) = checkpoint(&s);
    let mut t = vault_store("bad", 4, 2);
    // a short lane file
    let mut short = lanes.clone();
    short[1].truncate(10);
    assert!(matches!(
        validate_and_load_vault(&mut t, &header, &short, true),
        Err(OrbyError::ConfigMismatch { .. })
    ));
    // a longer file is accepted only without the strict check
    let mut long = lanes.clone();
    long[0].extend_from_slice(&[0u8; 16]);
    assert!(validate_and_load_vault(&mut t, &header, &long, true).is_err());
    assert!(validate_and_load_vault(&mut t, &header, &long, false).is_ok());
    // a wrong magic
    header[0] = b'X';
    assert!(matches!(
        validate_and_load_vault(&mut t, &header, &lanes, true),
        Err(OrbyError::ConfigMismatch { .. })
    ));
}

#[test]
fn header_layout_and_round_trip() {
    let h = VaultHeader { capacity: 100, len: 7, cursor: 9, lane_count: 3 };
    let b = OrbyVault::encode_header(&h);
    assert_eq!(b.len(), 4096);
    assert_eq!(&b[0..16], b"ORBY_DATA_V1_LE ");
    assert_eq!(&b[16..24], &100u64.to_le_bytes());
    assert_eq!(&b[24..32], &7u64.to_le_bytes());
    assert_eq!(&b[32..40], &9u64.to_le_bytes());
    assert_eq!(&b[40..44], &3u32.to_le_bytes());
    assert!(b[44..].iter().all(|&x| x == 0));
    assert_eq!(OrbyVault::parse_header(&b), Some(h));
    assert_eq!(OrbyVault::parse_header(&b[..100].to_vec()), None);
}

#[test]
fn restore_header_errors() {
    let name = "r".to_string();
    let h = VaultHeader { capacity: 10, len: 0, cursor: 0, lane_count: 2 };
    let b = OrbyVault::encode_header(&h);
    assert!(check_restore_header(&b, &name, 10, 2).is_ok());
    assert!(matches!(
        check_restore_header(&b, &name, 10, 3),
        Err(OrbyError::LaneCountMismatch { expected: 3, found: 2, .. })
    ));
    let mut bad = b.clone();
    bad[3] = 0;
    assert!(matches!(check_restore_header(&bad, &name, 10, 2), Err(OrbyError::InvalidFormat(_))));
}

#[test]
fn lane_file_bytes_are_little_endian() {
    let mut s = vault_store("lanes", 3, 1);
    let mut ch = PersistenceChanges::new();
    ring::insert_batch(&mut s, vec![vec![0x0102]], &mut ch).unwrap();
    let b = lane_bytes(&s, 0);
    assert_eq!(b.len(), 48);
    assert_eq!(&b[0..16], &0x0102u128.to_le_bytes());
    assert!(b[16..].iter().all(|&x| x == 0));
}

#[test]
fn wrap_aware_lane_writes() {
    let w = lane_writes(1, 4, &vec![5, 6]);
    assert_eq!(w.len(), 1);
    assert_eq!(w[0].offset, 16);
    assert_eq!(w[0].bytes.len(), 32);
    let w = lane_writes(3, 4, &vec![5, 6, 7]);
    assert_eq!(w.len(), 2);
    assert_eq!(w[0].offset, 48);
    assert_eq!(w[0].bytes, 5u128.to_le_bytes().to_vec());
    assert_eq!(w[1].offset, 0);
    let mut rest = 6u128.to_le_bytes().to_vec();
    rest.extend_from_slice(&7u128.to_le_bytes());
    assert_eq!(w[1].bytes, rest);
    let hu = header_update(5, 2);
    assert_eq!(hu[0].offset, 24);
    assert_eq!(hu[0].bytes, 5u64.to_le_bytes().to_vec());
    assert_eq!(hu[1].offset, 32);
    assert_eq!(hu[1].bytes, 2u64.to_le_bytes().to_vec());
    assert_eq!(column_of(&vec![vec![1, 2], vec![3]], 1), vec![2, 0]);
}

#[test]
fn aof_round_trip_and_replay() {
    let mut live = vault_store("aof", 4, 2);
    let mut ch = PersistenceChanges::new();
    ring::insert_batch(&mut live, vec![vec![1, 10], vec![2, 20]], &mut ch).unwrap();
    ring::update_by_id(&mut live, 0, 1, &vec![1, 11], &mut ch);
    ring::purge_by_id(&mut live, 0, 2, &mut ch);
    ring::insert_lane_batch(&mut live, 1, &vec![7, 8], &mut ch).unwrap();
    let bytes = ch.flatten();
    // insert 1+32 twice, update 1+4+16+32, purge 1+4+16, lane batch 1+4+4+32
    assert_eq!(bytes.len(), 66 + 53 + 21 + 41);
    assert_eq!(bytes[0], 0x01);
    assert_eq!(&bytes[1..17], &1u128.to_le_bytes());

    let recs = parse_aof(&bytes, 2).unwrap();
    assert_eq!(recs.len(), 5);
    let mut replayed = vault_store("aof", 4, 2);
    let mut sink = PersistenceChanges::new();
    for r in recs {
        replay_record(&mut replayed, r, &mut sink).unwrap();
    }
    assert_eq!(replayed.len, live.len);
    assert_eq!(replayed.cursor, live.cursor);
    assert_eq!(scan::take(&replayed, 4), scan::take(&live, 4));
}

#[test]
fn aof_parse_edges() {
    // a cut-off insert
    assert!(matches!(parse_aof(&vec![0x01, 1, 2], 1), Err(OrbyError::InvalidFormat(_))));
    // an unknown opcode ends the log
    let recs = parse_aof(&vec![0x04, 0x09, 0x01], 1).unwrap();
    assert_eq!(recs.len(), 1);
    assert!(matches!(recs[0], AofRecord::Truncate));
    assert!(parse_aof(&Vec::new(), 3).unwrap().is_empty());
}

#[test]
fn compaction_slide_plan() {
    // slots 2..9 move down by one, three cells at a time
    let moves = compaction_moves(2, 10, 3);
    assert_eq!(moves.len(), 3);
    assert_eq!((moves[0].read_offset, moves[0].write_offset, moves[0].byte_count), (48, 32, 48));
    assert_eq!((moves[1].read_offset, moves[1].write_offset, moves[1].byte_count), (96, 80, 48));
    assert_eq!((moves[2].read_offset, moves[2].write_offset, moves[2].byte_count), (144, 128, 16));
    assert!(compaction_moves(9, 10, 3).is_empty());
    assert!(compaction_moves(12, 10, 3).is_empty());
}

#[test]
fn memory_budget() {
    assert!(check_memory_budget(2, 10_000, 320_000).is_ok());
    match check_memory_budget(2, 10_000, 319_999) {
        Err(OrbyError::InsufficientMemory { requested_mb, available_mb }) => {
            assert_eq!(requested_mb, 0);
            assert_eq!(available_mb, 0);
        }
        other => panic!("unexpected {:?}", other),
    }
    match check_memory_budget(4, 1 << 20, 1 << 20) {
        Err(OrbyError::InsufficientMemory { requested_mb, available_mb }) => {
            assert_eq!(requested_mb, 64);
            assert_eq!(available_mb, 1);
        }
        other => panic!("unexpected {:?}", other),
    }
    match check_memory_budget(u64::MAX, u64::MAX, 0) {
        Err(OrbyError::InsufficientMemory { requested_mb, .. }) => assert_eq!(requested_mb, u64::MAX),
        other => panic!("unexpected {:?}", other),
    }
}

#[test]
fn truncate_log_record_has_no_rows() {
    let mut s = vault_store("trunc_log", 4, 1);
    let mut ch = PersistenceChanges::new();
    ring::truncate(&mut s, vec![vec![5], vec![6]], &mut ch).unwrap();
    let mut expected = vec![0x04, 0x01];
    expected.extend_from_slice(&5u128.to_le_bytes());
    expected.push(0x01);
    expected.extend_from_slice(&6u128.to_le_bytes());
    assert_eq!(ch.flatten(), expected);
    assert_eq!(s.len, 2);
}

#[test]
fn aof_replay_of_truncate_keeps_rows() {
    let mut live = vault_store("trunc_replay", 5, 2);
    let mut ch = PersistenceChanges::new();
    ring::insert_batch(&mut live, vec![vec![1, 1], vec![2, 2]], &mut ch).unwrap();
    ring::truncate(&mut live, vec![vec![5, 6]], &mut ch).unwrap();
    assert_eq!(live.len, 1);
    let recs = parse_aof(&ch.flatten(), 2).unwrap();
    let mut replayed = vault_store("trunc_replay", 5, 2);
    let mut sink = PersistenceChanges::new();
    for r in recs {
        replay_record(&mut replayed, r, &mut sink).unwrap();
    }
    assert_eq!(replayed.len, 1);
    assert_eq!(replayed.cursor, live.cursor);
    assert_eq!(scan::take(&replayed, 5), vec![vec![5, 6]]);
}

#[test]
fn aof_torn_tail_keeps_complete_records() {
    let mut live = vault_store("torn", 5, 2);
    let mut ch = PersistenceChanges::new();
    ring::insert_batch(&mut live, vec![vec![1, 1], vec![2, 2]], &mut ch).unwrap();
    let mut bytes = ch.flatten();
    bytes.truncate(bytes.len() - 5);
    let (recs, cut) = parse_aof_prefix(&bytes, 2);
    assert_eq!(recs.len(), 1);
    assert!(matches!(recs[0], AofRecord::Insert { ref row } if row == &vec![1, 1]));
    assert!(matches!(cut, Some(OrbyError::InvalidFormat(_))));
    assert!(parse_aof(&bytes, 2).is_err());
    let (all, none) = parse_aof_prefix(&ch.flatten(), 2);
    assert_eq!(all.len(), 2);
    assert!(none.is_none());
}

#[test]
fn replay_record_refusals() {
    let mut s = vault_store("refuse", 3, 2);
    let mut sink = PersistenceChanges::new();
    assert!(replay_record(&mut s, AofRecord::Insert { row: vec![1] }, &mut sink).is_err());
    assert!(replay_record(&mut s, AofRecord::LaneBatch { lane: 2, values: vec![1] }, &mut sink).is_err());
    assert!(replay_record(&mut s, AofRecord::LaneBatch { lane: 0, values: vec![1; 4] }, &mut sink).is_err());
    assert_eq!(s.len, 0);
    replay_record(&mut s, AofRecord::Insert { row: vec![4, 4] }, &mut sink).unwrap();
    replay_record(&mut s, AofRecord::Update { column: 0, id: 4, row: vec![4, 5] }, &mut sink).unwrap();
    assert_eq!(scan::take(&s, 3), vec![vec![4, 5]]);
    replay_record(&mut s, AofRecord::Purge { column: 1, id: 5 }, &mut sink).unwrap();
    assert_eq!(s.len, 0);
}
