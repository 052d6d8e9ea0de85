use value_table::table::{Address, TableId, ValueTable};
use value_table::wal::{LogReader, LogWriter};

fn fresh_table(entry_size: u16, multipart: bool) -> ValueTable {
    ValueTable {
        id: TableId::new(0, 0),
        entry_size,
        multipart,
        file: vec![0u8; entry_size as usize],
        capacity: 1,
        filled: 1,
        last_removed: 0,
    }
}

#[test]
fn table_id_packs_column_and_tier() {
    let id = TableId::new(3, 5);
    assert_eq!(id.col(), 3);
    assert_eq!(id.size_tier(), 5);
    assert_eq!(id.as_u16(), 0x0305);
    assert_eq!(TableId::from_u16(0x0305), id);
}

#[test]
fn table_file_names() {
    assert_eq!(TableId::new(3, 5).file_name(), "table_03_5");
    assert_eq!(TableId::new(12, 250).file_name(), "table_12_250");
    assert_eq!(TableId::new(0, 0).file_name(), "table_00_0");
}

#[test]
fn address_packs_offset_and_tier() {
    let a = Address::new(77, 9);
    assert_eq!(a.offset(), 77);
    assert_eq!(a.size_tier(), 9);
    assert_eq!(Address::from_u64(a.as_u64()), a);
}

#[test]
fn value_size_leaves_room_for_key() {
    let t = fresh_table(64, true);
    assert_eq!(t.value_size(), 32);
}

#[test]
fn insert_short_value() {
    // S1: one single entry, head slot 1.
    let mut t = fresh_table(64, true);
    let mut log = LogWriter::new();
    let key = [0x01u8; 32];
    let value = vec![0xaau8; 10];
    let head = t.write_insert_plan(&key, &value, &mut log).unwrap();
    assert_eq!(head, 1);
    assert_eq!(t.filled, 2);
    assert_eq!(t.last_removed, 0);
    assert_eq!(t.get(&key, 1, &log.overlay).unwrap(), Some(value));
}

#[test]
fn insert_spanning_three_slots() {
    // S2: 130 payload bytes over slots 1, 2, 3.
    let mut t = fresh_table(64, true);
    let mut log = LogWriter::new();
    let key = [0x01u8; 32];
    let value = vec![0x42u8; 100];
    let head = t.write_insert_plan(&key, &value, &mut log).unwrap();
    assert_eq!(head, 1);
    assert_eq!(t.filled, 4);
    let first = &log.overlay.records[0];
    assert_eq!(first.slot, 1);
    assert_eq!(&first.bytes[0..2], &[0xff, 0xfe]);
    assert_eq!(&first.bytes[2..10], &2u64.to_le_bytes());
    assert_eq!(first.bytes.len(), 64);
    assert_eq!(t.get(&key, 1, &log.overlay).unwrap(), Some(value));
}

#[test]
fn remove_then_reuse() {
    // S3: removing the chain frees slots 1, 2, 3 in LIFO order.
    let mut t = fresh_table(64, true);
    let mut log = LogWriter::new();
    let key = [0x01u8; 32];
    let value = vec![0x42u8; 100];
    t.write_insert_plan(&key, &value, &mut log).unwrap();
    t.write_remove_plan(1, &mut log).unwrap();
    assert_eq!(t.last_removed, 3);
    assert_eq!(t.get(&key, 1, &log.overlay).unwrap(), None);
    let head = t.write_insert_plan(&key, &vec![0xbbu8; 10], &mut log).unwrap();
    assert_eq!(head, 3);
    assert_eq!(t.last_removed, 2);
    assert_eq!(t.get(&key, 3, &log.overlay).unwrap(), Some(vec![0xbbu8; 10]));
}

#[test]
fn replace_shrinking() {
    // S4: slot 1 becomes a single entry; slots 2 and 3 are freed.
    let mut t = fresh_table(64, true);
    let mut log = LogWriter::new();
    let key = [0x01u8; 32];
    t.write_insert_plan(&key, &vec![0x42u8; 100], &mut log).unwrap();
    t.write_replace_plan(1, &key, &vec![0x55u8; 10], &mut log).unwrap();
    assert_eq!(t.last_removed, 3);
    assert_eq!(t.get(&key, 1, &log.overlay).unwrap(), Some(vec![0x55u8; 10]));
    let last = log.overlay.records.last().unwrap();
    assert_eq!(&last.bytes[0..2], &[0xff, 0xff]);
}

#[test]
fn replace_growing() {
    // S5: slot 1 converts to a multipart entry pointing at a fresh slot.
    let mut t = fresh_table(64, true);
    let mut log = LogWriter::new();
    let key = [0x01u8; 32];
    t.write_insert_plan(&key, &vec![0xaau8; 10], &mut log).unwrap();
    assert_eq!(t.filled, 2);
    t.write_replace_plan(1, &key, &vec![0x77u8; 100], &mut log).unwrap();
    assert_eq!(t.filled, 4);
    let head_rec = log
        .overlay
        .records
        .iter()
        .rev()
        .find(|r| r.slot == 1)
        .unwrap();
    assert_eq!(&head_rec.bytes[0..2], &[0xff, 0xfe]);
    assert_eq!(&head_rec.bytes[2..10], &2u64.to_le_bytes());
    assert_eq!(t.get(&key, 1, &log.overlay).unwrap(), Some(vec![0x77u8; 100]));
}

#[test]
fn key_mismatch_reads_none() {
    // S6: a differing stored suffix is treated as not-found.
    let mut t = fresh_table(64, true);
    let mut log = LogWriter::new();
    let k1 = [0x01u8; 32];
    let mut k2 = [0x01u8; 32];
    k2[7] = 0x99;
    t.write_insert_plan(&k1, &vec![0xaau8; 10], &mut log).unwrap();
    assert_eq!(t.get(&k2, 1, &log.overlay).unwrap(), None);
    assert_eq!(t.get(&k1, 1, &log.overlay).unwrap(), Some(vec![0xaau8; 10]));
}

#[test]
fn partial_key_probe() {
    let mut t = fresh_table(64, true);
    let mut log = LogWriter::new();
    let mut key = [0u8; 32];
    for (i, b) in key.iter_mut().enumerate() {
        *b = i as u8;
    }
    t.write_insert_plan(&key, &vec![0xaau8; 10], &mut log).unwrap();
    let probed = t.partial_key_at(1, &log).unwrap().unwrap();
    assert_eq!(&probed[0..2], &[0, 0]);
    assert_eq!(&probed[2..32], &key[2..32]);
    assert!(t.has_key_at(1, &key, &log).unwrap());
    let mut other = key;
    other[20] = 0xee;
    assert!(!t.has_key_at(1, &other, &log).unwrap());
    t.write_remove_plan(1, &mut log).unwrap();
    assert_eq!(t.partial_key_at(1, &log).unwrap(), None);
}

#[test]
fn enact_and_complete_round_trip() {
    // Replaying every staged record and flushing the header yields a file
    // that reads back the same value and the same counters.
    let mut t = fresh_table(64, true);
    let mut log = LogWriter::new();
    let key = [0x01u8; 32];
    let value = vec![0x42u8; 100];
    t.write_insert_plan(&key, &value, &mut log).unwrap();
    for rec in &log.overlay.records {
        let mut reader = LogReader::new(rec.bytes.clone());
        t.enact_plan(rec.slot, &mut reader).unwrap();
        assert_eq!(reader.pos, rec.bytes.len());
    }
    t.complete_plan().unwrap();
    let reopened = ValueTable::open(t.id, None, t.file.clone());
    assert_eq!(reopened.last_removed, t.last_removed);
    assert_eq!(reopened.filled, t.filled);
    // With the log truncated away entirely, the enacted file alone serves
    // the read (the multipart table reopens with entry size 4096, so read
    // through the original table instead).
    let empty = LogWriter::new();
    assert_eq!(t.get(&key, 1, &empty.overlay).unwrap(), Some(value));
}

#[test]
fn enact_prefix_of_wal_keeps_file_consistent() {
    // Replaying only a prefix of the records leaves the untouched slots
    // exactly as they were.
    let mut t = fresh_table(64, true);
    let mut log = LogWriter::new();
    let key = [0x01u8; 32];
    t.write_insert_plan(&key, &vec![0x42u8; 100], &mut log).unwrap();
    let before = t.file.clone();
    let rec = &log.overlay.records[0];
    let mut reader = LogReader::new(rec.bytes.clone());
    t.enact_plan(rec.slot, &mut reader).unwrap();
    for slot in 2..t.capacity {
        let off = slot as usize * 64;
        let old_slot: &[u8] = if off < before.len() { &before[off..off + 64] } else { &[0u8; 64] };
        assert_eq!(&t.file[off..off + 64], old_slot);
    }
}

#[test]
fn single_mode_insert_and_get() {
    let mut t = fresh_table(128, false);
    let mut log = LogWriter::new();
    let key = [0x09u8; 32];
    let value = vec![0x33u8; 90];
    let head = t.write_insert_plan(&key, &value, &mut log).unwrap();
    assert_eq!(head, 1);
    assert_eq!(t.get(&key, 1, &log.overlay).unwrap(), Some(value));
}

#[test]
fn open_empty_store_preallocates_header() {
    let t = ValueTable::open(TableId::new(1, 2), Some(64), vec![]);
    assert_eq!(t.entry_size, 64);
    assert!(!t.multipart);
    assert_eq!(t.capacity, 1);
    assert_eq!(t.filled, 1);
    assert_eq!(t.last_removed, 0);
    assert_eq!(t.file.len(), 64);
}

#[test]
fn reader_fails_cleanly_at_end_of_stream() {
    let mut r = LogReader::new(vec![1, 2, 3]);
    assert_eq!(r.read(2).unwrap(), vec![1, 2]);
    assert!(r.read(2).is_err());
    assert_eq!(r.pos, 2);
    assert_eq!(r.read(1).unwrap(), vec![3]);
}
