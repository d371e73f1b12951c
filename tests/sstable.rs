use lsm_store::memtable::MemTable;
use lsm_store::sstable::{
    data_section, decode_record, finish_table, parse_footer, SSTable, FOOTER_SIZE, MAGIC_NUMBER,
};
use lsm_store::types::{Entry, StoreError};
use std::collections::BTreeMap;
use std::sync::Arc;

fn encode_entry(e: &Entry<String>) -> Vec<u8> {
    bincode::serialize(&(e.value.as_ref().map(|v| v.as_str()), e.is_tombstone)).unwrap()
}

fn decode_entry(bytes: &[u8]) -> (Option<String>, bool) {
    bincode::deserialize(bytes).unwrap()
}

fn write_table_with_handle(memtable: &MemTable<String, String>, name: &str) -> (Vec<u8>, SSTable<String>) {
    let items = memtable.iter();
    let payloads: Vec<Vec<u8>> = items.iter().map(|(_, e)| encode_entry(e)).collect();
    let (data, offsets) = data_section(&payloads);
    let data_end = data.len() as u64;
    let index: BTreeMap<String, u64> =
        items.iter().zip(offsets.iter()).map(|((k, _), o)| ((*k).clone(), *o)).collect();
    let index_bytes = bincode::serialize(&index).unwrap();
    let handle = SSTable::for_memtable(name.to_string(), memtable, &offsets, data_end);
    (finish_table(data, &index_bytes), handle)
}

fn write_table(memtable: &MemTable<String, String>) -> Vec<u8> {
    write_table_with_handle(memtable, "L0-00001.sst").0
}

fn open_table(name: &str, file: &[u8]) -> Result<SSTable<String>, StoreError> {
    let footer = parse_footer(file)?;
    let start = footer.index_offset as usize;
    let end = start + footer.index_size as usize;
    let index: BTreeMap<String, u64> =
        bincode::deserialize(&file[start..end]).map_err(|_| StoreError::CorruptSSTable)?;
    SSTable::from_index(name.to_string(), index.into_iter().collect(), footer.index_offset)
}

fn read_entry(table: &SSTable<String>, file: &[u8], key: &str) -> Option<(Option<String>, bool)> {
    let (start, end) = table.frame_span(&key.to_string())?;
    let payload = decode_record(&file[start as usize..end as usize]).unwrap();
    Some(decode_entry(&payload))
}

#[test]
fn write_and_open() {
    let mut memtable: MemTable<String, String> = MemTable::new();
    memtable.put("key1".to_string(), Arc::new("value1".to_string()));
    memtable.put("key2".to_string(), Arc::new("value2".to_string()));
    let (file, written) = write_table_with_handle(&memtable, "L0-00001.sst");
    assert_eq!(written.len(), 2);

    let sstable = open_table("L0-00001.sst", &file).expect("Failed to open SSTable");
    assert_eq!(sstable.len(), 2);
    assert!(sstable.offset_of(&"key1".to_string()).is_some());
    assert!(sstable.offset_of(&"key2".to_string()).is_some());
    assert_eq!(sstable.path(), "L0-00001.sst");
}

#[test]
fn get() {
    let mut memtable: MemTable<String, String> = MemTable::new();
    memtable.put("key1".to_string(), Arc::new("value1".to_string()));
    memtable.delete("key2".to_string());
    let (file, written) = write_table_with_handle(&memtable, "L0-00001.sst");
    assert_eq!(written.len(), 2);

    let sstable = open_table("L0-00001.sst", &file).expect("Failed to open SSTable");
    assert_eq!(sstable.len(), 2);

    let entry1 = read_entry(&sstable, &file, "key1").expect("k1 not found");
    assert_eq!(entry1.0.as_deref(), Some("value1"));
    assert!(!entry1.1);

    let entry2 = read_entry(&sstable, &file, "key2").expect("k2 not found");
    assert!(entry2.1);
    assert_eq!(entry2.0, None);

    let entry3 = read_entry(&sstable, &file, "key3");
    assert!(entry3.is_none());
}

#[test]
fn frame_offsets_follow_payload_lengths() {
    let payloads = vec![vec![1u8, 2, 3], vec![], vec![9u8; 10]];
    let (data, offsets) = data_section(&payloads);
    assert_eq!(offsets, vec![0, 15, 27]);
    assert_eq!(data.len(), 15 + 12 + 22);
    assert_eq!(&data[4..12], &3u64.to_le_bytes());
    assert_eq!(&data[12..15], &[1u8, 2, 3]);
}

#[test]
fn footer_layout() {
    let data = vec![7u8; 5];
    let file = finish_table(data, &[1, 2, 3]);
    assert_eq!(file.len(), 5 + 3 + FOOTER_SIZE);
    assert_eq!(&file[8..16], &5u64.to_le_bytes());
    assert_eq!(&file[16..24], &3u64.to_le_bytes());
    assert_eq!(&file[24..32], &0xDEADC0DEBEEFCAFEu64.to_le_bytes());
    assert_eq!(MAGIC_NUMBER, 0xDEADC0DEBEEFCAFE);
    let footer = parse_footer(&file).unwrap();
    assert_eq!(footer.index_offset, 5);
    assert_eq!(footer.index_size, 3);
}

#[test]
fn empty_memtable_flush_gives_valid_table() {
    let memtable: MemTable<String, String> = MemTable::new();
    let file = write_table(&memtable);
    let empty_index = bincode::serialize(&BTreeMap::<String, u64>::new()).unwrap();
    assert_eq!(file.len(), empty_index.len() + 24);
    let footer = parse_footer(&file).unwrap();
    assert_eq!(footer.index_offset, 0);
    assert_eq!(footer.index_size as usize, empty_index.len());
    let table = open_table("L0-1.sst", &file).unwrap();
    assert_eq!(table.len(), 0);
    assert!(table.frame_span(&"a".to_string()).is_none());
}

#[test]
fn short_file_is_refused() {
    assert_eq!(parse_footer(&[0u8; 23]), Err(StoreError::CorruptSSTable));
    assert_eq!(parse_footer(&[]), Err(StoreError::CorruptSSTable));
}

#[test]
fn wrong_magic_is_refused() {
    let mut file = finish_table(Vec::new(), &[]);
    assert!(parse_footer(&file).is_ok());
    file[23] ^= 1;
    assert_eq!(parse_footer(&file), Err(StoreError::CorruptSSTable));
}

#[test]
fn index_past_footer_is_refused() {
    let mut file = finish_table(vec![0u8; 4], &[5, 6]);
    // index size now reaches into the footer
    file[14] = 3;
    assert_eq!(parse_footer(&file), Err(StoreError::CorruptSSTable));
}

#[test]
fn unsorted_or_out_of_range_index_is_refused() {
    let unsorted = vec![("b".to_string(), 0u64), ("a".to_string(), 5u64)];
    assert!(matches!(SSTable::from_index("t".to_string(), unsorted, 100), Err(StoreError::CorruptSSTable)));
    let duplicate = vec![("a".to_string(), 0u64), ("a".to_string(), 5u64)];
    assert!(matches!(SSTable::from_index("t".to_string(), duplicate, 100), Err(StoreError::CorruptSSTable)));
    let past_end = vec![("a".to_string(), 0u64), ("b".to_string(), 100u64)];
    assert!(matches!(SSTable::from_index("t".to_string(), past_end, 100), Err(StoreError::CorruptSSTable)));
    let fine = vec![("a".to_string(), 0u64), ("b".to_string(), 99u64)];
    let table = SSTable::from_index("t".to_string(), fine, 100).unwrap();
    assert_eq!(table.offset_of(&"b".to_string()), Some(99));
    assert_eq!(table.frame_span(&"a".to_string()), Some((0, 100)));
}

#[test]
fn corrupted_record_is_refused() {
    let mut memtable: MemTable<String, String> = MemTable::new();
    memtable.put("key1".to_string(), Arc::new("value1".to_string()));
    let mut file = write_table(&memtable);
    let table = open_table("L0-1.sst", &file).unwrap();
    file[13] ^= 0xFF;
    let (start, end) = table.frame_span(&"key1".to_string()).unwrap();
    assert_eq!(decode_record(&file[start as usize..end as usize]), Err(StoreError::CorruptRecord));
}

#[test]
fn handle_built_from_memtable_matches_reopened_file() {
    let mut memtable: MemTable<String, String> = MemTable::new();
    memtable.put("b".to_string(), Arc::new("2".to_string()));
    memtable.put("a".to_string(), Arc::new("1".to_string()));
    memtable.delete("c".to_string());
    let items = memtable.iter();
    let payloads: Vec<Vec<u8>> = items.iter().map(|(_, e)| encode_entry(e)).collect();
    let (data, offsets) = data_section(&payloads);
    let built = SSTable::for_memtable("L0-1.sst".to_string(), &memtable, &offsets, data.len() as u64);
    let file = write_table(&memtable);
    let reopened = open_table("L0-1.sst", &file).unwrap();
    for k in ["a", "b", "c", "d"] {
        let key = k.to_string();
        assert_eq!(built.frame_span(&key), reopened.frame_span(&key));
    }
    assert_eq!(built.len(), 3);
    let entry = read_entry(&built, &file, "c").unwrap();
    assert!(entry.1 && entry.0.is_none());
}
