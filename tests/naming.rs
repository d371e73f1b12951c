use lsm_store::naming::{level_of_file_name, retry_stamp, table_file_name};

#[test]
fn table_name_layout() {
    assert_eq!(table_file_name(0, 42), b"L0-00000000000000000042.sst".to_vec());
    assert_eq!(table_file_name(12, 0), b"L12-00000000000000000000.sst".to_vec());
    assert_eq!(
        table_file_name(3, u64::MAX),
        b"L3-18446744073709551615.sst".to_vec()
    );
}

#[test]
fn names_sort_as_stamps() {
    let a = table_file_name(0, 9);
    let b = table_file_name(0, 10);
    let c = table_file_name(0, 1_700_000_000_000_000_000);
    assert!(a < b && b < c);
}

#[test]
fn level_is_read_back_from_name() {
    assert_eq!(level_of_file_name(&table_file_name(0, 5)), Some(0));
    assert_eq!(level_of_file_name(&table_file_name(7, 5)), Some(7));
    assert_eq!(level_of_file_name(b"L3-anything.sst"), Some(3));
    assert_eq!(level_of_file_name(b"L007-x.sst"), Some(7));
}

#[test]
fn other_names_are_skipped() {
    assert_eq!(level_of_file_name(b"wal.log"), None);
    assert_eq!(level_of_file_name(b"L0-1.txt"), None);
    assert_eq!(level_of_file_name(b"L-1.sst"), None);
    assert_eq!(level_of_file_name(b"Lx-1.sst"), None);
    assert_eq!(level_of_file_name(b"X0-1.sst"), None);
    assert_eq!(level_of_file_name(b"L0.sst"), None);
    assert_eq!(level_of_file_name(b"L0-.sst"), Some(0));
    assert_eq!(level_of_file_name(b".sst"), None);
    assert_eq!(level_of_file_name(b"L99999999999999999999999-1.sst"), None);
}

#[test]
fn retry_takes_a_later_stamp() {
    assert_eq!(retry_stamp(5, 5), Some(6));
    assert_eq!(retry_stamp(5, 3), Some(6));
    assert_eq!(retry_stamp(5, 9), Some(9));
    assert_eq!(retry_stamp(u64::MAX, 1), None);
}
