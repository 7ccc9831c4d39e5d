use colstore::{Column, ColumnBuilder};

fn le_bytes(values: &[i32]) -> Vec<u8> {
    values.iter().flat_map(|x| x.to_le_bytes()).collect()
}

fn build(name: &str, bytes: Vec<u8>) -> Column {
    ColumnBuilder::new(name.to_string(), bytes).build().unwrap()
}

#[test]
fn test_column_creation() {
    let test_data = vec![10i32, 20, 30];
    let bytes = le_bytes(&test_data);

    let mut builder = ColumnBuilder::new("test_col".to_string(), bytes.clone());
    assert!(!builder.is_compressed);

    builder.compress().unwrap();
    assert!(builder.is_compressed);

    let column = builder.build().unwrap();
    assert_eq!(column.name, "test_col");
    assert_eq!(column.min, 10);
    assert_eq!(column.max, 30);
}

#[test]
fn test_value_access() {
    let data = vec![100i32, 200, 300];
    let column = build("test", le_bytes(&data));

    assert_eq!(column.get_value(0), Some(100));
    assert_eq!(column.get_value(2), Some(300));
    assert_eq!(column.get_value(3), None); // out of range
}

#[test]
fn round_trip_uncompressed() {
    let bytes = le_bytes(&[1i32, -2, 3, -4]);
    let column = build("rt", bytes.clone());
    assert!(!column.is_compressed);
    assert_eq!(column.decompress_parallel().unwrap(), bytes);
}

#[test]
fn round_trip_compressed() {
    let mut values = Vec::new();
    for i in 0..4096i32 {
        values.push(i % 17);
    }
    let bytes = le_bytes(&values);
    let mut builder = ColumnBuilder::new("rtc".to_string(), bytes.clone());
    builder.compress().unwrap();
    let column = builder.build().unwrap();
    assert!(column.is_compressed);
    // The stored image is the compressed stream, not the raw bytes.
    assert_ne!(column.bytes, bytes);
    assert_eq!(column.decompress_parallel().unwrap(), bytes);
}

#[test]
fn compress_twice_is_a_no_op() {
    let bytes = le_bytes(&[5i32; 64]);
    let mut builder = ColumnBuilder::new("idem".to_string(), bytes);
    builder.compress().unwrap();
    let once = builder.data.clone();
    builder.compress().unwrap();
    assert_eq!(builder.data, once);
    assert!(builder.is_compressed);
}

#[test]
fn min_max_with_negative_values() {
    let column = build("neg", le_bytes(&[-5i32, 7, 0]));
    assert_eq!(column.min, -5);
    assert_eq!(column.max, 7);
}

#[test]
fn empty_buffer_keeps_sentinel_stats() {
    let column = build("empty", Vec::new());
    assert_eq!(column.min, i32::MAX);
    assert_eq!(column.max, i32::MIN);
    assert_eq!(column.get_value(0), None);
    assert_eq!(column.decompress_parallel().unwrap(), Vec::<u8>::new());
}

#[test]
fn trailing_bytes_are_ignored() {
    let mut bytes = le_bytes(&[42i32]);
    bytes.extend_from_slice(&[1, 2, 3]); // incomplete trailing element
    let column = build("trail", bytes);
    assert_eq!(column.min, 42);
    assert_eq!(column.max, 42);
    assert_eq!(column.get_value(0), Some(42));
    assert_eq!(column.get_value(1), None);
}

#[test]
fn membership_filter_reports_stored_values() {
    let column = build("bloom", le_bytes(&[10i32, 20, 30]));
    assert!(column.may_contain(10));
    assert!(column.may_contain(20));
    assert!(column.may_contain(30));
}
