use flexi_engine::codec::{decode, encode, RowSerializer};
use flexi_engine::error::RowSerializerError;
use flexi_engine::page::Page;
use flexi_engine::row::StoredRow;
use flexi_engine::table::PageData;
use flexi_engine::value::{Decimal, Value};

fn text(s: &str) -> Value {
    Value::String(s.to_string())
}

fn sample_row() -> StoredRow {
    StoredRow::new(vec![
        ("id".to_string(), Value::value("1".to_string())),
        ("name".to_string(), text("raja")),
        ("balance".to_string(), Value::value("-12.75".to_string())),
        ("city".to_string(), text("Zürich")),
    ])
}

#[test]
fn decode_of_encode_gives_the_row_back() {
    let row = sample_row();
    let bytes = encode(&row).unwrap();
    let back = decode(&bytes).unwrap();
    assert_eq!(back.row, row.row);
}

#[test]
fn empty_row_round_trips() {
    let row = StoredRow::new(vec![]);
    let bytes = encode(&row).unwrap();
    assert_eq!(bytes, vec![0, 0, 0, 0]);
    assert_eq!(decode(&bytes).unwrap().row.len(), 0);
}

#[test]
fn encoding_has_the_documented_layout() {
    let row = StoredRow::new(vec![("a".to_string(), text("b"))]);
    let bytes = encode(&row).unwrap();
    assert_eq!(bytes, vec![1, 0, 0, 0, 1, 0, 0, 0, b'a', 1, 1, 0, 0, 0, b'b']);
    let row = StoredRow::new(vec![(
        "n".to_string(),
        Value::Number(Decimal { negative: true, digits: vec![4, 2], exponent: -1 }),
    )]);
    let bytes = encode(&row).unwrap();
    assert_eq!(
        bytes,
        vec![1, 0, 0, 0, 1, 0, 0, 0, b'n', 0, 1, 255, 255, 255, 255, 255, 255, 255, 255, 2, 0, 0, 0, 4, 2]
    );
}

#[test]
fn decode_rejects_truncated_bytes() {
    let bytes = encode(&sample_row()).unwrap();
    let cut = &bytes[..bytes.len() - 1];
    assert!(matches!(decode(cut), Err(RowSerializerError::ErrRowDeserialize(_))));
    assert!(matches!(decode(&[1, 0]), Err(RowSerializerError::ErrRowDeserialize(_))));
}

#[test]
fn decode_rejects_trailing_bytes() {
    let mut bytes = encode(&sample_row()).unwrap();
    bytes.push(0);
    assert!(matches!(decode(&bytes), Err(RowSerializerError::ErrRowDeserialize(_))));
}

#[test]
fn decode_rejects_repeated_column() {
    let bytes = vec![2, 0, 0, 0, 1, 0, 0, 0, b'a', 1, 0, 0, 0, 0, 1, 0, 0, 0, b'a', 1, 0, 0, 0, 0];
    assert!(matches!(decode(&bytes), Err(RowSerializerError::ErrRowDeserialize(_))));
}

#[test]
fn decode_rejects_non_canonical_number() {
    // digits 1, 0: a trailing zero is not canonical
    let bytes = vec![1, 0, 0, 0, 1, 0, 0, 0, b'n', 0, 0, 0, 0, 0, 0, 0, 0, 0, 0, 2, 0, 0, 0, 1, 0];
    assert!(matches!(decode(&bytes), Err(RowSerializerError::ErrRowDeserialize(_))));
}

#[test]
fn decode_rejects_invalid_utf8() {
    let bytes = vec![1, 0, 0, 0, 1, 0, 0, 0, 0xff, 1, 0, 0, 0, 0];
    assert!(matches!(decode(&bytes), Err(RowSerializerError::ErrRowDeserialize(_))));
}

#[test]
fn row_insert_replaces_existing_column() {
    let mut row = StoredRow::new(vec![("id".to_string(), text("x")), ("id".to_string(), text("y"))]);
    assert_eq!(row.row.len(), 1);
    assert_eq!(row.get(&"id".to_string()), Some(&text("y")));
    row.insert("name".to_string(), text("z"));
    assert_eq!(row.row.len(), 2);
    assert_eq!(row.get(&"missing".to_string()), None);
}

#[test]
fn allocator_places_rows_one_after_another() {
    let mut p = PageData::default(1);
    assert_eq!(p.getChunkData(10), (1, vec![0, 9]));
    assert_eq!(p.getChunkData(5), (1, vec![10, 14]));
    assert_eq!(p.current_size, 15);
    p.rollBackCurrentSize(5);
    assert_eq!(p.current_size, 10);
}

#[test]
fn allocator_rolls_over_to_next_page_at_start() {
    let mut p = PageData { page_number: 1, current_size: 4090, max_size: 4096 };
    assert!(!p.isFull(6));
    assert!(p.isFull(7));
    let (page, range) = p.getChunkData(7);
    assert_eq!(page, 2);
    assert_eq!(range, vec![0, 6]);
    assert_eq!(p.current_size, 7);
    assert_eq!(p.page_number, 2);
}

#[test]
fn page_deletes_inclusive_range() {
    let mut page = Page::new(1, vec![1, 2, 3, 4, 5, 6]);
    page.delete_chunks(1, 3);
    assert_eq!(page.data, vec![1, 5, 6]);
    let copy = page.delete_chunks(2, 10);
    assert_eq!(page.data, vec![1, 5]);
    assert_eq!(copy.data, vec![1, 5]);
    assert_eq!(copy.page_number, 1);
    page.delete_chunks(1, 0);
    assert_eq!(page.data, vec![1, 5]);
}

#[test]
fn page_reads_inclusive_range() {
    let mut page = Page::default(3);
    page.append_chunks(vec![7, 8, 9], vec![0, 2]);
    assert_eq!(page.read_chunks(1, 2), Some(vec![8, 9]));
    assert_eq!(page.read_chunks(1, 3), None);
    assert_eq!(page.page_number, 3);
}

#[test]
fn row_serializer_round_trips_through_chunks() {
    let row = sample_row();
    let chunk = RowSerializer::to_bytes(&row).unwrap();
    assert_eq!(chunk.size, chunk.data.len());
    let back = <StoredRow as RowSerializer>::from_bytes(&chunk.data).unwrap();
    assert_eq!(back.row, row.row);
    assert!(matches!(
        <StoredRow as RowSerializer>::from_bytes(&chunk.data[1..]),
        Err(RowSerializerError::ErrRowDeserialize(_))
    ));
}

#[test]
fn rows_with_the_same_mapping_encode_the_same() {
    let ab = StoredRow::new(vec![("a".to_string(), text("x")), ("b".to_string(), text("y"))]);
    let ba = StoredRow::new(vec![("b".to_string(), text("y")), ("a".to_string(), text("x"))]);
    assert_eq!(ab.row, ba.row);
    let c1 = ab.to_bytes().unwrap();
    let c2 = ba.to_bytes().unwrap();
    assert_eq!(c1.data, c2.data);
    assert_eq!(c1.size, c2.size);
}

#[test]
fn fields_are_kept_in_name_order() {
    let mut row = StoredRow::new(vec![("name".to_string(), text("raja")), ("id".to_string(), text("1"))]);
    row.insert("city".to_string(), text("pune"));
    let names: Vec<String> = row.row.iter().map(|f| f.0.clone()).collect();
    assert_eq!(names, vec!["city".to_string(), "id".to_string(), "name".to_string()]);
    assert!(row.is_valid());
    let unsorted = StoredRow { row: vec![("b".to_string(), text("y")), ("a".to_string(), text("x"))] };
    assert!(!unsorted.is_valid());
}

#[test]
fn decode_rejects_fields_out_of_name_order() {
    let bytes = vec![2, 0, 0, 0, 1, 0, 0, 0, b'b', 1, 0, 0, 0, 0, 1, 0, 0, 0, b'a', 1, 0, 0, 0, 0];
    assert!(matches!(decode(&bytes), Err(RowSerializerError::ErrRowDeserialize(_))));
    let sorted = vec![2, 0, 0, 0, 1, 0, 0, 0, b'a', 1, 0, 0, 0, 0, 1, 0, 0, 0, b'b', 1, 0, 0, 0, 0];
    assert!(decode(&sorted).is_ok());
}
