use std::collections::HashMap;

use flexi_engine::error::{InternalStorageError, RowSerializerError};
use flexi_engine::page::Page;
use flexi_engine::query::Condition;
use flexi_engine::row::StoredRow;
use flexi_engine::storage::{filter_rows, DeleteOutcome, Storage};
use flexi_engine::table::{key_type, TableMetaData};
use flexi_engine::value::Value;

type Disk = HashMap<usize, Vec<u8>>;

fn num(s: &str) -> Value {
    Value::value(s.to_string())
}

fn text(s: &str) -> Value {
    Value::String(s.to_string())
}

fn user(id: &str, name: &str) -> StoredRow {
    StoredRow::new(vec![("id".to_string(), num(id)), ("name".to_string(), text(name))])
}

fn users() -> Storage {
    let meta = TableMetaData::new("users".to_string(), "id".to_string(), key_type::Number);
    Storage::from_table_meta(meta, "users_storage.json".to_string())
}

fn write(s: &mut Storage, disk: &mut Disk, row: StoredRow) -> Result<(), InternalStorageError> {
    let pending = s.write(row)?;
    disk.insert(pending.page.page_number, pending.page.data.clone());
    s.finish_write(pending, true)
}

fn pages(disk: &Disk) -> Vec<Page> {
    let mut numbers: Vec<usize> = disk.keys().cloned().collect();
    numbers.sort();
    numbers.into_iter().map(|n| Page::new(n, disk[&n].clone())).collect()
}

fn read(s: &Storage, disk: &Disk, key: &Value) -> Result<StoredRow, InternalStorageError> {
    let n = s.page_of(key).unwrap_or(0);
    let data = disk.get(&n).cloned().unwrap_or_default();
    s.read(key, &Page::new(n, data))
}

fn condition(first: &str, token: &str, second: &str) -> Condition {
    Condition { first: first.to_string(), second: second.to_string(), token: token.to_string() }
}

fn apply(disk: &mut Disk, outcome: DeleteOutcome) {
    match outcome {
        DeleteOutcome::Compacted(Some(page)) => {
            disk.insert(page.page_number, page.data);
        }
        DeleteOutcome::Compacted(None) => {}
        DeleteOutcome::Cleared(numbers) => {
            for n in numbers {
                disk.remove(&n);
            }
        }
    }
}

#[test]
fn test_only_read() {
    let s = users();
    let data_rows = s.read_when(None, &vec![]);
    println!("read results : {:#?}", data_rows);
    assert!(data_rows.is_empty());
}

#[test]
fn write_then_read_gives_the_row() {
    let mut s = users();
    let mut disk = Disk::new();
    write(&mut s, &mut disk, user("1", "raja")).unwrap();
    let row = read(&s, &disk, &num("1")).unwrap();
    assert_eq!(row.row, user("1", "raja").row);
}

#[test]
fn read_works_from_a_zero_padded_page_buffer() {
    let mut s = users();
    let mut disk = Disk::new();
    write(&mut s, &mut disk, user("1", "raja")).unwrap();
    let mut buffer = disk[&1].clone();
    buffer.resize(4096, 0);
    let row = s.read(&num("1"), &Page::new(1, buffer)).unwrap();
    assert_eq!(row.row, user("1", "raja").row);
}

#[test]
fn writing_same_key_twice_keeps_one_entry_with_second_row() {
    let mut s = users();
    let mut disk = Disk::new();
    write(&mut s, &mut disk, user("1", "raja")).unwrap();
    write(&mut s, &mut disk, user("1", "ravi")).unwrap();
    assert_eq!(s.rows.len(), 1);
    let row = read(&s, &disk, &num("1")).unwrap();
    assert_eq!(row.row, user("1", "ravi").row);
}

#[test]
fn index_stays_in_key_order() {
    let mut s = users();
    let mut disk = Disk::new();
    write(&mut s, &mut disk, user("3", "c")).unwrap();
    write(&mut s, &mut disk, user("1", "a")).unwrap();
    write(&mut s, &mut disk, user("20", "d")).unwrap();
    write(&mut s, &mut disk, user("2", "b")).unwrap();
    let names: Vec<Value> = s.read_all(&pages(&disk)).iter().map(|r| r.get(&"name".to_string()).unwrap().duplicate()).collect();
    assert_eq!(names, vec![text("a"), text("b"), text("c"), text("d")]);
}

#[test]
fn write_without_primary_key_fails_and_changes_nothing() {
    let mut s = users();
    let row = StoredRow::new(vec![("name".to_string(), text("raja"))]);
    let r = s.write(row);
    assert!(matches!(r, Err(InternalStorageError::ErrPrimaryKeyNotFound(_))));
    assert!(s.rows.is_empty());
    assert!(s.pages.data.is_empty());
    assert_eq!(s.page_metadata.current_size, 0);
}

#[test]
fn read_of_absent_key_is_not_found() {
    let s = users();
    let disk = Disk::new();
    assert!(matches!(read(&s, &disk, &num("7")), Err(InternalStorageError::ErrInternal(_))));
}

#[test]
fn read_from_wrong_page_or_short_page_fails() {
    let mut s = users();
    let mut disk = Disk::new();
    write(&mut s, &mut disk, user("1", "raja")).unwrap();
    let wrong = s.read(&num("1"), &Page::new(2, disk[&1].clone()));
    assert!(matches!(wrong, Err(InternalStorageError::ErrReadFromDisk(_))));
    let short = s.read(&num("1"), &Page::new(1, vec![1, 0]));
    assert!(matches!(short, Err(InternalStorageError::ErrReadFromDisk(_))));
}

#[test]
fn read_of_corrupt_bytes_is_a_decode_error() {
    let mut s = users();
    let mut disk = Disk::new();
    write(&mut s, &mut disk, user("1", "raja")).unwrap();
    let garbage = vec![9u8; disk[&1].len()];
    let r = s.read(&num("1"), &Page::new(1, garbage));
    assert!(matches!(
        r,
        Err(InternalStorageError::SerializerError(RowSerializerError::ErrRowDeserialize(_)))
    ));
}

#[test]
fn delete_by_key_removes_visibility() {
    let mut s = users();
    let mut disk = Disk::new();
    write(&mut s, &mut disk, user("1", "raja")).unwrap();
    write(&mut s, &mut disk, user("2", "neha")).unwrap();
    write(&mut s, &mut disk, user("3", "amit")).unwrap();
    let outcome = s.delete(Some(condition("id", "=", "2")), &pages(&disk));
    apply(&mut disk, outcome);
    assert!(matches!(read(&s, &disk, &num("2")), Err(InternalStorageError::ErrInternal(_))));
    let all = s.read_all(&pages(&disk));
    assert_eq!(all.len(), 2);
    assert_eq!(all[0].row, user("1", "raja").row);
    assert_eq!(all[1].row, user("3", "amit").row);
    assert_eq!(s.page_metadata.current_size, s.pages.data.len());
}

#[test]
fn delete_compacts_rows_written_out_of_key_order() {
    let mut s = users();
    let mut disk = Disk::new();
    write(&mut s, &mut disk, user("5", "eve")).unwrap();
    write(&mut s, &mut disk, user("1", "ann")).unwrap();
    write(&mut s, &mut disk, user("3", "cat")).unwrap();
    let outcome = s.delete(Some(condition("name", "=", "eve")), &pages(&disk));
    apply(&mut disk, outcome);
    assert_eq!(read(&s, &disk, &num("1")).unwrap().row, user("1", "ann").row);
    assert_eq!(read(&s, &disk, &num("3")).unwrap().row, user("3", "cat").row);
}

#[test]
fn delete_all_empties_state() {
    let mut s = users();
    let mut disk = Disk::new();
    write(&mut s, &mut disk, user("1", "raja")).unwrap();
    write(&mut s, &mut disk, user("2", "neha")).unwrap();
    let outcome = s.delete(None, &pages(&disk));
    match &outcome {
        DeleteOutcome::Cleared(numbers) => assert_eq!(numbers, &vec![1]),
        _ => panic!("expected the pages to remove"),
    }
    apply(&mut disk, outcome);
    assert!(disk.is_empty());
    assert!(s.read_all(&pages(&disk)).is_empty());
    assert!(s.rows.is_empty());
    assert_eq!(s.pages.page_number, 1);
    assert_eq!(s.page_metadata.page_number, 1);
    assert_eq!(s.page_metadata.current_size, 0);
}

#[test]
fn oversized_row_goes_to_next_page_at_start() {
    let mut s = users();
    let mut disk = Disk::new();
    write(&mut s, &mut disk, user("1", "raja")).unwrap();
    let big = user("2", &"x".repeat(5000));
    let pending = s.write(big).unwrap();
    assert_eq!(pending.page.page_number, 2);
    assert_eq!(pending.start, 0);
    disk.insert(2, pending.page.data.clone());
    s.finish_write(pending, true).unwrap();
    let pending = s.write(user("3", "amit")).unwrap();
    assert_eq!(pending.page.page_number, 3);
    assert_eq!(pending.start, 0);
    disk.insert(3, pending.page.data.clone());
    s.finish_write(pending, true).unwrap();
    assert_eq!(read(&s, &disk, &num("1")).unwrap().row, user("1", "raja").row);
    assert_eq!(read(&s, &disk, &num("3")).unwrap().row, user("3", "amit").row);
    let outcome = s.delete(None, &pages(&disk));
    match outcome {
        DeleteOutcome::Cleared(numbers) => assert_eq!(numbers, vec![1, 2, 3]),
        _ => panic!("expected the pages to remove"),
    }
}

#[test]
fn failed_page_write_rolls_back() {
    let mut s = users();
    let mut disk = Disk::new();
    write(&mut s, &mut disk, user("1", "raja")).unwrap();
    let used = s.page_metadata.current_size;
    let pending = s.write(user("2", "neha")).unwrap();
    let r = s.finish_write(pending, false);
    assert!(matches!(r, Err(InternalStorageError::ErrWriteToDisk(_))));
    assert_eq!(s.page_of(&num("2")), None);
    assert_eq!(s.page_metadata.current_size, used);
    assert_eq!(s.pages.data.len(), used);
    write(&mut s, &mut disk, user("2", "neha")).unwrap();
    assert_eq!(read(&s, &disk, &num("2")).unwrap().row, user("2", "neha").row);
    assert_eq!(read(&s, &disk, &num("1")).unwrap().row, user("1", "raja").row);
}

#[test]
fn users_scenario() {
    let mut s = users();
    let mut disk = Disk::new();
    assert!(write(&mut s, &mut disk, user("1", "raja")).is_ok());
    assert!(write(&mut s, &mut disk, user("2", "neha")).is_ok());
    assert_eq!(read(&s, &disk, &num("1")).unwrap().row, user("1", "raja").row);
    let others = s.read_when(Some(condition("name", "!=", "raja")), &pages(&disk));
    assert_eq!(others.len(), 1);
    assert_eq!(others[0].row, user("2", "neha").row);
    let outcome = s.delete(Some(condition("name", "=", "raja")), &pages(&disk));
    apply(&mut disk, outcome);
    assert!(matches!(read(&s, &disk, &num("1")), Err(InternalStorageError::ErrInternal(_))));
    let all = s.read_all(&pages(&disk));
    assert_eq!(all.len(), 1);
    assert_eq!(all[0].row, user("2", "neha").row);
}

#[test]
fn filter_with_ordering_operator_selects_nothing() {
    let rows = vec![user("1", "raja"), user("2", "neha")];
    let out = filter_rows(&rows, &"id".to_string(), &"<".to_string(), &num("5"));
    assert!(out.is_empty());
}

#[test]
fn filter_skips_rows_without_the_column() {
    let rows = vec![user("1", "raja"), StoredRow::new(vec![("id".to_string(), num("2"))])];
    let out = filter_rows(&rows, &"name".to_string(), &"!=".to_string(), &text("raja"));
    assert!(out.is_empty());
    let out = filter_rows(&rows, &"id".to_string(), &"=".to_string(), &num("2.0"));
    assert_eq!(out.len(), 1);
    assert_eq!(out[0].row, rows[1].row);
}

#[test]
fn page_full_check_counts_active_page_bytes() {
    let mut s = users();
    assert!(!s.isPageFull(4096));
    assert!(s.isPageFull(4097));
    s.pages.data = vec![0; 4096];
    assert!(s.isPageFull(0));
}

#[test]
fn failed_write_after_rollover_restores_the_previous_page() {
    let mut s = users();
    let mut disk = Disk::new();
    write(&mut s, &mut disk, user("1", "raja")).unwrap();
    let used = s.page_metadata.current_size;
    let data_before = s.pages.data.clone();
    let pending = s.write(user("2", &"x".repeat(5000))).unwrap();
    assert_eq!(pending.page.page_number, 2);
    let r = s.finish_write(pending, false);
    assert!(matches!(r, Err(InternalStorageError::ErrWriteToDisk(_))));
    assert_eq!(s.pages.page_number, 1);
    assert_eq!(s.page_metadata.page_number, 1);
    assert_eq!(s.page_metadata.current_size, used);
    assert_eq!(s.pages.data, data_before);
    assert_eq!(s.page_of(&num("2")), None);
    let pending = s.write(user("2", "neha")).unwrap();
    assert_eq!(pending.page.page_number, 1);
    assert_eq!(pending.start, used);
    disk.insert(1, pending.page.data.clone());
    s.finish_write(pending, true).unwrap();
    assert_eq!(read(&s, &disk, &num("2")).unwrap().row, user("2", "neha").row);
}

#[test]
fn failed_overwrite_brings_back_the_previous_record() {
    let mut s = users();
    let mut disk = Disk::new();
    write(&mut s, &mut disk, user("1", "raja")).unwrap();
    let pending = s.write(user("1", "ravi")).unwrap();
    assert!(s.finish_write(pending, false).is_err());
    assert_eq!(s.rows.len(), 1);
    assert_eq!(read(&s, &disk, &num("1")).unwrap().row, user("1", "raja").row);
}

#[test]
fn storage_check_accepts_written_state_and_rejects_unsorted_index() {
    let mut s = users();
    let mut disk = Disk::new();
    write(&mut s, &mut disk, user("1", "raja")).unwrap();
    write(&mut s, &mut disk, user("2", "neha")).unwrap();
    assert!(s.check_wf());
    s.rows.swap(0, 1);
    assert!(!s.check_wf());
    s.rows.swap(0, 1);
    s.page_metadata.current_size += 1;
    assert!(!s.check_wf());
}

#[test]
fn row_validity_check() {
    assert!(user("1", "raja").is_valid());
    let bad = StoredRow { row: vec![("id".to_string(), num("1")), ("id".to_string(), num("2"))] };
    assert!(!bad.is_valid());
    let odd = StoredRow {
        row: vec![(
            "id".to_string(),
            Value::Number(flexi_engine::value::Decimal { negative: false, digits: vec![1, 0], exponent: 0 }),
        )],
    };
    assert!(!odd.is_valid());
}
