use price_batch::loader::{
    load_records, records_from_table, Column, LoadError, CLASS_COLUMN, KEY_COLUMN, PRICE_COLUMN,
};
use price_batch::record::PriceRecord;

fn texts(fields: &[&str]) -> Vec<String> {
    fields.iter().map(|f| f.to_string()).collect()
}

fn summary(records: &[PriceRecord]) -> Vec<(String, String, String)> {
    records
        .iter()
        .map(|r| (r.key.clone(), r.list_price.to_text(), r.discount_class.clone()))
        .collect()
}

fn triple(key: &str, price: &str, class: &str) -> (String, String, String) {
    (key.to_string(), price.to_string(), class.to_string())
}

#[test]
fn column_names() {
    assert_eq!(KEY_COLUMN, "PRODALTKEY");
    assert_eq!(PRICE_COLUMN, " price1 ");
    assert_eq!(CLASS_COLUMN, "discount_code");
}

#[test]
fn loads_a_price_list() {
    let text = "PRODALTKEY, price1 ,discount_code\nABC123,$19.99,c\nXYZ,\"$1,234.56\",a\n";
    let records = load_records(text).unwrap();
    assert_eq!(
        summary(&records),
        vec![triple("ABC123", "19.99", "c"), triple("XYZ", "1234.56", "a")]
    );
    assert!(records.iter().all(|r| r.computed_price.is_none()));
}

#[test]
fn columns_are_found_by_name_wherever_they_stand() {
    let text = "note,discount_code,PRODALTKEY,other, price1 \nx,b,K1,y,7.5\n";
    let records = load_records(text).unwrap();
    assert_eq!(summary(&records), vec![triple("K1", "7.5", "b")]);
}

#[test]
fn rows_without_a_classifier_are_dropped() {
    let text = "PRODALTKEY, price1 ,discount_code\nK1,1.00,a\nK2,2.00,\nK3,3.00,d\n,4.00,\n";
    let records = load_records(text).unwrap();
    assert_eq!(summary(&records), vec![triple("K1", "1.00", "a"), triple("K3", "3.00", "d")]);
    assert!(records.iter().all(|r| !r.discount_class.is_empty()));
    assert!(records.iter().all(|r| !r.key.is_empty()));
}

#[test]
fn a_price_that_is_no_number_is_zero() {
    let text = "PRODALTKEY, price1 ,discount_code\nK1,,a\nK2,n/a,b\nK3,1.2.3,c\n";
    let records = load_records(text).unwrap();
    assert_eq!(
        summary(&records),
        vec![triple("K1", "0", "a"), triple("K2", "0", "b"), triple("K3", "0", "c")]
    );
}

#[test]
fn a_list_without_rows_is_empty() {
    assert!(load_records("").unwrap().is_empty());
    assert!(load_records("PRODALTKEY, price1 ,discount_code\n").unwrap().is_empty());
    assert!(load_records("some,other,header\n").unwrap().is_empty());
}

#[test]
fn a_missing_column_refuses_the_list() {
    assert_eq!(
        load_records("KEY, price1 ,discount_code\nK1,1,a\n"),
        Err(LoadError::MissingColumn(Column::Key))
    );
    assert_eq!(
        load_records("PRODALTKEY,price1,discount_code\nK1,1,a\n"),
        Err(LoadError::MissingColumn(Column::Price))
    );
    assert_eq!(
        load_records("PRODALTKEY, price1 ,code\nK1,1,a\n"),
        Err(LoadError::MissingColumn(Column::Class))
    );
    assert_eq!(load_records("a,b,c\n1,2,3\n"), Err(LoadError::MissingColumn(Column::Key)));
}

#[test]
fn a_column_named_twice_refuses_the_list() {
    assert_eq!(
        load_records("PRODALTKEY, price1 ,discount_code,PRODALTKEY\nK1,1,a,K2\n"),
        Err(LoadError::DuplicateColumn(Column::Key))
    );
    assert_eq!(
        load_records("PRODALTKEY, price1 , price1 ,discount_code\nK1,1,2,a\n"),
        Err(LoadError::DuplicateColumn(Column::Price))
    );
    assert_eq!(
        load_records("discount_code,PRODALTKEY, price1 ,discount_code\na,K1,1,b\n"),
        Err(LoadError::DuplicateColumn(Column::Class))
    );
}

#[test]
fn a_row_with_a_classifier_and_no_key_refuses_the_list() {
    let text = "PRODALTKEY, price1 ,discount_code\nK1,1,a\n,2,\n,3,b\nK4,4,c\n";
    assert_eq!(load_records(text), Err(LoadError::EmptyKey(2)));
}

#[test]
fn a_malformed_text_refuses_the_list() {
    let text = "PRODALTKEY, price1 ,discount_code\nK1,1,a\nK2,2\n";
    match load_records(text) {
        Err(LoadError::Malformed(words)) => assert!(!words.is_empty()),
        other => panic!("{:?}", other),
    }
}

#[test]
fn a_short_row_refuses_the_table() {
    let headers = texts(&["PRODALTKEY", " price1 ", "discount_code"]);
    let rows = vec![texts(&["K1", "1", "a"]), texts(&["K2", "2"]), texts(&["", "3", "c"])];
    assert_eq!(records_from_table(&headers, &rows), Err(LoadError::ShortRow(1)));
    let rows = vec![texts(&[])];
    assert_eq!(records_from_table(&headers, &rows), Err(LoadError::ShortRow(0)));
}

#[test]
fn a_table_is_loaded_row_by_row() {
    let headers = texts(&["discount_code", " price1 ", "PRODALTKEY"]);
    let rows = vec![texts(&["d", "USD 8", "K1"]), texts(&["", "9", "K2"]), texts(&["x", "", "K3"])];
    let records = records_from_table(&headers, &rows).unwrap();
    assert_eq!(summary(&records), vec![triple("K1", "8", "d"), triple("K3", "0", "x")]);
    assert_eq!(records_from_table(&texts(&[]), &Vec::new()), Ok(Vec::new()));
}

#[test]
fn the_first_fault_is_reported() {
    let headers = texts(&["PRODALTKEY", " price1 ", "discount_code"]);
    let rows = vec![texts(&["", "1", "a"]), texts(&["K2"])];
    assert_eq!(records_from_table(&headers, &rows), Err(LoadError::EmptyKey(0)));
    let rows = vec![texts(&["K1"]), texts(&["", "1", "a"])];
    assert_eq!(records_from_table(&headers, &rows), Err(LoadError::ShortRow(0)));
    let headers = texts(&["x", "x"]);
    assert_eq!(
        records_from_table(&headers, &rows),
        Err(LoadError::MissingColumn(Column::Key))
    );
}
