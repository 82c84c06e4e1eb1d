use price_batch::discount::{calculate_price, calculate_prices, rate_percent, DEFAULT_RATE_PERCENT};
use price_batch::price::Price;
use price_batch::record::PriceRecord;

fn record(key: &str, price: &str, class: &str) -> PriceRecord {
    PriceRecord::new(key.to_string(), Price::parse(price).unwrap(), class.to_string())
}

#[test]
fn rate_table() {
    assert_eq!(rate_percent("a"), 40);
    assert_eq!(rate_percent("b"), 45);
    assert_eq!(rate_percent("c"), 50);
    assert_eq!(rate_percent("d"), 60);
}

#[test]
fn unknown_classifier_gets_the_default_rate() {
    assert_eq!(DEFAULT_RATE_PERCENT, 40);
    for code in ["e", "z", "A", "B", "C", "D", "ab", "aa", "dd", " a", "a ", "1", "é", ""] {
        assert_eq!(rate_percent(code), 40, "{:?}", code);
    }
}

#[test]
fn rates_as_fractions() {
    let rates: Vec<f64> = ["a", "b", "c", "d", "x"]
        .iter()
        .map(|code| f64::from(rate_percent(code)) / 100.0)
        .collect();
    assert_eq!(rates, vec![0.40, 0.45, 0.50, 0.60, 0.40]);
}

#[test]
fn calculation_sets_the_sale_price_and_nothing_else() {
    let mut item = record("ABC123", "19.99", "c");
    assert!(item.computed_price.is_none());
    calculate_price(&mut item);
    assert_eq!(item.key, "ABC123");
    assert_eq!(item.list_price.to_text(), "19.99");
    assert_eq!(item.discount_class, "c");
    assert_eq!(item.computed_price.as_ref().unwrap().to_text(), "9.9950");
}

#[test]
fn calculation_follows_the_formula_for_every_record() {
    let mut records = vec![
        record("K1", "10.00", "a"),
        record("K2", "10.00", "b"),
        record("K3", "10.00", "c"),
        record("K4", "10.00", "d"),
        record("K5", "10.00", "q"),
        record("K6", "0", "d"),
    ];
    calculate_prices(&mut records);
    let sale: Vec<String> =
        records.iter().map(|r| r.computed_price.as_ref().unwrap().to_text()).collect();
    assert_eq!(sale, vec!["6.0000", "5.5000", "5.0000", "4.0000", "6.0000", "0.00"]);
    for item in &records {
        let list: f64 = item.list_price.to_text().parse().unwrap();
        let rate = f64::from(rate_percent(&item.discount_class)) / 100.0;
        let sale: f64 = item.computed_price.as_ref().unwrap().to_text().parse().unwrap();
        assert!((sale - list * (1.0 - rate)).abs() < 1e-9);
    }
}

#[test]
fn calculation_of_an_empty_list() {
    let mut records: Vec<PriceRecord> = Vec::new();
    calculate_prices(&mut records);
    assert!(records.is_empty());
}

#[test]
fn calculating_twice_changes_nothing() {
    let mut once = vec![record("K1", "19.99", "c"), record("K2", "5", "zz")];
    calculate_prices(&mut once);
    let mut twice = vec![record("K1", "19.99", "c"), record("K2", "5", "zz")];
    calculate_prices(&mut twice);
    calculate_prices(&mut twice);
    assert_eq!(once, twice);
}

#[test]
fn calculation_replaces_a_stale_sale_price() {
    let mut item = record("K1", "8.00", "d");
    item.computed_price = Some(Price::parse("123").unwrap());
    calculate_price(&mut item);
    assert_eq!(item.computed_price.unwrap().to_text(), "3.2000");
}
