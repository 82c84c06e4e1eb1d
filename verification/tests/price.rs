use price_batch::price::{clean_price_text, price_from_field, Price};

#[test]
fn currency_text_is_cleaned_and_parsed() {
    assert_eq!(clean_price_text("$1,234.56"), "1234.56");
    let price = price_from_field("$1,234.56");
    assert_eq!(price.to_text(), "1234.56");
    assert_eq!(price.to_text().parse::<f64>().unwrap(), 1234.56);
}

#[test]
fn cleaning_keeps_digits_and_points_in_their_order() {
    assert_eq!(clean_price_text(""), "");
    assert_eq!(clean_price_text("USD"), "");
    assert_eq!(clean_price_text(" 19.99 "), "19.99");
    assert_eq!(clean_price_text("1.2.3"), "1.2.3");
    assert_eq!(clean_price_text("-5e3"), "53");
    assert_eq!(clean_price_text("€\u{a0}7,50"), "750");
    assert_eq!(clean_price_text("١٢٣"), "");
}

#[test]
fn field_without_a_number_is_zero() {
    assert_eq!(price_from_field(""), Price::zero());
    assert_eq!(price_from_field("n/a"), Price::zero());
    assert_eq!(price_from_field("$."), Price::zero());
    assert_eq!(price_from_field("1.2.3"), Price::zero());
    assert_eq!(Price::zero().to_text(), "0");
    assert_eq!(Price::zero().to_text().parse::<f32>().unwrap(), 0.0);
}

#[test]
fn parse_accepts_decimals_only() {
    assert_eq!(Price::parse("19.99").unwrap().to_text(), "19.99");
    assert_eq!(Price::parse("5.").unwrap().to_text(), "5");
    assert_eq!(Price::parse(".5").unwrap().to_text(), "0.5");
    assert_eq!(Price::parse("007").unwrap().to_text(), "7");
    assert_eq!(Price::parse("0").unwrap().to_text(), "0");
    assert_eq!(Price::parse("000").unwrap().to_text(), "0");
    assert_eq!(Price::parse("0.00").unwrap().to_text(), "0.00");
    assert_eq!(Price::parse("10.50").unwrap().to_text(), "10.50");
    assert!(Price::parse("").is_none());
    assert!(Price::parse(".").is_none());
    assert!(Price::parse("1.2.3").is_none());
    assert!(Price::parse("1..2").is_none());
    assert!(Price::parse("-1").is_none());
    assert!(Price::parse("+1").is_none());
    assert!(Price::parse("1e5").is_none());
    assert!(Price::parse(" 1").is_none());
    assert!(Price::parse("1,5").is_none());
    assert!(Price::parse("$1").is_none());
}

#[test]
fn parse_agrees_with_the_float_parser_on_cleaned_text() {
    for text in ["19.99", "5.", ".5", "007", "0", "1234.56", "", ".", "1.2.3", "..", "3.14159"] {
        let float = text.parse::<f32>().ok();
        let price = Price::parse(text);
        assert_eq!(float.is_some(), price.is_some(), "{:?}", text);
        if let (Some(float), Some(price)) = (float, price) {
            assert_eq!(price.to_text().parse::<f32>().unwrap(), float, "{:?}", text);
        }
    }
}

#[test]
fn discount_is_exact() {
    let list = Price::parse("19.99").unwrap();
    assert_eq!(list.discounted(50).to_text(), "9.9950");
    assert_eq!(list.discounted(40).to_text(), "11.9940");
    assert_eq!(list.discounted(45).to_text(), "10.9945");
    assert_eq!(list.discounted(60).to_text(), "7.9960");
    assert_eq!(list.discounted(0).to_text(), "19.9900");
    assert_eq!(list.discounted(100).to_text(), "0.0000");
    assert_eq!(Price::parse("999").unwrap().discounted(1).to_text(), "989.01");
    assert_eq!(Price::parse("0.01").unwrap().discounted(45).to_text(), "0.0055");
}

#[test]
fn discount_of_zero_is_zero() {
    assert_eq!(Price::zero().discounted(40).to_text(), "0.00");
    assert_eq!(Price::parse("0").unwrap().discounted(60).to_text(), "0.00");
    assert_eq!(Price::parse("0.00").unwrap().discounted(50).to_text(), "0.0000");
}

#[test]
fn discount_of_a_very_large_price_does_not_overflow() {
    let digits = "9".repeat(60);
    let list = Price::parse(&digits).unwrap();
    assert_eq!(list.to_text(), digits);
    let expected = format!("5{}.40", "9".repeat(59));
    assert_eq!(list.discounted(40).to_text(), expected);
    let long_fraction = format!("0.{}", "3".repeat(50));
    let sale = Price::parse(&long_fraction).unwrap().discounted(50);
    assert_eq!(sale.to_text(), format!("0.1{}50", "6".repeat(49)));
}

#[test]
fn clone_keeps_the_price() {
    let price = Price::parse("42.10").unwrap();
    assert_eq!(price.clone(), price);
    assert_eq!(price.clone().to_text(), "42.10");
}

#[test]
fn what_is_written_reads_back() {
    for text in ["19.99", "007.50", ".5", "5.", "0", "000", "0.000", "1234567890.0987654321"] {
        let price = Price::parse(text).unwrap();
        let written = price.to_text();
        let read = Price::parse(&written).unwrap();
        assert_eq!(read.to_text(), written, "{:?}", text);
        assert_eq!(read.discounted(45).to_text(), price.discounted(45).to_text(), "{:?}", text);
    }
    let sale = Price::parse("19.99").unwrap().discounted(50);
    assert_eq!(Price::parse(&sale.to_text()).unwrap().to_text(), "9.9950");
}
