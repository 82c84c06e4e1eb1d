use price_batch::discount::calculate_prices;
use price_batch::price::Price;
use price_batch::record::PriceRecord;
use price_batch::statement::{
    Fragment, Statement, CASE_THEN, CASE_WHEN, KEY_SEPARATOR, UPDATE_CLASSES, UPDATE_CLOSE,
    UPDATE_HEAD, UPDATE_WHERE,
};

fn priced(key: &str, price: &str, class: &str) -> PriceRecord {
    let mut records =
        vec![PriceRecord::new(key.to_string(), Price::parse(price).unwrap(), class.to_string())];
    calculate_prices(&mut records);
    records.pop().unwrap()
}

fn unpriced(key: &str, price: &str, class: &str) -> PriceRecord {
    PriceRecord::new(key.to_string(), Price::parse(price).unwrap(), class.to_string())
}

fn sql(text: &str) -> Fragment {
    Fragment::Sql(text.to_string())
}

fn text(value: &str) -> Fragment {
    Fragment::BindText(value.to_string())
}

fn rendered(statement: &Statement) -> String {
    statement
        .fragments
        .iter()
        .map(|fragment| match fragment {
            Fragment::Sql(text) => text.as_str(),
            _ => "?",
        })
        .collect()
}

#[test]
fn the_fixed_text_of_the_statement() {
    assert_eq!(UPDATE_HEAD, "UPDATE `DQ8weMwxbW` SET mp = CASE prodaltkey ");
    assert_eq!(UPDATE_CLASSES, " END, discount_code = CASE prodaltkey ");
    assert_eq!(UPDATE_WHERE, " END WHERE prodaltkey IN (");
    assert_eq!(UPDATE_CLOSE, ")");
    assert_eq!(CASE_WHEN, " WHEN ");
    assert_eq!(CASE_THEN, " THEN ");
    assert_eq!(KEY_SEPARATOR, ", ");
}

#[test]
fn statement_of_one_row() {
    let batch = vec![priced("ABC123", "19.99", "c")];
    let statement = Statement::for_batch(&batch).unwrap();
    assert_eq!(statement.keys, vec!["ABC123".to_string()]);
    assert_eq!(
        statement.fragments,
        vec![
            sql("UPDATE `DQ8weMwxbW` SET mp = CASE prodaltkey "),
            sql(" WHEN "),
            text("ABC123"),
            sql(" THEN "),
            Fragment::BindPrice(Price::parse("19.99").unwrap().discounted(50)),
            sql(" END, discount_code = CASE prodaltkey "),
            sql(" WHEN "),
            text("ABC123"),
            sql(" THEN "),
            text("c"),
            sql(" END WHERE prodaltkey IN ("),
            text("ABC123"),
            sql(")"),
        ]
    );
    assert_eq!(
        rendered(&statement),
        "UPDATE `DQ8weMwxbW` SET mp = CASE prodaltkey  WHEN ? THEN ? END, \
         discount_code = CASE prodaltkey  WHEN ? THEN ? END WHERE prodaltkey IN (?)"
    );
}

#[test]
fn statement_of_three_rows() {
    let batch = vec![priced("K1", "1", "a"), priced("K2", "2", "b"), priced("K3", "3", "d")];
    let statement = Statement::for_batch(&batch).unwrap();
    assert_eq!(statement.keys, vec!["K1".to_string(), "K2".to_string(), "K3".to_string()]);
    assert_eq!(
        rendered(&statement),
        "UPDATE `DQ8weMwxbW` SET mp = CASE prodaltkey  WHEN ? THEN ? WHEN ? THEN ? WHEN ? THEN ? \
         END, discount_code = CASE prodaltkey  WHEN ? THEN ? WHEN ? THEN ? WHEN ? THEN ? \
         END WHERE prodaltkey IN (?, ?, ?)"
    );
    let binds: Vec<&Fragment> =
        statement.fragments.iter().filter(|f| !matches!(f, Fragment::Sql(_))).collect();
    let expected = vec![
        text("K1"),
        Fragment::BindPrice(Price::parse("1").unwrap().discounted(40)),
        text("K2"),
        Fragment::BindPrice(Price::parse("2").unwrap().discounted(45)),
        text("K3"),
        Fragment::BindPrice(Price::parse("3").unwrap().discounted(60)),
        text("K1"),
        text("a"),
        text("K2"),
        text("b"),
        text("K3"),
        text("d"),
        text("K1"),
        text("K2"),
        text("K3"),
    ];
    assert_eq!(binds, expected.iter().collect::<Vec<_>>());
}

#[test]
fn records_without_a_sale_price_are_passed_over() {
    let batch = vec![unpriced("K1", "1", "a"), priced("K2", "2", "b"), unpriced("K3", "3", "c")];
    let statement = Statement::for_batch(&batch).unwrap();
    assert_eq!(statement.keys, vec!["K2".to_string()]);
    assert_eq!(Some(statement), Statement::for_batch(&vec![priced("K2", "2", "b")]));
}

#[test]
fn a_batch_without_sale_prices_sends_nothing() {
    assert_eq!(Statement::for_batch(&Vec::new()), None);
    assert_eq!(Statement::for_batch(&vec![unpriced("K1", "1", "a")]), None);
    let batch = vec![unpriced("K1", "1", "a"), unpriced("K2", "2", "b")];
    assert_eq!(Statement::for_range(&batch, 0, 2), None);
}

#[test]
fn statement_of_a_range() {
    let records: Vec<PriceRecord> =
        (1..=5).map(|i| priced(&format!("K{}", i), "10", "a")).collect();
    let statement = Statement::for_range(&records, 2, 4).unwrap();
    assert_eq!(statement.keys, vec!["K3".to_string(), "K4".to_string()]);
    assert_eq!(Statement::for_range(&records, 3, 3), None);
    assert_eq!(Statement::for_range(&records, 5, 5), None);
    assert_eq!(Statement::for_range(&records, 0, 5), Statement::for_batch(&records));
}

#[test]
fn values_are_bound_and_never_written_into_the_text() {
    let batch = vec![priced("'; DROP TABLE x; --", "1", "\" OR 1=1"), priced("?", "2", ", ")];
    let statement = Statement::for_batch(&batch).unwrap();
    let fixed = [
        UPDATE_HEAD,
        UPDATE_CLASSES,
        UPDATE_WHERE,
        UPDATE_CLOSE,
        CASE_WHEN,
        CASE_THEN,
        KEY_SEPARATOR,
    ];
    for fragment in &statement.fragments {
        if let Fragment::Sql(text) = fragment {
            assert!(fixed.contains(&text.as_str()));
        }
    }
    assert_eq!(
        rendered(&statement),
        "UPDATE `DQ8weMwxbW` SET mp = CASE prodaltkey  WHEN ? THEN ? WHEN ? THEN ? END, \
         discount_code = CASE prodaltkey  WHEN ? THEN ? WHEN ? THEN ? END \
         WHERE prodaltkey IN (?, ?)"
    );
    assert!(statement.fragments.contains(&text("'; DROP TABLE x; --")));
    assert!(statement.fragments.contains(&text("\" OR 1=1")));
    let sale = Price::parse("2").unwrap().discounted(40);
    assert!(statement.fragments.contains(&Fragment::BindPrice(sale)));
}

#[test]
fn the_query_builder_writes_the_statement() {
    let batch = vec![priced("K1", "19.99", "c"), priced("K2", "5", "a")];
    let statement = Statement::for_batch(&batch).unwrap();
    let mut builder: sqlx::QueryBuilder<sqlx::MySql> = sqlx::QueryBuilder::new("");
    for fragment in &statement.fragments {
        match fragment {
            Fragment::Sql(text) => builder.push(text),
            Fragment::BindText(value) => builder.push_bind(value.clone()),
            Fragment::BindPrice(value) => {
                builder.push_bind(value.to_text().parse::<f32>().unwrap())
            }
        };
    }
    assert_eq!(
        builder.sql(),
        "UPDATE `DQ8weMwxbW` SET mp = CASE prodaltkey  WHEN ? THEN ? WHEN ? THEN ? END, \
         discount_code = CASE prodaltkey  WHEN ? THEN ? WHEN ? THEN ? END \
         WHERE prodaltkey IN (?, ?)"
    );
    assert_eq!(builder.sql(), rendered(&statement));
}
