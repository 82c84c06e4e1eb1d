//! Loading a price list: from delimited text to records.
//!
//! The text is split into rows and fields by the `csv` crate.  What the
//! fields mean is decided here: which column holds what, which rows are
//! kept, and when a price list is refused.

use vstd::prelude::*;
use crate::price::{lemma_price_of_field_wf, price_from_field, price_of_field};
use crate::record::{views, PriceRecord, RecordView};
use crate::text::{table_views, text_views};

verus! {

/// The name of the column that holds the key.
pub const KEY_COLUMN: &'static str = "PRODALTKEY";

/// The name of the column that holds the list price.  The blanks belong to
/// the name as the price lists write it.
pub const PRICE_COLUMN: &'static str = " price1 ";

/// The name of the column that holds the discount classifier.
pub const CLASS_COLUMN: &'static str = "discount_code";

/// One of the columns that a price list must have.
#[derive(Clone, Copy, Debug, PartialEq, Eq, Structural)]
pub enum Column {
    Key,
    Price,
    Class,
}

impl Column {
    /// The name of the column in the header row.
    pub open spec fn name(self) -> Seq<char> {
        match self {
            Column::Key => KEY_COLUMN@,
            Column::Price => PRICE_COLUMN@,
            Column::Class => CLASS_COLUMN@,
        }
    }
}

/// Why a price list was refused.
#[derive(Debug, PartialEq, Eq)]
pub enum LoadError {
    /// The text is no table: the `csv` crate could not split it.  What it
    /// said of it is kept.
    Malformed(String),
    /// No column of the header row has the name of this one.
    MissingColumn(Column),
    /// More than one column of the header row has the name of this one.
    DuplicateColumn(Column),
    /// The row, counted from zero after the header row, is too short to
    /// have all three columns.
    ShortRow(usize),
    /// The row, counted from zero after the header row, has a classifier
    /// but no key.
    EmptyKey(usize),
}

/// What a [`LoadError`] says, but for the words of a malformed text.
pub enum Refusal {
    Malformed,
    MissingColumn(Column),
    DuplicateColumn(Column),
    ShortRow(nat),
    EmptyKey(nat),
}

impl View for LoadError {
    type V = Refusal;

    open spec fn view(&self) -> Refusal {
        match self {
            LoadError::Malformed(_) => Refusal::Malformed,
            LoadError::MissingColumn(column) => Refusal::MissingColumn(*column),
            LoadError::DuplicateColumn(column) => Refusal::DuplicateColumn(*column),
            LoadError::ShortRow(row) => Refusal::ShortRow(*row as nat),
            LoadError::EmptyKey(row) => Refusal::EmptyKey(*row as nat),
        }
    }
}

/// Where the three columns stand in a row.
struct Columns {
    key: usize,
    price: usize,
    class: usize,
}

/// The header row and the rows after it that the `csv` crate reads out of
/// `text`: comma-separated, quoted with `"`, every row with as many fields
/// as the first.  `None` where it finds `text` malformed.
pub uninterp spec fn csv_table(text: Seq<char>) -> Option<(Seq<Seq<char>>, Seq<Seq<Seq<char>>>)>;

/// Whether a column is called `name`.
pub open spec fn is_called(name: Seq<char>) -> spec_fn(Seq<char>) -> bool {
    |header: Seq<char>| header == name
}

/// How many columns of `headers` are called `name`.
pub open spec fn occurrences(headers: Seq<Seq<char>>, name: Seq<char>) -> nat {
    headers.filter(is_called(name)).len()
}

/// Where the one column called as `column` stands in `headers`, or why
/// there is no such place.
pub open spec fn column_place(headers: Seq<Seq<char>>, column: Column) -> Result<int, Refusal> {
    if occurrences(headers, column.name()) == 0 {
        Err(Refusal::MissingColumn(column))
    } else if occurrences(headers, column.name()) > 1 {
        Err(Refusal::DuplicateColumn(column))
    } else {
        Ok(headers.index_of(column.name()))
    }
}

/// Where the three columns stand.  Of several faults the one of the key
/// column comes first, then that of the price column.
pub open spec fn columns_of(headers: Seq<Seq<char>>) -> Result<(int, int, int), Refusal> {
    match column_place(headers, Column::Key) {
        Err(refusal) => Err(refusal),
        Ok(key) => match column_place(headers, Column::Price) {
            Err(refusal) => Err(refusal),
            Ok(price) => match column_place(headers, Column::Class) {
                Err(refusal) => Err(refusal),
                Ok(class) => Ok((key, price, class)),
            },
        },
    }
}

/// The record that a row holds: key and classifier as they stand, the list
/// price read out of its field, and no sale price yet.
pub open spec fn row_record(places: (int, int, int), row: Seq<Seq<char>>) -> RecordView {
    RecordView {
        key: row[places.0],
        list_price: price_of_field(row[places.1]),
        discount_class: row[places.2],
        computed_price: None,
    }
}

/// Whether the row has a field at each of the three places.
pub open spec fn row_fits(places: (int, int, int), row: Seq<Seq<char>>) -> bool {
    places.0 < row.len() && places.1 < row.len() && places.2 < row.len()
}

/// The records of `rows`, in their order.
///
/// A row without a classifier is left out.  A row that is too short, or has
/// a classifier but no key, refuses the whole list: the first such row says
/// why.
pub open spec fn rows_records(places: (int, int, int), rows: Seq<Seq<Seq<char>>>) -> Result<
    Seq<RecordView>,
    Refusal,
>
    decreases rows.len(),
{
    if rows.len() == 0 {
        Ok(Seq::empty())
    } else {
        let row = rows.last();
        let at = (rows.len() - 1) as nat;
        match rows_records(places, rows.drop_last()) {
            Err(refusal) => Err(refusal),
            Ok(records) => if !row_fits(places, row) {
                Err(Refusal::ShortRow(at))
            } else if row[places.2].len() == 0 {
                Ok(records)
            } else if row[places.0].len() == 0 {
                Err(Refusal::EmptyKey(at))
            } else {
                Ok(records.push(row_record(places, row)))
            },
        }
    }
}

/// The records of a table.  A table without rows holds none, whatever its
/// header row; else the header row must name each column once.
pub open spec fn table_records(headers: Seq<Seq<char>>, rows: Seq<Seq<Seq<char>>>) -> Result<
    Seq<RecordView>,
    Refusal,
> {
    if rows.len() == 0 {
        Ok(Seq::empty())
    } else {
        match columns_of(headers) {
            Err(refusal) => Err(refusal),
            Ok(places) => rows_records(places, rows),
        }
    }
}

/// What loading returned, as the contracts speak of it.
pub open spec fn loaded(result: Result<Vec<PriceRecord>, LoadError>) -> Result<
    Seq<RecordView>,
    Refusal,
> {
    match result {
        Ok(records) => Ok(views(records@)),
        Err(error) => Err(error@),
    }
}

/// Every record that is loaded has a key, a classifier and a list price
/// that is a number, and no sale price yet.
pub proof fn lemma_loaded_records_valid(places: (int, int, int), rows: Seq<Seq<Seq<char>>>)
    requires
        0 <= places.0,
        0 <= places.1,
        0 <= places.2,
    ensures
        rows_records(places, rows) matches Ok(records) ==> forall|i: int|
            0 <= i < records.len() ==> {
                &&& (#[trigger] records[i]).wf()
                &&& records[i].discount_class.len() > 0
                &&& records[i].key.len() > 0
                &&& records[i].computed_price is None
            },
    decreases rows.len(),
{
    if rows.len() > 0 {
        lemma_loaded_records_valid(places, rows.drop_last());
        let row = rows.last();
        if row_fits(places, row) {
            lemma_price_of_field_wf(row[places.1]);
        }
    }
}

/// The `csv` crate's error type.
#[verifier::external_type_specification]
#[verifier::external_body]
pub struct ExCsvError(csv::Error);

/// Reads `text` with a `csv::Reader` that takes the first row as the header
/// row (`ReaderBuilder::has_headers`, `Reader::headers`, `Reader::records`):
/// on success the header row and the rows after it, field by field, are what
/// `csv_table` names; on failure `csv_table` is `None`.
#[verifier::external_body]
fn read_table(text: &str) -> (table: Result<(Vec<String>, Vec<Vec<String>>), csv::Error>)
    ensures
        match table {
            Ok(table) => csv_table(text@) == Some((text_views(table.0@), table_views(table.1@))),
            Err(_) => csv_table(text@) is None,
        },
{
    let mut reader = csv::ReaderBuilder::new().has_headers(true).from_reader(text.as_bytes());
    let headers = reader.headers()?.iter().map(String::from).collect();
    let mut rows = Vec::new();
    for record in reader.records() {
        rows.push(record?.iter().map(String::from).collect());
    }
    Ok((headers, rows))
}

/// What the `csv` crate says of its error (`ToString::to_string` on a
/// `csv::Error`).  Nothing is claimed of the words.
#[verifier::external_body]
fn error_words(error: &csv::Error) -> (words: String) {
    error.to_string()
}

/// Finds the one column called as `column`.
fn find_column(headers: &Vec<String>, column: Column) -> (place: Result<usize, LoadError>)
    ensures
        match place {
            Ok(place) => column_place(text_views(headers@), column) == Ok::<int, Refusal>(
                place as int,
            ) && place < headers.len(),
            Err(error) => column_place(text_views(headers@), column) == Err::<int, Refusal>(
                error@,
            ),
        },
{
    let name = match column {
        Column::Key => KEY_COLUMN.to_owned(),
        Column::Price => PRICE_COLUMN.to_owned(),
        Column::Class => CLASS_COLUMN.to_owned(),
    };
    let ghost all = text_views(headers@);
    let ghost wanted = is_called(column.name());
    let mut found: Option<usize> = None;
    let mut at: usize = 0;
    assert(all.take(0).filter(wanted) =~= Seq::<Seq<char>>::empty()) by {
        reveal(Seq::filter);
    }
    while at < headers.len()
        invariant
            at <= headers.len(),
            all == text_views(headers@),
            name@ == column.name(),
            wanted == is_called(column.name()),
            match found {
                None => all.take(at as int).filter(wanted).len() == 0 && forall|i: int|
                    0 <= i < at ==> all[i] != column.name(),
                Some(place) => {
                    &&& place < at
                    &&& all[place as int] == column.name()
                    &&& all.take(at as int).filter(wanted).len() == 1
                    &&& forall|i: int| 0 <= i < at && i != place ==> all[i] != column.name()
                },
            },
        decreases headers.len() - at,
    {
        proof {
            assert(all.take(at + 1) =~= all.take(at as int).push(all[at as int]));
            all.take(at as int).lemma_filter_push(all[at as int], wanted);
        }
        if headers[at] == name {
            if found.is_some() {
                proof {
                    lemma_filter_grows(all, wanted, at + 1);
                }
                return Err(LoadError::DuplicateColumn(column));
            }
            found = Some(at);
        }
        at = at + 1;
    }
    assert(all.take(headers.len() as int) =~= all);
    match found {
        None => Err(LoadError::MissingColumn(column)),
        Some(place) => {
            proof {
                // Only one column has the name, so it is the one that is chosen.
                assert(all.contains(column.name()));
                assert(all[all.index_of(column.name())] == column.name());
            }
            Ok(place)
        },
    }
}

/// A longer list has no fewer items that pass a filter.
proof fn lemma_filter_grows<T>(items: Seq<T>, wanted: spec_fn(T) -> bool, n: int)
    requires
        0 <= n <= items.len(),
    ensures
        items.take(n).filter(wanted).len() <= items.filter(wanted).len(),
    decreases items.len() - n,
{
    if n < items.len() {
        assert(items.take(n + 1) =~= items.take(n).push(items[n]));
        items.take(n).lemma_filter_push(items[n], wanted);
        lemma_filter_grows(items, wanted, n + 1);
    } else {
        assert(items.take(n) =~= items);
    }
}

/// Finds the three columns.
fn find_columns(headers: &Vec<String>) -> (columns: Result<Columns, LoadError>)
    ensures
        match columns {
            Ok(columns) => columns_of(text_views(headers@)) == Ok::<(int, int, int), Refusal>(
                (columns.key as int, columns.price as int, columns.class as int),
            ),
            Err(error) => columns_of(text_views(headers@)) == Err::<(int, int, int), Refusal>(
                error@,
            ),
        },
{
    let key = match find_column(headers, Column::Key) {
        Ok(place) => place,
        Err(error) => {
            return Err(error);
        },
    };
    let price = match find_column(headers, Column::Price) {
        Ok(place) => place,
        Err(error) => {
            return Err(error);
        },
    };
    let class = match find_column(headers, Column::Class) {
        Ok(place) => place,
        Err(error) => {
            return Err(error);
        },
    };
    Ok(Columns { key, price, class })
}

/// Makes the records of a table that has been split into its header row and
/// the rows after it.
pub fn records_from_table(headers: &Vec<String>, rows: &Vec<Vec<String>>) -> (result: Result<
    Vec<PriceRecord>,
    LoadError,
>)
    ensures
        loaded(result) == table_records(text_views(headers@), table_views(rows@)),
        result matches Ok(records) ==> forall|i: int|
            0 <= i < records.len() ==> (#[trigger] records[i])@.wf() && records[i]@.computed_price
                is None,
{
    let ghost table = table_views(rows@);
    if rows.len() == 0 {
        let records: Vec<PriceRecord> = Vec::new();
        assert(views(records@) =~= Seq::<RecordView>::empty());
        return Ok(records);
    }
    let columns = match find_columns(headers) {
        Ok(columns) => columns,
        Err(error) => {
            return Err(error);
        },
    };
    let ghost places = (columns.key as int, columns.price as int, columns.class as int);
    let mut records: Vec<PriceRecord> = Vec::new();
    let mut at: usize = 0;
    assert(views(records@) =~= Seq::<RecordView>::empty());
    while at < rows.len()
        invariant
            at <= rows.len(),
            table == table_views(rows@),
            places == (columns.key as int, columns.price as int, columns.class as int),
            rows.len() > 0,
            columns_of(text_views(headers@)) == Ok::<(int, int, int), Refusal>(places),
            rows_records(places, table.take(at as int)) == Ok::<Seq<RecordView>, Refusal>(
                views(records@),
            ),
        decreases rows.len() - at,
    {
        let row = &rows[at];
        proof {
            assert(table.take(at + 1).drop_last() =~= table.take(at as int));
        }
        if columns.key >= row.len() || columns.price >= row.len() || columns.class >= row.len() {
            proof {
                lemma_refusal_stays(places, table, at + 1);
            }
            return Err(LoadError::ShortRow(at));
        }
        if !row[columns.class].as_str().is_empty() {
            if row[columns.key].as_str().is_empty() {
                proof {
                    lemma_refusal_stays(places, table, at + 1);
                }
                return Err(LoadError::EmptyKey(at));
            }
            let ghost before = views(records@);
            let record = PriceRecord::new(
                row[columns.key].clone(),
                price_from_field(row[columns.price].as_str()),
                row[columns.class].clone(),
            );
            records.push(record);
            assert(views(records@) =~= before.push(row_record(places, text_views(row@))));
        }
        at = at + 1;
    }
    proof {
        assert(table.take(rows.len() as int) =~= table);
        lemma_loaded_records_valid(places, table);
        assert forall|i: int| 0 <= i < records.len() implies (#[trigger] records[i])@.wf()
            && records[i]@.computed_price is None by {
            assert(views(records@)[i] == records[i]@);
        }
    }
    Ok(records)
}

/// Once a row has refused the list, the rows after it change nothing.
proof fn lemma_refusal_stays(places: (int, int, int), rows: Seq<Seq<Seq<char>>>, n: int)
    requires
        0 <= n <= rows.len(),
        rows_records(places, rows.take(n)) is Err,
    ensures
        rows_records(places, rows) == rows_records(places, rows.take(n)),
    decreases rows.len() - n,
{
    if n < rows.len() {
        assert(rows.take(n + 1).drop_last() =~= rows.take(n));
        lemma_refusal_stays(places, rows, n + 1);
    } else {
        assert(rows.take(n) =~= rows);
    }
}

/// Loads the price list that `text` holds: a header row, then one row for
/// each item.
pub fn load_records(text: &str) -> (result: Result<Vec<PriceRecord>, LoadError>)
    ensures
        loaded(result) == match csv_table(text@) {
            Some(table) => table_records(table.0, table.1),
            None => Err(Refusal::Malformed),
        },
        result matches Ok(records) ==> forall|i: int|
            0 <= i < records.len() ==> (#[trigger] records[i])@.wf() && records[i]@.computed_price
                is None,
{
    match read_table(text) {
        Ok(table) => records_from_table(&table.0, &table.1),
        Err(error) => Err(LoadError::Malformed(error_words(&error))),
    }
}

} // verus!
