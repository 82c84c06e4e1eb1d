//! The discount table: which rate a classifier selects.

use vstd::prelude::*;
use vstd::string::*;
use crate::batch::batch_of;
use crate::price::lemma_discounted_amount;
use crate::record::{views, PriceRecord, RecordView};
use crate::statement::batch_statement;

verus! {

/// The rate granted when a classifier is not one of the listed ones.
pub const DEFAULT_RATE_PERCENT: u8 = 40;

/// The discount, in whole percent, that the classifier `code` selects.
///
/// `a`, `b`, `c` and `d` select 40, 45, 50 and 60 percent.  Every other
/// classifier, the empty one included, selects the default rate.
pub open spec fn rate_percent_of(code: Seq<char>) -> nat {
    if code == seq!['a'] {
        40
    } else if code == seq!['b'] {
        45
    } else if code == seq!['c'] {
        50
    } else if code == seq!['d'] {
        60
    } else {
        DEFAULT_RATE_PERCENT as nat
    }
}

/// Looks the classifier up in the discount table.  The lookup is total: an
/// unknown classifier is no error, it gets the default rate.
pub fn rate_percent(code: &str) -> (percent: u8)
    ensures
        percent == rate_percent_of(code@),
        percent == 40 || percent == 45 || percent == 50 || percent == 60,
{
    if code.unicode_len() != 1 {
        return DEFAULT_RATE_PERCENT;
    }
    let letter = code.get_char(0);
    assert(code@ =~= seq![letter]);
    if letter == 'b' {
        45
    } else if letter == 'c' {
        50
    } else if letter == 'd' {
        60
    } else {
        DEFAULT_RATE_PERCENT
    }
}

/// The discount table, row by row: `a`, `b`, `c` and `d` select 40, 45, 50
/// and 60 percent, and every other classifier selects 40 percent.
pub proof fn lemma_rate_table(code: Seq<char>)
    ensures
        code == seq!['a'] ==> rate_percent_of(code) == 40,
        code == seq!['b'] ==> rate_percent_of(code) == 45,
        code == seq!['c'] ==> rate_percent_of(code) == 50,
        code == seq!['d'] ==> rate_percent_of(code) == 60,
        code != seq!['a'] && code != seq!['b'] && code != seq!['c'] && code != seq!['d']
            ==> rate_percent_of(code) == 40,
        rate_percent_of(code) <= 100,
{
    // The four classifiers differ, each by its one letter.
    assert(seq!['a'][0] == 'a');
    assert(seq!['b'][0] == 'b');
    assert(seq!['c'][0] == 'c');
    assert(seq!['d'][0] == 'd');
}

/// The record once its sale price is calculated: the list price less the
/// discount that the classifier selects.  Nothing else of it changes.
pub open spec fn calculated(record: RecordView) -> RecordView {
    RecordView {
        computed_price: Some(
            record.list_price.discounted(rate_percent_of(record.discount_class)),
        ),
        ..record
    }
}

/// The sale price of a calculated record is its list price less the
/// discount of its classifier, exactly: as many hundredths of the list price
/// as the discount leaves of a hundred.  That holds of a list price of zero,
/// which gives zero, and of one as large as one likes.
pub proof fn lemma_calculated_price(record: RecordView)
    requires
        record.list_price.wf(),
    ensures
        calculated(record).computed_price matches Some(sale) && {
            &&& sale.wf()
            &&& sale.scale == record.list_price.scale + 2
            &&& sale.units() == record.list_price.units() * (100 - rate_percent_of(
                record.discount_class,
            ))
            &&& record.list_price.units() == 0 ==> sale.units() == 0
        },
        calculated(record).key == record.key,
        calculated(record).list_price == record.list_price,
        calculated(record).discount_class == record.discount_class,
{
    lemma_rate_table(record.discount_class);
    lemma_discounted_amount(record.list_price, rate_percent_of(record.discount_class));
}

/// Calculating twice is calculating once: the sale price depends on the
/// list price and the classifier alone, and neither is changed.
pub proof fn lemma_calculated_again(record: RecordView)
    ensures
        calculated(calculated(record)) == calculated(record),
{
}

/// A run over the same records calculates the same sale prices and so
/// writes the same statements, batch by batch.
pub proof fn lemma_rerun_writes_the_same(records: Seq<RecordView>, size: nat, index: nat)
    ensures
        batch_statement(
            batch_of(
                records.map_values(|record: RecordView| calculated(record)).map_values(
                    |record: RecordView| calculated(record),
                ),
                size,
                index,
            ),
        ) == batch_statement(
            batch_of(records.map_values(|record: RecordView| calculated(record)), size, index),
        ),
{
    let once = records.map_values(|record: RecordView| calculated(record));
    let twice = once.map_values(|record: RecordView| calculated(record));
    assert(twice =~= once) by {
        assert forall|i: int| 0 <= i < once.len() implies twice[i] == once[i] by {
            lemma_calculated_again(records[i]);
        }
    }
}

/// Gives the record its sale price.
pub fn calculate_price(record: &mut PriceRecord)
    ensures
        final(record)@ == calculated(old(record)@),
{
    let percent = rate_percent(record.discount_class.as_str());
    let sale = record.list_price.discounted(percent);
    record.computed_price = Some(sale);
}

/// Gives every record its sale price.  A sale price that was there before is
/// calculated anew from the list price, so a second run changes nothing.
pub fn calculate_prices(records: &mut Vec<PriceRecord>)
    ensures
        views(final(records)@) == views(old(records)@).map_values(
            |record: RecordView| calculated(record),
        ),
{
    let mut i: usize = 0;
    while i < records.len()
        invariant
            i <= records.len(),
            records.len() == old(records).len(),
            forall|j: int| 0 <= j < i ==> (#[trigger] records[j])@ == calculated(old(records)[j]@),
            forall|j: int| i <= j < records.len() ==> (#[trigger] records[j]) == old(records)[j],
        decreases records.len() - i,
    {
        calculate_price(&mut records[i]);
        i = i + 1;
    }
}

} // verus!
