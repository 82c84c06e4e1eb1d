//! The records of a price list.

use vstd::prelude::*;
use crate::price::{Price, PriceView};

verus! {

/// One item of the price list.
///
/// A record comes out of the loader with its list price and its discount
/// classifier, gets its sale price from the calculator, and is then read by
/// the update pipeline.
#[derive(Debug, PartialEq, Eq)]
pub struct PriceRecord {
    /// What the item is called in the destination table.
    pub key: String,
    /// The price before the discount.
    pub list_price: Price,
    /// The classifier that selects the discount.
    pub discount_class: String,
    /// The price after the discount; absent until it has been calculated.
    pub computed_price: Option<Price>,
}

/// What a [`PriceRecord`] holds.
pub struct RecordView {
    pub key: Seq<char>,
    pub list_price: PriceView,
    pub discount_class: Seq<char>,
    pub computed_price: Option<PriceView>,
}

impl RecordView {
    /// What a loaded record is owed: a key, a classifier, and prices that are
    /// numbers.
    pub open spec fn wf(self) -> bool {
        &&& self.key.len() > 0
        &&& self.discount_class.len() > 0
        &&& self.list_price.wf()
        &&& self.computed_price matches Some(price) ==> price.wf()
    }
}

impl View for PriceRecord {
    type V = RecordView;

    open spec fn view(&self) -> RecordView {
        RecordView {
            key: self.key@,
            list_price: self.list_price@,
            discount_class: self.discount_class@,
            computed_price: match self.computed_price {
                Some(price) => Some(price@),
                None => None,
            },
        }
    }
}

/// What a list of records holds, record by record.
pub open spec fn views(records: Seq<PriceRecord>) -> Seq<RecordView> {
    Seq::new(records.len(), |i: int| records[i]@)
}

impl Clone for PriceRecord {
    fn clone(&self) -> (copy: PriceRecord)
        ensures
            copy@ == self@,
    {
        PriceRecord {
            key: self.key.clone(),
            list_price: self.list_price.clone(),
            discount_class: self.discount_class.clone(),
            computed_price: match &self.computed_price {
                Some(price) => Some(price.clone()),
                None => None,
            },
        }
    }
}

impl PriceRecord {
    /// A record as the loader makes it: no sale price yet.
    pub fn new(key: String, list_price: Price, discount_class: String) -> (record: PriceRecord)
        ensures
            record@ == (RecordView {
                key: key@,
                list_price: list_price@,
                discount_class: discount_class@,
                computed_price: None,
            }),
    {
        PriceRecord { key, list_price, discount_class, computed_price: None }
    }
}

} // verus!
