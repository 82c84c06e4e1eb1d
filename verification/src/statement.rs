//! The bulk `UPDATE` statement of one batch.
//!
//! A statement is a list of fragments: pieces of SQL text, and values to
//! bind where they stand.  No value is ever written into the text, so a key
//! or a classifier may hold anything.

use vstd::prelude::*;
use crate::price::{Price, PriceView};
use crate::record::{views, PriceRecord, RecordView};
use crate::text::text_views;

verus! {

/// How the statement begins, up to the cases that set the sale price.
pub const UPDATE_HEAD: &'static str = "UPDATE `DQ8weMwxbW` SET mp = CASE prodaltkey ";

/// What stands between the cases of the sale price and those of the
/// classifier.
pub const UPDATE_CLASSES: &'static str = " END, discount_code = CASE prodaltkey ";

/// What stands between the cases of the classifier and the list of keys.
pub const UPDATE_WHERE: &'static str = " END WHERE prodaltkey IN (";

/// How the statement ends.
pub const UPDATE_CLOSE: &'static str = ")";

/// What stands before the key of a case.
pub const CASE_WHEN: &'static str = " WHEN ";

/// What stands between the key of a case and its value.
pub const CASE_THEN: &'static str = " THEN ";

/// What stands between two keys of the list.
pub const KEY_SEPARATOR: &'static str = ", ";

/// One piece of a statement.
#[derive(Debug, PartialEq, Eq)]
pub enum Fragment {
    /// SQL text, taken as it is.
    Sql(String),
    /// A key or a classifier, bound as a parameter.
    BindText(String),
    /// A sale price, bound as a parameter.
    BindPrice(Price),
}

/// What a [`Fragment`] holds.
pub enum FragmentView {
    Sql(Seq<char>),
    BindText(Seq<char>),
    BindPrice(PriceView),
}

impl View for Fragment {
    type V = FragmentView;

    open spec fn view(&self) -> FragmentView {
        match self {
            Fragment::Sql(text) => FragmentView::Sql(text@),
            Fragment::BindText(text) => FragmentView::BindText(text@),
            Fragment::BindPrice(price) => FragmentView::BindPrice(price@),
        }
    }
}

/// What a list of fragments holds, fragment by fragment.
pub open spec fn fragment_views(fragments: Seq<Fragment>) -> Seq<FragmentView> {
    Seq::new(fragments.len(), |i: int| fragments[i]@)
}

/// The bulk update of one batch.
#[derive(Debug, PartialEq, Eq)]
pub struct Statement {
    /// The statement, piece by piece, in the order in which it is written.
    pub fragments: Vec<Fragment>,
    /// The keys of the rows that the statement updates, in their order.
    pub keys: Vec<String>,
}

/// What a [`Statement`] holds.
pub struct StatementView {
    pub fragments: Seq<FragmentView>,
    pub keys: Seq<Seq<char>>,
}

impl View for Statement {
    type V = StatementView;

    open spec fn view(&self) -> StatementView {
        StatementView { fragments: fragment_views(self.fragments@), keys: text_views(self.keys@) }
    }
}

/// The records of `batch` that a statement updates: those that have a sale
/// price.  The others are passed over.
pub open spec fn included(batch: Seq<RecordView>) -> Seq<RecordView> {
    batch.filter(|record: RecordView| record.computed_price is Some)
}

/// The case that sets the sale price of one row.
pub open spec fn price_case(row: RecordView) -> Seq<FragmentView> {
    seq![
        FragmentView::Sql(CASE_WHEN@),
        FragmentView::BindText(row.key),
        FragmentView::Sql(CASE_THEN@),
        FragmentView::BindPrice(row.computed_price.unwrap()),
    ]
}

/// The case that sets the classifier of one row.
pub open spec fn class_case(row: RecordView) -> Seq<FragmentView> {
    seq![
        FragmentView::Sql(CASE_WHEN@),
        FragmentView::BindText(row.key),
        FragmentView::Sql(CASE_THEN@),
        FragmentView::BindText(row.discount_class),
    ]
}

/// The cases that set the sale prices of `rows`, in their order.
pub open spec fn price_cases(rows: Seq<RecordView>) -> Seq<FragmentView>
    decreases rows.len(),
{
    if rows.len() == 0 {
        Seq::empty()
    } else {
        price_cases(rows.drop_last()) + price_case(rows.last())
    }
}

/// The cases that set the classifiers of `rows`, in their order.
pub open spec fn class_cases(rows: Seq<RecordView>) -> Seq<FragmentView>
    decreases rows.len(),
{
    if rows.len() == 0 {
        Seq::empty()
    } else {
        class_cases(rows.drop_last()) + class_case(rows.last())
    }
}

/// The keys of `rows` as a list: each one bound, with a separator between
/// every two of them.
pub open spec fn key_list(rows: Seq<RecordView>) -> Seq<FragmentView>
    decreases rows.len(),
{
    if rows.len() == 0 {
        Seq::empty()
    } else if rows.len() == 1 {
        seq![FragmentView::BindText(rows.last().key)]
    } else {
        key_list(rows.drop_last()) + seq![
            FragmentView::Sql(KEY_SEPARATOR@),
            FragmentView::BindText(rows.last().key),
        ]
    }
}

/// The keys of `rows`, in their order.
pub open spec fn keys_of(rows: Seq<RecordView>) -> Seq<Seq<char>> {
    Seq::new(rows.len(), |i: int| rows[i].key)
}

/// The statement that updates `rows`:
///
/// ```text
/// UPDATE t SET price = CASE key WHEN k1 THEN p1 WHEN k2 THEN p2 .. END,
///     class = CASE key WHEN k1 THEN c1 WHEN k2 THEN c2 .. END
///     WHERE key IN (k1, k2, ..)
/// ```
///
/// with every `k`, `p` and `c` a bound parameter.
pub open spec fn statement_of(rows: Seq<RecordView>) -> StatementView {
    StatementView {
        fragments: seq![FragmentView::Sql(UPDATE_HEAD@)] + price_cases(rows)
            + seq![FragmentView::Sql(UPDATE_CLASSES@)] + class_cases(rows)
            + seq![FragmentView::Sql(UPDATE_WHERE@)] + key_list(rows)
            + seq![FragmentView::Sql(UPDATE_CLOSE@)],
        keys: keys_of(rows),
    }
}

/// The statement that a batch is updated with, if it needs one: a batch none
/// of whose records has a sale price sends nothing.
pub open spec fn batch_statement(batch: Seq<RecordView>) -> Option<StatementView> {
    if included(batch).len() == 0 {
        None
    } else {
        Some(statement_of(included(batch)))
    }
}

/// Whether `text` is one of the pieces of SQL that a statement is made of.
pub open spec fn is_fixed_text(text: Seq<char>) -> bool {
    ||| text == UPDATE_HEAD@
    ||| text == UPDATE_CLASSES@
    ||| text == UPDATE_WHERE@
    ||| text == UPDATE_CLOSE@
    ||| text == CASE_WHEN@
    ||| text == CASE_THEN@
    ||| text == KEY_SEPARATOR@
}

/// Whether all SQL text among `fragments` is fixed text.
pub open spec fn text_is_fixed(fragments: Seq<FragmentView>) -> bool {
    forall|i: int|
        0 <= i < fragments.len() ==> ((#[trigger] fragments[i]) matches FragmentView::Sql(text)
            ==> is_fixed_text(text))
}

/// Nothing that a record holds is ever written into the text of a
/// statement: the SQL text is made of the fixed pieces and of nothing else,
/// and every key, sale price and classifier is bound.  A statement binds
/// five values for each row: key and sale price, key and classifier, and
/// the key once more in the list.
pub proof fn lemma_values_are_bound(rows: Seq<RecordView>)
    ensures
        text_is_fixed(price_cases(rows)),
        text_is_fixed(class_cases(rows)),
        text_is_fixed(key_list(rows)),
        text_is_fixed(statement_of(rows).fragments),
        price_cases(rows).len() == 4 * rows.len(),
        class_cases(rows).len() == 4 * rows.len(),
        rows.len() > 0 ==> key_list(rows).len() == 2 * rows.len() - 1,
        rows.len() > 0 ==> statement_of(rows).fragments.len() == 10 * rows.len() + 3,
    decreases rows.len(),
{
    if rows.len() > 0 {
        lemma_values_are_bound(rows.drop_last());
    }
}

fn sql(text: &'static str) -> (fragment: Fragment)
    ensures
        fragment@ == FragmentView::Sql(text@),
{
    Fragment::Sql(text.to_owned())
}

impl Statement {
    /// Builds the statement that updates the records from `start` up to
    /// `end`, or `None` if none of them has a sale price.
    pub fn for_range(records: &Vec<PriceRecord>, start: usize, end: usize) -> (statement: Option<
        Statement,
    >)
        requires
            start <= end <= records.len(),
        ensures
            match statement {
                Some(statement) => Some(statement@),
                None => None,
            } == batch_statement(views(records@).subrange(start as int, end as int)),
    {
        let ghost batch = views(records@).subrange(start as int, end as int);
        let mut prices: Vec<Fragment> = Vec::new();
        let mut classes: Vec<Fragment> = Vec::new();
        let mut listed: Vec<Fragment> = Vec::new();
        let mut keys: Vec<String> = Vec::new();
        let mut at = start;
        assert(included(batch.take(0)) =~= Seq::<RecordView>::empty()) by {
            reveal(Seq::filter);
        }
        while at < end
            invariant
                start <= at <= end <= records.len(),
                batch == views(records@).subrange(start as int, end as int),
                fragment_views(prices@) == price_cases(included(batch.take(at - start))),
                fragment_views(classes@) == class_cases(included(batch.take(at - start))),
                fragment_views(listed@) == key_list(included(batch.take(at - start))),
                text_views(keys@) == keys_of(included(batch.take(at - start))),
            decreases end - at,
        {
            let record = &records[at];
            let ghost seen = batch.take(at - start);
            let ghost rows = included(seen);
            proof {
                assert(batch.take(at - start + 1) =~= seen.push(record@));
                seen.lemma_filter_push(record@, |record: RecordView| record.computed_price is Some);
            }
            if let Some(price) = &record.computed_price {
                let ghost more = rows.push(record@);
                assert(more.drop_last() =~= rows);
                let ghost old_prices = fragment_views(prices@);
                prices.push(sql(CASE_WHEN));
                prices.push(Fragment::BindText(record.key.clone()));
                prices.push(sql(CASE_THEN));
                prices.push(Fragment::BindPrice(price.clone()));
                assert(fragment_views(prices@) =~= old_prices + price_case(record@));
                let ghost old_classes = fragment_views(classes@);
                classes.push(sql(CASE_WHEN));
                classes.push(Fragment::BindText(record.key.clone()));
                classes.push(sql(CASE_THEN));
                classes.push(Fragment::BindText(record.discount_class.clone()));
                assert(fragment_views(classes@) =~= old_classes + class_case(record@));
                let ghost old_listed = fragment_views(listed@);
                assert(keys.len() == rows.len()) by {
                    assert(text_views(keys@).len() == keys_of(rows).len());
                }
                if keys.len() > 0 {
                    listed.push(sql(KEY_SEPARATOR));
                }
                listed.push(Fragment::BindText(record.key.clone()));
                assert(fragment_views(listed@) =~= key_list(more)) by {
                    if rows.len() == 0 {
                        assert(fragment_views(listed@) =~= seq![
                            FragmentView::BindText(record@.key),
                        ]);
                    } else {
                        assert(fragment_views(listed@) =~= old_listed + seq![
                            FragmentView::Sql(KEY_SEPARATOR@),
                            FragmentView::BindText(record@.key),
                        ]);
                    }
                }
                let ghost old_keys = text_views(keys@);
                keys.push(record.key.clone());
                assert(text_views(keys@) =~= old_keys.push(record@.key));
                assert(text_views(keys@) =~= keys_of(more));
            }
            at = at + 1;
        }
        assert(batch.take(end - start) =~= batch);
        assert(keys.len() == included(batch).len()) by {
            assert(text_views(keys@).len() == keys_of(included(batch)).len());
        }
        if keys.len() == 0 {
            return None;
        }
        let ghost rows = included(batch);
        let mut fragments: Vec<Fragment> = Vec::new();
        fragments.push(sql(UPDATE_HEAD));
        fragments.append(&mut prices);
        fragments.push(sql(UPDATE_CLASSES));
        fragments.append(&mut classes);
        fragments.push(sql(UPDATE_WHERE));
        fragments.append(&mut listed);
        fragments.push(sql(UPDATE_CLOSE));
        assert(fragment_views(fragments@) =~= statement_of(rows).fragments);
        Some(Statement { fragments, keys })
    }

    /// Builds the statement that updates the whole of `batch`, or `None` if
    /// none of its records has a sale price.
    pub fn for_batch(batch: &Vec<PriceRecord>) -> (statement: Option<Statement>)
        ensures
            match statement {
                Some(statement) => Some(statement@),
                None => None,
            } == batch_statement(views(batch@)),
    {
        assert(views(batch@).subrange(0, batch.len() as int) =~= views(batch@));
        Statement::for_range(batch, 0, batch.len())
    }
}

} // verus!
