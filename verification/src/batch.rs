//! Splitting a list into batches of bounded size.
//!
//! Batches are taken in order: the first `size` items, then the next `size`,
//! and so on; only the last batch may hold fewer.

use vstd::prelude::*;
use vstd::arithmetic::div_mod::{lemma_fundamental_div_mod, lemma_mod_bound};
use crate::record::{views, PriceRecord};

verus! {

/// How many records one statement updates unless the caller chooses
/// otherwise.  Larger batches mean fewer round trips to the database, but
/// longer statements, longer locks and more rows lost to one failure.
pub const DEFAULT_BATCH_SIZE: usize = 500;

/// The number of batches that `len` items make: `len / size`, rounded up.
pub open spec fn batch_count(len: nat, size: nat) -> nat {
    if len % size == 0 {
        len / size
    } else {
        len / size + 1
    }
}

/// Where batch `index` starts among `len` items.
pub open spec fn batch_start(len: nat, size: nat, index: nat) -> nat {
    if index * size <= len {
        index * size
    } else {
        len
    }
}

/// Where batch `index` ends among `len` items: where the next one starts.
pub open spec fn batch_end(len: nat, size: nat, index: nat) -> nat {
    batch_start(len, size, index + 1)
}

/// Batch `index` of `items`.
pub open spec fn batch_of<T>(items: Seq<T>, size: nat, index: nat) -> Seq<T> {
    items.subrange(
        batch_start(items.len(), size, index) as int,
        batch_end(items.len(), size, index) as int,
    )
}

/// All batches of `items`, in order.
pub open spec fn batches<T>(items: Seq<T>, size: nat) -> Seq<Seq<T>> {
    Seq::new(batch_count(items.len(), size), |index: int| batch_of(items, size, index as nat))
}

/// `batch_count` is the quotient rounded up: that many batches are enough
/// for all items, and one fewer would not be.
pub proof fn lemma_batch_count(len: nat, size: nat)
    requires
        size > 0,
    ensures
        batch_count(len, size) * size >= len,
        len > 0 ==> (batch_count(len, size) - 1) * size < len,
        len == 0 <==> batch_count(len, size) == 0,
{
    lemma_fundamental_div_mod(len as int, size as int);
    lemma_mod_bound(len as int, size as int);
    // `len` is `q` full batches and a rest that is smaller than a batch.
    let q = len / size;
    assert(len == size * q + len % size);
    assert(size * q == q * size) by (nonlinear_arith);
    assert((q + 1) * size == q * size + size) by (nonlinear_arith);
    assert((q - 1) * size == q * size - size) by (nonlinear_arith);
    if q == 0 {
        assert(q * size == 0) by (nonlinear_arith)
            requires
                q == 0,
        ;
    } else {
        assert(q * size >= size) by (nonlinear_arith)
            requires
                q >= 1,
                size > 0,
        ;
    }
}

/// Every batch before the last is full, and the last one is not empty.
pub proof fn lemma_batch_bounds(len: nat, size: nat, index: nat)
    requires
        size > 0,
        index < batch_count(len, size),
    ensures
        batch_start(len, size, index) == index * size,
        batch_start(len, size, index) < batch_end(len, size, index) <= len,
        batch_end(len, size, index) - batch_start(len, size, index) <= size,
        index + 1 < batch_count(len, size) ==> batch_end(len, size, index) == (index + 1) * size,
        index + 1 == batch_count(len, size) ==> batch_end(len, size, index) == len,
{
    lemma_batch_count(len, size);
    let count = batch_count(len, size);
    assert(index * size <= (count - 1) * size) by (nonlinear_arith)
        requires
            index <= count - 1,
            size > 0,
    ;
    assert((index + 1) * size == index * size + size) by (nonlinear_arith);
    if index + 1 < count {
        assert((index + 1) * size <= (count - 1) * size) by (nonlinear_arith)
            requires
                index + 1 <= count - 1,
                size > 0,
        ;
    }
}

/// The first `k` batches, put end to end, are the items before batch `k`.
proof fn lemma_batches_prefix<T>(items: Seq<T>, size: nat, k: nat)
    requires
        size > 0,
        k <= batch_count(items.len(), size),
    ensures
        batches(items, size).take(k as int).flatten() == items.take(
            batch_start(items.len(), size, k) as int,
        ),
    decreases k,
{
    let all = batches(items, size);
    if k == 0 {
        assert(0 * size == 0) by (nonlinear_arith);
    } else {
        let j = (k - 1) as nat;
        lemma_batches_prefix(items, size, j);
        lemma_batch_bounds(items.len(), size, j);
        assert(all.take(k as int) =~= all.take(j as int).push(all[j as int]));
        all.take(j as int).lemma_flatten_push(all[j as int]);
    }
}

/// Batching is a partition: `len / size` batches, rounded up; none of them
/// empty and none larger than `size`; and put end to end, in order, they are
/// the list again, so that every item is in exactly one batch.
pub proof fn lemma_batches_partition<T>(items: Seq<T>, size: nat)
    requires
        size > 0,
    ensures
        batches(items, size).len() == batch_count(items.len(), size),
        forall|index: int|
            0 <= index < batches(items, size).len() ==> 1 <= (#[trigger] batches(
                items,
                size,
            )[index]).len() <= size,
        batches(items, size).flatten() == items,
{
    let all = batches(items, size);
    let count = batch_count(items.len(), size);
    assert forall|index: int| 0 <= index < all.len() implies 1 <= (#[trigger] all[index]).len()
        <= size by {
        lemma_batch_bounds(items.len(), size, index as nat);
    }
    lemma_batches_prefix(items, size, count);
    lemma_batch_count(items.len(), size);
    assert(all.take(count as int) =~= all);
    if count > 0 {
        lemma_batch_bounds(items.len(), size, (count - 1) as nat);
    }
}

/// The number of batches that `len` items make.
pub fn count_batches(len: usize, size: usize) -> (count: usize)
    requires
        size > 0,
    ensures
        count == batch_count(len as nat, size as nat),
{
    if len % size == 0 {
        len / size
    } else {
        proof {
            lemma_fundamental_div_mod(len as int, size as int);
            assert(size * (len / size) >= len / size) by (nonlinear_arith)
                requires
                    size >= 1,
                    len / size >= 0,
            ;
        }
        len / size + 1
    }
}

/// Where batch `index` starts and ends among `len` items.
pub fn batch_range(len: usize, size: usize, index: usize) -> (range: (usize, usize))
    requires
        size > 0,
        index < batch_count(len as nat, size as nat),
    ensures
        range.0 == batch_start(len as nat, size as nat, index as nat),
        range.1 == batch_end(len as nat, size as nat, index as nat),
{
    proof {
        lemma_batch_bounds(len as nat, size as nat, index as nat);
    }
    let start = index * size;
    let end = if len - start > size {
        start + size
    } else {
        len
    };
    proof {
        assert((index + 1) * size == index * size + size) by (nonlinear_arith);
    }
    (start, end)
}

/// Copies the records into their batches.
pub fn split_batches(records: &Vec<PriceRecord>, size: usize) -> (split: Vec<Vec<PriceRecord>>)
    requires
        size > 0,
    ensures
        split.len() == batch_count(records.len() as nat, size as nat),
        forall|index: int|
            0 <= index < split.len() ==> views((#[trigger] split[index])@) == batch_of(
                views(records@),
                size as nat,
                index as nat,
            ),
{
    let count = count_batches(records.len(), size);
    let mut split: Vec<Vec<PriceRecord>> = Vec::new();
    let mut index: usize = 0;
    while index < count
        invariant
            size > 0,
            index <= count,
            count == batch_count(records.len() as nat, size as nat),
            split.len() == index,
            forall|done: int|
                0 <= done < index ==> views((#[trigger] split[done])@) == batch_of(
                    views(records@),
                    size as nat,
                    done as nat,
                ),
        decreases count - index,
    {
        let (start, end) = batch_range(records.len(), size, index);
        proof {
            lemma_batch_bounds(records.len() as nat, size as nat, index as nat);
        }
        let mut batch: Vec<PriceRecord> = Vec::new();
        let mut at = start;
        while at < end
            invariant
                start <= at <= end <= records.len(),
                views(batch@) == views(records@).subrange(start as int, at as int),
            decreases end - at,
        {
            let ghost before = views(batch@);
            let copy = records[at].clone();
            batch.push(copy);
            at = at + 1;
            assert(views(batch@) =~= before.push(copy@));
        }
        split.push(batch);
        index = index + 1;
    }
    split
}

} // verus!
