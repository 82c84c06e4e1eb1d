//! Sale prices for a price list, and the batched statements that store them.
//!
//! A price list is loaded into [`record::PriceRecord`] values, each record gets
//! its sale price from the discount its classifier selects, and the records are
//! then written to the destination table in batches: one bulk `UPDATE` per
//! batch, every value of it a bound parameter.  The library decides and
//! computes; reading the file and talking to the database is left to the caller.

pub mod batch;
pub mod discount;
pub mod loader;
pub mod pipeline;
pub mod price;
pub mod record;
pub mod statement;
pub mod text;
