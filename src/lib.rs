//! Ordered processing of single-cell read records: sorting with aggregation,
//! synchronized merging of sorted sources, and whitelist barcode correction.
pub mod record;
pub mod run;
pub mod merge;
pub mod overlap;
pub mod sort;
pub mod barcode;
pub mod correct;
pub mod butterfly;
