//! What holds between writing and reading archives.

pub mod clean;
pub mod codes;
pub mod contents;
pub mod decoding;
pub mod editing;
pub mod failures;
pub mod hashing;
pub mod identity;
pub mod layout;
pub mod leaves;
pub mod listing;
pub mod packing;
pub mod paths;
pub mod reading;
pub mod rebuild;
pub mod refusals;
pub mod reopen;
pub mod reports;
pub mod siblings;
pub mod sorting;
pub mod spelling;
pub mod success;
pub mod tail;
pub mod texts;
pub mod trees;
