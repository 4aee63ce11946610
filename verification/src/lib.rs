//! Concatenation of Arrow arrays and record batches.
//!
//! [`concat::concat`] puts arrays of one type into one array, and [`batches::concat_batches`] puts
//! record batches into one batch. The contracts say what the result holds in terms of
//! [`model::ArrayModel`], a model of what an array stores, and [`model::rows`], a model of what it
//! means; [`limits`] says of which arrays the result can be numbered, and [`laws`] what holds of
//! concatenation as a whole. [`concat::checked_concat`] and [`batches::checked_concat_batches`] test
//! the limits themselves.
//!
//! The Arrow crates store and build the arrays. What is taken for granted of them stands in
//! [`outside`], [`builders`] and [`records`], and nowhere else.
pub mod batches;
pub mod builders;
pub mod capacity;
pub mod checks;
pub mod concat;
pub mod copies;
pub mod dictionary;
pub mod error;
pub mod handles;
pub mod joins;
pub mod kernels;
pub mod laws;
pub mod layouts;
pub mod ledger;
pub mod limits;
pub mod mismatch;
pub mod model;
pub mod outside;
pub mod parts;
pub mod pieces;
pub mod promises;
pub mod records;
pub mod shapes;
pub mod slices;
pub mod surface;
pub mod validity;
