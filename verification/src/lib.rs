//! Normalization core for self-describing scientific array files.
//!
//! An external reader parses the on-disk binary format; this crate owns the
//! layer above it: collapsing the reader's heterogeneous element kinds into a
//! canonical double-precision representation (carried as IEEE 754 bit
//! patterns), detecting missing values, decoding character arrays into text,
//! validating rectangular subset requests, and classifying coordinate
//! variables from naming conventions and units strings.
//!
//! What the reader yielded for one request crosses into the crate as plain
//! data (see [`reader`]); everything done with it here is verified.

pub mod coordinates;
pub mod data_access;
pub mod errors;
pub mod floatbits;
pub mod loader;
pub mod models;
pub mod reader;
pub mod strutil;
