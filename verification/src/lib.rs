//! Partial decoder and range aggregator for a versioned binary state
//! container: resolves the layout revision in force at a given epoch,
//! slices one field out of a raw buffer by offset arithmetic alone, and
//! aggregates per-validator participation flags over labelled index
//! ranges.

pub mod aggregate;
pub mod cycle;
pub mod decode;
pub mod encode;
pub mod finality;
pub mod flags;
pub mod schema;
