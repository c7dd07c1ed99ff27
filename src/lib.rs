//! An in-memory fragment index for peptide-spectrum matching: a sorted peptide
//! collection and a bucketed, doubly sorted collection of theoretical fragment
//! records, with a two-stage range query over fragment and precursor masses.
//!
//! Masses are carried as `i32` order keys: the key of an `f32` mass is its bit
//! pattern mapped so that integer order is the order of `f32::total_cmp`.
pub mod search;
pub mod database;
pub mod digest;

