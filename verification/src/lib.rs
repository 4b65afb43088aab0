//! A scanner which finds the outputs a Monero wallet received.

pub mod address;
pub mod block;
pub mod bytes;
pub mod chain;
pub mod derivations;
pub mod ecdh_cache;
pub mod ed25519;
pub mod encoding;
pub mod error;
pub mod extra;
pub mod fields;
pub mod hash;
pub mod laws;
pub mod meanings;
pub mod microprof;
pub mod output;
pub mod payments;
pub mod point_map;
pub mod profiling;
pub mod receiving;
pub mod scan;
pub mod tallies;
pub mod timelocked;
pub mod transaction;
pub mod view_pair;
