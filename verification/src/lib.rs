//! FastK: fixed-record time-series storage logic with machine-checked contracts.
#![allow(unused_imports)]

pub mod error;
pub mod clock;
pub mod codec;
pub mod text;
pub mod meta;
pub mod records;
pub mod header;
pub mod sparse_index;
pub mod chunk_reader;
pub mod range_read;
pub mod predicate;
pub mod ordering;
pub mod vix;
pub mod zmap;
pub mod manifest;
pub mod derived;
pub mod compaction;
pub mod sequence;
pub mod strorder;
pub mod recovery;
pub mod path;
pub mod calendar;
pub mod store;
pub mod catalog;
pub mod query_engine;
pub mod chunk_writer;
pub mod replay;
pub mod cache;
pub mod write_plan;
pub mod legacy;
pub mod repair;
pub mod overlap;
pub mod scan;
pub mod validate;
pub mod manifest_cache;
pub mod inventory;
pub mod predicate_scan;

pub use error::{FastKError, Result};
