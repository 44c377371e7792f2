//! A benchmark harness for streaming pipelines: the corpus every system under
//! test reads, the gates that decide whether it did the work, and the rules by
//! which runs are described, bounded and recorded.
use vstd::prelude::*;

pub mod avro;
pub mod bench;
pub mod calendar;
pub mod corpus;
pub mod dataset;
pub mod doubles;
pub mod driver;
pub mod entrant;
pub mod environment;
pub mod fetcher;
pub mod gates;
pub mod infra;
pub mod inserter;
pub mod kafka;
pub mod load;
pub mod registry;
pub mod reply;
pub mod report;
pub mod results;
pub mod rows;
pub mod sampler;
pub mod select;
pub mod table;
pub mod tables;
pub mod text;
pub mod wire;
pub mod workload;

verus! {

} // verus!
