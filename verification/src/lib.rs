use vstd::prelude::*;

pub mod int_math;
pub mod java_rng;
pub mod slime_lib;
pub mod slime_chunk;
pub mod pattern;
pub mod text;
pub mod preprocess;
pub mod bits;
pub mod matcher;
pub mod config;
pub mod grid;
pub mod grid_laws;
pub mod counter;
pub mod count_order;
pub mod matcher_output;
pub mod table_laws;
pub mod info;
pub mod timer;
pub mod stats;
pub mod seed_map;
pub mod seed_map_laws;
pub mod report;
pub mod report_laws;

verus! {
} // verus!
