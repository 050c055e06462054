//! Verified core of a core-to-core latency benchmark.

pub mod args;
pub mod bench;
pub mod brevity;
pub mod cells;
pub mod double;
pub mod exchange;
pub mod ids;
pub mod messages;
pub mod numa;
pub mod number;
pub mod report;
pub mod select;
pub mod stats;
pub mod style;
pub mod sweep;
pub mod text;
pub mod timing;
pub mod whole;
