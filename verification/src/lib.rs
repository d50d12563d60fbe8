//! Post-mortem analysis of spanning tree captures.

pub mod analyzer;
pub mod binary64;
pub mod bytes;
pub mod captures;
pub mod causes;
pub mod event;
pub mod history;
pub mod net;
pub mod pcap;
pub mod pcapng;
pub mod report;
pub mod root_cause;
pub mod steps;
pub mod stp;
pub mod summary;
pub mod text;
pub mod time;

pub use analyzer::Timestamp;
pub use report::{analyze_pcap, FullReport};
