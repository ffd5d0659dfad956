//! Conformance of a transport stream against the rules that a
//! multiplexer must keep.
pub mod discovery;
pub mod framing;
pub mod pcr;
pub mod pcr_laws;
pub mod report;
pub mod rule_laws;
pub mod splice;
pub mod stream;

pub use pcr::{PcrReport, MAX_PCR_INTERVAL_27MHZ};
pub use report::{validate_ts, PidReport, TsValidationReport, ViolationCounts};
