//! Runtime of a function-timing tracer: span events, buffers that collect
//! them, a registry of named sessions, per-function statistics and a
//! Chrome trace export.

pub mod chrome_trace;
pub mod error;
pub mod interface;
pub mod statistics;
pub mod text;
pub mod trace;

pub use chrome_trace::{ChromeTraceExt, ChromeTraceRecordExt, ChromeTraceResult};
pub use error::TimedError;
pub use interface::{Hop, Phase, RecordBuffer, TraceCollectorChain, TraceRecord};
pub use statistics::{StatisticsExt, StatisticsRecord};
pub use trace::{Action, Registry, Trace};
