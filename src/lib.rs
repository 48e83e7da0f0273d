//! Heuristic extraction of structure from free-text log lines: a severity,
//! a logger name, a residual message and typed `key=value` pairs.
mod text;
pub mod humantime;
pub mod value;
pub mod record;
pub mod logfmt;
pub mod fast;

pub use humantime::{parse_duration, Duration, Error};
pub use logfmt::parse_logfmt;
pub use record::{InnerStrategy, Log, Parser, Strategy};
pub use value::DataValue;
