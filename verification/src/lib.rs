//! Bounded stores for two numeric streams, and the line framing and
//! tokenising that feed them.

pub mod framing;
pub mod measurement;
pub mod parsing;
pub mod spectrum;
pub mod text;
pub mod timeseries;

pub use framing::LineFramer;
pub use measurement::Measurement;
pub use spectrum::FFTPlot;
pub use timeseries::TimeSeriesPlot;
