//! A verified reader for Racelogic VBOX `.vbo` telemetry logs.
//!
//! The parser reads the sectioned ASCII format line by line, keeps header metadata by section,
//! and stores every data value as the numeric literal that was logged, row-major. Its
//! behaviour is specified in `parser::step` (one line) and `parser::parse_input` (a whole
//! input); the telemetry helpers decide channel roles, unit labels and flag bits.

pub mod analysis;
pub mod export;
pub mod laws;
pub mod lines;
pub mod number;
pub mod parser;
pub mod section;
pub mod telemetry;
pub mod text;
pub mod types;

pub use analysis::{event_order, AnalysisError, GateDirection, GateEvent, LapStep, LapTracker, Side};
pub use export::escape_xml;
pub use lines::LineAccumulator;
pub use number::is_float_literal;
pub use parser::{FloatParser, ParseOptions, Parser, StreamParser};
pub use section::Section;
pub use telemetry::{
    find_channel, AccelerationUnit, AngularRateUnit, CoordinateAxis, CoordinateFormat,
    LengthUnit, SatelliteQuality, SpeedUnit,
};
pub use text::{channel_key, normalise};
pub use types::{
    Channel, Header, HeaderSection, ParseError, ParseIssue, ParseIssueKind, ParseReport,
    SampleRef, StreamReport, Vbo,
};
