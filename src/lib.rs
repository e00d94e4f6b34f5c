//! Reading and writing digital ink in the InkML dialect: a streaming parser that resolves
//! contexts, channels, brushes and compact trace payloads into exact samples, a
//! canonicalizer to physical units, and an emitter that deduplicates brushes.
pub mod text;
pub mod error;
pub mod vocab;
pub mod number;
pub mod trace_data;
pub mod context;
pub mod brushes;
pub mod xml_helpers;
pub mod parser;
pub mod writer;

pub use brushes::Brush;
pub use error::InkError;
pub use parser::{parse_formatted, parser, ParserResult};
pub use trace_data::FormattedStroke;
pub use writer::writer;
