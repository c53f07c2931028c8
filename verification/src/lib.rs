//! Reading and writing of the eXtensible Event Stream (XES) format: an
//! XML-based representation of event logs, where a log holds traces, a trace
//! holds an ordered sequence of events, and logs, traces and events all
//! carry typed, possibly nested attributes.
//!
//! The read path turns document text into [`Log`] values through a plain
//! XML element tree; the write path turns a [`Log`] into balanced markup
//! events and then bytes. Parsing and serialization are verified against
//! spec-level definitions, and the round-trip laws in [`roundtrip`] prove
//! that parsing a serialized log yields the log back.

pub mod ontology;
pub mod text;
pub mod xml;
pub mod parser;
pub mod writer;
pub mod roundtrip;

pub use ontology::Attribute;
pub use ontology::Event;
pub use ontology::Extension;
pub use ontology::Log;
pub use ontology::Trace;
pub use ontology::XesError;
pub use parser::parse_document;
pub use parser::parse_logs;
pub use parser::parse_attribute;
pub use parser::parse_event;
pub use parser::parse_trace;
pub use parser::parse_log;
pub use writer::log_to_bytes;
pub use writer::write_log;
pub use writer::write_trace;
pub use writer::write_event;
pub use writer::write_attribute;
pub use writer::write_extension;
pub use xml::MarkupEvent;
pub use xml::XmlElement;
