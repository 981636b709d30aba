//! RegXML fragment builder and XML schema generator (SMPTE ST 2001-1).
//!
//! Provides [`FragmentBuilder`] (converts MXF header metadata sets to RegXML),
//! [`MxfFragmentBuilder`] (orchestrates the MXF-to-RegXML pipeline), and
//! [`XmlSchemaBuilder`] (derives an XSD from a metadictionary).
pub mod descriptor;
pub mod error;
pub mod event;
pub mod fragment;
pub mod mxf_fragment;
pub mod order;
pub mod schema;
pub mod values;

pub use error::FragmentError;
pub use event::{EventCode, EventHandler, EventHandlerDecision, EventSeverity, FragmentEvent, NoEventHandler};

pub use schema::XmlSchemaBuilder;
