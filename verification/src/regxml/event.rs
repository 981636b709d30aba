//! Events that the fragment builder reports, and the handler that decides
//! whether to go on.
use vstd::prelude::*;

verus! {

/// Severity level of a fragment builder event.
#[derive(Debug, Clone, Copy, PartialEq, Eq)]
pub enum EventSeverity {
    Info,
    Warn,
    Error,
    Fatal,
}

/// Identifies the type of anomaly detected during fragment building.
#[derive(Debug, Clone, Copy, PartialEq, Eq)]
pub enum EventCode {
    UnknownGroup,
    UnknownProperty,
    VersionByteMismatch,
    UnexpectedDefinition,
    CircularStrongReference,
    MissingRootObject,
    MissingPartitionPack,
    MissingPrimerPack,
    MalformedSet,
}

/// An event emitted by the fragment builder during processing.
#[derive(Debug, Clone)]
pub struct FragmentEvent {
    pub code: EventCode,
    pub severity: EventSeverity,
    pub reason: String,
    pub location: String,
}

/// An event as values: its code, severity, location and reason.
pub type EventView = (EventCode, EventSeverity, Seq<char>, Seq<char>);

impl FragmentEvent {
    /// The event with these fields.
    pub fn new(code: EventCode, severity: EventSeverity, location: String, reason: &str) -> (e: FragmentEvent)
        ensures
            e.code == code,
            e.severity == severity,
            e.location@ == location@,
            e.reason@ == reason@,
    {
        FragmentEvent { code, severity, location, reason: String::from_str(reason) }
    }

    /// The event as values.
    pub open spec fn view_tuple(self) -> EventView {
        (self.code, self.severity, self.location@, self.reason@)
    }
}

/// Decision returned by an event handler.
#[derive(Debug, Clone, Copy, PartialEq, Eq)]
pub enum EventHandlerDecision {
    Continue,
    Abort,
}

/// Callback interface for fragment builder events.
pub trait EventHandler {
    fn handle(&mut self, event: &FragmentEvent) -> EventHandlerDecision;
}

/// A handler that goes on after every event.
pub struct NoEventHandler;

impl EventHandler for NoEventHandler {
    fn handle(&mut self, event: &FragmentEvent) -> (r: EventHandlerDecision)
        ensures
            r == EventHandlerDecision::Continue,
    {
        EventHandlerDecision::Continue
    }
}

} // verus!
