//! Errors of RegXML fragment and schema generation.
use vstd::prelude::*;

use crate::mxf::error::{mxf_error_text, MxfError};
use crate::text::{append_str, push_lit, string_of};
use crate::types::auid::spec_auid_urn;
use crate::types::Auid;

verus! {

#[derive(Debug)]
pub enum FragmentError {
    /// Unknown group.
    UnknownGroup(Auid),
    /// Unknown property.
    UnknownProperty(Auid),
    /// MXF error.
    Mxf(MxfError),
    /// XML write error, with its message.
    Xml(String),
    /// A handler aborted on an event; holds the event's reason.
    Fatal(String),
    /// Unsupported type variant.
    UnsupportedType(String),
}


/// The message of a [`FragmentError`].
pub open spec fn fragment_error_text(e: FragmentError) -> Seq<char> {
    match e {
        FragmentError::UnknownGroup(a) => "unknown group: "@ + spec_auid_urn(a),
        FragmentError::UnknownProperty(a) => "unknown property: "@ + spec_auid_urn(a),
        FragmentError::Mxf(m) => "MXF error: "@ + mxf_error_text(m),
        FragmentError::Xml(m) => "XML write error: "@ + m@,
        FragmentError::Fatal(m) => "fatal event: "@ + m@,
        FragmentError::UnsupportedType(m) => "unsupported type variant: "@ + m@,
    }
}

impl FragmentError {
    /// The error's message.
    pub fn to_string(&self) -> (r: String)
        ensures
            r@ == fragment_error_text(*self),
    {
        let mut out: Vec<char> = Vec::new();
        match self {
            FragmentError::UnknownGroup(a) => {
                push_lit(&mut out, "unknown group: ");
                append_str(&mut out, a.to_string().as_str());
            },
            FragmentError::UnknownProperty(a) => {
                push_lit(&mut out, "unknown property: ");
                append_str(&mut out, a.to_string().as_str());
            },
            FragmentError::Mxf(m) => {
                push_lit(&mut out, "MXF error: ");
                append_str(&mut out, m.to_string().as_str());
            },
            FragmentError::Xml(m) => {
                push_lit(&mut out, "XML write error: ");
                append_str(&mut out, m.as_str());
            },
            FragmentError::Fatal(m) => {
                push_lit(&mut out, "fatal event: ");
                append_str(&mut out, m.as_str());
            },
            FragmentError::UnsupportedType(m) => {
                push_lit(&mut out, "unsupported type variant: ");
                append_str(&mut out, m.as_str());
            },
        }
        string_of(&out)
    }
}

} // verus!
