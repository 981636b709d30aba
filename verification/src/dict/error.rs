//! Errors of metadictionary reading and writing.
use vstd::prelude::*;

use crate::text::{append_str, push_lit, string_of};

verus! {

#[derive(Debug, Clone, PartialEq, Eq)]
pub enum DictError {
    /// XML parse error, with its message.
    Xml(String),
    /// Duplicate definition.
    DuplicateDefinition(String),
    /// Missing required field (first) in entry (second).
    MissingField(&'static str, String),
    /// Unknown TypeKind.
    UnknownTypeKind(String),
    /// I/O error, with its message.
    Io(String),
}

/// A [`DictError`] as plain values.
pub enum DictErrorView {
    Xml(Seq<char>),
    DuplicateDefinition(Seq<char>),
    MissingField(Seq<char>, Seq<char>),
    UnknownTypeKind(Seq<char>),
    Io(Seq<char>),
}

impl View for DictError {
    type V = DictErrorView;

    open spec fn view(&self) -> DictErrorView {
        match self {
            DictError::Xml(m) => DictErrorView::Xml(m@),
            DictError::DuplicateDefinition(m) => DictErrorView::DuplicateDefinition(m@),
            DictError::MissingField(f, c) => DictErrorView::MissingField(f@, c@),
            DictError::UnknownTypeKind(m) => DictErrorView::UnknownTypeKind(m@),
            DictError::Io(m) => DictErrorView::Io(m@),
        }
    }
}

/// The message of a [`DictError`].
pub open spec fn dict_error_text(e: DictErrorView) -> Seq<char> {
    match e {
        DictErrorView::Xml(m) => "XML parse error: "@ + m,
        DictErrorView::DuplicateDefinition(m) => "duplicate definition: "@ + m,
        DictErrorView::MissingField(f, c) => "missing required field '"@ + f + "' in entry '"@ + c
            + "'"@,
        DictErrorView::UnknownTypeKind(m) => "unknown TypeKind '"@ + m + "'"@,
        DictErrorView::Io(m) => "I/O error: "@ + m,
    }
}

impl DictError {
    /// The error's message.
    pub fn to_string(&self) -> (r: String)
        ensures
            r@ == dict_error_text(self@),
    {
        let mut out: Vec<char> = Vec::new();
        match self {
            DictError::Xml(m) => {
                push_lit(&mut out, "XML parse error: ");
                append_str(&mut out, m.as_str());
            },
            DictError::DuplicateDefinition(m) => {
                push_lit(&mut out, "duplicate definition: ");
                append_str(&mut out, m.as_str());
            },
            DictError::MissingField(f, c) => {
                push_lit(&mut out, "missing required field '");
                append_str(&mut out, f);
                push_lit(&mut out, "' in entry '");
                append_str(&mut out, c.as_str());
                push_lit(&mut out, "'");
            },
            DictError::UnknownTypeKind(m) => {
                push_lit(&mut out, "unknown TypeKind '");
                append_str(&mut out, m.as_str());
                push_lit(&mut out, "'");
            },
            DictError::Io(m) => {
                push_lit(&mut out, "I/O error: ");
                append_str(&mut out, m.as_str());
            },
        }
        proof {
            let v = self@;
            if let DictErrorView::MissingField(f, c) = v {
                assert(out@ =~= dict_error_text(v));
            }
        }
        string_of(&out)
    }
}

} // verus!
