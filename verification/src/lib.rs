//! SMPTE RegXML toolkit: identifiers, KLV coding, MXF structure, RegXML
//! metadictionaries and fragment generation (SMPTE ST 2001-1).
pub mod text;
pub mod number;
pub mod types;
pub mod klv;
pub mod mxf;
pub mod dict;
pub mod xml;
pub mod regxml;
pub mod cli;

use vstd::prelude::*;

verus! {

} // verus!
