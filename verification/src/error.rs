//! What can go wrong while a file is read.

use vstd::prelude::*;

verus! {

/// An I/O error of the standard library, carried through unread.
#[verifier::external_type_specification]
#[verifier::external_body]
pub struct ExIoError(std::io::Error);

/// The ways in which reading fails.
///
/// `NotYielded` is the soft one: an element lacked what is required of it,
/// and the reader goes on behind it. The others end the run.
#[derive(Debug)]
pub enum DataError {
    /// The source could not be read.
    Io { source: std::io::Error },
    /// An element did not give a complete item.
    NotYielded,
    /// The tokenizer failed, or the input ended inside an element.
    XML { quick_xml: quick_xml::Error },
    /// A position was not two numbers of degrees.
    LatLon { text: String },
}

impl DataError {
    /// The error in words.
    pub open spec fn message_text(self) -> Seq<char> {
        match self {
            DataError::Io { .. } => "I/O error"@,
            DataError::NotYielded => "No item was yielded"@,
            DataError::XML { .. } => "XML error"@,
            DataError::LatLon { .. } => "LatLon fail"@,
        }
    }

    /// The error in words.
    pub fn message(&self) -> (text: &'static str)
        ensures
            text@ == self.message_text(),
    {
        match self {
            DataError::Io { .. } => "I/O error",
            DataError::NotYielded => "No item was yielded",
            DataError::XML { .. } => "XML error",
            DataError::LatLon { .. } => "LatLon fail",
        }
    }
}

impl From<quick_xml::Error> for DataError {
    fn from(e: quick_xml::Error) -> (r: DataError) {
        DataError::XML { quick_xml: e }
    }
}

impl vstd::std_specs::convert::FromSpecImpl<quick_xml::Error> for DataError {
    open spec fn obeys_from_spec() -> bool {
        true
    }

    open spec fn from_spec(e: quick_xml::Error) -> DataError {
        DataError::XML { quick_xml: e }
    }
}

impl From<std::io::Error> for DataError {
    fn from(e: std::io::Error) -> (r: DataError) {
        DataError::Io { source: e }
    }
}

impl vstd::std_specs::convert::FromSpecImpl<std::io::Error> for DataError {
    open spec fn obeys_from_spec() -> bool {
        true
    }

    open spec fn from_spec(e: std::io::Error) -> DataError {
        DataError::Io { source: e }
    }
}

} // verus!
