//! The configuration of a conversion job.

use vstd::prelude::*;
use crate::pointer::JsonPointer;
use crate::repository::Repository;

verus! {

/// The direction of a conversion job: which format is read and which is written.
#[derive(Clone, Copy, Debug, PartialEq, Eq)]
pub enum Mapping {
    OBv3ToELM,
    ELMToOBv3,
}

impl Mapping {
    /// The name of the format that the job reads.
    pub open spec fn input(self) -> Seq<char> {
        match self {
            Mapping::OBv3ToELM => "OBv3"@,
            Mapping::ELMToOBv3 => "ELM"@,
        }
    }

    /// The name of the format that the job writes.
    pub open spec fn output(self) -> Seq<char> {
        match self {
            Mapping::OBv3ToELM => "ELM"@,
            Mapping::ELMToOBv3 => "OBv3"@,
        }
    }

    pub fn input_format(&self) -> (format: String)
        ensures
            format@ == self.input(),
    {
        match self {
            Mapping::OBv3ToELM => String::from_str("OBv3"),
            Mapping::ELMToOBv3 => String::from_str("ELM"),
        }
    }

    pub fn output_format(&self) -> (format: String)
        ensures
            format@ == self.output(),
    {
        match self {
            Mapping::OBv3ToELM => String::from_str("ELM"),
            Mapping::ELMToOBv3 => String::from_str("OBv3"),
        }
    }
}

impl Default for Mapping {
    fn default() -> (mapping: Mapping)
        ensures
            mapping == Mapping::OBv3ToELM,
    {
        Mapping::OBv3ToELM
    }
}

/// The state of a conversion job that is edited by hand: its documents, its
/// direction, the address that is being edited, and the value proposed for
/// it, as JSON text.
pub struct AppState {
    pub repository: Repository,
    pub mapping: Mapping,
    pub output_pointer: JsonPointer,
    pub candidate_output_value: String,
}

} // verus!
