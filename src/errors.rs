use vstd::prelude::*;
use vstd::string::StringExecFns;

verus! {

/// The kinds of failure of parsing and of the dataset comparison.
#[derive(Debug, Clone, Copy, PartialEq, Eq, Structural)]
pub enum JsonDiffErrorType {
    InvalidStructureObjectKey,
    PropertyMissing,
    InvalidStructureUnclosed,
    InvalidStructureUnexpectedToken,
    InvalidStructureInvalidNumber,
}

#[derive(Debug, Clone, Copy, PartialEq, Eq, Structural)]
pub struct JsonDiffError {
    pub error_type: JsonDiffErrorType,
}

pub open spec fn error_message(t: JsonDiffErrorType) -> Seq<char> {
    match t {
        JsonDiffErrorType::InvalidStructureObjectKey => "Invalid object key: expected string key in object"@,
        JsonDiffErrorType::PropertyMissing => "Property missing"@,
        JsonDiffErrorType::InvalidStructureUnclosed => "Invalid structure: unclosed object or array"@,
        JsonDiffErrorType::InvalidStructureUnexpectedToken => "Invalid structure: unexpected token"@,
        JsonDiffErrorType::InvalidStructureInvalidNumber => "Invalid structure: invalid number"@,
    }
}

/// Position of the kind in the declaration order.
pub open spec fn error_index(t: JsonDiffErrorType) -> i8 {
    match t {
        JsonDiffErrorType::InvalidStructureObjectKey => 0,
        JsonDiffErrorType::PropertyMissing => 1,
        JsonDiffErrorType::InvalidStructureUnclosed => 2,
        JsonDiffErrorType::InvalidStructureUnexpectedToken => 3,
        JsonDiffErrorType::InvalidStructureInvalidNumber => 4,
    }
}

impl JsonDiffErrorType {
    /// A human-readable description of the kind.
    pub fn message(&self) -> (r: String)
        ensures
            r@ == error_message(*self),
    {
        match self {
            JsonDiffErrorType::InvalidStructureObjectKey => String::from_str(
                "Invalid object key: expected string key in object",
            ),
            JsonDiffErrorType::PropertyMissing => String::from_str("Property missing"),
            JsonDiffErrorType::InvalidStructureUnclosed => String::from_str(
                "Invalid structure: unclosed object or array",
            ),
            JsonDiffErrorType::InvalidStructureUnexpectedToken => String::from_str(
                "Invalid structure: unexpected token",
            ),
            JsonDiffErrorType::InvalidStructureInvalidNumber => String::from_str(
                "Invalid structure: invalid number",
            ),
        }
    }

    /// The kind's position in the declaration order, from 0.
    pub fn index(&self) -> (r: i8)
        ensures
            r == error_index(*self),
    {
        match self {
            JsonDiffErrorType::InvalidStructureObjectKey => 0,
            JsonDiffErrorType::PropertyMissing => 1,
            JsonDiffErrorType::InvalidStructureUnclosed => 2,
            JsonDiffErrorType::InvalidStructureUnexpectedToken => 3,
            JsonDiffErrorType::InvalidStructureInvalidNumber => 4,
        }
    }
}

impl JsonDiffError {
    pub fn message(&self) -> (r: String)
        ensures
            r@ == error_message(self.error_type),
    {
        self.error_type.message()
    }

    /// The negative number that reports this error where a count of bytes
    /// is expected: -1 minus the kind's index.
    pub fn sentinel(&self) -> (r: i32)
        ensures
            r == -1 - error_index(self.error_type),
            r < 0,
    {
        -1 - (self.error_type.index() as i32)
    }
}

} // verus!
