//! The atomic unit of the wire format: one line's worth of tagged
//! length/data signal.

use vstd::prelude::*;

verus! {

/// One record of the wire format. A record may carry a length
/// announcement, a data byte, both, or neither; the two signals are
/// independent.
#[derive(Clone, Copy, Debug, PartialEq, Eq, Structural)]
pub struct DataLine {
    /// True if this record carries a new length announcement.
    pub length_valid: bool,
    /// How many subsequent data bytes belong to the next message;
    /// meaningful only when `length_valid` is true.
    pub length: u32,
    /// True if this record carries a data byte.
    pub data_valid: bool,
    /// The data byte; meaningful only when `data_valid` is true.
    pub data: u8,
}

/// The record that announces a message of `length` data bytes.
pub open spec fn spec_length_record(length: u32) -> DataLine {
    DataLine { length_valid: true, length, data_valid: false, data: 0 }
}

/// The record that carries the single data byte `data`.
pub open spec fn spec_data_record(data: u8) -> DataLine {
    DataLine { length_valid: false, length: 0, data_valid: true, data }
}

impl DataLine {
    /// Builds the record announcing a message of `length` data bytes.
    pub fn length_record(length: u32) -> (r: DataLine)
        ensures
            r == spec_length_record(length),
    {
        DataLine { length_valid: true, length, data_valid: false, data: 0 }
    }

    /// Builds the record carrying the single data byte `data`.
    pub fn data_record(data: u8) -> (r: DataLine)
        ensures
            r == spec_data_record(data),
    {
        DataLine { length_valid: false, length: 0, data_valid: true, data }
    }
}

impl From<u8> for DataLine {
    /// A bare byte converts to the record that carries it as data.
    fn from(value: u8) -> (r: DataLine) {
        DataLine { length_valid: false, length: 0, data_valid: true, data: value }
    }
}

impl vstd::std_specs::convert::FromSpecImpl<u8> for DataLine {
    open spec fn obeys_from_spec() -> bool {
        true
    }

    open spec fn from_spec(value: u8) -> DataLine {
        spec_data_record(value)
    }
}

} // verus!
