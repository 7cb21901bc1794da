pub mod dates;
pub mod day_one;
pub mod text;
pub mod time_tree;

use vstd::prelude::*;

verus! {

/// Why a journal export could not be decoded.
#[derive(Clone, Copy, PartialEq, Eq, Debug)]
pub enum DecodeError {
    /// A creation date did not match the fixed `YYYY-MM-DDTHH:MM:SSZ` format.
    Timestamp,
    /// A weather record named a lunar phase outside the fixed eight-code table.
    MoonPhase,
}

} // verus!
