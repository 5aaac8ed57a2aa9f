//! The crate's error type.
//!
//! Every failure carries a descriptive message naming the offending region or
//! input, so a caller can report it without further context.

use vstd::prelude::*;
use vstd::string::*;

verus! {

/// A failure of region handling, coverage measurement or calibration.
#[derive(Debug)]
pub enum Error {
    /// A region was syntactically or arithmetically invalid.
    InvalidRegion,
    /// A failure that fits no other category.
    Unknown(String),
    /// A malformed row in a region list.
    BedInvalidRecord { msg: String },
    /// A failure while measuring depth over a region.
    Bedcov { msg: String },
    /// A failure of the calibration rules themselves.
    Calibration { msg: String },
}

/// The rendered form of an error, as a sequence of characters.
pub open spec fn error_text(e: Error) -> Seq<char> {
    match e {
        Error::InvalidRegion => "Invalid region specified"@,
        Error::Unknown(m) => "An unknown error occurred: "@ + m@,
        Error::BedInvalidRecord { msg } => "invalid BED record: "@ + msg@,
        Error::Bedcov { msg } => "bedcov error: "@ + msg@,
        Error::Calibration { msg } => "calibration error: "@ + msg@,
    }
}

impl Error {
    /// The error rendered as text.
    pub fn to_string(&self) -> (s: String)
        ensures
            s@ == error_text(*self),
    {
        match self {
            Error::InvalidRegion => String::from_str("Invalid region specified"),
            Error::Unknown(m) => String::from_str("An unknown error occurred: ").concat(
                m.as_str(),
            ),
            Error::BedInvalidRecord { msg } => String::from_str("invalid BED record: ").concat(
                msg.as_str(),
            ),
            Error::Bedcov { msg } => String::from_str("bedcov error: ").concat(msg.as_str()),
            Error::Calibration { msg } => String::from_str("calibration error: ").concat(
                msg.as_str(),
            ),
        }
    }
}

/// The crate-wide result type.
pub type Result<T> = core::result::Result<T, Error>;

} // verus!
