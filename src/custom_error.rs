use vstd::prelude::*;

verus! {

/// The single error channel of the calculator.
#[derive(Debug, Clone, Copy, PartialEq, Eq, Structural)]
#[non_exhaustive]
pub enum CustomError {
    MathOverflow,
    ParseIntError(IntErrorKindClone),
    FormatError,
    BadInput,
    DisplayError(DisplayErrorClone),
    CapacityError,
    UartReadError(ReadErrorTypeClone),
    Unimplemented,
    Impossible,
    Cancelled,
    Other,
}

/// Why a run of digits could not be read as an integer.
#[derive(Debug, Clone, Copy, PartialEq, Eq, Structural)]
pub enum IntErrorKindClone {
    Empty,
    InvalidDigit,
    PosOverflow,
    NegOverflow,
    Zero,
}

/// Failures reported by the display bus.
#[derive(Debug, Clone, Copy, PartialEq, Eq, Structural)]
pub enum DisplayErrorClone {
    InvalidFormatError,
    BusWriteError,
    DCError,
    CSError,
    DataFormatNotImplemented,
    RSError,
    OutOfBoundsError,
}

/// Failures reported by the serial receiver.
#[derive(Debug, Clone, Copy, PartialEq, Eq, Structural)]
pub enum ReadErrorTypeClone {
    Overrun,
    Break,
    Parity,
    Framing,
}

impl Default for CustomError {
    fn default() -> (r: Self)
        ensures
            r == CustomError::Other,
    {
        CustomError::Other
    }
}

impl CustomError {
    /// Errors after which the calculator keeps running with a redrawn display.
    pub open spec fn spec_is_recoverable(&self) -> bool {
        match self {
            CustomError::MathOverflow => true,
            CustomError::ParseIntError(_) => true,
            CustomError::CapacityError => true,
            CustomError::BadInput => true,
            _ => false,
        }
    }

    /// Parse failures, arithmetic overflow, capacity and bad input are recoverable;
    /// everything else is either a normal-flow cancellation or fatal.
    #[verifier::when_used_as_spec(spec_is_recoverable)]
    pub fn is_recoverable(&self) -> (r: bool)
        ensures
            r == self.spec_is_recoverable(),
    {
        match self {
            CustomError::MathOverflow => true,
            CustomError::ParseIntError(_) => true,
            CustomError::CapacityError => true,
            CustomError::BadInput => true,
            _ => false,
        }
    }
}

} // verus!
