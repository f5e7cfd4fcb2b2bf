//! Core of a small RPN calculator: fixed-point decimals, a bounded stack,
//! an editable input line and the two-mode input state machine.

pub mod calculator;
pub mod custom_error;
pub mod decfix;
pub mod input;
pub mod stack;
pub mod textbox;

pub use calculator::{parse_command, Calculator, Command, Key, Mode, Outcome, ENTRY_EXPONENT};
pub use custom_error::{CustomError, DisplayErrorClone, IntErrorKindClone, ReadErrorTypeClone};
pub use decfix::{DecimalFixed, DEFAULT_EXPONENT};
pub use input::KeyDecoder;
pub use stack::{CustomStack, MAX_STACK_SIZE};
pub use textbox::{CustomTextbox, TEXT_BUFFER_SIZE};
