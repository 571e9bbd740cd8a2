//! The error kinds of the engine. Every one is fatal: the coordinator reports
//! it and the run ends.

use vstd::prelude::*;

verus! {

/// What went wrong during a monitoring run.
#[derive(Debug, Clone, Copy, PartialEq, Eq, Structural)]
pub enum EngineError {
    /// The intermediate representation is malformed or references unknown
    /// entities.
    SpecLoadError,
    /// A textual cell could not be parsed to the declared type of its input
    /// stream, and the run is strict.
    InputParseError,
    /// Integer overflow, division by zero, or a float operation that produced
    /// a NaN. The frontend's type checker rules out mixed-tag arithmetic, so a
    /// mixed-tag operation at run time is reported as the same fault.
    ArithmeticFault,
    /// An event-driven stream fired but a synchronously required value was
    /// absent.
    MissingRequiredValue,
    /// A timestamp of the input decreased while the clock is offline.
    ClockMonotonicityViolation,
}

impl EngineError {
    /// A short text for reports.
    pub fn describe(&self) -> (r: &'static str)
        ensures
            r@ == self.spec_describe(),
    {
        match self {
            EngineError::SpecLoadError => "specification could not be loaded",
            EngineError::InputParseError => "an input cell could not be parsed",
            EngineError::ArithmeticFault => "arithmetic fault",
            EngineError::MissingRequiredValue => "a required value was missing",
            EngineError::ClockMonotonicityViolation => "input timestamps are not monotone",
        }
    }

    /// The text `describe` returns.
    pub open spec fn spec_describe(&self) -> Seq<char> {
        match self {
            EngineError::SpecLoadError => "specification could not be loaded"@,
            EngineError::InputParseError => "an input cell could not be parsed"@,
            EngineError::ArithmeticFault => "arithmetic fault"@,
            EngineError::MissingRequiredValue => "a required value was missing"@,
            EngineError::ClockMonotonicityViolation => "input timestamps are not monotone"@,
        }
    }
}

} // verus!
