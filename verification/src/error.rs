//! The signals that an evaluation step can raise instead of a value.

#![allow(non_snake_case)]

use crate::text::{digits, push_digits};
use crate::value::{Datum, Value};
use vstd::prelude::*;

verus! {

/// A non-`Ok` outcome: an error with its message, or one of the control
/// signals `ReturnError` and `BreakError`, which travel by the same road.
#[derive(Debug)]
pub enum LCoreError {
    LambdaCoreError(String),
    IndexError(String),
    ArgumentError(String),
    NameError(String),
    ReturnError,
    BreakError,
}

/// What an `LCoreError` denotes: its kind and, for an error, its message.
pub enum Signal {
    Generic(Seq<char>),
    Index(Seq<char>),
    Argument(Seq<char>),
    Name(Seq<char>),
    Return,
    Break,
}

impl View for LCoreError {
    type V = Signal;

    open spec fn view(&self) -> Signal {
        match self {
            LCoreError::LambdaCoreError(m) => Signal::Generic(m@),
            LCoreError::IndexError(m) => Signal::Index(m@),
            LCoreError::ArgumentError(m) => Signal::Argument(m@),
            LCoreError::NameError(m) => Signal::Name(m@),
            LCoreError::ReturnError => Signal::Return,
            LCoreError::BreakError => Signal::Break,
        }
    }
}

impl Clone for LCoreError {
    fn clone(&self) -> (r: LCoreError)
        ensures
            r@ == self@,
    {
        match self {
            LCoreError::LambdaCoreError(m) => LCoreError::LambdaCoreError(m.clone()),
            LCoreError::IndexError(m) => LCoreError::IndexError(m.clone()),
            LCoreError::ArgumentError(m) => LCoreError::ArgumentError(m.clone()),
            LCoreError::NameError(m) => LCoreError::NameError(m.clone()),
            LCoreError::ReturnError => LCoreError::ReturnError,
            LCoreError::BreakError => LCoreError::BreakError,
        }
    }
}

impl Signal {
    /// True of the errors, and not of the control signals.
    pub open spec fn is_error(self) -> bool {
        !(self is Return) && !(self is Break)
    }
}

impl LCoreError {
    /// A failed step with a catch-all error.
    pub fn LambdaCore(msg: String) -> (r: Result<Value, LCoreError>)
        ensures
            r matches Err(e) && e@ == Signal::Generic(msg@),
    {
        Err(LCoreError::LambdaCoreError(msg))
    }

    /// A failed step with an index error.
    pub fn Index(msg: String) -> (r: Result<Value, LCoreError>)
        ensures
            r matches Err(e) && e@ == Signal::Index(msg@),
    {
        Err(LCoreError::IndexError(msg))
    }

    /// A failed step with an argument error.
    pub fn Argument(msg: String) -> (r: Result<Value, LCoreError>)
        ensures
            r matches Err(e) && e@ == Signal::Argument(msg@),
    {
        Err(LCoreError::ArgumentError(msg))
    }

    /// A failed step with a name error.
    pub fn Name(msg: String) -> (r: Result<Value, LCoreError>)
        ensures
            r matches Err(e) && e@ == Signal::Name(msg@),
    {
        Err(LCoreError::NameError(msg))
    }

    /// A step that unwinds to the enclosing user-function call.
    pub fn Return() -> (r: Result<Value, LCoreError>)
        ensures
            r matches Err(e) && e@ == Signal::Return,
    {
        Err(LCoreError::ReturnError)
    }

    /// A step that unwinds to the enclosing loop.
    pub fn Break() -> (r: Result<Value, LCoreError>)
        ensures
            r matches Err(e) && e@ == Signal::Break,
    {
        Err(LCoreError::BreakError)
    }
}

/// What the result of a step denotes.
pub open spec fn outcome(r: Result<Value, LCoreError>) -> Result<Datum, Signal> {
    match r {
        Ok(v) => Ok(v@),
        Err(e) => Err(e@),
    }
}

/// The message of the error for a call of the operator `name` with `have`
/// arguments where it takes at least `need`.
pub open spec fn missing(name: Seq<char>, have: nat, need: nat) -> Seq<char> {
    "ArgumentError: Not enough arguments on call to \""@ + name + "\": "@ + digits(have) + "/"@
        + digits(need)
}

/// The error for a call of the operator `name` with `have` arguments where
/// it takes at least `need`.
pub fn missing_arguments(name: &str, have: usize, need: usize) -> (e: LCoreError)
    ensures
        e@ == Signal::Argument(missing(name@, have as nat, need as nat)),
{
    let mut msg = String::from_str("ArgumentError: Not enough arguments on call to \"");
    msg.append(name);
    msg.append("\": ");
    push_digits(&mut msg, have as u64);
    msg.append("/");
    push_digits(&mut msg, need as u64);
    LCoreError::ArgumentError(msg)
}

} // verus!
