//! The outcome of calling a Luau function from Rust.
use vstd::prelude::*;

verus! {

/// The outcome of calling a Luau function from Rust.
///
/// The host logs every `ScriptError` before handing it back: the engine only
/// decides how to react.
#[derive(Debug)]
pub enum CallResult<T> {
    /// The function ran and its return value converted to `T`.
    Returned(T),
    /// The function is not defined in the script: an expected no-op, the
    /// engine applies its default behaviour (a card with no
    /// `when_leaves_battlefield`, say).
    FunctionNotFound,
    /// The function ran, or was to run, and something went wrong.
    ScriptError(LuaScriptError),
}

/// What went wrong in a script.
#[derive(Debug)]
pub enum LuaScriptError {
    /// A Luau runtime error (nil index, type error, explicit `error()`, ...).
    RuntimeError(String),
    /// The function returned a value that could not be converted to `T`.
    ConversionError(String),
}

/// The value of a call, if it ran: enables
/// `manager.call(...).into().unwrap_or(default)` where a failure is not
/// critical.
impl<T> From<CallResult<T>> for Option<T> {
    fn from(r: CallResult<T>) -> (res: Option<T>) {
        match r {
            CallResult::Returned(v) => Some(v),
            _ => None,
        }
    }
}

impl<T> vstd::std_specs::convert::FromSpecImpl<CallResult<T>> for Option<T> {
    open spec fn obeys_from_spec() -> bool {
        true
    }

    open spec fn from_spec(r: CallResult<T>) -> Option<T> {
        match r {
            CallResult::Returned(v) => Some(v),
            _ => None,
        }
    }
}

} // verus!
