//! The logical operators `or`, `and` and `not`, which take truth values only.

use crate::compare::{pair_message, pair_text};
use crate::environment::Environment;
use crate::error::{LCoreError, Signal, missing, missing_arguments, outcome};
use crate::text::{debug_name, debug_name_of};
use crate::value::{Datum, Value};
use vstd::prelude::*;

verus! {

/// The error for two operands that are not both truth values.
pub open spec fn not_booleans(a: Datum, b: Datum) -> Signal {
    Signal::Argument(pair_message("ArgumentError: Not booleans ("@, a, b))
}

/// What `or` returns for its arguments.
pub open spec fn or_of(args: Seq<Datum>) -> Result<Datum, Signal> {
    if args.len() < 2 {
        Err(Signal::Argument(missing("or"@, args.len(), 2)))
    } else {
        match (args[0], args[1]) {
            (Datum::Boolean(a), Datum::Boolean(b)) => Ok(Datum::Boolean(a || b)),
            _ => Err(not_booleans(args[0], args[1])),
        }
    }
}

/// What `and` returns for its arguments.
pub open spec fn and_of(args: Seq<Datum>) -> Result<Datum, Signal> {
    if args.len() < 2 {
        Err(Signal::Argument(missing("and"@, args.len(), 2)))
    } else {
        match (args[0], args[1]) {
            (Datum::Boolean(a), Datum::Boolean(b)) => Ok(Datum::Boolean(a && b)),
            _ => Err(not_booleans(args[0], args[1])),
        }
    }
}

/// What `not` returns for its arguments.
pub open spec fn not_of(args: Seq<Datum>) -> Result<Datum, Signal> {
    if args.len() < 1 {
        Err(Signal::Argument(missing("not"@, 0, 1)))
    } else {
        match args[0] {
            Datum::Boolean(b) => Ok(Datum::Boolean(!b)),
            _ => Err(
                Signal::Argument(
                    "ArgumentError: Not a boolean ("@ + debug_name_of(args[0]) + ")"@,
                ),
            ),
        }
    }
}

/// `or`.
pub fn lcore_logical_or(args: &mut Value, symbol_table: &mut Environment) -> (r: Result<
    Value,
    LCoreError,
>)
    requires
        *old(args) is Array,
    ensures
        final(args)@ == old(args)@,
        final(symbol_table)@ == old(symbol_table)@,
        outcome(r) == or_of(old(args)@->Array_0),
{
    let items = args.as_array();
    if items.len() < 2 {
        return Err(missing_arguments("or", items.len(), 2));
    }
    match (&items[0], &items[1]) {
        (Value::Boolean(a), Value::Boolean(b)) => Ok(Value::Boolean(*a || *b)),
        (a, b) => Err(LCoreError::ArgumentError(pair_text("ArgumentError: Not booleans (", a, b))),
    }
}

/// `and`.
pub fn lcore_logical_and(args: &mut Value, symbol_table: &mut Environment) -> (r: Result<
    Value,
    LCoreError,
>)
    requires
        *old(args) is Array,
    ensures
        final(args)@ == old(args)@,
        final(symbol_table)@ == old(symbol_table)@,
        outcome(r) == and_of(old(args)@->Array_0),
{
    let items = args.as_array();
    if items.len() < 2 {
        return Err(missing_arguments("and", items.len(), 2));
    }
    match (&items[0], &items[1]) {
        (Value::Boolean(a), Value::Boolean(b)) => Ok(Value::Boolean(*a && *b)),
        (a, b) => Err(LCoreError::ArgumentError(pair_text("ArgumentError: Not booleans (", a, b))),
    }
}

/// `not`.
pub fn lcore_logical_not(args: &mut Value, symbol_table: &mut Environment) -> (r: Result<
    Value,
    LCoreError,
>)
    requires
        *old(args) is Array,
    ensures
        final(args)@ == old(args)@,
        final(symbol_table)@ == old(symbol_table)@,
        outcome(r) == not_of(old(args)@->Array_0),
{
    let items = args.as_array();
    if items.len() < 1 {
        return Err(missing_arguments("not", 0, 1));
    }
    match &items[0] {
        Value::Boolean(b) => Ok(Value::Boolean(!*b)),
        a => {
            let mut msg = String::from_str("ArgumentError: Not a boolean (");
            msg.append(debug_name(a));
            msg.append(")");
            Err(LCoreError::ArgumentError(msg))
        },
    }
}

} // verus!
