//! The control operators `if`, `sel` and `loop`: each decides which block
//! the evaluator runs next.

use crate::binding::{block_in, block_of};
use crate::compare::{equal_values, values_equal};
use crate::container::{name_of, named, no_name, no_name_error};
use crate::effect::{Applied, AppliedView, applied_outcome};
use crate::environment::Environment;
use crate::error::{LCoreError, Signal, missing, missing_arguments};
use crate::text::{debug_name, debug_name_of};
use crate::value::{Datum, Value, clone_all, views};
use vstd::prelude::*;

verus! {

/// The error for an operand that should be a quoted block.
pub open spec fn no_block(d: Datum) -> Signal {
    Signal::Argument("ArgumentError: Not a quoted block ("@ + debug_name_of(d) + ")"@)
}

/// The block that an operand gives to run, or the error if it is no quoted
/// block.
pub open spec fn run_of(d: Datum) -> Result<AppliedView, Signal> {
    match block_of(d) {
        Some(tokens) => Ok(AppliedView::Block(tokens)),
        None => Err(no_block(d)),
    }
}

/// The block that `v` gives to run.
pub fn run_block(v: &Value) -> (r: Result<Applied, LCoreError>)
    ensures
        applied_outcome(r) == run_of(v@),
{
    match block_in(v) {
        Some(tokens) => Ok(Applied::Block(clone_all(tokens))),
        None => {
            let mut msg = String::from_str("ArgumentError: Not a quoted block (");
            msg.append(debug_name(v));
            msg.append(")");
            Err(LCoreError::ArgumentError(msg))
        },
    }
}

/// What `if` calls for: the second argument's block where the condition is
/// true; where it is false the third argument's block, or `Null` if there is
/// none or it is `Null`.
pub open spec fn if_of(args: Seq<Datum>) -> Result<AppliedView, Signal> {
    if args.len() < 2 {
        Err(Signal::Argument(missing("if"@, args.len(), 2)))
    } else {
        match args[0] {
            Datum::Boolean(condition) => if condition {
                run_of(args[1])
            } else if args.len() > 2 && !(args[2] is Null) {
                run_of(args[2])
            } else {
                Ok(AppliedView::Value(Datum::Null))
            },
            _ => Err(
                Signal::Argument(
                    "ArgumentError: Not a boolean ("@ + debug_name_of(args[0]) + ")"@,
                ),
            ),
        }
    }
}

/// `if`.
pub fn lcore_if(args: &mut Value, symbol_table: &mut Environment) -> (r: Result<
    Applied,
    LCoreError,
>)
    requires
        *old(args) is Array,
    ensures
        final(args)@ == old(args)@,
        final(symbol_table)@ == old(symbol_table)@,
        applied_outcome(r) == if_of(old(args)@->Array_0),
{
    let items = args.as_array();
    if items.len() < 2 {
        return Err(missing_arguments("if", items.len(), 2));
    }
    match &items[0] {
        Value::Boolean(condition) => {
            if *condition {
                run_block(&items[1])
            } else if items.len() > 2 {
                match &items[2] {
                    Value::Null => Ok(Applied::Value(Value::Null)),
                    other => run_block(other),
                }
            } else {
                Ok(Applied::Value(Value::Null))
            }
        },
        other => {
            let mut msg = String::from_str("ArgumentError: Not a boolean (");
            msg.append(debug_name(other));
            msg.append(")");
            Err(LCoreError::ArgumentError(msg))
        },
    }
}

/// Whether a case of `sel` is the default: the quoted identifier `default`.
pub open spec fn is_default(d: Datum) -> bool {
    d matches Datum::Quote(inner) && *inner == Datum::Identifier("default"@)
}

/// What `sel` calls for, trying the cases from argument `from` on: the block
/// of the first case that is the default or equals the key; `Null` if there
/// is none. A case is a value and the block after it.
pub open spec fn sel_from(args: Seq<Datum>, from: nat) -> Result<AppliedView, Signal>
    decreases args.len() - from,
{
    if from + 1 >= args.len() {
        Ok(AppliedView::Value(Datum::Null))
    } else if is_default(args[from as int]) || equal_values(args[0], args[from as int]) == Ok::<
        bool,
        Signal,
    >(true) {
        run_of(args[from as int + 1])
    } else {
        sel_from(args, from + 2)
    }
}

/// What `sel` calls for.
pub open spec fn sel_of(args: Seq<Datum>) -> Result<AppliedView, Signal> {
    if args.len() < 1 {
        Err(Signal::Argument(missing("sel"@, 0, 1)))
    } else {
        sel_from(args, 1)
    }
}

/// Whether `v` is the default case of `sel`.
pub fn check_default(v: &Value) -> (r: bool)
    ensures
        r == is_default(v@),
{
    match v {
        Value::Quote(q) => {
            let inner: &Value = &**q;
            assert(v@ == Datum::Quote(Box::new(inner@)));
            match inner {
                Value::Identifier(name) => {
                    let wanted = String::from_str("default");
                    *name == wanted
                },
                _ => {
                    false
                },
            }
        },
        _ => false,
    }
}

/// `sel`.
pub fn lcore_sel(args: &mut Value, symbol_table: &mut Environment) -> (r: Result<
    Applied,
    LCoreError,
>)
    requires
        *old(args) is Array,
    ensures
        final(args)@ == old(args)@,
        final(symbol_table)@ == old(symbol_table)@,
        applied_outcome(r) == sel_of(old(args)@->Array_0),
{
    let items = args.as_array();
    if items.len() < 1 {
        return Err(missing_arguments("sel", 0, 1));
    }
    let ghost data = views(items@);
    let mut i: usize = 1;
    while i < items.len() && i + 1 < items.len()
        invariant
            1 <= i,
            data == views(items@),
            old(args)@ == Datum::Array(data),
            data.len() == items@.len(),
            data.len() >= 1,
            sel_of(data) == sel_from(data, i as nat),
        decreases items@.len() - i,
    {
        let chosen = check_default(&items[i]) || match values_equal(&items[0], &items[i]) {
            Ok(b) => b,
            Err(_) => false,
        };
        if chosen {
            return run_block(&items[i + 1]);
        }
        i += 2;
    }
    Ok(Applied::Value(Value::Null))
}

/// What `loop` calls for: the block of its third argument, run as often as
/// its second argument says, with the name of its first argument bound to
/// the number of the run.
pub open spec fn loop_of(args: Seq<Datum>) -> Result<AppliedView, Signal> {
    if args.len() < 3 {
        Err(Signal::Argument(missing("loop"@, args.len(), 3)))
    } else {
        match named(args[0]) {
            None => Err(no_name("loop"@, args[0])),
            Some(var) => match args[1] {
                Datum::Int(count) => match block_of(args[2]) {
                    Some(body) => Ok(AppliedView::Loop { var, count, body }),
                    None => Err(no_block(args[2])),
                },
                _ => Err(
                    Signal::Argument(
                        "ArgumentError: Not a count ("@ + debug_name_of(args[1]) + ")"@,
                    ),
                ),
            },
        }
    }
}

/// `loop`.
pub fn lcore_loop(args: &mut Value, symbol_table: &mut Environment) -> (r: Result<
    Applied,
    LCoreError,
>)
    requires
        *old(args) is Array,
    ensures
        final(args)@ == old(args)@,
        final(symbol_table)@ == old(symbol_table)@,
        applied_outcome(r) == loop_of(old(args)@->Array_0),
{
    let items = args.as_array();
    if items.len() < 3 {
        return Err(missing_arguments("loop", items.len(), 3));
    }
    let var = match name_of(&items[0]) {
        Some(var) => var,
        None => {
            return Err(no_name_error("loop", &items[0]));
        },
    };
    match &items[1] {
        Value::Int(count) => match run_block(&items[2]) {
            Ok(Applied::Block(body)) => Ok(
                Applied::Loop { var: var.clone(), count: *count, body },
            ),
            Ok(other) => Ok(other),
            Err(e) => Err(e),
        },
        other => {
            let mut msg = String::from_str("ArgumentError: Not a count (");
            msg.append(debug_name(other));
            msg.append(")");
            Err(LCoreError::ArgumentError(msg))
        },
    }
}

} // verus!
