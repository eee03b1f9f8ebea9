//! The arithmetic operators `+`, `-`, `*`, `/` and `**`. Integers are
//! computed here, and an integer result that does not fit in 64 bits is an
//! error; for two doubles the operator names the work that the host does.

use crate::compare::{pair_message, pair_text};
use crate::effect::{Applied, AppliedView, FloatOp, applied_outcome};
use crate::environment::Environment;
use crate::error::{LCoreError, Signal, missing, missing_arguments};
use crate::keys::{
    all_well_keyed, applied_well_keyed, lemma_add_well_keyed, lemma_mul_well_keyed,
};
use crate::text::{decimal, push_decimal};
use crate::value::{Datum, Value, append_clones, views};
use vstd::prelude::*;

verus! {

/// Whether an integer fits in 64 bits.
pub open spec fn fits(i: int) -> bool {
    i64::MIN <= i <= i64::MAX
}

/// The error for an integer result that does not fit in 64 bits.
pub open spec fn overflow() -> Signal {
    Signal::Generic("LambdaCoreError: Integer overflow"@)
}

/// An integer result, or the overflow error where it does not fit.
pub open spec fn int_result(i: int) -> Result<AppliedView, Signal> {
    if fits(i) {
        Ok(AppliedView::Value(Datum::Int(i as i64)))
    } else {
        Err(overflow())
    }
}

/// The error for operands that the operator does not take.
pub open spec fn invalid_operands(a: Datum, b: Datum) -> Signal {
    Signal::Argument(pair_message("ArgumentError: Invalid operands ("@, a, b))
}

/// The absolute value of an integer.
pub open spec fn abs(x: int) -> int {
    if x < 0 {
        -x
    } else {
        x
    }
}

/// The quotient of two integers, rounded toward zero.
pub open spec fn quotient(x: int, y: int) -> int
    recommends
        y != 0,
{
    if (x < 0) != (y < 0) {
        -(abs(x) / abs(y))
    } else {
        abs(x) / abs(y)
    }
}

/// `b` to the power `e`.
pub open spec fn power(b: int, e: nat) -> int
    decreases e,
{
    if e == 0 {
        1
    } else {
        b * power(b, (e - 1) as nat)
    }
}

/// `n` copies of `s`, one after another.
pub open spec fn repeated<T>(s: Seq<T>, n: nat) -> Seq<T>
    decreases n,
{
    if n == 0 {
        Seq::empty()
    } else {
        repeated(s, (n - 1) as nat) + s
    }
}

/// The number of copies that `*` makes for a count: the count itself, so
/// none for the count 0; a negative count, which names no number of
/// copies, gives one copy.
pub open spec fn copies(count: i64) -> nat {
    if count < 0 {
        1
    } else {
        count as nat
    }
}

/// What `+` calls for: the sum of two integers, the concatenation of two
/// strings or of two arrays, and for two doubles their sum by the host.
pub open spec fn add_of(args: Seq<Datum>) -> Result<AppliedView, Signal> {
    if args.len() < 2 {
        Err(Signal::Argument(missing("+"@, args.len(), 2)))
    } else {
        match (args[0], args[1]) {
            (Datum::Int(x), Datum::Int(y)) => int_result(x + y),
            (Datum::Float(x), Datum::Float(y)) => Ok(
                AppliedView::Float { op: FloatOp::Plus, a: x, b: y },
            ),
            (Datum::Str(x), Datum::Str(y)) => Ok(AppliedView::Value(Datum::Str(x + y))),
            (Datum::Array(x), Datum::Array(y)) => Ok(AppliedView::Value(Datum::Array(x + y))),
            _ => Err(invalid_operands(args[0], args[1])),
        }
    }
}

/// What `-` calls for: the difference of two integers, and for two doubles
/// their difference by the host.
pub open spec fn sub_of(args: Seq<Datum>) -> Result<AppliedView, Signal> {
    if args.len() < 2 {
        Err(Signal::Argument(missing("-"@, args.len(), 2)))
    } else {
        match (args[0], args[1]) {
            (Datum::Int(x), Datum::Int(y)) => int_result(x - y),
            (Datum::Float(x), Datum::Float(y)) => Ok(
                AppliedView::Float { op: FloatOp::Minus, a: x, b: y },
            ),
            _ => Err(invalid_operands(args[0], args[1])),
        }
    }
}

/// What `*` calls for: the product of two integers; a string or an array
/// repeated as often as the count says, which is empty for the count 0; and
/// for two doubles their product by the host.
pub open spec fn mul_of(args: Seq<Datum>) -> Result<AppliedView, Signal> {
    if args.len() < 2 {
        Err(Signal::Argument(missing("*"@, args.len(), 2)))
    } else {
        match (args[0], args[1]) {
            (Datum::Int(x), Datum::Int(y)) => int_result(x * y),
            (Datum::Float(x), Datum::Float(y)) => Ok(
                AppliedView::Float { op: FloatOp::Times, a: x, b: y },
            ),
            (Datum::Str(x), Datum::Int(n)) => Ok(
                AppliedView::Value(Datum::Str(repeated(x, copies(n)))),
            ),
            (Datum::Array(x), Datum::Int(n)) => Ok(
                AppliedView::Value(Datum::Array(repeated(x, copies(n)))),
            ),
            _ => Err(invalid_operands(args[0], args[1])),
        }
    }
}

/// What `/` calls for: the quotient of two integers, rounded toward zero, an
/// error for the divisor zero, and for two doubles their quotient by the
/// host.
pub open spec fn div_of(args: Seq<Datum>) -> Result<AppliedView, Signal> {
    if args.len() < 2 {
        Err(Signal::Argument(missing("/"@, args.len(), 2)))
    } else {
        match (args[0], args[1]) {
            (Datum::Int(x), Datum::Int(y)) => if y == 0 {
                Err(Signal::Generic("LambdaCoreError: Division by zero"@))
            } else {
                int_result(quotient(x as int, y as int))
            },
            (Datum::Float(x), Datum::Float(y)) => Ok(
                AppliedView::Float { op: FloatOp::Divide, a: x, b: y },
            ),
            _ => Err(invalid_operands(args[0], args[1])),
        }
    }
}

/// What `**` calls for: an integer to a non-negative integer power, an
/// argument error for a negative exponent, and for two doubles the power by
/// the host.
pub open spec fn exponent_of(args: Seq<Datum>) -> Result<AppliedView, Signal> {
    if args.len() < 2 {
        Err(Signal::Argument(missing("**"@, args.len(), 2)))
    } else {
        match (args[0], args[1]) {
            (Datum::Int(x), Datum::Int(y)) => if y < 0 {
                Err(
                    Signal::Argument(
                        "ArgumentError: Negative exponent ("@ + decimal(y as int) + ")"@,
                    ),
                )
            } else {
                int_result(power(x as int, y as nat))
            },
            (Datum::Float(x), Datum::Float(y)) => Ok(
                AppliedView::Float { op: FloatOp::Power, a: x, b: y },
            ),
            _ => Err(invalid_operands(args[0], args[1])),
        }
    }
}

fn int_applied(i: i128) -> (r: Result<Applied, LCoreError>)
    ensures
        applied_outcome(r) == int_result(i as int),
{
    if i < i64::MIN as i128 || i > i64::MAX as i128 {
        Err(LCoreError::LambdaCoreError(String::from_str("LambdaCoreError: Integer overflow")))
    } else {
        Ok(Applied::Value(Value::Int(i as i64)))
    }
}

fn invalid(a: &Value, b: &Value) -> (e: LCoreError)
    ensures
        e@ == invalid_operands(a@, b@),
{
    LCoreError::ArgumentError(pair_text("ArgumentError: Invalid operands (", a, b))
}

/// `+`.
pub fn lcore_add(args: &mut Value, symbol_table: &mut Environment) -> (r: Result<
    Applied,
    LCoreError,
>)
    requires
        *old(args) is Array,
    ensures
        final(args)@ == old(args)@,
        final(symbol_table)@ == old(symbol_table)@,
        applied_outcome(r) == add_of(old(args)@->Array_0),
        all_well_keyed(old(args)@->Array_0) ==> (r matches Ok(a) ==> applied_well_keyed(a@)),
{
    proof {
        if all_well_keyed(args@->Array_0) && add_of(args@->Array_0) is Ok {
            lemma_add_well_keyed(args@->Array_0);
        }
    }
    let items = args.as_array();
    if items.len() < 2 {
        return Err(missing_arguments("+", items.len(), 2));
    }
    match (&items[0], &items[1]) {
        (Value::Int(x), Value::Int(y)) => int_applied(*x as i128 + *y as i128),
        (Value::Float(x), Value::Float(y)) => Ok(
            Applied::Float { op: FloatOp::Plus, a: *x, b: *y },
        ),
        (Value::String(x), Value::String(y)) => {
            let mut out = x.clone();
            out.append(y.as_str());
            Ok(Applied::Value(Value::String(out)))
        },
        (Value::Array(x), Value::Array(y)) => {
            let mut out: Vec<Value> = Vec::new();
            append_clones(&mut out, x);
            append_clones(&mut out, y);
            Ok(Applied::Value(Value::Array(out)))
        },
        (a, b) => Err(invalid(a, b)),
    }
}

/// `-`.
pub fn lcore_sub(args: &mut Value, symbol_table: &mut Environment) -> (r: Result<
    Applied,
    LCoreError,
>)
    requires
        *old(args) is Array,
    ensures
        final(args)@ == old(args)@,
        final(symbol_table)@ == old(symbol_table)@,
        applied_outcome(r) == sub_of(old(args)@->Array_0),
{
    let items = args.as_array();
    if items.len() < 2 {
        return Err(missing_arguments("-", items.len(), 2));
    }
    match (&items[0], &items[1]) {
        (Value::Int(x), Value::Int(y)) => int_applied(*x as i128 - *y as i128),
        (Value::Float(x), Value::Float(y)) => Ok(
            Applied::Float { op: FloatOp::Minus, a: *x, b: *y },
        ),
        (a, b) => Err(invalid(a, b)),
    }
}

/// The product of two 64-bit integers, which fits in 128 bits.
fn wide_product(x: i64, y: i64) -> (r: i128)
    ensures
        r == x as int * y as int,
{
    assert(-0x4000_0000_0000_0000_0000_0000_0000_0000 <= x as int * y as int
        <= 0x4000_0000_0000_0000_0000_0000_0000_0000) by (nonlinear_arith)
        requires
            -0x8000_0000_0000_0000 <= x as int <= 0x8000_0000_0000_0000,
            -0x8000_0000_0000_0000 <= y as int <= 0x8000_0000_0000_0000,
    ;
    x as i128 * y as i128
}

/// `*`.
pub fn lcore_mul(args: &mut Value, symbol_table: &mut Environment) -> (r: Result<
    Applied,
    LCoreError,
>)
    requires
        *old(args) is Array,
    ensures
        final(args)@ == old(args)@,
        final(symbol_table)@ == old(symbol_table)@,
        applied_outcome(r) == mul_of(old(args)@->Array_0),
        all_well_keyed(old(args)@->Array_0) ==> (r matches Ok(a) ==> applied_well_keyed(a@)),
{
    proof {
        if all_well_keyed(args@->Array_0) && mul_of(args@->Array_0) is Ok {
            lemma_mul_well_keyed(args@->Array_0);
        }
    }
    let items = args.as_array();
    if items.len() < 2 {
        return Err(missing_arguments("*", items.len(), 2));
    }
    match (&items[0], &items[1]) {
        (Value::Int(x), Value::Int(y)) => int_applied(wide_product(*x, *y)),
        (Value::Float(x), Value::Float(y)) => Ok(
            Applied::Float { op: FloatOp::Times, a: *x, b: *y },
        ),
        (Value::String(x), Value::Int(n)) => {
            let mut out = String::new();
            let count: i64 = if *n < 0 {
                1
            } else {
                *n
            };
            let mut i: i64 = 0;
            while i < count
                invariant
                    0 <= i <= count,
                    count == copies(*n),
                    out@ == repeated(x@, i as nat),
                decreases count - i,
            {
                out.append(x.as_str());
                i += 1;
            }
            Ok(Applied::Value(Value::String(out)))
        },
        (Value::Array(x), Value::Int(n)) => {
            let mut out: Vec<Value> = Vec::new();
            let count: i64 = if *n < 0 {
                1
            } else {
                *n
            };
            let mut i: i64 = 0;
            assert(views(out@) =~= repeated(views(x@), 0));
            while i < count
                invariant
                    0 <= i <= count,
                    count == copies(*n),
                    views(out@) == repeated(views(x@), i as nat),
                decreases count - i,
            {
                append_clones(&mut out, x);
                i += 1;
            }
            Ok(Applied::Value(Value::Array(out)))
        },
        (a, b) => Err(invalid(a, b)),
    }
}

/// The absolute value of a 64-bit integer.
fn magnitude(x: i64) -> (r: u64)
    ensures
        r == abs(x as int),
{
    if x >= 0 {
        x as u64
    } else {
        (-(x + 1)) as u64 + 1
    }
}

/// The quotient of two 64-bit integers, rounded toward zero.
fn wide_quotient(x: i64, y: i64) -> (r: i128)
    requires
        y != 0,
    ensures
        r == quotient(x as int, y as int),
{
    let m: u64 = magnitude(x) / magnitude(y);
    if (x < 0) != (y < 0) {
        -(m as i128)
    } else {
        m as i128
    }
}

/// `/`.
pub fn lcore_div(args: &mut Value, symbol_table: &mut Environment) -> (r: Result<
    Applied,
    LCoreError,
>)
    requires
        *old(args) is Array,
    ensures
        final(args)@ == old(args)@,
        final(symbol_table)@ == old(symbol_table)@,
        applied_outcome(r) == div_of(old(args)@->Array_0),
{
    let items = args.as_array();
    if items.len() < 2 {
        return Err(missing_arguments("/", items.len(), 2));
    }
    match (&items[0], &items[1]) {
        (Value::Int(x), Value::Int(y)) => {
            if *y == 0 {
                Err(
                    LCoreError::LambdaCoreError(
                        String::from_str("LambdaCoreError: Division by zero"),
                    ),
                )
            } else {
                int_applied(wide_quotient(*x, *y))
            }
        },
        (Value::Float(x), Value::Float(y)) => Ok(
            Applied::Float { op: FloatOp::Divide, a: *x, b: *y },
        ),
        (a, b) => Err(invalid(a, b)),
    }
}

proof fn lemma_power_of_unit(b: int, e: nat)
    requires
        b == 0 || b == 1 || b == -1,
    ensures
        b == 0 && e > 0 ==> power(b, e) == 0,
        b == 1 ==> power(b, e) == 1,
        b == -1 && e % 2 == 0 ==> power(b, e) == 1,
        b == -1 && e % 2 == 1 ==> power(b, e) == -1,
    decreases e,
{
    if e > 0 {
        lemma_power_of_unit(b, (e - 1) as nat);
    }
}

proof fn lemma_power_grows(b: int, k: nat, e: nat)
    requires
        abs(b) >= 2,
        k <= e,
    ensures
        abs(power(b, e)) >= abs(power(b, k)),
        k < e ==> abs(power(b, e)) >= 2 * abs(power(b, k)),
        abs(power(b, k)) >= 1,
    decreases e,
{
    if k == 0 {
        assert(power(b, 0) == 1);
    }
    if e > 0 {
        let p = power(b, (e - 1) as nat);
        if k < e {
            lemma_power_grows(b, k, (e - 1) as nat);
            assert(abs(b * p) >= 2 * abs(p)) by (nonlinear_arith)
                requires
                    abs(b) >= 2,
            ;
        } else {
            lemma_power_grows(b, 0, (e - 1) as nat);
            assert(abs(b * p) >= 2 * abs(p)) by (nonlinear_arith)
                requires
                    abs(b) >= 2,
            ;
        }
    }
}

/// `x` to the power `y`, if it fits in 64 bits.
fn int_power(x: i64, y: i64) -> (r: Option<i64>)
    requires
        y >= 0,
    ensures
        match r {
            Some(v) => v == power(x as int, y as nat),
            None => !fits(power(x as int, y as nat)),
        },
{
    if x == 0 || x == 1 || x == -1 {
        proof {
            lemma_power_of_unit(x as int, y as nat);
        }
        if y == 0 {
            return Some(1);
        }
        if x == 0 {
            return Some(0);
        }
        if x == 1 {
            return Some(1);
        }
        return Some(
            if y % 2 == 0 {
                1
            } else {
                -1
            },
        );
    }
    let mut acc: i64 = 1;
    let mut j: i64 = 0;
    while j < y
        invariant
            0 <= j <= y,
            abs(x as int) >= 2,
            acc == power(x as int, j as nat),
        decreases y - j,
    {
        let next = wide_product(x, acc);
        if next < i64::MIN as i128 || next > i64::MAX as i128 {
            proof {
                lemma_power_grows(x as int, (j + 1) as nat, y as nat);
            }
            return None;
        }
        acc = next as i64;
        j += 1;
    }
    Some(acc)
}

/// `**`.
pub fn lcore_exponent(args: &mut Value, symbol_table: &mut Environment) -> (r: Result<
    Applied,
    LCoreError,
>)
    requires
        *old(args) is Array,
    ensures
        final(args)@ == old(args)@,
        final(symbol_table)@ == old(symbol_table)@,
        applied_outcome(r) == exponent_of(old(args)@->Array_0),
{
    let items = args.as_array();
    if items.len() < 2 {
        return Err(missing_arguments("**", items.len(), 2));
    }
    match (&items[0], &items[1]) {
        (Value::Int(x), Value::Int(y)) => {
            if *y < 0 {
                let mut msg = String::from_str("ArgumentError: Negative exponent (");
                push_decimal(&mut msg, *y);
                msg.append(")");
                Err(LCoreError::ArgumentError(msg))
            } else {
                match int_power(*x, *y) {
                    Some(v) => Ok(Applied::Value(Value::Int(v))),
                    None => Err(
                        LCoreError::LambdaCoreError(
                            String::from_str("LambdaCoreError: Integer overflow"),
                        ),
                    ),
                }
            }
        },
        (Value::Float(x), Value::Float(y)) => Ok(
            Applied::Float { op: FloatOp::Power, a: *x, b: *y },
        ),
        (a, b) => Err(invalid(a, b)),
    }
}

} // verus!
