//! Text that the interpreter produces: decimal numerals, variant names and
//! the pieces that printing a value writes.

use crate::value::{Datum, Value};
use vstd::prelude::*;

verus! {

/// The numeral of one decimal digit.
pub open spec fn digit(d: nat) -> Seq<char> {
    if d == 0 {
        "0"@
    } else if d == 1 {
        "1"@
    } else if d == 2 {
        "2"@
    } else if d == 3 {
        "3"@
    } else if d == 4 {
        "4"@
    } else if d == 5 {
        "5"@
    } else if d == 6 {
        "6"@
    } else if d == 7 {
        "7"@
    } else if d == 8 {
        "8"@
    } else {
        "9"@
    }
}

/// The decimal numeral of a natural number, without leading zeros.
pub open spec fn digits(n: nat) -> Seq<char>
    decreases n,
{
    if n < 10 {
        digit(n)
    } else {
        digits(n / 10) + digit(n % 10)
    }
}

/// The canonical decimal numeral of an integer.
pub open spec fn decimal(i: int) -> Seq<char> {
    if i < 0 {
        "-"@ + digits((-i) as nat)
    } else {
        digits(i as nat)
    }
}

fn digit_text(d: u64) -> (r: &'static str)
    requires
        d < 10,
    ensures
        r@ == digit(d as nat),
{
    if d == 0 {
        "0"
    } else if d == 1 {
        "1"
    } else if d == 2 {
        "2"
    } else if d == 3 {
        "3"
    } else if d == 4 {
        "4"
    } else if d == 5 {
        "5"
    } else if d == 6 {
        "6"
    } else if d == 7 {
        "7"
    } else if d == 8 {
        "8"
    } else {
        "9"
    }
}

/// Appends the decimal numeral of `n` to `out`.
pub fn push_digits(out: &mut String, n: u64)
    ensures
        final(out)@ == old(out)@ + digits(n as nat),
    decreases n,
{
    if n < 10 {
        out.append(digit_text(n));
    } else {
        push_digits(out, n / 10);
        out.append(digit_text(n % 10));
        assert(old(out)@ + digits(n as nat / 10) + digit(n as nat % 10) =~= old(out)@ + digits(
            n as nat,
        ));
    }
}

/// Appends the canonical decimal numeral of `i` to `out`.
pub fn push_decimal(out: &mut String, i: i64)
    ensures
        final(out)@ == old(out)@ + decimal(i as int),
{
    if i < 0 {
        let m: u64 = (-(i + 1)) as u64 + 1;
        out.append("-");
        push_digits(out, m);
        assert(old(out)@ + "-"@ + digits(m as nat) =~= old(out)@ + decimal(i as int));
    } else {
        push_digits(out, i as u64);
    }
}

/// The canonical decimal numeral of `i`.
pub fn int_to_string(i: i64) -> (r: String)
    ensures
        r@ == decimal(i as int),
{
    let mut out = String::new();
    push_decimal(&mut out, i);
    assert(Seq::<char>::empty() + decimal(i as int) =~= decimal(i as int));
    out
}

/// The name by which a diagnostic calls a datum's variant.
pub open spec fn debug_name_of(d: Datum) -> Seq<char> {
    match d {
        Datum::Null => "Null"@,
        Datum::Identifier(_) => "Identifier"@,
        Datum::Boolean(_) => "Boolean"@,
        Datum::Int(_) => "Int"@,
        Datum::Float(_) => "Float"@,
        Datum::Str(_) => "String"@,
        Datum::Array(_) => "Array"@,
        Datum::OpenFunc => "("@,
        Datum::CloseFunc => ")"@,
        Datum::OpenBrace => "["@,
        Datum::CloseBrace => "]"@,
        Datum::Quote(_) => "'"@,
        Datum::BackTick => "`"@,
        Datum::Comma => ","@,
        Datum::Func(_) => "Func"@,
        Datum::Dict(_) => "Dict"@,
    }
}

/// The name by which a diagnostic calls a value's variant.
pub fn debug_name(v: &Value) -> (r: &'static str)
    ensures
        r@ == debug_name_of(v@),
{
    match v {
        Value::Null => "Null",
        Value::Identifier(_) => "Identifier",
        Value::Boolean(_) => "Boolean",
        Value::Int(_) => "Int",
        Value::Float(_) => "Float",
        Value::String(_) => "String",
        Value::Array(_) => "Array",
        Value::OpenFunc => "(",
        Value::CloseFunc => ")",
        Value::OpenBrace => "[",
        Value::CloseBrace => "]",
        Value::Quote(_) => "'",
        Value::BackTick => "`",
        Value::Comma => ",",
        Value::Func { .. } => "Func",
        Value::Dict(_) => "Dict",
    }
}

} // verus!
