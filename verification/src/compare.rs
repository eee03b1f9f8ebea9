//! Equality and order of values, and the operators `=`, `!=` and `<`.

use crate::environment::Environment;
use crate::error::{LCoreError, Signal, missing, missing_arguments, outcome};
use crate::float::{float_eq, float_equals, float_less, float_lt, is_nan};
use crate::text::{debug_name, debug_name_of};
use crate::value::{Datum, Value, entry_views, views};
use vstd::prelude::*;
use vstd::utf8::encode_utf8;

verus! {

/// Structural equality of data. Data of different variants are unequal;
/// doubles compare as IEEE doubles; arrays compare element by element;
/// dictionaries compare as maps, whatever the order of their entries;
/// lexical tokens equal nothing.
pub open spec fn datum_eq(a: Datum, b: Datum) -> bool
    decreases a, 0nat,
{
    match (a, b) {
        (Datum::Str(x), Datum::Str(y)) => x == y,
        (Datum::Int(x), Datum::Int(y)) => x == y,
        (Datum::Float(x), Datum::Float(y)) => float_eq(x, y),
        (Datum::Boolean(x), Datum::Boolean(y)) => x == y,
        (Datum::Identifier(x), Datum::Identifier(y)) => x == y,
        (Datum::Null, Datum::Null) => true,
        (Datum::Quote(x), Datum::Quote(y)) => datum_eq(*x, *y),
        (Datum::Func(f), Datum::Func(g)) => f == g,
        (Datum::Array(x), Datum::Array(y)) => {
            &&& x.len() == y.len()
            &&& forall|i: int| 0 <= i < x.len() ==> datum_eq(#[trigger] x[i], y[i])
        },
        (Datum::Dict(x), Datum::Dict(y)) => {
            &&& x.len() == y.len()
            &&& forall|i: int| 0 <= i < x.len() ==> entry_found(#[trigger] x[i], y)
        },
        _ => false,
    }
}

/// Whether `entries` holds the key of `entry` with an equal value.
pub open spec fn entry_found(entry: (Datum, Datum), entries: Seq<(Datum, Datum)>) -> bool
    decreases entry, 0nat,
{
    let at = key_index(entries, entry.0, 0);
    at < entries.len() && datum_eq(entry.1, entries[at].1)
}

/// The index of the first entry at or after `from` whose key equals `key`, or
/// the number of entries if there is none.
pub open spec fn key_index(entries: Seq<(Datum, Datum)>, key: Datum, from: nat) -> int
    decreases key, 1 + entries.len() - from,
{
    if from >= entries.len() {
        entries.len() as int
    } else if datum_eq(key, entries[from as int].0) {
        from as int
    } else {
        key_index(entries, key, from + 1)
    }
}

/// The value that `entries` holds under `key`, if any.
pub open spec fn dict_get(entries: Seq<(Datum, Datum)>, key: Datum) -> Option<Datum> {
    let at = key_index(entries, key, 0);
    if at < entries.len() {
        Some(entries[at].1)
    } else {
        None
    }
}

/// `key_index` is the first index at or after `from` whose key equals `key`.
pub proof fn lemma_key_index(entries: Seq<(Datum, Datum)>, key: Datum, from: nat)
    requires
        from <= entries.len(),
    ensures
        from <= key_index(entries, key, from) <= entries.len(),
        key_index(entries, key, from) < entries.len() ==> datum_eq(
            key,
            entries[key_index(entries, key, from)].0,
        ),
        forall|j: int|
            from <= j < key_index(entries, key, from) ==> !datum_eq(key, (#[trigger] entries[j]).0),
    decreases entries.len() - from,
{
    if from < entries.len() && !datum_eq(key, entries[from as int].0) {
        lemma_key_index(entries, key, from + 1);
    }
}

/// The index of the first entry whose key equals `key`, or the number of
/// entries.
pub fn dict_find(entries: &Vec<(Value, Value)>, key: &Value) -> (r: usize)
    ensures
        r == key_index(entry_views(entries@), key@, 0),
        r <= entries@.len(),
    decreases key, 1 + entries@.len(),
{
    let ghost data = entry_views(entries@);
    let mut i: usize = 0;
    while i < entries.len()
        invariant
            data == entry_views(entries@),
            i <= entries@.len(),
            key_index(data, key@, 0) == key_index(data, key@, i as nat),
        decreases entries@.len() - i,
    {
        if value_eq(key, &entries[i].0) {
            return i;
        }
        i += 1;
    }
    i
}

/// Whether `a` and `b` are structurally equal.
pub fn value_eq(a: &Value, b: &Value) -> (r: bool)
    ensures
        r == datum_eq(a@, b@),
    decreases a, 0nat,
{
    match (a, b) {
        (Value::String(x), Value::String(y)) => *x == *y,
        (Value::Int(x), Value::Int(y)) => *x == *y,
        (Value::Float(x), Value::Float(y)) => float_equals(*x, *y),
        (Value::Boolean(x), Value::Boolean(y)) => *x == *y,
        (Value::Identifier(x), Value::Identifier(y)) => *x == *y,
        (Value::Null, Value::Null) => true,
        (Value::Quote(x), Value::Quote(y)) => value_eq(&**x, &**y),
        (Value::Func { f }, Value::Func { f: g }) => *f == *g,
        (Value::Array(x), Value::Array(y)) => {
            assert(views(x@).len() == x@.len() && views(y@).len() == y@.len());
            if x.len() != y.len() {
                return false;
            }
            let mut i: usize = 0;
            while i < x.len()
                invariant
                    *a == Value::Array(*x),
                    *b == Value::Array(*y),
                    views(x@).len() == x@.len(),
                    x@.len() == y@.len(),
                    i <= x@.len(),
                    forall|j: int| 0 <= j < i ==> datum_eq(#[trigger] views(x@)[j], views(y@)[j]),
                decreases x@.len() - i,
            {
                proof {
                    assert(decreases_to!(*a => a->Array_0));
                }
                if !value_eq(&x[i], &y[i]) {
                    assert(!datum_eq(views(x@)[i as int], views(y@)[i as int]));
                    return false;
                }
                i += 1;
            }
            true
        },
        (Value::Dict(x), Value::Dict(y)) => {
            assert(entry_views(x@).len() == x@.len() && entry_views(y@).len() == y@.len());
            if x.len() != y.len() {
                return false;
            }
            let mut i: usize = 0;
            while i < x.len()
                invariant
                    *a == Value::Dict(*x),
                    *b == Value::Dict(*y),
                    entry_views(x@).len() == x@.len(),
                    x@.len() == y@.len(),
                    i <= x@.len(),
                    forall|j: int|
                        0 <= j < i ==> entry_found(
                            #[trigger] entry_views(x@)[j],
                            entry_views(y@),
                        ),
                decreases x@.len() - i,
            {
                proof {
                    assert(decreases_to!(*a => a->Dict_0));
                }
                let at = dict_find(y, &x[i].0);
                if at >= y.len() {
                    assert(!entry_found(entry_views(x@)[i as int], entry_views(y@)));
                    return false;
                }
                if !value_eq(&x[i].1, &y[at].1) {
                    assert(!entry_found(entry_views(x@)[i as int], entry_views(y@)));
                    return false;
                }
                i += 1;
            }
            true
        },
        _ => false,
    }
}

/// The message that names the variants of two operands after `prefix`.
pub open spec fn pair_message(prefix: Seq<char>, a: Datum, b: Datum) -> Seq<char> {
    prefix + debug_name_of(a) + " and "@ + debug_name_of(b) + ")"@
}

/// The message that names the variants of `a` and `b` after `prefix`.
pub fn pair_text(prefix: &str, a: &Value, b: &Value) -> (r: String)
    ensures
        r@ == pair_message(prefix@, a@, b@),
{
    let mut msg = String::from_str(prefix);
    msg.append(debug_name(a));
    msg.append(" and ");
    msg.append(debug_name(b));
    msg.append(")");
    msg
}

/// Whether `=` holds of two operands: structural equality on operands of one
/// variant, through quotes; an argument error on operands of different
/// variants and on lexical tokens.
pub open spec fn equal_values(a: Datum, b: Datum) -> Result<bool, Signal>
    decreases a,
{
    match (a, b) {
        (Datum::Null, Datum::Null) => Ok(true),
        (Datum::Int(_), Datum::Int(_)) => Ok(datum_eq(a, b)),
        (Datum::Float(_), Datum::Float(_)) => Ok(datum_eq(a, b)),
        (Datum::Str(_), Datum::Str(_)) => Ok(datum_eq(a, b)),
        (Datum::Boolean(_), Datum::Boolean(_)) => Ok(datum_eq(a, b)),
        (Datum::Identifier(_), Datum::Identifier(_)) => Ok(datum_eq(a, b)),
        (Datum::Dict(_), Datum::Dict(_)) => Ok(datum_eq(a, b)),
        (Datum::Array(_), Datum::Array(_)) => Ok(datum_eq(a, b)),
        (Datum::Func(_), Datum::Func(_)) => Ok(datum_eq(a, b)),
        (Datum::Quote(x), Datum::Quote(y)) => equal_values(*x, *y),
        _ => Err(Signal::Argument(pair_message("ArgumentError: Type mismatch ("@, a, b))),
    }
}

/// What `=` returns for its arguments.
pub open spec fn equals_of(args: Seq<Datum>) -> Result<Datum, Signal> {
    if args.len() < 2 {
        Err(Signal::Argument(missing("="@, args.len(), 2)))
    } else {
        match equal_values(args[0], args[1]) {
            Ok(b) => Ok(Datum::Boolean(b)),
            Err(e) => Err(e),
        }
    }
}

/// What `!=` returns for its arguments: the negation of what `=` finds, and
/// its errors.
pub open spec fn not_equals_of(args: Seq<Datum>) -> Result<Datum, Signal> {
    if args.len() < 2 {
        Err(Signal::Argument(missing("!="@, args.len(), 2)))
    } else {
        match equal_values(args[0], args[1]) {
            Ok(b) => Ok(Datum::Boolean(!b)),
            Err(e) => Err(e),
        }
    }
}

/// The number of bytes of a text in UTF-8.
pub open spec fn byte_len(s: Seq<char>) -> nat {
    encode_utf8(s).len()
}

/// Whether `<` holds of two operands: numbers by magnitude; strings and
/// identifiers by their length in bytes; arrays and dictionaries by their
/// number of elements; quotes by what they wrap.
pub open spec fn less_values(a: Datum, b: Datum) -> Result<bool, Signal>
    decreases a,
{
    match (a, b) {
        (Datum::Int(x), Datum::Int(y)) => Ok(x < y),
        (Datum::Float(x), Datum::Float(y)) => Ok(float_lt(x, y)),
        (Datum::Str(x), Datum::Str(y)) => Ok(byte_len(x) < byte_len(y)),
        (Datum::Identifier(x), Datum::Identifier(y)) => Ok(byte_len(x) < byte_len(y)),
        (Datum::Dict(x), Datum::Dict(y)) => Ok(x.len() < y.len()),
        (Datum::Array(x), Datum::Array(y)) => Ok(x.len() < y.len()),
        (Datum::Quote(x), Datum::Quote(y)) => less_values(*x, *y),
        _ => Err(
            Signal::Argument(pair_message("ArgumentError: Invalid Argument Types ("@, a, b)),
        ),
    }
}

/// What `<` returns for its arguments.
pub open spec fn less_than_of(args: Seq<Datum>) -> Result<Datum, Signal> {
    if args.len() < 2 {
        Err(Signal::Argument(missing("<"@, args.len(), 2)))
    } else {
        match less_values(args[0], args[1]) {
            Ok(b) => Ok(Datum::Boolean(b)),
            Err(e) => Err(e),
        }
    }
}

/// The number of bytes of `s`.
pub fn text_len(s: &String) -> (n: usize)
    ensures
        n == byte_len(s@),
{
    s.as_str().as_bytes().len()
}

/// Decides `=` of two operands.
pub fn values_equal(a: &Value, b: &Value) -> (r: Result<bool, LCoreError>)
    ensures
        match r {
            Ok(x) => equal_values(a@, b@) == Ok::<bool, Signal>(x),
            Err(e) => equal_values(a@, b@) == Err::<bool, Signal>(e@),
        },
    decreases a,
{
    match (a, b) {
        (Value::Null, Value::Null) => Ok(true),
        (Value::Int(_), Value::Int(_)) => Ok(value_eq(a, b)),
        (Value::Float(_), Value::Float(_)) => Ok(value_eq(a, b)),
        (Value::String(_), Value::String(_)) => Ok(value_eq(a, b)),
        (Value::Boolean(_), Value::Boolean(_)) => Ok(value_eq(a, b)),
        (Value::Identifier(_), Value::Identifier(_)) => Ok(value_eq(a, b)),
        (Value::Dict(_), Value::Dict(_)) => Ok(value_eq(a, b)),
        (Value::Array(_), Value::Array(_)) => Ok(value_eq(a, b)),
        (Value::Func { .. }, Value::Func { .. }) => Ok(value_eq(a, b)),
        (Value::Quote(x), Value::Quote(y)) => values_equal(&**x, &**y),
        _ => Err(LCoreError::ArgumentError(pair_text("ArgumentError: Type mismatch (", a, b))),
    }
}

/// Decides `<` of two operands.
pub fn values_less(a: &Value, b: &Value) -> (r: Result<bool, LCoreError>)
    ensures
        match r {
            Ok(x) => less_values(a@, b@) == Ok::<bool, Signal>(x),
            Err(e) => less_values(a@, b@) == Err::<bool, Signal>(e@),
        },
    decreases a,
{
    match (a, b) {
        (Value::Int(x), Value::Int(y)) => Ok(*x < *y),
        (Value::Float(x), Value::Float(y)) => Ok(float_less(*x, *y)),
        (Value::String(x), Value::String(y)) => Ok(text_len(x) < text_len(y)),
        (Value::Identifier(x), Value::Identifier(y)) => Ok(text_len(x) < text_len(y)),
        (Value::Dict(x), Value::Dict(y)) => {
            assert(entry_views(x@).len() == x@.len() && entry_views(y@).len() == y@.len());
            Ok(x.len() < y.len())
        },
        (Value::Array(x), Value::Array(y)) => {
            assert(views(x@).len() == x@.len() && views(y@).len() == y@.len());
            Ok(x.len() < y.len())
        },
        (Value::Quote(x), Value::Quote(y)) => values_less(&**x, &**y),
        _ => Err(
            LCoreError::ArgumentError(
                pair_text("ArgumentError: Invalid Argument Types (", a, b),
            ),
        ),
    }
}

/// `=`: whether its two arguments are equal.
pub fn lcore_equals(args: &mut Value, symbol_table: &mut Environment) -> (r: Result<
    Value,
    LCoreError,
>)
    requires
        *old(args) is Array,
    ensures
        final(args)@ == old(args)@,
        final(symbol_table)@ == old(symbol_table)@,
        outcome(r) == equals_of(old(args)@->Array_0),
{
    let items = args.as_array();
    if items.len() < 2 {
        return Err(missing_arguments("=", items.len(), 2));
    }
    match values_equal(&items[0], &items[1]) {
        Ok(b) => Ok(Value::Boolean(b)),
        Err(e) => Err(e),
    }
}

/// `!=`: whether its two arguments are unequal.
pub fn lcore_not_equals(args: &mut Value, symbol_table: &mut Environment) -> (r: Result<
    Value,
    LCoreError,
>)
    requires
        *old(args) is Array,
    ensures
        final(args)@ == old(args)@,
        final(symbol_table)@ == old(symbol_table)@,
        outcome(r) == not_equals_of(old(args)@->Array_0),
{
    let items = args.as_array();
    if items.len() < 2 {
        return Err(missing_arguments("!=", items.len(), 2));
    }
    match values_equal(&items[0], &items[1]) {
        Ok(b) => Ok(Value::Boolean(!b)),
        Err(e) => Err(e),
    }
}

/// `<`: whether its first argument is less than its second.
pub fn lcore_less_than(args: &mut Value, symbol_table: &mut Environment) -> (r: Result<
    Value,
    LCoreError,
>)
    requires
        *old(args) is Array,
    ensures
        final(args)@ == old(args)@,
        final(symbol_table)@ == old(symbol_table)@,
        outcome(r) == less_than_of(old(args)@->Array_0),
{
    let items = args.as_array();
    if items.len() < 2 {
        return Err(missing_arguments("<", items.len(), 2));
    }
    match values_less(&items[0], &items[1]) {
        Ok(b) => Ok(Value::Boolean(b)),
        Err(e) => Err(e),
    }
}

/// Whether a datum is free of what makes a datum unequal to itself: it
/// holds no NaN and no lexical token, and no dictionary in it holds two
/// equal keys.
pub open spec fn plain(d: Datum) -> bool
    decreases d,
{
    match d {
        Datum::Float(bits) => !is_nan(bits),
        Datum::Quote(inner) => plain(*inner),
        Datum::Array(items) => forall|i: int| 0 <= i < items.len() ==> plain(#[trigger] items[i]),
        Datum::Dict(entries) => {
            &&& forall|i: int|
                0 <= i < entries.len() ==> plain((#[trigger] entries[i]).0) && plain(entries[i].1)
            &&& forall|i: int, j: int|
                0 <= i < j < entries.len() ==> !datum_eq(
                    (#[trigger] entries[j]).0,
                    (#[trigger] entries[i]).0,
                )
        },
        Datum::OpenFunc => false,
        Datum::CloseFunc => false,
        Datum::OpenBrace => false,
        Datum::CloseBrace => false,
        Datum::BackTick => false,
        Datum::Comma => false,
        _ => true,
    }
}

/// A plain datum equals itself.
pub proof fn lemma_datum_eq_reflexive(d: Datum)
    requires
        plain(d),
    ensures
        datum_eq(d, d),
    decreases d,
{
    match d {
        Datum::Quote(inner) => {
            lemma_datum_eq_reflexive(*inner);
        },
        Datum::Array(items) => {
            assert forall|i: int| 0 <= i < items.len() implies datum_eq(
                #[trigger] items[i],
                items[i],
            ) by {
                lemma_datum_eq_reflexive(items[i]);
            }
        },
        Datum::Dict(entries) => {
            assert forall|i: int| 0 <= i < entries.len() implies entry_found(
                #[trigger] entries[i],
                entries,
            ) by {
                lemma_datum_eq_reflexive(entries[i].0);
                lemma_datum_eq_reflexive(entries[i].1);
                lemma_key_index(entries, entries[i].0, 0);
                let at = key_index(entries, entries[i].0, 0);
                if at < i {
                    assert(!datum_eq(entries[i].0, entries[at].0));
                }
                if at > i {
                    assert(!datum_eq(entries[i].0, entries[i].0));
                }
            }
        },
        _ => {},
    }
}

/// `=` holds of every hashable datum without a NaN and itself.
pub proof fn lemma_equals_reflexive(x: Datum)
    requires
        crate::container::hashable(x),
        plain(x),
    ensures
        equal_values(x, x) == Ok::<bool, Signal>(true),
    decreases x,
{
    match x {
        Datum::Quote(inner) => {
            lemma_equals_reflexive(*inner);
        },
        _ => {},
    }
}

/// Where `=` decides, `!=` decides the opposite; where `=` fails, `!=`
/// fails with the same error.
pub proof fn lemma_not_equals_negates(args: Seq<Datum>)
    requires
        args.len() >= 2,
    ensures
        match equals_of(args) {
            Ok(d) => d matches Datum::Boolean(b) && not_equals_of(args) == Ok::<Datum, Signal>(
                Datum::Boolean(!b),
            ),
            Err(e) => not_equals_of(args) == Err::<Datum, Signal>(e),
        },
{
}

/// Two dictionaries that hold the same entries are equal, in whatever order
/// the entries were stored: where every entry of the one is an entry of the
/// other, both have as many, the keys of the other differ from one another,
/// and every key and value equals itself, `=` holds.
pub proof fn lemma_dict_eq_any_order(a: Seq<(Datum, Datum)>, b: Seq<(Datum, Datum)>)
    requires
        a.len() == b.len(),
        forall|i: int| 0 <= i < a.len() ==> b.contains(#[trigger] a[i]),
        forall|i: int, j: int|
            0 <= i < b.len() && 0 <= j < b.len() && i != j ==> !datum_eq(
                (#[trigger] b[i]).0,
                (#[trigger] b[j]).0,
            ),
        forall|i: int|
            0 <= i < a.len() ==> datum_eq((#[trigger] a[i]).0, a[i].0) && datum_eq(a[i].1, a[i].1),
    ensures
        datum_eq(Datum::Dict(a), Datum::Dict(b)),
        equal_values(Datum::Dict(a), Datum::Dict(b)) == Ok::<bool, Signal>(true),
{
    assert forall|i: int| 0 <= i < a.len() implies entry_found(#[trigger] a[i], b) by {
        assert(b.contains(a[i]));
        let j = choose|j: int| 0 <= j < b.len() && b[j] == a[i];
        lemma_key_index(b, a[i].0, 0);
        let at = key_index(b, a[i].0, 0);
        if at < j {
            assert(datum_eq(b[j].0, b[at].0));
        }
        if at > j {
            assert(datum_eq(a[i].0, b[j].0));
        }
    }
}

} // verus!
