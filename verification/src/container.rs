//! The container operators `get`, `dict`, `len` and `swap`.

use crate::compare::{byte_len, datum_eq, dict_find, dict_get, key_index, lemma_key_index, text_len};
use crate::environment::{Environment, Scope, assign, lemma_assign_same, lookup};
use crate::error::{LCoreError, Signal, missing, missing_arguments, outcome};
use crate::text::{debug_name, debug_name_of, decimal, digits, push_decimal, push_digits};
use crate::value::{Datum, Value, entry_views, views};
use crate::keys::{
    all_well_keyed, lemma_dict_well_keyed, lemma_get_well_keyed, lemma_swap_well_keyed,
    scopes_well_keyed, well_keyed,
};
use vstd::arithmetic::div_mod::lemma_fundamental_div_mod_converse;
use vstd::prelude::*;

verus! {

/// Whether a datum can be the key of a dictionary: text, numbers, truth
/// values, `Null`, names, and quotes of such data.
pub open spec fn hashable(d: Datum) -> bool
    decreases d,
{
    match d {
        Datum::Str(_) => true,
        Datum::Int(_) => true,
        Datum::Float(_) => true,
        Datum::Boolean(_) => true,
        Datum::Null => true,
        Datum::Identifier(_) => true,
        Datum::Quote(inner) => hashable(*inner),
        _ => false,
    }
}

/// Whether `v` can be the key of a dictionary.
pub fn is_hashable(v: &Value) -> (r: bool)
    ensures
        r == hashable(v@),
    decreases v,
{
    match v {
        Value::String(_) => true,
        Value::Int(_) => true,
        Value::Float(_) => true,
        Value::Boolean(_) => true,
        Value::Null => true,
        Value::Identifier(_) => true,
        Value::Quote(inner) => is_hashable(&**inner),
        _ => false,
    }
}

/// The key under which a dictionary is searched for `d`: the text of a name,
/// and any other datum itself.
pub open spec fn key_of(d: Datum) -> Datum {
    match d {
        Datum::Identifier(name) => Datum::Str(name),
        _ => d,
    }
}

/// The key under which a dictionary is searched for `v`.
pub fn search_key(v: &Value) -> (r: Value)
    ensures
        r@ == key_of(v@),
{
    match v {
        Value::Identifier(name) => Value::String(name.clone()),
        _ => v.clone(),
    }
}

/// Whether the index `i` is in reach of an array of `len` elements: the
/// array is not empty and the magnitude of the index is at most its length.
pub open spec fn in_reach(i: int, len: int) -> bool {
    len > 0 && -len <= i <= len
}

/// The position that the index `i` stands for in an array of `len`
/// elements: negative indices count from the end, and both `len` and `-len`
/// stand for the first element.
pub open spec fn wrap_index(i: int, len: int) -> int
    recommends
        len > 0,
{
    ((i % len) + len) % len
}

/// The message of the error for an index out of reach.
pub open spec fn out_of_bounds(i: int, len: nat) -> Seq<char> {
    "Index out of bounds: got "@ + decimal(i) + " but len is "@ + digits(len)
}

/// The position that `i` stands for in an array of `len` elements, or the
/// error for an index out of reach.
pub fn resolve_index(i: i64, len: usize) -> (r: Result<usize, LCoreError>)
    ensures
        match r {
            Ok(at) => in_reach(i as int, len as int) && at == wrap_index(i as int, len as int)
                && at < len,
            Err(e) => !in_reach(i as int, len as int) && e@ == Signal::Argument(
                out_of_bounds(i as int, len as nat),
            ),
        },
{
    let wide: i128 = i as i128;
    let n: i128 = len as i128;
    if len == 0 || wide > n || wide < -n {
        let mut msg = String::from_str("Index out of bounds: got ");
        push_decimal(&mut msg, i);
        msg.append(" but len is ");
        push_digits(&mut msg, len as u64);
        return Err(LCoreError::ArgumentError(msg));
    }
    let at: i128 = if wide == n || wide == -n {
        0
    } else if wide < 0 {
        wide + n
    } else {
        wide
    };
    proof {
        let q: int = if wide == n {
            1
        } else if wide < 0 {
            -1
        } else {
            0
        };
        assert(wide as int == q * (n as int) + at as int) by (nonlinear_arith)
            requires
                q == 1 && wide == n + at || q == -1 && wide == at - n || q == 0 && wide == at,
        ;
        lemma_fundamental_div_mod_converse(wide as int, n as int, q, at as int);
        assert(at as int + n as int == 1 * (n as int) + at as int) by (nonlinear_arith);
        lemma_fundamental_div_mod_converse(at as int + n as int, n as int, 1, at as int);
    }
    Ok(at as usize)
}

/// The second argument of `get` without its quote, if it has one.
pub open spec fn unquoted(d: Datum) -> Datum {
    match d {
        Datum::Quote(inner) => *inner,
        _ => d,
    }
}

/// The error for an object indexed by a datum that cannot index it.
pub open spec fn cannot_index(what: Seq<char>, key: Datum) -> Signal {
    Signal::Index("IndexError: Cannot index "@ + what + " with "@ + debug_name_of(key))
}

/// The error for a key that a dictionary does not hold.
pub open spec fn no_such_key() -> Signal {
    Signal::Index("IndexError: No such key in Dict"@)
}

/// What `get` returns for its arguments. An array takes an integer index in
/// reach; a dictionary takes a hashable key, a name standing for its text; a
/// string taken by an integer, and any other object, gives `Null`.
pub open spec fn get_of(args: Seq<Datum>) -> Result<Datum, Signal> {
    if args.len() < 2 {
        Err(Signal::Argument(missing("get"@, args.len(), 2)))
    } else {
        let key = unquoted(args[1]);
        match args[0] {
            Datum::Array(items) => match key {
                Datum::Int(i) => if in_reach(i as int, items.len() as int) {
                    Ok(items[wrap_index(i as int, items.len() as int)])
                } else {
                    Err(Signal::Argument(out_of_bounds(i as int, items.len())))
                },
                _ => Err(cannot_index("Array"@, key)),
            },
            Datum::Dict(entries) => if !hashable(key) {
                Err(cannot_index("Dict"@, key))
            } else {
                match dict_get(entries, key_of(key)) {
                    Some(d) => Ok(d),
                    None => Err(no_such_key()),
                }
            },
            Datum::Str(_) => match key {
                Datum::Int(_) => Ok(Datum::Null),
                _ => Err(cannot_index("String"@, key)),
            },
            _ => Ok(Datum::Null),
        }
    }
}

fn index_error(what: &str, key: &Value) -> (e: LCoreError)
    ensures
        e@ == cannot_index(what@, key@),
{
    let mut msg = String::from_str("IndexError: Cannot index ");
    msg.append(what);
    msg.append(" with ");
    msg.append(debug_name(key));
    LCoreError::IndexError(msg)
}

/// `get`.
pub fn lcore_get(args: &mut Value, symbol_table: &mut Environment) -> (r: Result<
    Value,
    LCoreError,
>)
    requires
        *old(args) is Array,
    ensures
        final(args)@ == old(args)@,
        final(symbol_table)@ == old(symbol_table)@,
        outcome(r) == get_of(old(args)@->Array_0),
        all_well_keyed(old(args)@->Array_0) ==> (r matches Ok(v) ==> well_keyed(v@)),
{
    proof {
        if all_well_keyed(args@->Array_0) && get_of(args@->Array_0) is Ok {
            lemma_get_well_keyed(args@->Array_0);
        }
    }
    let items = args.as_array();
    if items.len() < 2 {
        return Err(missing_arguments("get", items.len(), 2));
    }
    let key: &Value = match &items[1] {
        Value::Quote(q) => &**q,
        other => other,
    };
    match &items[0] {
        Value::Array(v) => {
            assert(views(v@).len() == v@.len());
            match key {
                Value::Int(i) => match resolve_index(*i, v.len()) {
                    Ok(at) => Ok(v[at].clone()),
                    Err(e) => Err(e),
                },
                _ => Err(index_error("Array", key)),
            }
        },
        Value::Dict(entries) => {
            if !is_hashable(key) {
                return Err(index_error("Dict", key));
            }
            let wanted = search_key(key);
            let at = dict_find(entries, &wanted);
            if at < entries.len() {
                Ok(entries[at].1.clone())
            } else {
                Err(LCoreError::IndexError(String::from_str("IndexError: No such key in Dict")))
            }
        },
        Value::String(_) => match key {
            Value::Int(_) => Ok(Value::Null),
            _ => Err(index_error("String", key)),
        },
        _ => Ok(Value::Null),
    }
}

/// What `len` returns for its argument: the number of elements of an array
/// or a dictionary, the number of bytes of a string, and 1 for a quote.
pub open spec fn len_of(args: Seq<Datum>) -> Result<Datum, Signal> {
    if args.len() < 1 {
        Err(Signal::Argument(missing("len"@, 0, 1)))
    } else {
        match args[0] {
            Datum::Array(items) => Ok(Datum::Int(items.len() as i64)),
            Datum::Dict(entries) => Ok(Datum::Int(entries.len() as i64)),
            Datum::Str(s) => Ok(Datum::Int(byte_len(s) as i64)),
            Datum::Quote(_) => Ok(Datum::Int(1)),
            _ => Err(
                Signal::Argument("ArgumentError: "@ + debug_name_of(args[0]) + " has no length"@),
            ),
        }
    }
}

/// `len`.
pub fn lcore_len(args: &mut Value, symbol_table: &mut Environment) -> (r: Result<
    Value,
    LCoreError,
>)
    requires
        *old(args) is Array,
    ensures
        final(args)@ == old(args)@,
        final(symbol_table)@ == old(symbol_table)@,
        outcome(r) == len_of(old(args)@->Array_0),
{
    let items = args.as_array();
    if items.len() < 1 {
        return Err(missing_arguments("len", 0, 1));
    }
    match &items[0] {
        Value::Array(v) => {
            assert(views(v@).len() == v@.len());
            Ok(Value::Int(v.len() as i64))
        },
        Value::Dict(entries) => {
            assert(entry_views(entries@).len() == entries@.len());
            Ok(Value::Int(entries.len() as i64))
        },
        Value::String(s) => Ok(Value::Int(text_len(s) as i64)),
        Value::Quote(_) => Ok(Value::Int(1)),
        other => {
            let mut msg = String::from_str("ArgumentError: ");
            msg.append(debug_name(other));
            msg.append(" has no length");
            Err(LCoreError::ArgumentError(msg))
        },
    }
}

/// The entries after `value` is stored under `key`: in place of the value
/// of the first entry with an equal key, or as a new last entry.
pub open spec fn dict_insert(entries: Seq<(Datum, Datum)>, key: Datum, value: Datum) -> Seq<
    (Datum, Datum),
> {
    let at = key_index(entries, key, 0);
    if at < entries.len() {
        entries.update(at, (entries[at].0, value))
    } else {
        entries.push((key, value))
    }
}

/// The key under which `dict` stores an argument: the text of a quoted name,
/// and any other datum itself.
pub open spec fn stored_key(d: Datum) -> Datum {
    match d {
        Datum::Quote(inner) => match *inner {
            Datum::Identifier(name) => Datum::Str(name),
            _ => d,
        },
        _ => d,
    }
}

/// The error for a key that is not hashable.
pub open spec fn unhashable(key: Datum) -> Signal {
    Signal::Argument("ArgumentError: Unhashable key ("@ + debug_name_of(key) + ")"@)
}

/// The entries that `dict` builds from the first `pairs` pairs of its
/// arguments, or the error for the first key that is not hashable.
pub open spec fn dict_built(args: Seq<Datum>, pairs: nat) -> Result<Seq<(Datum, Datum)>, Signal>
    decreases pairs,
{
    if pairs == 0 || 2 * pairs > args.len() {
        Ok(Seq::empty())
    } else {
        match dict_built(args, (pairs - 1) as nat) {
            Err(e) => Err(e),
            Ok(entries) => {
                let key = stored_key(args[2 * pairs - 2]);
                if hashable(key) {
                    Ok(dict_insert(entries, key, args[2 * pairs - 1]))
                } else {
                    Err(unhashable(key))
                }
            },
        }
    }
}

/// What `dict` returns for its arguments, which are keys and values in turn.
pub open spec fn dict_of(args: Seq<Datum>) -> Result<Datum, Signal> {
    if args.len() % 2 != 0 {
        Err(Signal::Argument("ArgumentError: Odd number of arguments passed to \"dict\""@))
    } else {
        match dict_built(args, args.len() / 2) {
            Ok(entries) => Ok(Datum::Dict(entries)),
            Err(e) => Err(e),
        }
    }
}

/// The data of a sequence of entries with one more entry.
pub proof fn lemma_entry_views_push(entries: Seq<(Value, Value)>, key: Value, value: Value)
    ensures
        entry_views(entries.push((key, value))) == entry_views(entries).push((key@, value@)),
{
    assert(entry_views(entries.push((key, value))) =~= entry_views(entries).push((key@, value@)));
}

/// The data of a sequence of entries with one entry replaced.
pub proof fn lemma_entry_views_update(
    entries: Seq<(Value, Value)>,
    at: int,
    key: Value,
    value: Value,
)
    requires
        0 <= at < entries.len(),
    ensures
        entry_views(entries.update(at, (key, value))) == entry_views(entries).update(
            at,
            (key@, value@),
        ),
{
    assert(entry_views(entries.update(at, (key, value))) =~= entry_views(entries).update(
        at,
        (key@, value@),
    ));
}

/// The key under which `dict` stores the argument `v`.
pub fn storing_key(v: &Value) -> (r: Value)
    ensures
        r@ == stored_key(v@),
{
    match v {
        Value::Quote(q) => {
            let inner: &Value = &**q;
            assert(v@ == Datum::Quote(Box::new(inner@)));
            match inner {
                Value::Identifier(name) => {
                    Value::String(name.clone())
                },
                _ => {
                    v.clone()
                },
            }
        },
        _ => v.clone(),
    }
}

/// Puts `value` in place of the value of the entry at `at`.
pub fn set_entry_value(entries: &mut Vec<(Value, Value)>, at: usize, value: Value)
    requires
        at < old(entries)@.len(),
    ensures
        entry_views(final(entries)@) == entry_views(old(entries)@).update(
            at as int,
            (entry_views(old(entries)@)[at as int].0, value@),
        ),
{
    proof {
        lemma_entry_views_update(entries@, at as int, entries@[at as int].0, value);
    }
    entries[at].1 = value;
}

/// Stores `value` under `key` in `entries`.
pub fn dict_store(entries: &mut Vec<(Value, Value)>, key: Value, value: Value)
    ensures
        entry_views(final(entries)@) == dict_insert(entry_views(old(entries)@), key@, value@),
{
    let at = dict_find(entries, &key);
    if at < entries.len() {
        set_entry_value(entries, at, value);
    } else {
        proof {
            lemma_entry_views_push(entries@, key, value);
        }
        entries.push((key, value));
    }
}

/// `dict`.
pub fn lcore_dict(args: &mut Value, symbol_table: &mut Environment) -> (r: Result<
    Value,
    LCoreError,
>)
    requires
        *old(args) is Array,
    ensures
        final(args)@ == old(args)@,
        final(symbol_table)@ == old(symbol_table)@,
        outcome(r) == dict_of(old(args)@->Array_0),
        all_well_keyed(old(args)@->Array_0) ==> (r matches Ok(v) ==> well_keyed(v@)),
{
    proof {
        if all_well_keyed(args@->Array_0) && dict_of(args@->Array_0) is Ok {
            lemma_dict_well_keyed(args@->Array_0);
        }
    }
    let items = args.as_array();
    if items.len() % 2 != 0 {
        return Err(
            LCoreError::ArgumentError(
                String::from_str("ArgumentError: Odd number of arguments passed to \"dict\""),
            ),
        );
    }
    let ghost data = views(items@);
    let mut entries: Vec<(Value, Value)> = Vec::new();
    let mut i: usize = 0;
    assert(entry_views(entries@) =~= Seq::empty());
    while i < items.len() / 2
        invariant
            data == views(items@),
            old(args)@ == Datum::Array(data),
            data.len() == items@.len(),
            data.len() % 2 == 0,
            i <= items@.len() / 2,
            dict_built(data, i as nat) == Ok::<Seq<(Datum, Datum)>, Signal>(
                entry_views(entries@),
            ),
        decreases items@.len() / 2 - i,
    {
        let key: Value = storing_key(&items[2 * i]);
        if !is_hashable(&key) {
            let mut msg = String::from_str("ArgumentError: Unhashable key (");
            msg.append(debug_name(&key));
            msg.append(")");
            proof {
                lemma_dict_built_fails(data, (i + 1) as nat, data.len() / 2);
            }
            return Err(LCoreError::ArgumentError(msg));
        }
        dict_store(&mut entries, key, items[2 * i + 1].clone());
        i += 1;
    }
    Ok(Value::Dict(entries))
}

/// Once a key is found that is not hashable, every longer run of pairs fails
/// with the same error.
pub proof fn lemma_dict_built_fails(args: Seq<Datum>, pairs: nat, more: nat)
    requires
        pairs <= more,
        2 * more <= args.len(),
        dict_built(args, pairs) is Err,
    ensures
        dict_built(args, more) == dict_built(args, pairs),
    decreases more,
{
    if pairs < more {
        lemma_dict_built_fails(args, pairs, (more - 1) as nat);
    }
}

/// The object with the leaf that the indexers from `from` on lead to
/// replaced by `value`. An array is entered by an integer index in reach, a
/// dictionary by a key that it holds, a name standing for its text.
pub open spec fn replaced(obj: Datum, path: Seq<Datum>, from: nat, value: Datum) -> Result<
    Datum,
    Signal,
>
    decreases path.len() - from,
{
    if from >= path.len() {
        Ok(value)
    } else {
        match obj {
            Datum::Array(items) => match path[from as int] {
                Datum::Int(i) => if in_reach(i as int, items.len() as int) {
                    let at = wrap_index(i as int, items.len() as int);
                    match replaced(items[at], path, from + 1, value) {
                        Ok(d) => Ok(Datum::Array(items.update(at, d))),
                        Err(e) => Err(e),
                    }
                } else {
                    Err(Signal::Argument(out_of_bounds(i as int, items.len())))
                },
                _ => Err(Signal::Index("IndexError: Cannot index array with non-int"@)),
            },
            Datum::Dict(entries) => {
                let at = key_index(entries, key_of(path[from as int]), 0);
                if at < entries.len() {
                    match replaced(entries[at].1, path, from + 1, value) {
                        Ok(d) => Ok(Datum::Dict(entries.update(at, (entries[at].0, d)))),
                        Err(e) => Err(e),
                    }
                } else {
                    Err(no_such_key())
                }
            },
            _ => Err(cannot_index(debug_name_of(obj), path[from as int])),
        }
    }
}

/// A copy of `obj` with the leaf that the indexers from `from` on lead to
/// replaced by a copy of `value`.
pub fn replace_at(obj: &Value, path: &Vec<Value>, from: usize, value: &Value) -> (r: Result<
    Value,
    LCoreError,
>)
    requires
        from <= path@.len(),
    ensures
        outcome(r) == replaced(obj@, views(path@), from as nat, value@),
    decreases path@.len() - from,
{
    if from >= path.len() {
        return Ok(value.clone());
    }
    let indexer = &path[from];
    match obj {
        Value::Array(items) => {
            assert(views(items@).len() == items@.len());
            match indexer {
                Value::Int(i) => {
                    let at = match resolve_index(*i, items.len()) {
                        Ok(at) => at,
                        Err(e) => {
                            return Err(e);
                        },
                    };
                    let inner = match replace_at(&items[at], path, from + 1, value) {
                        Ok(inner) => inner,
                        Err(e) => {
                            return Err(e);
                        },
                    };
                    let mut out: Vec<Value> = Vec::new();
                    crate::value::append_clones(&mut out, items);
                    out[at] = inner;
                    assert(views(out@) =~= views(items@).update(at as int, inner@));
                    Ok(Value::Array(out))
                },
                _ => Err(
                    LCoreError::IndexError(
                        String::from_str("IndexError: Cannot index array with non-int"),
                    ),
                ),
            }
        },
        Value::Dict(entries) => {
            let wanted = search_key(indexer);
            let at = dict_find(entries, &wanted);
            if at >= entries.len() {
                return Err(
                    LCoreError::IndexError(String::from_str("IndexError: No such key in Dict")),
                );
            }
            let inner = match replace_at(&entries[at].1, path, from + 1, value) {
                Ok(inner) => inner,
                Err(e) => {
                    return Err(e);
                },
            };
            let copy = obj.clone();
            match copy {
                Value::Dict(out) => {
                    let mut out = out;
                    assert(entry_views(out@) == entry_views(entries@));
                    set_entry_value(&mut out, at, inner);
                    Ok(Value::Dict(out))
                },
                _ => Err(index_error(debug_name(obj), indexer)),
            }
        },
        _ => Err(index_error(debug_name(obj), indexer)),
    }
}

/// The name that an operand gives: that of an identifier, bare or quoted.
pub open spec fn named(d: Datum) -> Option<Seq<char>> {
    match d {
        Datum::Identifier(name) => Some(name),
        Datum::Quote(inner) => match *inner {
            Datum::Identifier(name) => Some(name),
            _ => None,
        },
        _ => None,
    }
}

/// The name that `v` gives, if it is an identifier, bare or quoted.
pub fn name_of(v: &Value) -> (r: Option<&String>)
    ensures
        match r {
            Some(name) => named(v@) == Some(name@),
            None => named(v@).is_none(),
        },
{
    match v {
        Value::Identifier(name) => Some(name),
        Value::Quote(q) => {
            let inner: &Value = &**q;
            assert(v@ == Datum::Quote(Box::new(inner@)));
            match inner {
                Value::Identifier(name) => {
                    Some(name)
                },
                _ => {
                    None
                },
            }
        },
        _ => None,
    }
}

/// The indexers that an operand gives: the elements of a quoted array that
/// is not empty.
pub open spec fn path_of(d: Datum) -> Option<Seq<Datum>> {
    match d {
        Datum::Quote(inner) => match *inner {
            Datum::Array(items) => if items.len() > 0 {
                Some(items)
            } else {
                None
            },
            _ => None,
        },
        _ => None,
    }
}

/// The error for a first operand that names nothing.
pub open spec fn no_name(op: Seq<char>, d: Datum) -> Signal {
    Signal::Argument(
        "ArgumentError: "@ + op + " expects a name, not "@ + debug_name_of(d),
    )
}

/// The error for a first operand of `op` that names nothing.
pub fn no_name_error(op: &str, v: &Value) -> (e: LCoreError)
    ensures
        e@ == no_name(op@, v@),
{
    let mut msg = String::from_str("ArgumentError: ");
    msg.append(op);
    msg.append(" expects a name, not ");
    msg.append(debug_name(v));
    LCoreError::ArgumentError(msg)
}

/// The error for a path that is no quoted array of indexers.
pub open spec fn no_path() -> Signal {
    Signal::Argument("ArgumentError: swap expects a quoted list of indexers"@)
}

/// What `swap` returns and the scopes that it leaves. Where the name is
/// bound, the innermost binding gets its object with the leaf replaced;
/// where it is not, nothing changes.
pub open spec fn swap_of(args: Seq<Datum>, scopes: Seq<Scope>) -> (
    Result<Datum, Signal>,
    Seq<Scope>,
) {
    if args.len() < 3 {
        (Err(Signal::Argument(missing("swap"@, args.len(), 3))), scopes)
    } else {
        match named(args[0]) {
            None => (Err(no_name("swap"@, args[0])), scopes),
            Some(name) => match path_of(args[1]) {
                None => (Err(no_path()), scopes),
                Some(path) => match lookup(scopes, name) {
                    None => (Ok(Datum::Null), scopes),
                    Some(obj) => match replaced(obj, path, 0, args[2]) {
                        Ok(d) => (Ok(Datum::Null), assign(scopes, name, d)),
                        Err(e) => (Err(e), scopes),
                    },
                },
            },
        }
    }
}

/// The indexers that `v` gives, if it is a quoted array that is not empty.
pub fn path_in(v: &Value) -> (r: Option<&Vec<Value>>)
    ensures
        match r {
            Some(path) => path_of(v@) == Some(views(path@)),
            None => path_of(v@).is_none(),
        },
{
    match v {
        Value::Quote(q) => {
            let inner: &Value = &**q;
            match inner {
                Value::Array(items) => {
                    assert(inner@ == Datum::Array(views(items@)));
                    if items.len() > 0 {
                        Some(items)
                    } else {
                        None
                    }
                },
                _ => {
                    None
                },
            }
        },
        _ => None,
    }
}

/// `swap`: replaces a leaf inside the object that a name is bound to.
pub fn lcore_swap(args: &mut Value, symbol_table: &mut Environment) -> (r: Result<
    Value,
    LCoreError,
>)
    requires
        *old(args) is Array,
        old(symbol_table)@.scopes.len() > 0,
    ensures
        final(args)@ == old(args)@,
        final(symbol_table)@.returns == old(symbol_table)@.returns,
        outcome(r) == swap_of(old(args)@->Array_0, old(symbol_table)@.scopes).0,
        final(symbol_table)@.scopes == swap_of(old(args)@->Array_0, old(symbol_table)@.scopes).1,
        all_well_keyed(old(args)@->Array_0) && scopes_well_keyed(old(symbol_table)@.scopes)
            ==> scopes_well_keyed(final(symbol_table)@.scopes),
{
    proof {
        if all_well_keyed(args@->Array_0) && scopes_well_keyed(symbol_table@.scopes) {
            lemma_swap_well_keyed(args@->Array_0, symbol_table@.scopes);
        }
    }
    let items = args.as_array();
    if items.len() < 3 {
        return Err(missing_arguments("swap", items.len(), 3));
    }
    let name = match name_of(&items[0]) {
        Some(name) => name,
        None => {
            return Err(no_name_error("swap", &items[0]));
        },
    };
    let path = match path_in(&items[1]) {
        Some(path) => path,
        None => {
            return Err(
                LCoreError::ArgumentError(
                    String::from_str("ArgumentError: swap expects a quoted list of indexers"),
                ),
            );
        },
    };
    proof {
        if lookup(symbol_table@.scopes, name@).is_some() {
            lemma_assign_same(symbol_table@.scopes, name@);
        }
    }
    match symbol_table.get(name.clone()) {
        None => Ok(Value::Null),
        Some(obj) => match replace_at(obj, path, 0, &items[2]) {
            Ok(d) => {
                *obj = d;
                Ok(Value::Null)
            },
            Err(e) => Err(e),
        },
    }
}

/// The pairs that the arguments of `dict` hold, each with its key as it is
/// stored.
pub open spec fn pairs_of(args: Seq<Datum>, pairs: nat) -> Seq<(Datum, Datum)> {
    Seq::new(pairs, |i: int| (stored_key(args[2 * i]), args[2 * i + 1]))
}

/// Where the keys are hashable and differ from one another, `dict` stores
/// its pairs as they come, one entry for each.
pub proof fn lemma_dict_built_in_order(args: Seq<Datum>, pairs: nat)
    requires
        2 * pairs <= args.len(),
        forall|i: int| 0 <= i < pairs ==> hashable(stored_key(#[trigger] args[2 * i])),
        forall|i: int, j: int|
            0 <= i < j < pairs ==> !datum_eq(
                stored_key(#[trigger] args[2 * j]),
                stored_key(#[trigger] args[2 * i]),
            ),
    ensures
        dict_built(args, pairs) == Ok::<Seq<(Datum, Datum)>, Signal>(pairs_of(args, pairs)),
    decreases pairs,
{
    if pairs == 0 {
        assert(pairs_of(args, 0) =~= Seq::empty());
    } else {
        let fewer = (pairs - 1) as nat;
        let last: int = pairs - 1;
        lemma_dict_built_in_order(args, fewer);
        let entries = pairs_of(args, fewer);
        let key = stored_key(args[2 * last]);
        assert(hashable(key));
        lemma_key_index(entries, key, 0);
        let at = key_index(entries, key, 0);
        if at < entries.len() {
            assert(entries[at].0 == stored_key(args[2 * at]));
            assert(!datum_eq(stored_key(args[2 * last]), stored_key(args[2 * at])));
        }
        assert(dict_insert(entries, key, args[2 * pairs - 1]) =~= pairs_of(args, pairs));
    }
}

/// `get` on an array that is not empty: an index whose magnitude is at most
/// the length gives the element at `((i mod len) + len) mod len`, and any
/// other index is an argument error.
pub proof fn lemma_get_wraps(items: Seq<Datum>, i: i64)
    requires
        items.len() > 0,
    ensures
        -items.len() <= i <= items.len() ==> get_of(seq![Datum::Array(items), Datum::Int(i)])
            == Ok::<Datum, Signal>(
            items[((i as int % items.len() as int) + items.len()) % items.len() as int],
        ),
        !(-items.len() <= i <= items.len()) ==> get_of(seq![Datum::Array(items), Datum::Int(i)])
            == Err::<Datum, Signal>(Signal::Argument(out_of_bounds(i as int, items.len()))),
{
    let args = seq![Datum::Array(items), Datum::Int(i)];
    assert(args[0] == Datum::Array(items));
    assert(args[1] == Datum::Int(i));
}

/// Storing under a key keeps what holds of the keys of a dictionary: each
/// is hashable, and none equals an earlier one.
pub proof fn lemma_dict_insert_keys(entries: Seq<(Datum, Datum)>, key: Datum, value: Datum)
    requires
        hashable(key),
        forall|i: int| 0 <= i < entries.len() ==> hashable((#[trigger] entries[i]).0),
        forall|i: int, j: int|
            0 <= i < j < entries.len() ==> !datum_eq(
                (#[trigger] entries[j]).0,
                (#[trigger] entries[i]).0,
            ),
    ensures
        forall|i: int|
            0 <= i < dict_insert(entries, key, value).len() ==> hashable(
                (#[trigger] dict_insert(entries, key, value)[i]).0,
            ),
        forall|i: int, j: int|
            0 <= i < j < dict_insert(entries, key, value).len() ==> !datum_eq(
                (#[trigger] dict_insert(entries, key, value)[j]).0,
                (#[trigger] dict_insert(entries, key, value)[i]).0,
            ),
{
    lemma_key_index(entries, key, 0);
}

/// A dictionary that `dict` builds holds hashable keys only, and no key
/// twice.
pub proof fn lemma_dict_built_keys(args: Seq<Datum>, pairs: nat)
    requires
        dict_built(args, pairs) is Ok,
    ensures
        forall|i: int|
            0 <= i < dict_built(args, pairs)->Ok_0.len() ==> hashable(
                (#[trigger] dict_built(args, pairs)->Ok_0[i]).0,
            ),
        forall|i: int, j: int|
            0 <= i < j < dict_built(args, pairs)->Ok_0.len() ==> !datum_eq(
                (#[trigger] dict_built(args, pairs)->Ok_0[j]).0,
                (#[trigger] dict_built(args, pairs)->Ok_0[i]).0,
            ),
    decreases pairs,
{
    if !(pairs == 0 || 2 * pairs > args.len()) {
        lemma_dict_built_keys(args, (pairs - 1) as nat);
        let entries = dict_built(args, (pairs - 1) as nat)->Ok_0;
        lemma_dict_insert_keys(entries, stored_key(args[2 * pairs - 2]), args[2 * pairs - 1]);
    }
}

} // verus!
