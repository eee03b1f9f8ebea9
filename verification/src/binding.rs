//! The binding operators `set` and `defn`, the signals `ret` and `break`,
//! and the operators that call on the host: `import`, `quit` and `exit`.

use crate::container::{name_of, named, no_name, no_name_error};
use crate::effect::{Applied, AppliedView, applied_outcome};
use crate::environment::{Environment, Scope, assign, holder, lemma_holder, lookup};
use crate::error::{LCoreError, Signal, missing, missing_arguments, outcome};
use crate::keys::{
    all_well_keyed, lemma_defn_well_keyed, lemma_set_well_keyed, scopes_well_keyed,
};
use crate::value::{Datum, Value, clone_all, views};
use vstd::prelude::*;

verus! {

/// After a name is set, looking it up gives what it was set to, and the
/// number of scopes is what it was.
pub proof fn lemma_assign_lookup(scopes: Seq<Scope>, name: Seq<char>, d: Datum)
    requires
        scopes.len() > 0,
    ensures
        lookup(assign(scopes, name, d), name) == Some(d),
        assign(scopes, name, d).len() == scopes.len(),
{
    lemma_holder(scopes, name);
    let k = holder(scopes, name);
    let at = if k < 0 {
        scopes.len() - 1
    } else {
        k
    };
    let after = assign(scopes, name, d);
    assert(after == scopes.update(at, scopes[at].insert(name, d)));
    lemma_holder(after, name);
    let k2 = holder(after, name);
    assert(after[at].dom().contains(name));
    if k2 > at {
        assert(after[k2] == scopes[k2]);
        assert(!scopes[k2].dom().contains(name));
    }
    assert(k2 == at);
}

/// What `set` returns and the scopes that it leaves: the name is set as
/// `assign` says.
pub open spec fn set_of(args: Seq<Datum>, scopes: Seq<Scope>) -> (
    Result<Datum, Signal>,
    Seq<Scope>,
) {
    if args.len() < 2 {
        (Err(Signal::Argument(missing("set"@, args.len(), 2))), scopes)
    } else {
        match named(args[0]) {
            None => (Err(no_name("set"@, args[0])), scopes),
            Some(name) => (Ok(Datum::Null), assign(scopes, name, args[1])),
        }
    }
}

/// `set`: binds a name to a value; a name that some scope binds is rebound
/// there, and no new binding shadows it.
pub fn lcore_set(args: &mut Value, symbol_table: &mut Environment) -> (r: Result<Value, LCoreError>)
    requires
        *old(args) is Array,
        old(symbol_table)@.scopes.len() > 0,
    ensures
        final(args)@ == old(args)@,
        final(symbol_table)@.returns == old(symbol_table)@.returns,
        outcome(r) == set_of(old(args)@->Array_0, old(symbol_table)@.scopes).0,
        final(symbol_table)@.scopes == set_of(old(args)@->Array_0, old(symbol_table)@.scopes).1,
        final(symbol_table)@.scopes.len() == old(symbol_table)@.scopes.len(),
        r is Ok ==> lookup(final(symbol_table)@.scopes, named(old(args)@->Array_0[0])->0) == Some(
            old(args)@->Array_0[1],
        ),
        all_well_keyed(old(args)@->Array_0) && scopes_well_keyed(old(symbol_table)@.scopes)
            ==> scopes_well_keyed(final(symbol_table)@.scopes),
{
    proof {
        if all_well_keyed(args@->Array_0) && scopes_well_keyed(symbol_table@.scopes) {
            lemma_set_well_keyed(args@->Array_0, symbol_table@.scopes);
        }
    }
    let items = args.as_array();
    if items.len() < 2 {
        return Err(missing_arguments("set", items.len(), 2));
    }
    match name_of(&items[0]) {
        Some(name) => {
            proof {
                lemma_assign_lookup(symbol_table@.scopes, name@, items@[1]@);
            }
            symbol_table.insert(name.clone(), items[1].clone());
            Ok(Value::Null)
        },
        None => Err(no_name_error("set", &items[0])),
    }
}

/// The name that a parameter gives: that of a quoted identifier.
pub open spec fn param_name(d: Datum) -> Option<Seq<char>> {
    match d {
        Datum::Quote(inner) => match *inner {
            Datum::Identifier(name) => Some(name),
            _ => None,
        },
        _ => None,
    }
}

/// Whether a datum is a parameter list: an array of quoted identifiers.
pub open spec fn is_params(d: Datum) -> bool {
    d matches Datum::Array(items) && forall|i: int|
        0 <= i < items.len() ==> param_name(#[trigger] items[i]).is_some()
}

/// The tokens of a quoted block: the elements of the array that the quote
/// wraps.
pub open spec fn block_of(d: Datum) -> Option<Seq<Datum>> {
    match d {
        Datum::Quote(inner) => match *inner {
            Datum::Array(tokens) => Some(tokens),
            _ => None,
        },
        _ => None,
    }
}

/// The user function that `defn` stores: the parameter list and the tokens
/// of the body, as an array of two.
pub open spec fn user_function(params: Datum, body: Seq<Datum>) -> Datum {
    Datum::Array(seq![params, Datum::Array(body)])
}

/// What `defn` returns and the scopes that it leaves: the user function is
/// set under its name as `assign` says.
pub open spec fn defn_of(args: Seq<Datum>, scopes: Seq<Scope>) -> (
    Result<Datum, Signal>,
    Seq<Scope>,
) {
    if args.len() < 3 {
        (Err(Signal::Argument(missing("defn"@, args.len(), 3))), scopes)
    } else {
        match named(args[0]) {
            None => (Err(no_name("defn"@, args[0])), scopes),
            Some(name) => if !is_params(args[1]) {
                (
                    Err(Signal::Argument("ArgumentError: defn expects a list of quoted names"@)),
                    scopes,
                )
            } else {
                match block_of(args[2]) {
                    None => (
                        Err(Signal::Argument("ArgumentError: defn expects a quoted block"@)),
                        scopes,
                    ),
                    Some(body) => (
                        Ok(Datum::Null),
                        assign(scopes, name, user_function(args[1], body)),
                    ),
                }
            },
        }
    }
}

/// The name that the parameter `v` gives, if it is a quoted identifier.
pub fn param_in(v: &Value) -> (r: Option<&String>)
    ensures
        match r {
            Some(name) => param_name(v@) == Some(name@),
            None => param_name(v@).is_none(),
        },
{
    match v {
        Value::Quote(q) => {
            let inner: &Value = &**q;
            assert(v@ == Datum::Quote(Box::new(inner@)));
            match inner {
                Value::Identifier(name) => {
                    Some(name)
                },
                _ => {
                    None
                },
            }
        },
        _ => None,
    }
}

/// Whether `v` is a parameter list.
pub fn check_params(v: &Value) -> (r: bool)
    ensures
        r == is_params(v@),
{
    match v {
        Value::Array(items) => {
            let mut i: usize = 0;
            while i < items.len()
                invariant
                    i <= items@.len(),
                    v@ == Datum::Array(views(items@)),
                    views(items@).len() == items@.len(),
                    forall|j: int| 0 <= j < i ==> param_name(#[trigger] views(items@)[j]).is_some(),
                decreases items@.len() - i,
            {
                assert(views(items@)[i as int] == items@[i as int]@);
                if param_in(&items[i]).is_none() {
                    return false;
                }
                i += 1;
            }
            true
        },
        _ => false,
    }
}

/// The tokens of the quoted block `v`, if it is one.
pub fn block_in(v: &Value) -> (r: Option<&Vec<Value>>)
    ensures
        match r {
            Some(tokens) => block_of(v@) == Some(views(tokens@)),
            None => block_of(v@).is_none(),
        },
{
    match v {
        Value::Quote(q) => {
            let inner: &Value = &**q;
            assert(v@ == Datum::Quote(Box::new(inner@)));
            match inner {
                Value::Array(tokens) => {
                    Some(tokens)
                },
                _ => {
                    None
                },
            }
        },
        _ => None,
    }
}

/// `defn`: stores a user function, made of a parameter list and a quoted
/// body, under a name.
pub fn lcore_defn(args: &mut Value, symbol_table: &mut Environment) -> (r: Result<
    Value,
    LCoreError,
>)
    requires
        *old(args) is Array,
        old(symbol_table)@.scopes.len() > 0,
    ensures
        final(args)@ == old(args)@,
        final(symbol_table)@.returns == old(symbol_table)@.returns,
        outcome(r) == defn_of(old(args)@->Array_0, old(symbol_table)@.scopes).0,
        final(symbol_table)@.scopes == defn_of(old(args)@->Array_0, old(symbol_table)@.scopes).1,
        all_well_keyed(old(args)@->Array_0) && scopes_well_keyed(old(symbol_table)@.scopes)
            ==> scopes_well_keyed(final(symbol_table)@.scopes),
{
    proof {
        if all_well_keyed(args@->Array_0) && scopes_well_keyed(symbol_table@.scopes) {
            lemma_defn_well_keyed(args@->Array_0, symbol_table@.scopes);
        }
    }
    let items = args.as_array();
    if items.len() < 3 {
        return Err(missing_arguments("defn", items.len(), 3));
    }
    let name = match name_of(&items[0]) {
        Some(name) => name,
        None => {
            return Err(no_name_error("defn", &items[0]));
        },
    };
    if !check_params(&items[1]) {
        return Err(
            LCoreError::ArgumentError(
                String::from_str("ArgumentError: defn expects a list of quoted names"),
            ),
        );
    }
    let body = match block_in(&items[2]) {
        Some(body) => body,
        None => {
            return Err(
                LCoreError::ArgumentError(
                    String::from_str("ArgumentError: defn expects a quoted block"),
                ),
            );
        },
    };
    let mut def: Vec<Value> = Vec::new();
    def.push(items[1].clone());
    def.push(Value::Array(clone_all(body)));
    assert(views(def@) =~= seq![items@[1]@, Datum::Array(views(body@))]);
    symbol_table.insert(name.clone(), Value::Array(def));
    Ok(Value::Null)
}

/// What `ret` returns: the signal `Return`, once its argument is on the
/// return channel.
pub open spec fn return_of(args: Seq<Datum>) -> Result<Datum, Signal> {
    if args.len() < 1 {
        Err(Signal::Argument(missing("ret"@, 0, 1)))
    } else {
        Err(Signal::Return)
    }
}

/// `ret`: puts its argument on the return channel and raises `Return`.
pub fn lcore_return(args: &mut Value, symbol_table: &mut Environment) -> (r: Result<
    Value,
    LCoreError,
>)
    requires
        *old(args) is Array,
    ensures
        final(args)@ == old(args)@,
        final(symbol_table)@.scopes == old(symbol_table)@.scopes,
        outcome(r) == return_of(old(args)@->Array_0),
        final(symbol_table)@.returns == if old(args)@->Array_0.len() < 1 {
            old(symbol_table)@.returns
        } else {
            old(symbol_table)@.returns.push(old(args)@->Array_0[0])
        },
{
    let items = args.as_array();
    if items.len() < 1 {
        return Err(missing_arguments("ret", 0, 1));
    }
    symbol_table.push_ret(items[0].clone());
    LCoreError::Return()
}

/// `break`: raises `Break`.
pub fn lcore_break(args: &mut Value, symbol_table: &mut Environment) -> (r: Result<
    Value,
    LCoreError,
>)
    ensures
        final(args)@ == old(args)@,
        final(symbol_table)@ == old(symbol_table)@,
        outcome(r) == Err::<Datum, Signal>(Signal::Break),
{
    LCoreError::Break()
}

/// `to-str`: a fixed string.
pub fn lcore_to_str(args: &mut Value, symbol_table: &mut Environment) -> (r: Result<
    Value,
    LCoreError,
>)
    ensures
        final(args)@ == old(args)@,
        final(symbol_table)@ == old(symbol_table)@,
        outcome(r) == Ok::<Datum, Signal>(Datum::Str("LambdaCore String!"@)),
{
    Ok(Value::String(String::from_str("LambdaCore String!")))
}

/// What `import` calls for: the host loads the module that the string
/// names; any other argument gives `Null`.
pub open spec fn import_of(args: Seq<Datum>) -> Result<AppliedView, Signal> {
    if args.len() < 1 {
        Err(Signal::Argument(missing("import"@, 0, 1)))
    } else {
        match args[0] {
            Datum::Str(path) => Ok(AppliedView::Import(path)),
            _ => Ok(AppliedView::Value(Datum::Null)),
        }
    }
}

/// `import`.
pub fn lcore_import(args: &mut Value, symbol_table: &mut Environment) -> (r: Result<
    Applied,
    LCoreError,
>)
    requires
        *old(args) is Array,
    ensures
        final(args)@ == old(args)@,
        final(symbol_table)@ == old(symbol_table)@,
        applied_outcome(r) == import_of(old(args)@->Array_0),
{
    let items = args.as_array();
    if items.len() < 1 {
        return Err(missing_arguments("import", 0, 1));
    }
    match &items[0] {
        Value::String(path) => Ok(Applied::Import(path.clone())),
        _ => Ok(Applied::Value(Value::Null)),
    }
}

/// `quit` and `exit`: the host ends the process.
pub fn lcore_quit(args: &mut Value, symbol_table: &mut Environment) -> (r: Result<
    Applied,
    LCoreError,
>)
    ensures
        final(args)@ == old(args)@,
        final(symbol_table)@ == old(symbol_table)@,
        applied_outcome(r) == Ok::<AppliedView, Signal>(AppliedView::Quit),
{
    Ok(Applied::Quit)
}

} // verus!
