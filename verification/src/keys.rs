//! The invariant of dictionaries: every key is hashable, and no key stands
//! twice. The operators that build or change a value keep it.

use crate::arith::{add_of, mul_of, repeated};
use crate::binding::{block_of, defn_of, set_of, user_function};
use crate::builtin::builtin_of;
use crate::compare::{datum_eq, dict_find, dict_get, entry_found, key_index, lemma_key_index};
use crate::container::{
    dict_built, dict_insert, dict_of, get_of, hashable, in_reach, is_hashable, key_of, named,
    path_of, replaced, stored_key, swap_of, unquoted, wrap_index,
};
use crate::control::{if_of, loop_of, run_of, sel_from, sel_of};
use crate::effect::AppliedView;
use crate::environment::{EnvModel, Scope, assign, holder, lemma_holder, lookup};
use crate::value::{Builtin, Datum, Value, entry_views, views};
use vstd::prelude::*;
use vstd::relations::injective_on;
use vstd::set_lib::{lemma_int_range, lemma_map_size, lemma_subset_equality, set_int_range};

verus! {

/// Whether every dictionary in a datum is well formed: each of its keys is
/// hashable, and none equals an earlier one.
pub open spec fn well_keyed(d: Datum) -> bool
    decreases d,
{
    match d {
        Datum::Quote(inner) => well_keyed(*inner),
        Datum::Array(items) => forall|i: int|
            0 <= i < items.len() ==> well_keyed(#[trigger] items[i]),
        Datum::Dict(entries) => {
            &&& forall|i: int|
                0 <= i < entries.len() ==> hashable((#[trigger] entries[i]).0) && well_keyed(
                    entries[i].1,
                )
            &&& forall|i: int, j: int|
                0 <= i < j < entries.len() ==> !datum_eq(
                    (#[trigger] entries[j]).0,
                    (#[trigger] entries[i]).0,
                )
        },
        _ => true,
    }
}

/// Whether each of some data is well keyed.
pub open spec fn all_well_keyed(items: Seq<Datum>) -> bool {
    forall|i: int| 0 <= i < items.len() ==> well_keyed(#[trigger] items[i])
}

/// Whether every value that the scopes bind is well keyed.
pub open spec fn scopes_well_keyed(scopes: Seq<Scope>) -> bool {
    forall|k: int, name: Seq<char>|
        0 <= k < scopes.len() && (#[trigger] scopes[k]).dom().contains(name) ==> well_keyed(
            #[trigger] scopes[k][name],
        )
}

/// A hashable datum holds no dictionary, so it is well keyed.
pub proof fn lemma_hashable_well_keyed(d: Datum)
    requires
        hashable(d),
    ensures
        well_keyed(d),
    decreases d,
{
    match d {
        Datum::Quote(inner) => {
            lemma_hashable_well_keyed(*inner);
        },
        _ => {},
    }
}

/// Copies of well-keyed data, one after another, are well keyed.
pub proof fn lemma_repeated_well_keyed(items: Seq<Datum>, n: nat)
    requires
        all_well_keyed(items),
    ensures
        all_well_keyed(repeated(items, n)),
    decreases n,
{
    if n > 0 {
        lemma_repeated_well_keyed(items, (n - 1) as nat);
    }
}

/// Storing a well-keyed value under a hashable key keeps a dictionary well
/// keyed.
pub proof fn lemma_dict_insert_well_keyed(entries: Seq<(Datum, Datum)>, key: Datum, value: Datum)
    requires
        well_keyed(Datum::Dict(entries)),
        hashable(key),
        well_keyed(value),
    ensures
        well_keyed(Datum::Dict(dict_insert(entries, key, value))),
{
    lemma_key_index(entries, key, 0);
    let after = dict_insert(entries, key, value);
    assert(Datum::Dict(entries)->Dict_0 == entries);
    assert(Datum::Dict(after)->Dict_0 == after);
    let at = key_index(entries, key, 0);
    assert forall|i: int| 0 <= i < after.len() implies hashable((#[trigger] after[i]).0)
        && well_keyed(after[i].1) by {
        if i < entries.len() {
            assert(hashable(entries[i].0) && well_keyed(entries[i].1));
            assert(after[i].0 == entries[i].0);
            assert(after[i].1 == entries[i].1 || after[i].1 == value);
        }
    }
    assert forall|i: int, j: int| 0 <= i < j < after.len() implies !datum_eq(
        (#[trigger] after[j]).0,
        (#[trigger] after[i]).0,
    ) by {
        assert(after[i].0 == entries[i].0);
        if j < entries.len() {
            assert(after[j].0 == entries[j].0);
            assert(!datum_eq(entries[j].0, entries[i].0));
        } else {
            assert(after[j].0 == key);
            assert(!datum_eq(key, entries[i].0));
        }
    }
}

/// The dictionary that `dict` builds from well-keyed arguments is well
/// keyed.
pub proof fn lemma_dict_built_well_keyed(args: Seq<Datum>, pairs: nat)
    requires
        all_well_keyed(args),
        dict_built(args, pairs) is Ok,
    ensures
        well_keyed(Datum::Dict(dict_built(args, pairs)->Ok_0)),
    decreases pairs,
{
    if !(pairs == 0 || 2 * pairs > args.len()) {
        lemma_dict_built_well_keyed(args, (pairs - 1) as nat);
        let entries = dict_built(args, (pairs - 1) as nat)->Ok_0;
        lemma_dict_insert_well_keyed(
            entries,
            stored_key(args[2 * pairs - 2]),
            args[2 * pairs - 1],
        );
    }
}

/// Replacing a leaf by a well-keyed value keeps an object well keyed: no
/// key changes.
pub proof fn lemma_replaced_well_keyed(obj: Datum, path: Seq<Datum>, from: nat, value: Datum)
    requires
        well_keyed(obj),
        well_keyed(value),
        replaced(obj, path, from, value) is Ok,
    ensures
        well_keyed(replaced(obj, path, from, value)->Ok_0),
    decreases path.len() - from,
{
    if from < path.len() {
        match obj {
            Datum::Array(items) => match path[from as int] {
                Datum::Int(i) => {
                    let at = wrap_index(i as int, items.len() as int);
                    assert(in_reach(i as int, items.len() as int));
                    lemma_wrap_in_range(i as int, items.len() as int);
                    lemma_replaced_well_keyed(items[at], path, from + 1, value);
                    let d = replaced(items[at], path, from + 1, value)->Ok_0;
                    let after = items.update(at, d);
                    assert forall|k: int| 0 <= k < after.len() implies well_keyed(
                        #[trigger] after[k],
                    ) by {
                        if k != at {
                            assert(after[k] == items[k]);
                        }
                    }
                },
                _ => {},
            },
            Datum::Dict(entries) => {
                let at = key_index(entries, key_of(path[from as int]), 0);
                lemma_key_index(entries, key_of(path[from as int]), 0);
                lemma_replaced_well_keyed(entries[at].1, path, from + 1, value);
                let d = replaced(entries[at].1, path, from + 1, value)->Ok_0;
                let after = entries.update(at, (entries[at].0, d));
                assert forall|k: int| 0 <= k < after.len() implies hashable((#[trigger] after[k]).0)
                    && well_keyed(after[k].1) by {
                    if k != at {
                        assert(after[k] == entries[k]);
                    }
                }
                assert forall|k: int, j: int| 0 <= k < j < after.len() implies !datum_eq(
                    (#[trigger] after[j]).0,
                    (#[trigger] after[k]).0,
                ) by {
                    assert(after[j].0 == entries[j].0);
                    assert(after[k].0 == entries[k].0);
                }
            },
            _ => {},
        }
    }
}

/// An index in reach stands for a position of the array.
pub proof fn lemma_wrap_in_range(i: int, len: int)
    requires
        in_reach(i, len),
    ensures
        0 <= wrap_index(i, len) < len,
{
    assert(0 <= (i % len) < len) by (nonlinear_arith)
        requires
            len > 0,
    ;
    let r = i % len;
    assert(0 <= ((r + len) % len) < len) by (nonlinear_arith)
        requires
            len > 0,
    ;
}

/// Setting a name to a well-keyed value keeps the scopes well keyed.
pub proof fn lemma_assign_well_keyed(scopes: Seq<Scope>, name: Seq<char>, d: Datum)
    requires
        scopes.len() > 0,
        scopes_well_keyed(scopes),
        well_keyed(d),
    ensures
        scopes_well_keyed(assign(scopes, name, d)),
{
    lemma_holder(scopes, name);
    let after = assign(scopes, name, d);
    let k0 = holder(scopes, name);
    let at = if k0 < 0 {
        scopes.len() - 1
    } else {
        k0
    };
    assert(after == scopes.update(at, scopes[at].insert(name, d)));
    assert forall|k: int, other: Seq<char>|
        0 <= k < after.len() && (#[trigger] after[k]).dom().contains(other) implies well_keyed(
        #[trigger] after[k][other],
    ) by {
        if k == at {
            if other != name {
                assert(scopes[k].dom().contains(other));
                assert(after[k][other] == scopes[k][other]);
            }
        } else {
            assert(after[k] == scopes[k]);
        }
    }
}

/// What the well-keyed scopes bind a name to is well keyed.
pub proof fn lemma_lookup_well_keyed(scopes: Seq<Scope>, name: Seq<char>)
    requires
        scopes_well_keyed(scopes),
        lookup(scopes, name).is_some(),
    ensures
        well_keyed(lookup(scopes, name)->0),
{
    lemma_holder(scopes, name);
}

/// Whether every dictionary in `v` is well formed.
pub fn is_well_keyed(v: &Value) -> (r: bool)
    ensures
        r == well_keyed(v@),
    decreases v,
{
    match v {
        Value::Quote(inner) => is_well_keyed(&**inner),
        Value::Array(items) => {
            let mut i: usize = 0;
            while i < items.len()
                invariant
                    *v == Value::Array(*items),
                    v@ == Datum::Array(views(items@)),
                    i <= items@.len(),
                    views(items@).len() == items@.len(),
                    forall|j: int| 0 <= j < i ==> well_keyed(#[trigger] views(items@)[j]),
                decreases items@.len() - i,
            {
                proof {
                    assert(decreases_to!(*v => v->Array_0));
                }
                if !is_well_keyed(&items[i]) {
                    assert(v@->Array_0 == views(items@));
                    assert(!well_keyed(views(items@)[i as int]));
                    return false;
                }
                i += 1;
            }
            assert(v@->Array_0 == views(items@));
            true
        },
        Value::Dict(entries) => {
            let ghost data = entry_views(entries@);
            let mut i: usize = 0;
            while i < entries.len()
                invariant
                    *v == Value::Dict(*entries),
                    v@ == Datum::Dict(data),
                    data == entry_views(entries@),
                    i <= entries@.len(),
                    data.len() == entries@.len(),
                    forall|j: int|
                        0 <= j < i ==> hashable((#[trigger] data[j]).0) && well_keyed(data[j].1),
                    forall|j: int, k: int|
                        0 <= j < k < i ==> !datum_eq(
                            (#[trigger] data[k]).0,
                            (#[trigger] data[j]).0,
                        ),
                decreases entries@.len() - i,
            {
                proof {
                    assert(decreases_to!(*v => v->Dict_0));
                }
                assert(data[i as int] == (entries@[i as int].0@, entries@[i as int].1@));
                assert(v@->Dict_0 == data);
                if !is_hashable(&entries[i].0) || !is_well_keyed(&entries[i].1) {
                    assert(!(hashable(data[i as int].0) && well_keyed(data[i as int].1)));
                    return false;
                }
                let first = dict_find(entries, &entries[i].0);
                proof {
                    lemma_key_index(data, data[i as int].0, 0);
                }
                if first < i {
                    assert(datum_eq(data[i as int].0, data[first as int].0));
                    return false;
                }
                i += 1;
            }
            assert(v@->Dict_0 == data);
            true
        },
        _ => true,
    }
}

/// Whether what an application calls for is well keyed: its value, or the
/// tokens of the block that it gives to run.
pub open spec fn applied_well_keyed(a: AppliedView) -> bool {
    match a {
        AppliedView::Value(d) => well_keyed(d),
        AppliedView::Block(tokens) => all_well_keyed(tokens),
        AppliedView::Loop { body, .. } => all_well_keyed(body),
        _ => true,
    }
}

/// Whether an environment is well keyed: every value that it binds and
/// every value on its return channel.
pub open spec fn env_well_keyed(env: EnvModel) -> bool {
    scopes_well_keyed(env.scopes) && all_well_keyed(env.returns)
}

/// The tokens of a well-keyed quoted block are well keyed.
pub proof fn lemma_block_well_keyed(d: Datum)
    requires
        well_keyed(d),
        block_of(d).is_some(),
    ensures
        all_well_keyed(block_of(d)->0),
{
    let inner = *d->Quote_0;
    assert(well_keyed(inner));
    assert(inner->Array_0 == block_of(d)->0);
}

/// What `get` takes out of a well-keyed object is well keyed.
pub proof fn lemma_get_well_keyed(args: Seq<Datum>)
    requires
        all_well_keyed(args),
        get_of(args) is Ok,
    ensures
        well_keyed(get_of(args)->Ok_0),
{
    let key = unquoted(args[1]);
    assert(well_keyed(args[0]));
    match args[0] {
        Datum::Array(items) => {
            match key {
                Datum::Int(i) => {
                    lemma_wrap_in_range(i as int, items.len() as int);
                },
                _ => {},
            }
        },
        Datum::Dict(entries) => {
            lemma_key_index(entries, key_of(key), 0);
            let at = key_index(entries, key_of(key), 0);
            assert(dict_get(entries, key_of(key)) == Some(entries[at].1));
        },
        _ => {},
    }
}

/// The dictionary that `dict` returns for well-keyed arguments is well
/// keyed.
pub proof fn lemma_dict_well_keyed(args: Seq<Datum>)
    requires
        all_well_keyed(args),
        dict_of(args) is Ok,
    ensures
        well_keyed(dict_of(args)->Ok_0),
{
    lemma_dict_built_well_keyed(args, args.len() / 2);
}

/// `swap` with well-keyed arguments keeps the scopes well keyed.
pub proof fn lemma_swap_well_keyed(args: Seq<Datum>, scopes: Seq<Scope>)
    requires
        scopes.len() > 0,
        all_well_keyed(args),
        scopes_well_keyed(scopes),
    ensures
        scopes_well_keyed(swap_of(args, scopes).1),
{
    if args.len() >= 3 && named(args[0]).is_some() && path_of(args[1]).is_some() {
        let name = named(args[0])->0;
        let path = path_of(args[1])->0;
        if lookup(scopes, name).is_some() {
            let obj = lookup(scopes, name)->0;
            lemma_lookup_well_keyed(scopes, name);
            assert(well_keyed(args[2]));
            if replaced(obj, path, 0, args[2]) is Ok {
                lemma_replaced_well_keyed(obj, path, 0, args[2]);
                lemma_assign_well_keyed(scopes, name, replaced(obj, path, 0, args[2])->Ok_0);
            }
        }
    }
}

/// `set` with well-keyed arguments keeps the scopes well keyed.
pub proof fn lemma_set_well_keyed(args: Seq<Datum>, scopes: Seq<Scope>)
    requires
        scopes.len() > 0,
        all_well_keyed(args),
        scopes_well_keyed(scopes),
    ensures
        scopes_well_keyed(set_of(args, scopes).1),
{
    if args.len() >= 2 && named(args[0]).is_some() {
        assert(well_keyed(args[1]));
        lemma_assign_well_keyed(scopes, named(args[0])->0, args[1]);
    }
}

/// `defn` with well-keyed arguments keeps the scopes well keyed.
pub proof fn lemma_defn_well_keyed(args: Seq<Datum>, scopes: Seq<Scope>)
    requires
        scopes.len() > 0,
        all_well_keyed(args),
        scopes_well_keyed(scopes),
    ensures
        scopes_well_keyed(defn_of(args, scopes).1),
{
    if args.len() >= 3 && named(args[0]).is_some() && block_of(args[2]).is_some() {
        assert(well_keyed(args[1]));
        assert(well_keyed(args[2]));
        lemma_block_well_keyed(args[2]);
        let body = block_of(args[2])->0;
        let f = user_function(args[1], body);
        assert(Datum::Array(body)->Array_0 == body);
        assert(well_keyed(Datum::Array(body)));
        assert(f->Array_0 == seq![args[1], Datum::Array(body)]);
        assert(well_keyed(f));
        lemma_assign_well_keyed(scopes, named(args[0])->0, f);
    }
}

/// What `+` gives for well-keyed arguments is well keyed.
pub proof fn lemma_add_well_keyed(args: Seq<Datum>)
    requires
        all_well_keyed(args),
        add_of(args) is Ok,
    ensures
        applied_well_keyed(add_of(args)->Ok_0),
{
    assert(well_keyed(args[0]) && well_keyed(args[1]));
    match (args[0], args[1]) {
        (Datum::Array(x), Datum::Array(y)) => {
            assert(Datum::Array(x + y)->Array_0 == x + y);
            assert forall|i: int| 0 <= i < (x + y).len() implies well_keyed(
                #[trigger] (x + y)[i],
            ) by {
                if i < x.len() {
                    assert((x + y)[i] == x[i]);
                } else {
                    assert((x + y)[i] == y[i - x.len()]);
                }
            }
        },
        _ => {},
    }
}

/// What `*` gives for well-keyed arguments is well keyed.
pub proof fn lemma_mul_well_keyed(args: Seq<Datum>)
    requires
        all_well_keyed(args),
        mul_of(args) is Ok,
    ensures
        applied_well_keyed(mul_of(args)->Ok_0),
{
    assert(well_keyed(args[0]) && well_keyed(args[1]));
    match (args[0], args[1]) {
        (Datum::Array(x), Datum::Int(n)) => {
            let out = repeated(x, crate::arith::copies(n));
            lemma_repeated_well_keyed(x, crate::arith::copies(n));
            assert(Datum::Array(out)->Array_0 == out);
        },
        _ => {},
    }
}

/// The block that an operand gives to run is well keyed where the operand
/// is.
pub proof fn lemma_run_well_keyed(d: Datum)
    requires
        well_keyed(d),
        run_of(d) is Ok,
    ensures
        applied_well_keyed(run_of(d)->Ok_0),
{
    lemma_block_well_keyed(d);
}

/// The block that `sel` chooses among well-keyed arguments is well keyed.
pub proof fn lemma_sel_well_keyed(args: Seq<Datum>, from: nat)
    requires
        all_well_keyed(args),
        sel_from(args, from) is Ok,
    ensures
        applied_well_keyed(sel_from(args, from)->Ok_0),
    decreases args.len() - from,
{
    if from + 1 < args.len() {
        if sel_from(args, from) == run_of(args[from as int + 1]) {
            assert(well_keyed(args[from as int + 1]));
            lemma_run_well_keyed(args[from as int + 1]);
        } else {
            lemma_sel_well_keyed(args, from + 2);
        }
    }
}

/// Every native operator keeps the invariant of dictionaries: applied to
/// well-keyed arguments in a well-keyed environment, it calls for what is
/// well keyed and leaves the environment well keyed.
pub proof fn lemma_builtin_well_keyed(b: Builtin, args: Seq<Datum>, env: EnvModel)
    requires
        env.scopes.len() > 0,
        all_well_keyed(args),
        env_well_keyed(env),
    ensures
        builtin_of(b, args, env).0 is Ok ==> applied_well_keyed(builtin_of(b, args, env).0->Ok_0),
        env_well_keyed(builtin_of(b, args, env).1),
{
    match b {
        Builtin::Assign => {
            lemma_set_well_keyed(args, env.scopes);
        },
        Builtin::Defn => {
            lemma_defn_well_keyed(args, env.scopes);
        },
        Builtin::Swap => {
            lemma_swap_well_keyed(args, env.scopes);
        },
        Builtin::Get => {
            if get_of(args) is Ok {
                lemma_get_well_keyed(args);
            }
        },
        Builtin::Dict => {
            if dict_of(args) is Ok {
                lemma_dict_well_keyed(args);
            }
        },
        Builtin::Plus => {
            if add_of(args) is Ok {
                lemma_add_well_keyed(args);
            }
        },
        Builtin::Times => {
            if mul_of(args) is Ok {
                lemma_mul_well_keyed(args);
            }
        },
        Builtin::If => {
            if if_of(args) is Ok {
                assert(well_keyed(args[1]));
                if args.len() > 2 {
                    assert(well_keyed(args[2]));
                }
                if run_of(args[1]) is Ok {
                    lemma_run_well_keyed(args[1]);
                }
                if args.len() > 2 && run_of(args[2]) is Ok {
                    lemma_run_well_keyed(args[2]);
                }
            }
        },
        Builtin::Sel => {
            if sel_of(args) is Ok {
                lemma_sel_well_keyed(args, 1);
            }
        },
        Builtin::Loop => {
            if loop_of(args) is Ok {
                assert(well_keyed(args[2]));
                lemma_block_well_keyed(args[2]);
            }
        },
        Builtin::Return => {
            if args.len() >= 1 {
                assert(well_keyed(args[0]));
            }
        },
        _ => {},
    }
}

/// Equality of hashable data carries over: what equals a datum equals what
/// that datum equals.
pub proof fn lemma_key_eq_transitive(a: Datum, b: Datum, c: Datum)
    requires
        hashable(a),
        datum_eq(a, b),
        datum_eq(b, c),
    ensures
        datum_eq(a, c),
    decreases a,
{
    match (a, b, c) {
        (Datum::Quote(x), Datum::Quote(y), Datum::Quote(z)) => {
            lemma_key_eq_transitive(*x, *y, *z);
        },
        _ => {},
    }
}

/// Whether `f` sends one of the first `n` numbers to `j`.
pub open spec fn reached(n: nat, f: spec_fn(int) -> int, j: int) -> bool {
    exists|i: int| 0 <= i < n && #[trigger] f(i) == j
}

/// A function from the first `n` numbers into them that sends no two of
/// them to one number reaches each of them.
pub proof fn lemma_one_to_one_is_onto(n: nat, f: spec_fn(int) -> int)
    requires
        forall|i: int| 0 <= i < n ==> 0 <= #[trigger] f(i) < n,
        forall|i: int, j: int|
            0 <= i < n && 0 <= j < n && #[trigger] f(i) == #[trigger] f(j) ==> i == j,
    ensures
        forall|j: int| 0 <= j < n ==> #[trigger] reached(n, f, j),
{
    let dom = set_int_range(0, n as int);
    lemma_int_range(0, n as int);
    let img = dom.map(f);
    assert(injective_on(f, dom));
    lemma_map_size(dom, img, f);
    assert(img.subset_of(dom)) by {
        assert forall|y: int| img.contains(y) implies dom.contains(y) by {
            let x = choose|x: int| dom.contains(x) && y == f(x);
            assert(0 <= f(x) < n);
        }
    }
    lemma_subset_equality(img, dom);
    assert forall|j: int| 0 <= j < n implies #[trigger] reached(n, f, j) by {
        assert(dom.contains(j));
        assert(img.contains(j));
        let x = choose|x: int| dom.contains(x) && j == f(x);
        assert(0 <= x < n && f(x) == j);
    }
}

/// On well-keyed data equality does not depend on the order of its
/// operands: where the one equals the other, the other equals the one.
pub proof fn lemma_datum_eq_symmetric(a: Datum, b: Datum)
    requires
        well_keyed(a),
        well_keyed(b),
        datum_eq(a, b),
    ensures
        datum_eq(b, a),
    decreases a,
{
    match (a, b) {
        (Datum::Quote(x), Datum::Quote(y)) => {
            lemma_datum_eq_symmetric(*x, *y);
        },
        (Datum::Array(x), Datum::Array(y)) => {
            assert forall|i: int| 0 <= i < y.len() implies datum_eq(#[trigger] y[i], x[i]) by {
                assert(datum_eq(x[i], y[i]));
                lemma_datum_eq_symmetric(x[i], y[i]);
            }
        },
        (Datum::Dict(x), Datum::Dict(y)) => {
            let n = x.len();
            let f = |i: int| key_index(y, x[i].0, 0);
            assert forall|i: int| 0 <= i < n implies 0 <= #[trigger] f(i) < n && datum_eq(
                x[i].0,
                y[f(i)].0,
            ) && datum_eq(y[f(i)].0, x[i].0) && datum_eq(y[f(i)].1, x[i].1) by {
                assert(entry_found(x[i], y));
                lemma_key_index(y, x[i].0, 0);
                lemma_hashable_well_keyed(x[i].0);
                lemma_hashable_well_keyed(y[f(i)].0);
                lemma_datum_eq_symmetric(x[i].0, y[f(i)].0);
                lemma_datum_eq_symmetric(x[i].1, y[f(i)].1);
            }
            assert forall|i: int, j: int|
                0 <= i < n && 0 <= j < n && #[trigger] f(i) == #[trigger] f(j) implies i == j by {
                if i < j {
                    lemma_key_eq_transitive(x[j].0, y[f(j)].0, x[i].0);
                    assert(!datum_eq(x[j].0, x[i].0));
                }
                if j < i {
                    lemma_key_eq_transitive(x[i].0, y[f(i)].0, x[j].0);
                    assert(!datum_eq(x[i].0, x[j].0));
                }
            }
            lemma_one_to_one_is_onto(n, f);
            assert forall|j: int| 0 <= j < y.len() implies entry_found(#[trigger] y[j], x) by {
                assert(reached(n, f, j));
                let i = choose|i: int| 0 <= i < n && #[trigger] f(i) == j;
                assert(datum_eq(y[j].0, x[i].0));
                lemma_key_index(x, y[j].0, 0);
                let first = key_index(x, y[j].0, 0);
                if first < i {
                    assert(hashable(x[i].0));
                    lemma_key_eq_transitive(x[i].0, y[j].0, x[first].0);
                    assert(!datum_eq(x[i].0, x[first].0));
                }
                assert(first == i);
            }
        },
        _ => {},
    }
}

} // verus!
