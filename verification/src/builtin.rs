//! The table of native operators: their names, and what each one does when
//! it is applied.

use crate::arith::{
    add_of, div_of, exponent_of, lcore_add, lcore_div, lcore_exponent, lcore_mul, lcore_sub,
    mul_of, sub_of,
};
use crate::binding::{
    defn_of, import_of, lcore_break, lcore_defn, lcore_import, lcore_quit, lcore_return,
    lcore_set, lcore_to_str, return_of, set_of,
};
use crate::compare::{
    equals_of, lcore_equals, lcore_less_than, lcore_not_equals, less_than_of, not_equals_of,
};
use crate::container::{
    dict_of, get_of, lcore_dict, lcore_get, lcore_len, lcore_swap, len_of, swap_of,
};
use crate::control::{if_of, lcore_if, lcore_loop, lcore_sel, loop_of, sel_of};
use crate::effect::{Applied, AppliedView, applied_outcome};
use crate::environment::{EnvModel, Environment, Scope, assign};
use crate::error::{LCoreError, Signal};
use crate::keys::{
    all_well_keyed, applied_well_keyed, env_well_keyed, lemma_builtin_well_keyed,
};
use crate::logic::{and_of, lcore_logical_and, lcore_logical_not, lcore_logical_or, not_of, or_of};
use crate::output::{lcore_prin, lcore_print, prin_of, println_of};
use crate::value::{Builtin, Datum, Value};
use vstd::prelude::*;

verus! {

/// A plain result as what an application calls for.
pub open spec fn plain(r: Result<Datum, Signal>) -> Result<AppliedView, Signal> {
    match r {
        Ok(d) => Ok(AppliedView::Value(d)),
        Err(e) => Err(e),
    }
}

/// What applying the native operator `b` to `args` calls for, and the
/// environment that it leaves.
pub open spec fn builtin_of(b: Builtin, args: Seq<Datum>, env: EnvModel) -> (
    Result<AppliedView, Signal>,
    EnvModel,
) {
    match b {
        Builtin::Print => (println_of(args), env),
        Builtin::Prin => (prin_of(args), env),
        Builtin::Quit => (Ok(AppliedView::Quit), env),
        Builtin::Assign => (
            plain(set_of(args, env.scopes).0),
            EnvModel { scopes: set_of(args, env.scopes).1, returns: env.returns },
        ),
        Builtin::Loop => (loop_of(args), env),
        Builtin::Defn => (
            plain(defn_of(args, env.scopes).0),
            EnvModel { scopes: defn_of(args, env.scopes).1, returns: env.returns },
        ),
        Builtin::Get => (plain(get_of(args)), env),
        Builtin::Dict => (plain(dict_of(args)), env),
        Builtin::Import => (import_of(args), env),
        Builtin::Swap => (
            plain(swap_of(args, env.scopes).0),
            EnvModel { scopes: swap_of(args, env.scopes).1, returns: env.returns },
        ),
        Builtin::Len => (plain(len_of(args)), env),
        Builtin::ToStr => (Ok(AppliedView::Value(Datum::Str("LambdaCore String!"@))), env),
        Builtin::Equals => (plain(equals_of(args)), env),
        Builtin::NotEquals => (plain(not_equals_of(args)), env),
        Builtin::LessThan => (plain(less_than_of(args)), env),
        Builtin::LogicalOr => (plain(or_of(args)), env),
        Builtin::LogicalAnd => (plain(and_of(args)), env),
        Builtin::LogicalNot => (plain(not_of(args)), env),
        Builtin::Plus => (add_of(args), env),
        Builtin::Minus => (sub_of(args), env),
        Builtin::Times => (mul_of(args), env),
        Builtin::Divide => (div_of(args), env),
        Builtin::Power => (exponent_of(args), env),
        Builtin::If => (if_of(args), env),
        Builtin::Sel => (sel_of(args), env),
        Builtin::Return => (
            plain(return_of(args)),
            EnvModel {
                scopes: env.scopes,
                returns: if args.len() < 1 {
                    env.returns
                } else {
                    env.returns.push(args[0])
                },
            },
        ),
        Builtin::Break => (Err(Signal::Break), env),
    }
}

/// No native operator changes the number of scopes, and none shortens the
/// return channel.
pub proof fn lemma_builtin_keeps_depth(b: Builtin, args: Seq<Datum>, env: EnvModel)
    requires
        env.scopes.len() > 0,
    ensures
        builtin_of(b, args, env).1.scopes.len() == env.scopes.len(),
        builtin_of(b, args, env).1.returns.len() >= env.returns.len(),
{
    assert forall|name: Seq<char>, d: Datum| #[trigger]
        assign(env.scopes, name, d).len() == env.scopes.len() by {
        crate::binding::lemma_assign_lookup(env.scopes, name, d);
    }
}

fn lift(r: Result<Value, LCoreError>) -> (out: Result<Applied, LCoreError>)
    ensures
        applied_outcome(out) == plain(crate::error::outcome(r)),
{
    match r {
        Ok(v) => Ok(Applied::Value(v)),
        Err(e) => Err(e),
    }
}

/// Applies the native operator `b` to the arguments.
pub fn apply_builtin(b: Builtin, args: &mut Value, symbol_table: &mut Environment) -> (r: Result<
    Applied,
    LCoreError,
>)
    requires
        *old(args) is Array,
        old(symbol_table)@.scopes.len() > 0,
    ensures
        final(args)@ == old(args)@,
        applied_outcome(r) == builtin_of(b, old(args)@->Array_0, old(symbol_table)@).0,
        final(symbol_table)@ == builtin_of(b, old(args)@->Array_0, old(symbol_table)@).1,
        all_well_keyed(old(args)@->Array_0) && env_well_keyed(old(symbol_table)@)
            ==> env_well_keyed(final(symbol_table)@) && (r matches Ok(a) ==> applied_well_keyed(
            a@,
        )),
{
    proof {
        if all_well_keyed(args@->Array_0) && env_well_keyed(symbol_table@) {
            lemma_builtin_well_keyed(b, args@->Array_0, symbol_table@);
        }
    }
    match b {
        Builtin::Print => lcore_print(args, symbol_table),
        Builtin::Prin => lcore_prin(args, symbol_table),
        Builtin::Quit => lcore_quit(args, symbol_table),
        Builtin::Assign => lift(lcore_set(args, symbol_table)),
        Builtin::Loop => lcore_loop(args, symbol_table),
        Builtin::Defn => lift(lcore_defn(args, symbol_table)),
        Builtin::Get => lift(lcore_get(args, symbol_table)),
        Builtin::Dict => lift(lcore_dict(args, symbol_table)),
        Builtin::Import => lcore_import(args, symbol_table),
        Builtin::Swap => lift(lcore_swap(args, symbol_table)),
        Builtin::Len => lift(lcore_len(args, symbol_table)),
        Builtin::ToStr => lift(lcore_to_str(args, symbol_table)),
        Builtin::Equals => lift(lcore_equals(args, symbol_table)),
        Builtin::NotEquals => lift(lcore_not_equals(args, symbol_table)),
        Builtin::LessThan => lift(lcore_less_than(args, symbol_table)),
        Builtin::LogicalOr => lift(lcore_logical_or(args, symbol_table)),
        Builtin::LogicalAnd => lift(lcore_logical_and(args, symbol_table)),
        Builtin::LogicalNot => lift(lcore_logical_not(args, symbol_table)),
        Builtin::Plus => lcore_add(args, symbol_table),
        Builtin::Minus => lcore_sub(args, symbol_table),
        Builtin::Times => lcore_mul(args, symbol_table),
        Builtin::Divide => lcore_div(args, symbol_table),
        Builtin::Power => lcore_exponent(args, symbol_table),
        Builtin::If => lcore_if(args, symbol_table),
        Builtin::Sel => lcore_sel(args, symbol_table),
        Builtin::Return => lift(lcore_return(args, symbol_table)),
        Builtin::Break => lift(lcore_break(args, symbol_table)),
    }
}

/// The names under which the native operators are installed, in order.
pub open spec fn builtin_table() -> Seq<(Seq<char>, Builtin)> {
    seq![
        ("print"@, Builtin::Print),
        ("prin"@, Builtin::Prin),
        ("quit"@, Builtin::Quit),
        ("exit"@, Builtin::Quit),
        ("set"@, Builtin::Assign),
        ("loop"@, Builtin::Loop),
        ("defn"@, Builtin::Defn),
        ("get"@, Builtin::Get),
        ("dict"@, Builtin::Dict),
        ("len"@, Builtin::Len),
        ("import"@, Builtin::Import),
        ("swap"@, Builtin::Swap),
        ("to-str"@, Builtin::ToStr),
        ("="@, Builtin::Equals),
        ("!="@, Builtin::NotEquals),
        ("or"@, Builtin::LogicalOr),
        ("and"@, Builtin::LogicalAnd),
        ("not"@, Builtin::LogicalNot),
        ("+"@, Builtin::Plus),
        ("-"@, Builtin::Minus),
        ("*"@, Builtin::Times),
        ("/"@, Builtin::Divide),
        ("**"@, Builtin::Power),
        ("if"@, Builtin::If),
        ("sel"@, Builtin::Sel),
        ("ret"@, Builtin::Return),
        ("break"@, Builtin::Break),
        ("<"@, Builtin::LessThan),
    ]
}

/// The scopes after the first `n` entries of `table` are set, each as
/// `assign` says.
pub open spec fn installed(scopes: Seq<Scope>, table: Seq<(Seq<char>, Builtin)>, n: nat) -> Seq<
    Scope,
>
    decreases n,
{
    if n == 0 || n > table.len() {
        scopes
    } else {
        assign(
            installed(scopes, table, (n - 1) as nat),
            table[n - 1].0,
            Datum::Func(table[n - 1].1),
        )
    }
}

/// The names and operators of a table, in order.
pub open spec fn table_views(table: Seq<(&'static str, Builtin)>) -> Seq<(Seq<char>, Builtin)> {
    Seq::new(table.len(), |i: int| (table[i].0@, table[i].1))
}

fn operator_table() -> (table: Vec<(&'static str, Builtin)>)
    ensures
        table_views(table@) == builtin_table(),
{
    let mut table: Vec<(&'static str, Builtin)> = Vec::new();
    table.push(("print", Builtin::Print));
    table.push(("prin", Builtin::Prin));
    table.push(("quit", Builtin::Quit));
    table.push(("exit", Builtin::Quit));
    table.push(("set", Builtin::Assign));
    table.push(("loop", Builtin::Loop));
    table.push(("defn", Builtin::Defn));
    table.push(("get", Builtin::Get));
    table.push(("dict", Builtin::Dict));
    table.push(("len", Builtin::Len));
    table.push(("import", Builtin::Import));
    table.push(("swap", Builtin::Swap));
    table.push(("to-str", Builtin::ToStr));
    table.push(("=", Builtin::Equals));
    table.push(("!=", Builtin::NotEquals));
    table.push(("or", Builtin::LogicalOr));
    table.push(("and", Builtin::LogicalAnd));
    table.push(("not", Builtin::LogicalNot));
    table.push(("+", Builtin::Plus));
    table.push(("-", Builtin::Minus));
    table.push(("*", Builtin::Times));
    table.push(("/", Builtin::Divide));
    table.push(("**", Builtin::Power));
    table.push(("if", Builtin::If));
    table.push(("sel", Builtin::Sel));
    table.push(("ret", Builtin::Return));
    table.push(("break", Builtin::Break));
    table.push(("<", Builtin::LessThan));
    table
}

/// Sets every native operator under its name.
pub fn import_builtins(symbol_table: &mut Environment)
    requires
        old(symbol_table)@.scopes.len() > 0,
    ensures
        final(symbol_table)@.scopes == installed(
            old(symbol_table)@.scopes,
            builtin_table(),
            builtin_table().len(),
        ),
        final(symbol_table)@.scopes.len() == old(symbol_table)@.scopes.len(),
        final(symbol_table)@.returns == old(symbol_table)@.returns,
{
    let table = operator_table();
    let ghost names = builtin_table();
    let mut i: usize = 0;
    while i < table.len()
        invariant
            i <= table@.len(),
            names == table_views(table@),
            names.len() == table@.len(),
            symbol_table@.scopes == installed(old(symbol_table)@.scopes, names, i as nat),
            symbol_table@.scopes.len() == old(symbol_table)@.scopes.len(),
            symbol_table@.scopes.len() > 0,
            symbol_table@.returns == old(symbol_table)@.returns,
        decreases table@.len() - i,
    {
        proof {
            crate::binding::lemma_assign_lookup(
                symbol_table@.scopes,
                names[i as int].0,
                Datum::Func(names[i as int].1),
            );
        }
        symbol_table.insert(String::from_str(table[i].0), Value::Func { f: table[i].1 });
        i += 1;
    }
}

/// Where the scopes bind none of the names of a table and no name stands
/// twice among its first `n` entries, each of these names stands for its
/// operator once the entries are set.
pub proof fn lemma_installed_binds(
    scopes: Seq<Scope>,
    table: Seq<(Seq<char>, Builtin)>,
    n: nat,
    i: int,
)
    requires
        scopes.len() > 0,
        n <= table.len(),
        0 <= i < n,
        forall|j: int| 0 <= j < n && j != i ==> (#[trigger] table[j]).0 != table[i].0,
    ensures
        installed(scopes, table, n).len() == scopes.len(),
        crate::environment::lookup(installed(scopes, table, n), table[i].0) == Some(
            Datum::Func(table[i].1),
        ),
    decreases n,
{
    let before = installed(scopes, table, (n - 1) as nat);
    lemma_installed_len(scopes, table, (n - 1) as nat);
    let name = table[n - 1].0;
    crate::binding::lemma_assign_lookup(before, name, Datum::Func(table[n - 1].1));
    if i < n - 1 {
        lemma_installed_binds(scopes, table, (n - 1) as nat, i);
        assert(table[n - 1].0 != table[i].0);
        crate::environment::lemma_assign_other(
            before,
            name,
            Datum::Func(table[n - 1].1),
            table[i].0,
        );
    }
}

/// Setting the entries of a table leaves the number of scopes as it was.
pub proof fn lemma_installed_len(scopes: Seq<Scope>, table: Seq<(Seq<char>, Builtin)>, n: nat)
    requires
        scopes.len() > 0,
    ensures
        installed(scopes, table, n).len() == scopes.len(),
    decreases n,
{
    if !(n == 0 || n > table.len()) {
        lemma_installed_len(scopes, table, (n - 1) as nat);
        crate::binding::lemma_assign_lookup(
            installed(scopes, table, (n - 1) as nat),
            table[n - 1].0,
            Datum::Func(table[n - 1].1),
        );
    }
}

/// No name stands twice in the table of the native operators.
pub proof fn lemma_builtin_names_differ()
    ensures
        forall|i: int, j: int|
            0 <= i < builtin_table().len() && 0 <= j < builtin_table().len() && i != j ==> (
            #[trigger] builtin_table()[i]).0 != (#[trigger] builtin_table()[j]).0,
{
    reveal_strlit("print");
    reveal_strlit("prin");
    reveal_strlit("quit");
    reveal_strlit("exit");
    reveal_strlit("set");
    reveal_strlit("loop");
    reveal_strlit("defn");
    reveal_strlit("get");
    reveal_strlit("dict");
    reveal_strlit("len");
    reveal_strlit("import");
    reveal_strlit("swap");
    reveal_strlit("to-str");
    reveal_strlit("=");
    reveal_strlit("!=");
    reveal_strlit("or");
    reveal_strlit("and");
    reveal_strlit("not");
    reveal_strlit("+");
    reveal_strlit("-");
    reveal_strlit("*");
    reveal_strlit("/");
    reveal_strlit("**");
    reveal_strlit("if");
    reveal_strlit("sel");
    reveal_strlit("ret");
    reveal_strlit("break");
    reveal_strlit("<");
    let t = builtin_table();
    assert forall|i: int, j: int| 0 <= i < t.len() && 0 <= j < t.len() && i != j implies (
    #[trigger] t[i]).0 != (#[trigger] t[j]).0 by {
        let a = t[i].0;
        let b = t[j].0;
        if a.len() == b.len() {
            assert(a[0] != b[0] || (a.len() > 1 && a[1] != b[1]) || (a.len() > 2 && a[2] != b[2]));
        }
    }
}

} // verus!
