//! The scoped environment: a stack of name-to-value scopes and the side
//! channel that carries returned values out of nested blocks.

use crate::value::{Datum, Value, datum_of, views};
use vstd::prelude::*;

verus! {

/// What a scope denotes: a finite map from names to data.
pub type Scope = Map<Seq<char>, Datum>;

/// The names and data of a list of bindings, in order.
pub open spec fn binding_views(entries: Seq<(String, Value)>) -> Seq<(Seq<char>, Datum)> {
    Seq::new(entries.len(), |i: int| (entries[i].0@, datum_of(entries[i].1)))
}

/// The map that a list of bindings denotes; of two bindings of one name the
/// earlier one counts.
pub open spec fn scope_of(entries: Seq<(Seq<char>, Datum)>) -> Scope
    decreases entries.len(),
{
    if entries.len() == 0 {
        Map::empty()
    } else {
        scope_of(entries.skip(1)).insert(entries[0].0, entries[0].1)
    }
}

/// The position of the first binding of `name`, or the length if there is none.
pub open spec fn first_binding(entries: Seq<(Seq<char>, Datum)>, name: Seq<char>) -> int
    decreases entries.len(),
{
    if entries.len() == 0 {
        0
    } else if entries[0].0 == name {
        0
    } else {
        1 + first_binding(entries.skip(1), name)
    }
}

proof fn lemma_first_binding(entries: Seq<(Seq<char>, Datum)>, name: Seq<char>)
    ensures
        0 <= first_binding(entries, name) <= entries.len(),
        forall|j: int| 0 <= j < first_binding(entries, name) ==> (#[trigger] entries[j]).0 != name,
        first_binding(entries, name) < entries.len() ==> {
            &&& entries[first_binding(entries, name)].0 == name
            &&& scope_of(entries).dom().contains(name)
            &&& scope_of(entries)[name] == entries[first_binding(entries, name)].1
        },
        first_binding(entries, name) == entries.len() ==> !scope_of(entries).dom().contains(name),
    decreases entries.len(),
{
    if entries.len() > 0 && entries[0].0 != name {
        let rest = entries.skip(1);
        lemma_first_binding(rest, name);
        assert forall|j: int| 0 <= j < first_binding(entries, name) implies (
        #[trigger] entries[j]).0 != name by {
            if j > 0 {
                assert(entries[j] == rest[j - 1]);
            }
        }
    }
}

proof fn lemma_rebind(entries: Seq<(Seq<char>, Datum)>, i: int, name: Seq<char>, d: Datum)
    requires
        0 <= i < entries.len(),
        i == first_binding(entries, name),
    ensures
        scope_of(entries.update(i, (name, d))) == scope_of(entries).insert(name, d),
    decreases entries.len(),
{
    let updated = entries.update(i, (name, d));
    lemma_first_binding(entries, name);
    if i == 0 {
        assert(updated.skip(1) == entries.skip(1));
        assert(scope_of(updated) =~= scope_of(entries).insert(name, d));
    } else {
        let rest = entries.skip(1);
        lemma_rebind(rest, i - 1, name, d);
        assert(updated.skip(1) == rest.update(i - 1, (name, d)));
        assert(scope_of(updated) =~= scope_of(entries).insert(name, d));
    }
}

proof fn lemma_rebind_any(entries: Seq<(Seq<char>, Datum)>, i: int, name: Seq<char>)
    requires
        0 <= i < entries.len(),
        i == first_binding(entries, name),
    ensures
        forall|d: Datum|
            scope_of(#[trigger] entries.update(i, (name, d))) == scope_of(entries).insert(name, d),
{
    assert forall|d: Datum|
        scope_of(#[trigger] entries.update(i, (name, d))) == scope_of(entries).insert(
            name,
            d,
        ) by {
        lemma_rebind(entries, i, name, d);
    }
}

proof fn lemma_append(entries: Seq<(Seq<char>, Datum)>, name: Seq<char>, d: Datum)
    requires
        first_binding(entries, name) == entries.len(),
    ensures
        scope_of(entries.push((name, d))) == scope_of(entries).insert(name, d),
    decreases entries.len(),
{
    let pushed = entries.push((name, d));
    if entries.len() == 0 {
        assert(pushed.skip(1) == entries);
        assert(scope_of(pushed) =~= scope_of(entries).insert(name, d));
    } else {
        let rest = entries.skip(1);
        lemma_append(rest, name, d);
        assert(pushed.skip(1) == rest.push((name, d)));
        assert(scope_of(pushed) =~= scope_of(entries).insert(name, d));
    }
}

/// One scope: the bindings made in it.
#[derive(Debug)]
pub struct SymTab {
    entries: Vec<(String, Value)>,
}

impl View for SymTab {
    type V = Scope;

    closed spec fn view(&self) -> Scope {
        scope_of(binding_views(self.entries@))
    }
}

impl SymTab {
    /// A scope without bindings.
    pub fn new() -> (r: SymTab)
        ensures
            r@ == Scope::empty(),
    {
        SymTab { entries: Vec::new() }
    }

    /// The position of the first binding of `name`, or the number of bindings.
    fn position(&self, name: &String) -> (r: usize)
        ensures
            r == first_binding(binding_views(self.entries@), name@),
            r <= self.entries@.len(),
    {
        let ghost all = binding_views(self.entries@);
        let mut i: usize = 0;
        assert(all.skip(0) == all);
        while i < self.entries.len()
            invariant
                i <= self.entries@.len(),
                all == binding_views(self.entries@),
                first_binding(all, name@) == i + first_binding(all.skip(i as int), name@),
            decreases self.entries@.len() - i,
        {
            proof {
                assert(all.skip(i as int).skip(1) == all.skip(i as int + 1));
            }
            if self.entries[i].0 == *name {
                return i;
            }
            i += 1;
        }
        i
    }

    /// Whether `name` is bound here.
    pub fn contains_key(&self, name: &String) -> (r: bool)
        ensures
            r == self@.dom().contains(name@),
    {
        proof {
            lemma_first_binding(binding_views(self.entries@), name@);
        }
        self.position(name) < self.entries.len()
    }

    /// The value bound to `name` here, if any.
    pub fn get(&self, name: &String) -> (r: Option<&Value>)
        ensures
            r matches Some(v) ==> self@.dom().contains(name@) && self@[name@] == v@,
            r is None ==> !self@.dom().contains(name@),
    {
        proof {
            lemma_first_binding(binding_views(self.entries@), name@);
        }
        let i = self.position(name);
        if i < self.entries.len() {
            Some(&self.entries[i].1)
        } else {
            None
        }
    }

    /// The value bound to `name` here, if any, open to change.
    pub fn get_mut(&mut self, name: &String) -> (r: Option<&mut Value>)
        ensures
            match r {
                Some(v) => old(self)@.dom().contains(name@) && old(self)@[name@] == v@
                    && final(self)@ == old(self)@.insert(name@, final(v)@),
                None => !old(self)@.dom().contains(name@) && final(self)@ == old(self)@,
            },
    {
        proof {
            lemma_first_binding(binding_views(self.entries@), name@);
        }
        let ghost before = binding_views(self.entries@);
        let i = self.position(name);
        if i < self.entries.len() {
            proof {
                lemma_rebind_any(before, i as int, name@);
            }
            let r = &mut self.entries[i].1;
            proof {
                let after = after_borrow(self.entries)@;
                assert(binding_views(after) =~= before.update(i as int, (name@, final(r)@)));
            }
            Some(r)
        } else {
            None
        }
    }

    /// Binds `name` to `value` here, in place of an earlier binding of it.
    pub fn insert(&mut self, name: String, value: Value)
        ensures
            final(self)@ == old(self)@.insert(name@, value@),
    {
        let ghost before = binding_views(self.entries@);
        let i = self.position(&name);
        if i < self.entries.len() {
            proof {
                lemma_rebind(before, i as int, name@, value@);
            }
            self.entries[i] = (name, value);
            assert(binding_views(self.entries@) =~= before.update(i as int, (name@, value@)));
        } else {
            proof {
                lemma_append(before, name@, value@);
            }
            self.entries.push((name, value));
            assert(binding_views(self.entries@) =~= before.push((name@, value@)));
        }
    }

    /// Adds every binding of `table` here; where both bind a name, that of
    /// `table` counts.
    pub fn extend(&mut self, table: SymTab)
        ensures
            final(self)@ == old(self)@.union_prefer_right(table@),
    {
        let mut table = table;
        let ghost all = binding_views(table.entries@);
        while table.entries.len() > 0
            invariant
                table.entries@.len() <= all.len(),
                binding_views(table.entries@) == all.take(table.entries@.len() as int),
                self@ == old(self)@.union_prefer_right(
                    scope_of(all.skip(table.entries@.len() as int)),
                ),
            decreases table.entries@.len(),
        {
            let ghost n = table.entries@.len() as int;
            let ghost shorter = binding_views(table.entries@);
            let last = table.entries.pop();
            match last {
                Some((name, value)) => {
                    proof {
                        assert(shorter[n - 1] == (name@, value@));
                        assert(all.skip(n - 1).skip(1) == all.skip(n));
                    }
                    self.insert(name, value);
                },
                None => {},
            }
        }
        assert(all.skip(0) == all);
    }
}

/// What an environment denotes: its scopes, outermost first, and the values
/// waiting on the return channel, oldest first.
pub struct EnvModel {
    pub scopes: Seq<Scope>,
    pub returns: Seq<Datum>,
}

/// The index of the innermost scope that binds `name`, or -1 if none does.
pub open spec fn holder(scopes: Seq<Scope>, name: Seq<char>) -> int
    decreases scopes.len(),
{
    if scopes.len() == 0 {
        -1
    } else if scopes.last().dom().contains(name) {
        scopes.len() - 1
    } else {
        holder(scopes.drop_last(), name)
    }
}

/// The datum that `name` stands for: that of the innermost scope that binds it.
pub open spec fn lookup(scopes: Seq<Scope>, name: Seq<char>) -> Option<Datum> {
    let k = holder(scopes, name);
    if k < 0 {
        None
    } else {
        Some(scopes[k][name])
    }
}

/// The scopes after `name` is set to `d`: the innermost scope that binds the
/// name is rebound; if none does, the name is defined in the top scope.
pub open spec fn assign(scopes: Seq<Scope>, name: Seq<char>, d: Datum) -> Seq<Scope>
    recommends
        scopes.len() > 0,
{
    let k = holder(scopes, name);
    if k < 0 {
        scopes.update(scopes.len() - 1, scopes.last().insert(name, d))
    } else {
        scopes.update(k, scopes[k].insert(name, d))
    }
}

/// The scopes after `name` is defined as `d` in the top scope, whatever the
/// scopes below bind.
pub open spec fn define(scopes: Seq<Scope>, name: Seq<char>, d: Datum) -> Seq<Scope>
    recommends
        scopes.len() > 0,
{
    scopes.update(scopes.len() - 1, scopes.last().insert(name, d))
}

/// `holder` is -1 or the index of a scope that binds the name, and no scope
/// above it does.
pub proof fn lemma_holder(scopes: Seq<Scope>, name: Seq<char>)
    ensures
        -1 <= holder(scopes, name) < scopes.len(),
        holder(scopes, name) >= 0 ==> scopes[holder(scopes, name)].dom().contains(name),
        forall|j: int|
            holder(scopes, name) < j < scopes.len() ==> !(#[trigger] scopes[j]).dom().contains(
                name,
            ),
    decreases scopes.len(),
{
    if scopes.len() > 0 && !scopes.last().dom().contains(name) {
        lemma_holder(scopes.drop_last(), name);
        assert forall|j: int| holder(scopes, name) < j < scopes.len() implies !(
        #[trigger] scopes[j]).dom().contains(name) by {
            if j < scopes.len() - 1 {
                assert(scopes[j] == scopes.drop_last()[j]);
            }
        }
    }
}

/// Setting a name leaves what every other name stands for as it was.
pub proof fn lemma_assign_other(scopes: Seq<Scope>, name: Seq<char>, d: Datum, other: Seq<char>)
    requires
        scopes.len() > 0,
        other != name,
    ensures
        lookup(assign(scopes, name, d), other) == lookup(scopes, other),
{
    lemma_holder(scopes, name);
    let after = assign(scopes, name, d);
    lemma_holder(scopes, other);
    lemma_holder(after, other);
    let k = holder(scopes, other);
    let k2 = holder(after, other);
    assert forall|j: int| 0 <= j < scopes.len() implies (#[trigger] after[j]).dom().contains(other)
        == scopes[j].dom().contains(other) by {}
    if k >= 0 {
        assert(after[k].dom().contains(other));
    }
    if k2 >= 0 {
        assert(scopes[k2].dom().contains(other));
    }
    assert(k == k2);
}

/// Setting a name to what it stands for changes nothing.
pub proof fn lemma_assign_same(scopes: Seq<Scope>, name: Seq<char>)
    requires
        lookup(scopes, name).is_some(),
    ensures
        assign(scopes, name, lookup(scopes, name)->0) == scopes,
{
    lemma_holder(scopes, name);
    let k = holder(scopes, name);
    assert(scopes[k].insert(name, scopes[k][name]) =~= scopes[k]);
    assert(assign(scopes, name, lookup(scopes, name)->0) =~= scopes);
}

/// The scope stack and the return channel.
#[derive(Debug)]
pub struct Environment {
    scopes: Vec<SymTab>,
    return_vals: Vec<Value>,
}

/// The maps that a stack of scopes denotes, outermost first.
pub closed spec fn scope_views(scopes: Seq<SymTab>) -> Seq<Scope> {
    Seq::new(scopes.len(), |i: int| scopes[i]@)
}

impl View for Environment {
    type V = EnvModel;

    closed spec fn view(&self) -> EnvModel {
        EnvModel { scopes: scope_views(self.scopes@), returns: views(self.return_vals@) }
    }
}

impl Environment {
    /// An environment without scopes, whose return channel holds its root
    /// entry; `push` gives it its first scope.
    pub fn new() -> (r: Environment)
        ensures
            r@.scopes == Seq::<Scope>::empty(),
            r@.returns == seq![Datum::Null],
    {
        let mut return_vals: Vec<Value> = Vec::new();
        return_vals.push(Value::Null);
        let r = Environment { scopes: Vec::new(), return_vals };
        r
    }

    /// The index of the newest entry of the return channel.
    pub fn current_ret_index(&self) -> (r: usize)
        requires
            self@.returns.len() >= 1,
        ensures
            r == self@.returns.len() - 1,
    {
        self.return_vals.len() - 1
    }

    /// Drops every entry of the return channel above `index`, then takes the
    /// entry at `index` off it and returns it.
    pub fn pop_ret_index(&mut self, index: usize) -> (r: Value)
        requires
            1 <= index < old(self)@.returns.len(),
        ensures
            r@ == old(self)@.returns[index as int],
            final(self)@.returns == old(self)@.returns.take(index as int),
            final(self)@.scopes == old(self)@.scopes,
    {
        let held = self.return_vals.len();
        assert(index < held);
        self.return_vals.truncate(index + 1);
        let r = self.return_vals.pop().unwrap();
        r
    }

    /// Puts `value` on the return channel.
    pub fn push_ret(&mut self, value: Value)
        ensures
            final(self)@.returns == old(self)@.returns.push(value@),
            final(self)@.scopes == old(self)@.scopes,
    {
        self.return_vals.push(value);
    }

    /// Merges `table` into the top scope; where both bind a name, that of
    /// `table` counts.
    pub fn extend(&mut self, table: SymTab)
        requires
            old(self)@.scopes.len() > 0,
        ensures
            final(self)@.scopes == old(self)@.scopes.update(
                old(self)@.scopes.len() - 1,
                old(self)@.scopes.last().union_prefer_right(table@),
            ),
            final(self)@.returns == old(self)@.returns,
    {
        let top = self.scopes.len() - 1;
        self.scopes[top].extend(table);
    }

    /// The number of scopes.
    pub fn len(&self) -> (r: usize)
        ensures
            r == self@.scopes.len(),
    {
        self.scopes.len()
    }

    /// Opens a new, empty top scope.
    pub fn push(&mut self)
        ensures
            final(self)@.scopes == old(self)@.scopes.push(Scope::empty()),
            final(self)@.returns == old(self)@.returns,
    {
        self.scopes.push(SymTab::new());
    }

    /// Closes the top scope and returns it.
    pub fn pop(&mut self) -> (r: SymTab)
        requires
            old(self)@.scopes.len() > 0,
        ensures
            r@ == old(self)@.scopes.last(),
            final(self)@.scopes == old(self)@.scopes.drop_last(),
            final(self)@.returns == old(self)@.returns,
    {
        let r = self.scopes.pop().unwrap();
        r
    }

    /// The index of the innermost scope that binds `name`, or the number of
    /// scopes if none does.
    fn holder_index(&self, name: &String) -> (r: usize)
        ensures
            holder(self@.scopes, name@) >= 0 ==> r == holder(self@.scopes, name@),
            holder(self@.scopes, name@) < 0 ==> r == self@.scopes.len(),
    {
        let ghost all = self@.scopes;
        let mut i: usize = self.scopes.len();
        assert(all.take(i as int) == all);
        while i > 0
            invariant
                i <= self.scopes@.len(),
                all == self@.scopes,
                holder(all, name@) == holder(all.take(i as int), name@),
            decreases i,
        {
            proof {
                assert(all.take(i as int).drop_last() == all.take(i - 1));
            }
            if self.scopes[i - 1].contains_key(name) {
                return i - 1;
            }
            i -= 1;
        }
        self.scopes.len()
    }

    /// Sets `key` to `value`: rebinds it in the innermost scope that binds
    /// it; if none does, defines it in the top scope.
    pub fn insert(&mut self, key: String, value: Value)
        requires
            old(self)@.scopes.len() > 0,
        ensures
            final(self)@.scopes == assign(old(self)@.scopes, key@, value@),
            final(self)@.returns == old(self)@.returns,
    {
        proof {
            lemma_holder(self@.scopes, key@);
        }
        let k = self.holder_index(&key);
        let at = if k < self.scopes.len() {
            k
        } else {
            self.scopes.len() - 1
        };
        self.scopes[at].insert(key, value);
    }

    /// Defines `key` as `value` in the top scope, whatever the scopes below
    /// bind.
    pub fn define(&mut self, key: String, value: Value)
        requires
            old(self)@.scopes.len() > 0,
        ensures
            final(self)@.scopes == define(old(self)@.scopes, key@, value@),
            final(self)@.returns == old(self)@.returns,
    {
        let top = self.scopes.len() - 1;
        self.scopes[top].insert(key, value);
    }

    /// Whether any scope binds `name`.
    pub fn contains_key(&self, name: String) -> (r: bool)
        ensures
            r == lookup(self@.scopes, name@).is_some(),
    {
        proof {
            lemma_holder(self@.scopes, name@);
        }
        self.holder_index(&name) < self.scopes.len()
    }

    /// The value that `name` stands for: that of the innermost scope that
    /// binds it.
    pub fn peek(&self, name: &String) -> (r: Option<&Value>)
        ensures
            r matches Some(v) ==> lookup(self@.scopes, name@) == Some(v@),
            r is None ==> lookup(self@.scopes, name@).is_none(),
    {
        proof {
            lemma_holder(self@.scopes, name@);
        }
        let k = self.holder_index(name);
        if k < self.scopes.len() {
            self.scopes[k].get(name)
        } else {
            None
        }
    }

    /// The value that `name` stands for, open to change: what is put in its
    /// place is what the name is set to.
    pub fn get(&mut self, name: String) -> (r: Option<&mut Value>)
        ensures
            match r {
                Some(v) => lookup(old(self)@.scopes, name@) == Some(v@) && final(self)@.scopes
                    == assign(old(self)@.scopes, name@, final(v)@),
                None => lookup(old(self)@.scopes, name@).is_none() && final(self)@.scopes == old(
                    self,
                )@.scopes,
            },
            final(self)@.returns == old(self)@.returns,
    {
        proof {
            lemma_holder(self@.scopes, name@);
        }
        let k = self.holder_index(&name);
        if k < self.scopes.len() {
            let ghost held = self.scopes@;
            let table = &mut self.scopes[k];
            match table.get_mut(&name) {
                Some(v) => {
                    proof {
                        assert(scope_views(after_borrow(self.scopes)@) =~= assign(
                            scope_views(held),
                            name@,
                            final(v)@,
                        ));
                    }
                    Some(v)
                },
                None => {
                    proof {
                        assert(scope_views(after_borrow(self.scopes)@) =~= scope_views(held));
                    }
                    None
                },
            }
        } else {
            None
        }
    }
}

} // verus!
