//! The tagged value model and its mathematical view.

use vstd::prelude::*;

verus! {

/// The native operators, by identity.
#[derive(Clone, Copy, Debug, PartialEq, Eq, Structural)]
pub enum Builtin {
    Print,
    Prin,
    Quit,
    Assign,
    Loop,
    Defn,
    Get,
    Dict,
    Import,
    Swap,
    Len,
    ToStr,
    Equals,
    NotEquals,
    LessThan,
    LogicalOr,
    LogicalAnd,
    LogicalNot,
    Plus,
    Minus,
    Times,
    Divide,
    Power,
    If,
    Sel,
    Return,
    Break,
}

/// A value of the language. The last six variants are lexical tokens, which
/// a parser gives and the evaluator consumes.
#[derive(Debug)]
pub enum Value {
    /// The unit value.
    Null,
    /// A name that is not evaluated.
    Identifier(String),
    Boolean(bool),
    Int(i64),
    /// A double, held by its IEEE-754 bit pattern.
    Float(u64),
    String(String),
    /// A sequence of values. A user function is an array of two: its
    /// parameter list, an array of quoted identifiers, and its body, an
    /// array of tokens.
    Array(Vec<Value>),
    /// A native operator.
    Func { f: Builtin },
    /// A value whose evaluation is put off.
    Quote(Box<Value>),
    /// Keys and their values, in the order in which the keys were stored.
    /// Every key is hashable and none stands twice (`keys::well_keyed`); the
    /// operators keep it so.
    Dict(Vec<(Value, Value)>),
    OpenFunc,
    CloseFunc,
    OpenBrace,
    CloseBrace,
    BackTick,
    Comma,
}

/// What a `Value` denotes: the same variants over mathematical sequences.
pub enum Datum {
    Null,
    Identifier(Seq<char>),
    Boolean(bool),
    Int(i64),
    Float(u64),
    Str(Seq<char>),
    Array(Seq<Datum>),
    Func(Builtin),
    Quote(Box<Datum>),
    Dict(Seq<(Datum, Datum)>),
    OpenFunc,
    CloseFunc,
    OpenBrace,
    CloseBrace,
    BackTick,
    Comma,
}

/// The datum that a value denotes.
pub open spec fn datum_of(v: Value) -> Datum
    decreases v,
{
    match v {
        Value::Null => Datum::Null,
        Value::Identifier(s) => Datum::Identifier(s@),
        Value::Boolean(b) => Datum::Boolean(b),
        Value::Int(i) => Datum::Int(i),
        Value::Float(bits) => Datum::Float(bits),
        Value::String(s) => Datum::Str(s@),
        Value::Array(items) => Datum::Array(views(items@)),
        Value::Func { f } => Datum::Func(f),
        Value::Quote(inner) => Datum::Quote(Box::new(datum_of(*inner))),
        Value::Dict(entries) => Datum::Dict(entry_views(entries@)),
        Value::OpenFunc => Datum::OpenFunc,
        Value::CloseFunc => Datum::CloseFunc,
        Value::OpenBrace => Datum::OpenBrace,
        Value::CloseBrace => Datum::CloseBrace,
        Value::BackTick => Datum::BackTick,
        Value::Comma => Datum::Comma,
    }
}

/// The data that a sequence of values denotes, in order.
pub open spec fn views(items: Seq<Value>) -> Seq<Datum>
    decreases items,
{
    Seq::new(
        items.len(),
        |i: int|
            if 0 <= i < items.len() {
                datum_of(items[i])
            } else {
                Datum::Null
            },
    )
}

/// The key and value data of a sequence of dictionary entries, in order.
pub open spec fn entry_views(entries: Seq<(Value, Value)>) -> Seq<(Datum, Datum)>
    decreases entries,
{
    Seq::new(
        entries.len(),
        |i: int|
            if 0 <= i < entries.len() {
                (datum_of(entries[i].0), datum_of(entries[i].1))
            } else {
                (Datum::Null, Datum::Null)
            },
    )
}

/// The data of a sequence with one more value are the data of the sequence
/// with the datum of that value.
pub proof fn lemma_views_push(items: Seq<Value>, v: Value)
    ensures
        views(items.push(v)) == views(items).push(v@),
{
    assert(views(items.push(v)) =~= views(items).push(v@));
}

impl View for Value {
    type V = Datum;

    open spec fn view(&self) -> Datum {
        datum_of(*self)
    }
}


impl Clone for Value {
    fn clone(&self) -> (r: Value)
        ensures
            r@ == self@,
            crate::keys::well_keyed(self@) ==> crate::keys::well_keyed(r@),
        decreases self,
    {
        match self {
            Value::Null => Value::Null,
            Value::Identifier(s) => Value::Identifier(s.clone()),
            Value::Boolean(b) => Value::Boolean(*b),
            Value::Int(i) => Value::Int(*i),
            Value::Float(bits) => Value::Float(*bits),
            Value::String(s) => Value::String(s.clone()),
            Value::Array(items) => {
                let mut out: Vec<Value> = Vec::new();
                let mut i: usize = 0;
                while i < items.len()
                    invariant
                        *self == Value::Array(*items),
                        i <= items.len(),
                        out@.len() == i,
                        forall|j: int| 0 <= j < i ==> out@[j]@ == items@[j]@,
                    decreases items.len() - i,
                {
                    proof {
                        assert(decreases_to!(*self => self->Array_0));
                    }
                    out.push(items[i].clone());
                    i += 1;
                }
                assert(views(out@) =~= views(items@));
                Value::Array(out)
            },
            Value::Func { f } => Value::Func { f: *f },
            Value::Quote(inner) => Value::Quote(Box::new((**inner).clone())),
            Value::Dict(entries) => {
                let mut out: Vec<(Value, Value)> = Vec::new();
                let mut i: usize = 0;
                while i < entries.len()
                    invariant
                        *self == Value::Dict(*entries),
                        i <= entries.len(),
                        out@.len() == i,
                        forall|j: int|
                            0 <= j < i ==> out@[j].0@ == entries@[j].0@ && out@[j].1@
                                == entries@[j].1@,
                    decreases entries.len() - i,
                {
                    proof {
                        assert(decreases_to!(*self => self->Dict_0));
                    }
                    out.push((entries[i].0.clone(), entries[i].1.clone()));
                    i += 1;
                }
                assert(entry_views(out@) =~= entry_views(entries@));
                Value::Dict(out)
            },
            Value::OpenFunc => Value::OpenFunc,
            Value::CloseFunc => Value::CloseFunc,
            Value::OpenBrace => Value::OpenBrace,
            Value::CloseBrace => Value::CloseBrace,
            Value::BackTick => Value::BackTick,
            Value::Comma => Value::Comma,
        }
    }
}

impl Value {
    /// The name held by an `Identifier`.
    pub fn as_identifier(&self) -> (r: &String)
        requires
            self is Identifier,
        ensures
            self@ == Datum::Identifier(r@),
    {
        match self {
            Value::Identifier(i) => i,
            _ => unreached(),
        }
    }

    /// The truth value held by a `Boolean`.
    pub fn as_bool(&self) -> (r: &bool)
        requires
            self is Boolean,
        ensures
            self@ == Datum::Boolean(*r),
    {
        match self {
            Value::Boolean(b) => b,
            _ => unreached(),
        }
    }

    /// The integer held by an `Int`.
    pub fn as_int(&self) -> (r: &i64)
        requires
            self is Int,
        ensures
            self@ == Datum::Int(*r),
    {
        match self {
            Value::Int(i) => i,
            _ => unreached(),
        }
    }

    /// The bit pattern of the double held by a `Float`.
    pub fn as_float(&self) -> (r: &u64)
        requires
            self is Float,
        ensures
            self@ == Datum::Float(*r),
    {
        match self {
            Value::Float(bits) => bits,
            _ => unreached(),
        }
    }

    /// The text held by a `String`.
    pub fn as_string(&self) -> (r: &String)
        requires
            self is String,
        ensures
            self@ == Datum::Str(r@),
    {
        match self {
            Value::String(s) => s,
            _ => unreached(),
        }
    }

    /// The elements held by an `Array`.
    pub fn as_array(&self) -> (r: &Vec<Value>)
        requires
            self is Array,
        ensures
            self@ == Datum::Array(views(r@)),
            *self == Value::Array(*r),
    {
        match self {
            Value::Array(a) => a,
            _ => unreached(),
        }
    }

    /// The entries held by a `Dict`, in insertion order, open to change. Who
    /// changes them keeps the keys hashable and different from one another;
    /// `keys::is_well_keyed` tests it.
    pub fn as_dict(&mut self) -> (r: &mut Vec<(Value, Value)>)
        requires
            *old(self) is Dict,
        ensures
            *r == (*old(self))->Dict_0,
            *final(self) == Value::Dict(*final(r)),
    {
        match self {
            Value::Dict(d) => d,
            _ => unreached(),
        }
    }

    /// The native operator held by a `Func`.
    pub fn as_func(&self) -> (r: &Builtin)
        requires
            self is Func,
        ensures
            self@ == Datum::Func(*r),
    {
        match self {
            Value::Func { f } => f,
            _ => unreached(),
        }
    }

    /// The value that a `Quote` wraps.
    pub fn as_value(&self) -> (r: &Value)
        requires
            self is Quote,
        ensures
            self@ == Datum::Quote(Box::new(r@)),
            *self == Value::Quote(Box::new(*r)),
    {
        match self {
            Value::Quote(q) => &**q,
            _ => unreached(),
        }
    }
}

/// Puts `v` at the end of `out`.
pub fn push_value(out: &mut Vec<Value>, v: Value)
    ensures
        views(final(out)@) == views(old(out)@).push(v@),
{
    proof {
        lemma_views_push(out@, v);
    }
    out.push(v);
}

/// Appends a copy of each element of `items` to `out`.
pub fn append_clones(out: &mut Vec<Value>, items: &Vec<Value>)
    ensures
        views(final(out)@) == views(old(out)@) + views(items@),
{
    let mut i: usize = 0;
    while i < items.len()
        invariant
            i <= items@.len(),
            views(out@) == views(old(out)@) + views(items@.take(i as int)),
        decreases items@.len() - i,
    {
        proof {
            lemma_views_push(out@, items@[i as int]);
            lemma_views_push(items@.take(i as int), items@[i as int]);
        }
        let ghost before = out@;
        let copy = items[i].clone();
        proof {
            lemma_views_push(before, copy);
        }
        out.push(copy);
        i += 1;
    }
}

/// A copy of each of `items`.
pub fn clone_all(items: &Vec<Value>) -> (r: Vec<Value>)
    ensures
        views(r@) == views(items@),
{
    let mut out: Vec<Value> = Vec::new();
    append_clones(&mut out, items);
    out
}

} // verus!
