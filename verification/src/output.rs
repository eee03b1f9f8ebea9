//! The printing operators: what `prin` and `print` write for a value.

use crate::effect::{Applied, AppliedView, Piece, PieceView, applied_outcome, piece_views};
use crate::environment::Environment;
use crate::error::{LCoreError, Signal, missing, missing_arguments};
use crate::text::{decimal, int_to_string};
use crate::value::{Builtin, Datum, Value, views, entry_views};
use vstd::prelude::*;

verus! {

/// One piece of text.
pub open spec fn text(s: Seq<char>) -> Seq<PieceView> {
    seq![PieceView::Text(s)]
}

/// The number by which a native operator is told apart in print.
pub open spec fn builtin_number(b: Builtin) -> int {
    match b {
        Builtin::Print => 0,
        Builtin::Prin => 1,
        Builtin::Quit => 2,
        Builtin::Assign => 3,
        Builtin::Loop => 4,
        Builtin::Defn => 5,
        Builtin::Get => 6,
        Builtin::Dict => 7,
        Builtin::Import => 8,
        Builtin::Swap => 9,
        Builtin::Len => 10,
        Builtin::ToStr => 11,
        Builtin::Equals => 12,
        Builtin::NotEquals => 13,
        Builtin::LessThan => 14,
        Builtin::LogicalOr => 15,
        Builtin::LogicalAnd => 16,
        Builtin::LogicalNot => 17,
        Builtin::Plus => 18,
        Builtin::Minus => 19,
        Builtin::Times => 20,
        Builtin::Divide => 21,
        Builtin::Power => 22,
        Builtin::If => 23,
        Builtin::Sel => 24,
        Builtin::Return => 25,
        Builtin::Break => 26,
    }
}

/// What printing a datum writes. A string is bare in plain mode and in
/// double quotes in repr mode; what stands inside an array, a dictionary or
/// a quote is always written in repr mode.
pub open spec fn rendering(d: Datum, repr: bool) -> Seq<PieceView>
    decreases d, 0nat,
{
    match d {
        Datum::Str(s) => if repr {
            text("\""@) + text(s) + text("\""@)
        } else {
            text(s)
        },
        Datum::Boolean(b) => if b {
            text("True"@)
        } else {
            text("False"@)
        },
        Datum::Int(i) => text(decimal(i as int)),
        Datum::Float(bits) => seq![PieceView::Float(bits)],
        Datum::Array(items) => text("["@) + rendering_items(items, items.len()) + text("]"@),
        Datum::Func(f) => text("<Func at 0x"@) + text(decimal(builtin_number(f))) + text(">"@),
        Datum::Null => text("Null"@),
        Datum::Identifier(name) => text(name),
        Datum::Quote(inner) => text("(quote "@) + rendering(*inner, true) + text(")"@),
        Datum::Dict(entries) => text("{ "@) + rendering_entries(entries, entries.len()) + text(
            " }"@,
        ),
        Datum::OpenFunc => text("("@),
        Datum::CloseFunc => text(")"@),
        _ => Seq::empty(),
    }
}

/// What the first `n` elements of an array write: each in repr mode, with
/// one space between neighbours.
pub open spec fn rendering_items(items: Seq<Datum>, n: nat) -> Seq<PieceView>
    decreases items, n,
{
    if n == 0 || n > items.len() {
        Seq::empty()
    } else {
        rendering_items(items, (n - 1) as nat) + (if n > 1 {
            text(" "@)
        } else {
            Seq::empty()
        }) + rendering(items[n - 1], true)
    }
}

/// What the first `n` entries of a dictionary write: key, colon, value, each
/// in repr mode, with a comma between neighbours.
pub open spec fn rendering_entries(entries: Seq<(Datum, Datum)>, n: nat) -> Seq<PieceView>
    decreases entries, n,
{
    if n == 0 || n > entries.len() {
        Seq::empty()
    } else {
        rendering_entries(entries, (n - 1) as nat) + (if n > 1 {
            text(", "@)
        } else {
            Seq::empty()
        }) + rendering(entries[n - 1].0, true) + text(": "@) + rendering(entries[n - 1].1, true)
    }
}

fn builtin_code(b: &Builtin) -> (r: i64)
    ensures
        r == builtin_number(*b),
{
    match b {
        Builtin::Print => 0,
        Builtin::Prin => 1,
        Builtin::Quit => 2,
        Builtin::Assign => 3,
        Builtin::Loop => 4,
        Builtin::Defn => 5,
        Builtin::Get => 6,
        Builtin::Dict => 7,
        Builtin::Import => 8,
        Builtin::Swap => 9,
        Builtin::Len => 10,
        Builtin::ToStr => 11,
        Builtin::Equals => 12,
        Builtin::NotEquals => 13,
        Builtin::LessThan => 14,
        Builtin::LogicalOr => 15,
        Builtin::LogicalAnd => 16,
        Builtin::LogicalNot => 17,
        Builtin::Plus => 18,
        Builtin::Minus => 19,
        Builtin::Times => 20,
        Builtin::Divide => 21,
        Builtin::Power => 22,
        Builtin::If => 23,
        Builtin::Sel => 24,
        Builtin::Return => 25,
        Builtin::Break => 26,
    }
}

fn push_text(out: &mut Vec<Piece>, s: &str)
    ensures
        piece_views(final(out)@) == piece_views(old(out)@) + text(s@),
{
    out.push(Piece::Text(String::from_str(s)));
}

/// Appends to `out` what printing `value` writes.
pub fn print_value(value: &Value, repr: bool, out: &mut Vec<Piece>)
    ensures
        piece_views(final(out)@) == piece_views(old(out)@) + rendering(value@, repr),
    decreases value,
{
    let ghost before = piece_views(out@);
    match value {
        Value::String(s) => {
            if repr {
                push_text(out, "\"");
                push_text(out, s.as_str());
                push_text(out, "\"");
            } else {
                push_text(out, s.as_str());
            }
        },
        Value::Boolean(b) => {
            if *b {
                push_text(out, "True");
            } else {
                push_text(out, "False");
            }
        },
        Value::Int(i) => {
            let numeral = int_to_string(*i);
            push_text(out, numeral.as_str());
        },
        Value::Float(bits) => {
            out.push(Piece::Float(*bits));
        },
        Value::Array(items) => {
            push_text(out, "[");
            let ghost data = views(items@);
            let mut i: usize = 0;
            while i < items.len()
                invariant
                    *value == Value::Array(*items),
                    data == views(items@),
                    i <= items@.len(),
                    piece_views(out@) == before + text("["@) + rendering_items(data, i as nat),
                decreases items@.len() - i,
            {
                if i > 0 {
                    push_text(out, " ");
                }
                proof {
                    assert(decreases_to!(*value => value->Array_0));
                }
                print_value(&items[i], true, out);
                i += 1;
            }
            push_text(out, "]");
        },
        Value::Func { f } => {
            push_text(out, "<Func at 0x");
            let numeral = int_to_string(builtin_code(f));
            push_text(out, numeral.as_str());
            push_text(out, ">");
        },
        Value::Null => {
            push_text(out, "Null");
        },
        Value::Identifier(name) => {
            push_text(out, name.as_str());
        },
        Value::Quote(inner) => {
            push_text(out, "(quote ");
            print_value(&**inner, true, out);
            push_text(out, ")");
        },
        Value::Dict(entries) => {
            push_text(out, "{ ");
            let ghost data = entry_views(entries@);
            let mut i: usize = 0;
            while i < entries.len()
                invariant
                    *value == Value::Dict(*entries),
                    data == entry_views(entries@),
                    i <= entries@.len(),
                    piece_views(out@) == before + text("{ "@) + rendering_entries(data, i as nat),
                decreases entries@.len() - i,
            {
                if i > 0 {
                    push_text(out, ", ");
                }
                proof {
                    assert(decreases_to!(*value => value->Dict_0));
                }
                print_value(&entries[i].0, true, out);
                push_text(out, ": ");
                print_value(&entries[i].1, true, out);
                i += 1;
            }
            push_text(out, " }");
        },
        Value::OpenFunc => {
            push_text(out, "(");
        },
        Value::CloseFunc => {
            push_text(out, ")");
        },
        _ => {
            assert(piece_views(out@) =~= before + rendering(value@, repr));
        },
    }
}

/// What `prin` writes for its arguments: the one argument in plain mode.
pub open spec fn print_of(args: Seq<Datum>) -> Result<Seq<PieceView>, Signal> {
    if args.len() > 1 {
        Err(Signal::Argument("Can only print 1 value at a time right now."@))
    } else if args.len() == 0 {
        Err(Signal::Argument(missing("print"@, 0, 1)))
    } else {
        Ok(rendering(args[0], false))
    }
}

/// What `prin` calls for.
pub open spec fn prin_of(args: Seq<Datum>) -> Result<AppliedView, Signal> {
    match print_of(args) {
        Ok(pieces) => Ok(AppliedView::Print(pieces)),
        Err(e) => Err(e),
    }
}

/// What `print` calls for: as `prin`, and a line feed after it.
pub open spec fn println_of(args: Seq<Datum>) -> Result<AppliedView, Signal> {
    match print_of(args) {
        Ok(pieces) => Ok(AppliedView::Print(pieces + text("\n"@))),
        Err(e) => Err(e),
    }
}

/// The pieces that printing the one argument writes.
pub fn lcore_print_value(args: &mut Value) -> (r: Result<Vec<Piece>, LCoreError>)
    requires
        *old(args) is Array,
    ensures
        final(args)@ == old(args)@,
        match r {
            Ok(pieces) => print_of(old(args)@->Array_0) == Ok::<Seq<PieceView>, Signal>(
                piece_views(pieces@),
            ),
            Err(e) => print_of(old(args)@->Array_0) == Err::<Seq<PieceView>, Signal>(e@),
        },
{
    let items = args.as_array();
    if items.len() > 1 {
        return Err(
            LCoreError::ArgumentError(
                String::from_str("Can only print 1 value at a time right now."),
            ),
        );
    }
    if items.len() == 0 {
        return Err(missing_arguments("print", 0, 1));
    }
    let mut out: Vec<Piece> = Vec::new();
    print_value(&items[0], false, &mut out);
    Ok(out)
}

/// `prin`: writes its one argument.
pub fn lcore_prin(args: &mut Value, symbol_table: &mut Environment) -> (r: Result<
    Applied,
    LCoreError,
>)
    requires
        *old(args) is Array,
    ensures
        final(args)@ == old(args)@,
        final(symbol_table)@ == old(symbol_table)@,
        applied_outcome(r) == prin_of(old(args)@->Array_0),
{
    match lcore_print_value(args) {
        Ok(pieces) => Ok(Applied::Print(pieces)),
        Err(e) => Err(e),
    }
}

/// `print`: writes its one argument and a line feed.
pub fn lcore_print(args: &mut Value, symbol_table: &mut Environment) -> (r: Result<
    Applied,
    LCoreError,
>)
    requires
        *old(args) is Array,
    ensures
        final(args)@ == old(args)@,
        final(symbol_table)@ == old(symbol_table)@,
        applied_outcome(r) == println_of(old(args)@->Array_0),
{
    match lcore_print_value(args) {
        Ok(pieces) => {
            let mut pieces = pieces;
            let ghost before = piece_views(pieces@);
            pieces.push(Piece::Text(String::from_str("\n")));
            assert(piece_views(pieces@) =~= before + text("\n"@));
            Ok(Applied::Print(pieces))
        },
        Err(e) => Err(e),
    }
}

} // verus!
