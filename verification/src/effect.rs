//! What applying an operator calls for beyond a plain result: a block to
//! run, or work that only the host can do.

use crate::error::{LCoreError, Signal};
use crate::value::{Datum, Value, views};
use vstd::prelude::*;

verus! {

/// A piece of output: text, or a double that the host writes in canonical
/// decimal.
#[derive(Debug)]
pub enum Piece {
    Text(String),
    /// A double, by its bit pattern.
    Float(u64),
}

/// What a `Piece` denotes.
pub enum PieceView {
    Text(Seq<char>),
    Float(u64),
}

impl View for Piece {
    type V = PieceView;

    open spec fn view(&self) -> PieceView {
        match self {
            Piece::Text(s) => PieceView::Text(s@),
            Piece::Float(bits) => PieceView::Float(*bits),
        }
    }
}

/// What a sequence of pieces denotes, in order.
pub open spec fn piece_views(pieces: Seq<Piece>) -> Seq<PieceView> {
    Seq::new(pieces.len(), |i: int| pieces[i]@)
}

/// The arithmetic on doubles that the host carries out.
#[derive(Clone, Copy, Debug, PartialEq, Eq, Structural)]
pub enum FloatOp {
    Plus,
    Minus,
    Times,
    Divide,
    Power,
}

/// What the application of an operator to its arguments calls for.
#[derive(Debug)]
pub enum Applied {
    /// The application has this result.
    Value(Value),
    /// The result is the last value that these tokens produce, or `Null`.
    Block(Vec<Value>),
    /// The tokens of `body` run `count` times, with `var` bound to 0, 1, ...
    /// in a scope of each run; the result is `Null`.
    Loop { var: String, count: i64, body: Vec<Value> },
    /// The host writes the pieces; the result is `Null`.
    Print(Vec<Piece>),
    /// The host loads the module at this path, and its top-level bindings are
    /// merged into the current scope; the result is `Null`.
    Import(String),
    /// The host ends the process with status 0.
    Quit,
    /// The host applies `op` to the doubles `a` and `b`; the result is the
    /// double that it hands back.
    Float { op: FloatOp, a: u64, b: u64 },
}

/// What an `Applied` denotes.
pub enum AppliedView {
    Value(Datum),
    Block(Seq<Datum>),
    Loop { var: Seq<char>, count: i64, body: Seq<Datum> },
    Print(Seq<PieceView>),
    Import(Seq<char>),
    Quit,
    Float { op: FloatOp, a: u64, b: u64 },
}

impl View for Applied {
    type V = AppliedView;

    open spec fn view(&self) -> AppliedView {
        match self {
            Applied::Value(v) => AppliedView::Value(v@),
            Applied::Block(tokens) => AppliedView::Block(views(tokens@)),
            Applied::Loop { var, count, body } => AppliedView::Loop {
                var: var@,
                count: *count,
                body: views(body@),
            },
            Applied::Print(pieces) => AppliedView::Print(piece_views(pieces@)),
            Applied::Import(path) => AppliedView::Import(path@),
            Applied::Quit => AppliedView::Quit,
            Applied::Float { op, a, b } => AppliedView::Float { op: *op, a: *a, b: *b },
        }
    }
}

/// What the result of applying an operator denotes.
pub open spec fn applied_outcome(r: Result<Applied, LCoreError>) -> Result<AppliedView, Signal> {
    match r {
        Ok(a) => Ok(a@),
        Err(e) => Err(e@),
    }
}

} // verus!
