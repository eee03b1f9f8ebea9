//! What the top-level driver decides: how a program starts, what a module
//! gives to its importer, and what the read-eval-print loop writes.

use crate::builtin::{
    builtin_table, import_builtins, installed, lemma_builtin_names_differ, lemma_installed_binds,
};
use crate::effect::{Piece, PieceView, piece_views};
use crate::environment::{Environment, Scope, SymTab, lookup};
use crate::error::{LCoreError, Signal};
use crate::key_laws::{lemma_installed_well_keyed, machine_well_keyed};
use crate::keys::{all_well_keyed, env_well_keyed};
use crate::machine::Machine;
use crate::output::{print_value, rendering, text};
use crate::parse::Rule;
use crate::semantics::{Awaiting, KindView, fresh_frame};
use crate::value::{Datum, Value, views};
use vstd::prelude::*;

verus! {

/// The scopes of a new program: one scope, in which the native operators
/// are set under their names.
pub open spec fn initial_scopes() -> Seq<Scope> {
    installed(seq![Scope::empty()], builtin_table(), builtin_table().len())
}

/// In the scopes of a new program each name of a native operator stands for
/// that operator.
pub proof fn lemma_initial_scopes(i: int)
    requires
        0 <= i < builtin_table().len(),
    ensures
        initial_scopes().len() == 1,
        lookup(initial_scopes(), builtin_table()[i].0) == Some(
            Datum::Func(builtin_table()[i].1),
        ),
{
    lemma_builtin_names_differ();
    lemma_installed_binds(seq![Scope::empty()], builtin_table(), builtin_table().len(), i);
}

/// An environment for a new program: one scope, which holds the native
/// operators.
pub fn new_environment() -> (env: Environment)
    ensures
        env@.scopes == initial_scopes(),
        env@.scopes.len() == 1,
        env@.returns == seq![Datum::Null],
        env_well_keyed(env@),
{
    proof {
        lemma_installed_well_keyed(seq![Scope::empty()], builtin_table(), builtin_table().len());
    }
    let mut env = Environment::new();
    env.push();
    import_builtins(&mut env);
    env
}

/// A machine at the start of the program `tokens`, in an environment of its
/// own whose one scope holds the native operators. A module is run so.
pub fn start_program(tokens: Vec<Value>) -> (m: Machine)
    ensures
        m@.wf(),
        m@.env.scopes == initial_scopes(),
        m@.env.returns == seq![Datum::Null],
        m@.frames == seq![fresh_frame(views(tokens@), KindView::Top)],
        m@.base == 1,
        m@.awaiting == Awaiting::Nothing,
        all_well_keyed(views(tokens@)) ==> machine_well_keyed(m@),
{
    Machine::new(tokens, new_environment())
}

/// What a module gives to its importer once it has run: the top scope of
/// its environment.
pub fn module_bindings(env: Environment) -> (table: SymTab)
    requires
        env@.scopes.len() > 0,
    ensures
        table@ == env@.scopes.last(),
{
    let mut env = env;
    env.pop()
}

/// The line that a driver writes for a signal that reached it: the message
/// of an error, and for a stray `Return` or `Break` a fixed notice after the
/// driver's own mark.
pub open spec fn report_of(mark: Seq<char>, s: Signal) -> Seq<char> {
    match s {
        Signal::Generic(m) => m,
        Signal::Index(m) => m,
        Signal::Argument(m) => m,
        Signal::Name(m) => m,
        Signal::Return => mark + "NOT IMPLEMENTED ERROR"@,
        Signal::Break => mark + "NOT IMPLEMENTED!"@,
    }
}

/// The line that a driver with the mark `mark` writes for the signal `e`.
pub fn report(mark: &str, e: &LCoreError) -> (line: String)
    ensures
        line@ == report_of(mark@, e@),
{
    match e {
        LCoreError::LambdaCoreError(m) => m.clone(),
        LCoreError::IndexError(m) => m.clone(),
        LCoreError::ArgumentError(m) => m.clone(),
        LCoreError::NameError(m) => m.clone(),
        LCoreError::ReturnError => {
            let mut line = String::from_str(mark);
            line.append("NOT IMPLEMENTED ERROR");
            line
        },
        LCoreError::BreakError => {
            let mut line = String::from_str(mark);
            line.append("NOT IMPLEMENTED!");
            line
        },
    }
}

/// What the read-eval-print loop writes for the value of a form: nothing
/// for `Null`, and any other value in plain mode after an arrow and before a
/// line feed.
pub open spec fn echo_of(d: Datum) -> Option<Seq<PieceView>> {
    if d is Null {
        None
    } else {
        Some(text("-> "@) + rendering(d, false) + text("\n"@))
    }
}

/// What the read-eval-print loop writes for the value `value` of a form.
pub fn repl_echo(value: &Value) -> (r: Option<Vec<Piece>>)
    ensures
        match r {
            Some(pieces) => echo_of(value@) == Some(piece_views(pieces@)),
            None => echo_of(value@).is_none(),
        },
{
    match value {
        Value::Null => None,
        _ => {
            let mut out: Vec<Piece> = Vec::new();
            out.push(Piece::Text(String::from_str("-> ")));
            assert(piece_views(out@) =~= text("-> "@));
            print_value(value, false, &mut out);
            out.push(Piece::Text(String::from_str("\n")));
            Some(out)
        },
    }
}

/// What the read-eval-print loop does when the text read so far does not
/// parse.
#[derive(Clone, Copy, Debug, PartialEq, Eq, Structural)]
pub enum ReplStep {
    /// Tell the user to enter one form per line, and start anew.
    OneFormPerLine,
    /// Start anew without a word.
    Restart,
    /// Read another line and join it to the text with a space.
    ReadMore,
}

/// What the loop does, given the rules that the parser would have taken
/// where it stopped: the end of input there means more than one form; the
/// program itself there means an empty line; anything else means a form
/// that is not complete.
pub open spec fn repl_step_of(expected: Seq<Rule>) -> ReplStep {
    if expected.contains(Rule::EOI) {
        ReplStep::OneFormPerLine
    } else if expected.contains(Rule::Program) {
        ReplStep::Restart
    } else {
        ReplStep::ReadMore
    }
}

/// What the loop does when the parser stopped where it would have taken one
/// of `expected`.
pub fn repl_on_parse_error(expected: &Vec<Rule>) -> (r: ReplStep)
    ensures
        r == repl_step_of(expected@),
{
    let mut has_eoi = false;
    let mut has_program = false;
    let mut i: usize = 0;
    while i < expected.len()
        invariant
            i <= expected@.len(),
            has_eoi == expected@.take(i as int).contains(Rule::EOI),
            has_program == expected@.take(i as int).contains(Rule::Program),
        decreases expected@.len() - i,
    {
        let ghost before = expected@.take(i as int);
        match expected[i] {
            Rule::EOI => {
                has_eoi = true;
            },
            Rule::Program => {
                has_program = true;
            },
            _ => {},
        }
        i += 1;
        proof {
            let after = expected@.take(i as int);
            assert(after[i - 1] == expected@[i - 1]);
            assert forall|r: Rule| after.contains(r) == (before.contains(r) || r == expected@[i
                - 1]) by {
                if before.contains(r) {
                    let k = choose|k: int| 0 <= k < before.len() && before[k] == r;
                    assert(after[k] == r);
                }
            }
        }
    }
    assert(expected@.take(i as int) =~= expected@);
    if has_eoi {
        ReplStep::OneFormPerLine
    } else if has_program {
        ReplStep::Restart
    } else {
        ReplStep::ReadMore
    }
}

} // verus!
