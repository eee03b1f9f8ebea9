//! What evaluation means: the states of the evaluator and the step from one
//! state to the next.
//!
//! The evaluator holds a stack of frames, one for each block that is being
//! run. A step consumes one token of the innermost block, or ends that block
//! where no token is left, and may ask something of the host.

use crate::binding::{is_params, param_name};
use crate::builtin::builtin_of;
use crate::effect::{AppliedView, FloatOp, PieceView};
use crate::environment::{EnvModel, Scope, define, lookup};
use crate::error::Signal;
use crate::value::Datum;
use vstd::prelude::*;

verus! {

/// What a frame is running.
pub enum KindView {
    /// The program itself.
    Top,
    /// The block that `if` or `sel` chose.
    Branch,
    /// The elements of an array literal.
    Literal,
    /// The body of a user function, in a scope of its own; `return_point`
    /// is the index of the newest entry of the return channel at the call.
    Call { return_point: nat },
    /// One run of the body of a `loop`, in a scope of its own.
    Iteration { var: Seq<char>, index: i64, count: i64 },
}

/// What a frame denotes: the tokens of its block, how many of them are
/// consumed, and the argument arrays in progress, innermost last.
pub struct FrameView {
    pub tokens: Seq<Datum>,
    pub pos: nat,
    pub arrays: Seq<Seq<Datum>>,
    pub kind: KindView,
}

/// What the machine waits for before its next step.
#[derive(Clone, Copy, Debug, PartialEq, Eq, Structural)]
pub enum Awaiting {
    Nothing,
    /// The double that the host computes.
    Float,
    /// The bindings of the module that the host loads.
    Module,
}

/// What the machine denotes.
pub struct MachineView {
    pub env: EnvModel,
    /// The frames, outermost first.
    pub frames: Seq<FrameView>,
    /// The number of scopes that the environment had when the program began.
    pub base: nat,
    pub awaiting: Awaiting,
}

/// What a step asks of the host.
pub enum ActionView {
    /// Nothing: the next step can follow.
    Idle,
    /// Write these pieces.
    Print(Seq<PieceView>),
    /// Load the module at this path and answer with its bindings.
    Import(Seq<char>),
    /// Apply `op` to the doubles `a` and `b` and answer with the result.
    Float { op: FloatOp, a: u64, b: u64 },
    /// End the process with status 0.
    Quit,
    /// The program has ended with this outcome.
    Done(Result<Datum, Signal>),
}

/// Whether a frame of this kind runs in a scope of its own.
pub open spec fn scoped(kind: KindView) -> bool {
    kind is Call || kind is Iteration
}

/// The number of frames that run in a scope of their own.
pub open spec fn scoped_count(frames: Seq<FrameView>) -> nat
    decreases frames.len(),
{
    if frames.len() == 0 {
        0
    } else {
        scoped_count(frames.drop_last()) + if scoped(frames.last().kind) {
            1nat
        } else {
            0nat
        }
    }
}

/// A frame at the start of its block.
pub open spec fn fresh_frame(tokens: Seq<Datum>, kind: KindView) -> FrameView {
    FrameView { tokens, pos: 0, arrays: seq![Seq::<Datum>::empty()], kind }
}

/// The value of a block at its end: the last value of its innermost array,
/// or `Null` if that is empty.
pub open spec fn block_value(f: FrameView) -> Datum {
    if f.arrays.len() == 0 || f.arrays.last().len() == 0 {
        Datum::Null
    } else {
        f.arrays.last().last()
    }
}

/// The environment without its top scope.
pub open spec fn popped_scope(env: EnvModel) -> EnvModel {
    EnvModel { scopes: env.scopes.drop_last(), returns: env.returns }
}

/// The environment with a new top scope that binds `var` to the integer `i`.
pub open spec fn iteration_env(env: EnvModel, var: Seq<char>, i: i64) -> EnvModel {
    EnvModel {
        scopes: define(env.scopes.push(Scope::empty()), var, Datum::Int(i)),
        returns: env.returns,
    }
}

/// The scopes after the first `n` parameters are defined in the top scope,
/// each as the argument at its position.
pub open spec fn bound(scopes: Seq<Scope>, params: Seq<Datum>, args: Seq<Datum>, n: nat) -> Seq<
    Scope,
>
    decreases n,
{
    if n == 0 || n > params.len() || n > args.len() {
        scopes
    } else {
        define(
            bound(scopes, params, args, (n - 1) as nat),
            param_name(params[n - 1])->0,
            args[n - 1],
        )
    }
}

/// The environment in which the body of a user function runs: a new top
/// scope in which every parameter is defined as its argument.
pub open spec fn call_env(env: EnvModel, params: Seq<Datum>, args: Seq<Datum>) -> EnvModel {
    EnvModel {
        scopes: bound(env.scopes.push(Scope::empty()), params, args, params.len()),
        returns: env.returns,
    }
}

/// The error for a name that no scope binds.
pub open spec fn unbound(name: Seq<char>) -> Signal {
    Signal::Name("NameError: Cannot lookup name: \""@ + name + "\""@)
}

/// The error for a closing parenthesis without an opening one.
pub open spec fn unbalanced() -> Signal {
    Signal::Generic("LambdaCoreError: Unbalanced parentheses"@)
}

/// The error for an application without an operator.
pub open spec fn nothing_to_apply() -> Signal {
    Signal::Argument("ArgumentError: Nothing to apply"@)
}

/// The error for an array in operator position that is no user function.
pub open spec fn not_a_function() -> Signal {
    Signal::Argument("ArgumentError: Not a function"@)
}

/// The error for a call with more or fewer arguments than parameters.
pub open spec fn wrong_count() -> Signal {
    Signal::Argument("ArgumentError: Wrong number of arguments"@)
}

impl MachineView {
    /// The invariant of a machine: the return channel has its root entry;
    /// every frame has an innermost array; and the environment has one
    /// scope for each frame that runs in a scope of its own, above the
    /// scopes that it began with, of which there is at least one.
    pub open spec fn wf(self) -> bool {
        &&& self.base >= 1
        &&& self.env.returns.len() >= 1
        &&& self.env.scopes.len() == self.base + scoped_count(self.frames)
        &&& forall|i: int|
            0 <= i < self.frames.len() ==> (#[trigger] self.frames[i]).arrays.len() >= 1
                && self.frames[i].pos <= self.frames[i].tokens.len()
    }

    /// With another environment.
    pub open spec fn with_env(self, env: EnvModel) -> MachineView {
        MachineView { env, ..self }
    }

    /// With `d` as a new last element of the innermost array of the
    /// innermost frame.
    pub open spec fn delivered(self, d: Datum) -> MachineView {
        if self.frames.len() == 0 || self.frames.last().arrays.len() == 0 {
            self
        } else {
            let f = self.frames.last();
            let arrays = f.arrays.update(f.arrays.len() - 1, f.arrays.last().push(d));
            MachineView {
                frames: self.frames.update(self.frames.len() - 1, FrameView { arrays, ..f }),
                ..self
            }
        }
    }

    /// With `frame` as the new innermost frame.
    pub open spec fn entered(self, frame: FrameView) -> MachineView {
        MachineView { frames: self.frames.push(frame), ..self }
    }

    /// Without the innermost frame.
    pub open spec fn left(self) -> MachineView {
        MachineView { frames: self.frames.drop_last(), ..self }
    }

    /// With the innermost frame one token further.
    pub open spec fn advanced(self) -> MachineView {
        let f = self.frames.last();
        MachineView {
            frames: self.frames.update(
                self.frames.len() - 1,
                FrameView { pos: f.pos + 1, ..f },
            ),
            ..self
        }
    }

    /// With a new, empty innermost array in the innermost frame.
    pub open spec fn opened(self) -> MachineView {
        let f = self.frames.last();
        MachineView {
            frames: self.frames.update(
                self.frames.len() - 1,
                FrameView { arrays: f.arrays.push(Seq::empty()), ..f },
            ),
            ..self
        }
    }

    /// Without the innermost array of the innermost frame.
    pub open spec fn closed(self) -> MachineView {
        let f = self.frames.last();
        MachineView {
            frames: self.frames.update(
                self.frames.len() - 1,
                FrameView { arrays: f.arrays.drop_last(), ..f },
            ),
            ..self
        }
    }

    /// The machine after the value that a user function returned is taken
    /// off the return channel, down to the entry after `return_point`, and
    /// delivered.
    pub open spec fn returned(self, return_point: nat) -> MachineView {
        self.with_env(
            EnvModel {
                scopes: self.env.scopes,
                returns: self.env.returns.take(return_point as int + 1),
            },
        ).delivered(self.env.returns[return_point as int + 1])
    }

    /// The machine and the action after the signal `s` is raised. The
    /// signal leaves each frame in turn, innermost first, and closes the
    /// scope of a frame that has one. `Return` ends at the first user
    /// function call, which gets the returned value as its result; `Break`
    /// ends at the first loop, whose result is `Null`; any other signal, and
    /// one that is not caught, ends the program.
    pub open spec fn unwound(self, s: Signal) -> (MachineView, ActionView)
        decreases self.frames.len(),
    {
        if self.frames.len() == 0 {
            (self, ActionView::Done(Err(s)))
        } else {
            let f = self.frames.last();
            match f.kind {
                KindView::Call { return_point } => {
                    let out = self.left().with_env(popped_scope(self.env));
                    if s is Return && self.env.returns.len() - 1 > return_point {
                        (out.returned(return_point), ActionView::Idle)
                    } else {
                        out.unwound(s)
                    }
                },
                KindView::Iteration { .. } => {
                    let out = self.left().with_env(popped_scope(self.env));
                    if s is Break {
                        (out.delivered(Datum::Null), ActionView::Idle)
                    } else {
                        out.unwound(s)
                    }
                },
                _ => self.left().unwound(s),
            }
        }
    }

    /// The machine and the action after the innermost block has ended. The
    /// program gives its value as the outcome; a chosen block gives its
    /// value to the frame below; an array literal gives the array of its
    /// values; a user function closes its scope and gives the returned
    /// value, if one is on the return channel, else its value; a run of a
    /// loop closes its scope, and the next run begins in a new one, or,
    /// after the last, the loop gives `Null`.
    pub open spec fn finished(self) -> (MachineView, ActionView) {
        let f = self.frames.last();
        match f.kind {
            KindView::Top => (self.left(), ActionView::Done(Ok(block_value(f)))),
            KindView::Branch => (self.left().delivered(block_value(f)), ActionView::Idle),
            KindView::Literal => (
                self.left().delivered(Datum::Array(f.arrays.last())),
                ActionView::Idle,
            ),
            KindView::Call { return_point } => {
                let out = self.left().with_env(popped_scope(self.env));
                if self.env.returns.len() - 1 > return_point {
                    (out.returned(return_point), ActionView::Idle)
                } else {
                    (out.delivered(block_value(f)), ActionView::Idle)
                }
            },
            KindView::Iteration { var, index, count } => {
                if index + 1 < count {
                    (
                        MachineView {
                            env: iteration_env(popped_scope(self.env), var, (index + 1) as i64),
                            frames: self.frames.update(
                                self.frames.len() - 1,
                                fresh_frame(
                                    f.tokens,
                                    KindView::Iteration { var, index: (index + 1) as i64, count },
                                ),
                            ),
                            ..self
                        },
                        ActionView::Idle,
                    )
                } else {
                    (
                        self.left().with_env(popped_scope(self.env)).delivered(Datum::Null),
                        ActionView::Idle,
                    )
                }
            },
        }
    }

    /// The machine and the action after what an application calls for is
    /// done: a value is delivered; a block is entered; a loop with a count
    /// of at least one begins its first run; the host is asked for what only
    /// it can do.
    pub open spec fn performed(self, a: AppliedView) -> (MachineView, ActionView) {
        match a {
            AppliedView::Value(d) => (self.delivered(d), ActionView::Idle),
            AppliedView::Block(tokens) => (
                self.entered(fresh_frame(tokens, KindView::Branch)),
                ActionView::Idle,
            ),
            AppliedView::Loop { var, count, body } => if count <= 0 {
                (self.delivered(Datum::Null), ActionView::Idle)
            } else {
                (
                    self.with_env(iteration_env(self.env, var, 0)).entered(
                        fresh_frame(body, KindView::Iteration { var, index: 0, count }),
                    ),
                    ActionView::Idle,
                )
            },
            AppliedView::Print(pieces) => (
                self.delivered(Datum::Null),
                ActionView::Print(pieces),
            ),
            AppliedView::Import(path) => (
                MachineView { awaiting: Awaiting::Module, ..self },
                ActionView::Import(path),
            ),
            AppliedView::Quit => (self.delivered(Datum::Null), ActionView::Quit),
            AppliedView::Float { op, a, b } => (
                MachineView { awaiting: Awaiting::Float, ..self },
                ActionView::Float { op, a, b },
            ),
        }
    }

    /// The machine and the action after `head` is applied to `args`. A
    /// native operator does what `builtin_of` says, and a signal that it
    /// raises is raised here. A user function, which is an array of a
    /// parameter list and a body, is entered in a new scope that binds each
    /// parameter to its argument; a different number of arguments is an
    /// error. Any other array is an error, and any other head gives `Null`.
    pub open spec fn applied(self, head: Datum, args: Seq<Datum>) -> (MachineView, ActionView) {
        match head {
            Datum::Func(b) => {
                let (r, env) = builtin_of(b, args, self.env);
                match r {
                    Ok(a) => self.with_env(env).performed(a),
                    Err(s) => self.with_env(env).unwound(s),
                }
            },
            Datum::Array(parts) => if parts.len() == 2 && is_params(parts[0]) && parts[1] is Array {
                let params = parts[0]->Array_0;
                if params.len() != args.len() {
                    self.unwound(wrong_count())
                } else {
                    (
                        self.with_env(call_env(self.env, params, args)).entered(
                            fresh_frame(
                                parts[1]->Array_0,
                                KindView::Call {
                                    return_point: (self.env.returns.len() - 1) as nat,
                                },
                            ),
                        ),
                        ActionView::Idle,
                    )
                }
            } else {
                self.unwound(not_a_function())
            },
            _ => (self.delivered(Datum::Null), ActionView::Idle),
        }
    }

    /// The machine and the action after the token `node` is taken in. A name
    /// gives the value that it is bound to, or a name error; an opening
    /// parenthesis begins an argument array; a closing one ends it and
    /// applies its first element to the rest; an array literal is entered as
    /// a block; any other token is a value.
    pub open spec fn taken(self, node: Datum) -> (MachineView, ActionView) {
        match node {
            Datum::Identifier(name) => match lookup(self.env.scopes, name) {
                Some(d) => (self.delivered(d), ActionView::Idle),
                None => self.unwound(unbound(name)),
            },
            Datum::OpenFunc => (self.opened(), ActionView::Idle),
            Datum::CloseFunc => {
                let call = self.frames.last().arrays.last();
                if self.frames.last().arrays.len() < 2 {
                    self.unwound(unbalanced())
                } else if call.len() == 0 {
                    self.closed().unwound(nothing_to_apply())
                } else {
                    self.closed().applied(call[0], call.skip(1))
                }
            },
            Datum::Array(items) => (
                self.entered(fresh_frame(items, KindView::Literal)),
                ActionView::Idle,
            ),
            _ => (self.delivered(node), ActionView::Idle),
        }
    }

    /// The machine and the action after one step: the next token of the
    /// innermost block is taken in, or, where none is left, the block ends.
    /// A machine whose program has ended stays as it is, and so does one
    /// that waits for an answer of the host.
    pub open spec fn stepped(self) -> (MachineView, ActionView) {
        let f = self.frames.last();
        if self.frames.len() == 0 {
            (self, ActionView::Done(Ok(Datum::Null)))
        } else if self.awaiting != Awaiting::Nothing {
            (self, ActionView::Idle)
        } else if f.pos < f.tokens.len() {
            self.advanced().taken(f.tokens[f.pos as int])
        } else {
            self.finished()
        }
    }

    /// The machine and the action after at most `budget` steps: steps
    /// follow one another until one asks something of the host.
    pub open spec fn run(self, budget: nat) -> (MachineView, ActionView)
        decreases budget,
    {
        if budget == 0 {
            (self, ActionView::Idle)
        } else {
            let (next, action) = self.stepped();
            if action is Idle {
                next.run((budget - 1) as nat)
            } else {
                (next, action)
            }
        }
    }

    /// The machine after the host has answered with the double `bits`: where
    /// the machine waits for a double, this is the result of the application
    /// that asked for it; where it does not, nothing changes.
    pub open spec fn answered_float(self, bits: u64) -> MachineView {
        if self.awaiting == Awaiting::Float {
            MachineView { awaiting: Awaiting::Nothing, ..self }.delivered(Datum::Float(bits))
        } else {
            self
        }
    }

    /// The machine after the host has answered with the bindings `table` of
    /// a module: where the machine waits for a module, they are merged into
    /// the top scope, and the result of the import is `Null`; where it does
    /// not, nothing changes.
    pub open spec fn answered_import(self, table: Scope) -> MachineView {
        if self.awaiting != Awaiting::Module {
            self
        } else {
            self.merged(table)
        }
    }

    /// With the bindings `table` merged into the top scope, nothing waited
    /// for, and `Null` delivered.
    pub open spec fn merged(self, table: Scope) -> MachineView {
        MachineView {
            awaiting: Awaiting::Nothing,
            env: EnvModel {
                scopes: self.env.scopes.update(
                    self.env.scopes.len() - 1,
                    self.env.scopes.last().union_prefer_right(table),
                ),
                returns: self.env.returns,
            },
            ..self
        }.delivered(Datum::Null)
    }
}

} // verus!
