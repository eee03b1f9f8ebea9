//! The evaluator: a machine that folds a token stream into argument arrays,
//! applies operators, and hands to its host the work that it cannot do.
//! Each function here carries out what `semantics` says of it.

use crate::binding::{check_params, is_params, param_in};
use crate::builtin::{apply_builtin, lemma_builtin_keeps_depth};
use crate::effect::{Applied, FloatOp, Piece, piece_views};
use crate::environment::{Environment, Scope, SymTab, define};
use crate::error::LCoreError;
use crate::key_laws::{
    lemma_answered_well_keyed, lemma_run_well_keyed, lemma_stepped_well_keyed,
    lemma_taken_well_keyed, machine_well_keyed,
};
use crate::keys::{all_well_keyed, env_well_keyed, scopes_well_keyed, well_keyed};
use crate::laws::{
    lemma_applied_wf, lemma_bound_len, lemma_delivered_wf, lemma_finished_wf, lemma_left_wf,
    lemma_performed_wf, lemma_reframed_wf, lemma_stepped_wf, lemma_taken_wf, lemma_unwound_wf,
};
use crate::semantics::{
    ActionView, Awaiting, FrameView, KindView, MachineView, block_value, bound, call_env,
    fresh_frame, popped_scope, scoped_count,
};
use crate::value::{Datum, Value, clone_all, lemma_views_push, views};
use vstd::prelude::*;

verus! {

/// What a frame is running.
#[derive(Debug)]
pub enum FrameKind {
    Top,
    Branch,
    Literal,
    Call { return_point: usize },
    Iteration { var: String, index: i64, count: i64 },
}

impl View for FrameKind {
    type V = KindView;

    open spec fn view(&self) -> KindView {
        match self {
            FrameKind::Top => KindView::Top,
            FrameKind::Branch => KindView::Branch,
            FrameKind::Literal => KindView::Literal,
            FrameKind::Call { return_point } => KindView::Call {
                return_point: *return_point as nat,
            },
            FrameKind::Iteration { var, index, count } => KindView::Iteration {
                var: var@,
                index: *index,
                count: *count,
            },
        }
    }
}

/// A block that is being run.
#[derive(Debug)]
pub struct Frame {
    tokens: Vec<Value>,
    pos: usize,
    arrays: Vec<Vec<Value>>,
    kind: FrameKind,
}

/// The data of a stack of argument arrays, outermost first.
pub open spec fn array_views(arrays: Seq<Vec<Value>>) -> Seq<Seq<Datum>> {
    Seq::new(arrays.len(), |i: int| views(arrays[i]@))
}

impl View for Frame {
    type V = FrameView;

    closed spec fn view(&self) -> FrameView {
        FrameView {
            tokens: views(self.tokens@),
            pos: self.pos as nat,
            arrays: array_views(self.arrays@),
            kind: self.kind@,
        }
    }
}

/// What a stack of frames denotes, outermost first.
pub open spec fn frame_views(frames: Seq<Frame>) -> Seq<FrameView> {
    Seq::new(frames.len(), |i: int| frames[i]@)
}

/// What a step asks of the host.
#[derive(Debug)]
pub enum Action {
    /// Nothing: the next step can follow.
    Idle,
    /// Write these pieces.
    Print(Vec<Piece>),
    /// Load the module at this path and answer with its bindings.
    Import(String),
    /// Apply `op` to the doubles `a` and `b` and answer with the result.
    Float { op: FloatOp, a: u64, b: u64 },
    /// End the process with status 0.
    Quit,
    /// The program has ended with this outcome.
    Done(Result<Value, LCoreError>),
}

impl View for Action {
    type V = ActionView;

    open spec fn view(&self) -> ActionView {
        match self {
            Action::Idle => ActionView::Idle,
            Action::Print(pieces) => ActionView::Print(piece_views(pieces@)),
            Action::Import(path) => ActionView::Import(path@),
            Action::Float { op, a, b } => ActionView::Float { op: *op, a: *a, b: *b },
            Action::Quit => ActionView::Quit,
            Action::Done(r) => ActionView::Done(crate::error::outcome(*r)),
        }
    }
}

/// The evaluator: an environment, and the frames of the blocks that are
/// being run, outermost first.
#[derive(Debug)]
pub struct Machine {
    env: Environment,
    frames: Vec<Frame>,
    base: usize,
    awaiting: Awaiting,
}

impl View for Machine {
    type V = MachineView;

    closed spec fn view(&self) -> MachineView {
        MachineView {
            env: self.env@,
            frames: frame_views(self.frames@),
            base: self.base as nat,
            awaiting: self.awaiting,
        }
    }
}

fn new_frame(tokens: Vec<Value>, kind: FrameKind) -> (f: Frame)
    ensures
        f@ == fresh_frame(views(tokens@), kind@),
{
    let mut arrays: Vec<Vec<Value>> = Vec::new();
    arrays.push(Vec::new());
    let f = Frame { tokens, pos: 0, arrays, kind };
    assert(f@.arrays =~= seq![Seq::<Datum>::empty()]) by {
        assert(views(f.arrays@[0]@) =~= Seq::<Datum>::empty());
    }
    f
}

impl Machine {
    /// A machine at the start of the program `tokens`, with `env` as its
    /// environment.
    pub fn new(tokens: Vec<Value>, env: Environment) -> (m: Machine)
        requires
            env@.scopes.len() >= 1,
            env@.returns.len() >= 1,
        ensures
            m@ == (MachineView {
                env: env@,
                frames: seq![fresh_frame(views(tokens@), KindView::Top)],
                base: env@.scopes.len(),
                awaiting: Awaiting::Nothing,
            }),
            m@.wf(),
            all_well_keyed(views(tokens@)) && env_well_keyed(env@) ==> machine_well_keyed(m@),
    {
        proof {
            let f = fresh_frame(views(tokens@), KindView::Top);
            assert(all_well_keyed(f.arrays[0]));
        }
        let base = env.len();
        let mut frames: Vec<Frame> = Vec::new();
        frames.push(new_frame(tokens, FrameKind::Top));
        let m = Machine { env, frames, base, awaiting: Awaiting::Nothing };
        assert(m@.frames =~= seq![fresh_frame(views(tokens@), KindView::Top)]);
        assert(scoped_count(m@.frames) == 0) by {
            assert(scoped_count(m@.frames.drop_last()) == 0);
        }
        m
    }

    /// The environment of the machine.
    pub fn into_env(self) -> (env: Environment)
        ensures
            env@ == self@.env,
    {
        self.env
    }

    /// Whether the program has ended.
    pub fn is_done(&self) -> (r: bool)
        ensures
            r == (self@.frames.len() == 0),
    {
        self.frames.len() == 0
    }

    /// What the machine waits for.
    pub fn awaiting(&self) -> (r: Awaiting)
        ensures
            r == self@.awaiting,
    {
        self.awaiting
    }
}

/// The data of a stack of arrays with one more array.
proof fn lemma_array_views_push(arrays: Seq<Vec<Value>>, a: Vec<Value>)
    ensures
        array_views(arrays.push(a)) == array_views(arrays).push(views(a@)),
{
    assert(array_views(arrays.push(a)) =~= array_views(arrays).push(views(a@)));
}

/// What a stack of frames with one more frame denotes.
proof fn lemma_frame_views_push(frames: Seq<Frame>, f: Frame)
    ensures
        frame_views(frames.push(f)) == frame_views(frames).push(f@),
{
    assert(frame_views(frames.push(f)) =~= frame_views(frames).push(f@));
}

/// What a stack of frames without its last frame denotes.
proof fn lemma_frame_views_drop(frames: Seq<Frame>)
    requires
        frames.len() > 0,
    ensures
        frame_views(frames.drop_last()) == frame_views(frames).drop_last(),
        frame_views(frames).last() == frames.last()@,
{
    assert(frame_views(frames.drop_last()) =~= frame_views(frames).drop_last());
}

impl Frame {
    /// Puts `v` at the end of the innermost array.
    fn push_value(&mut self, v: Value)
        requires
            old(self)@.arrays.len() >= 1,
        ensures
            final(self)@ == (FrameView {
                arrays: old(self)@.arrays.update(
                    old(self)@.arrays.len() - 1,
                    old(self)@.arrays.last().push(v@),
                ),
                ..old(self)@
            }),
    {
        let n = self.arrays.len();
        let ghost before = self.arrays@[n - 1]@;
        proof {
            lemma_views_push(before, v);
        }
        self.arrays[n - 1].push(v);
        assert(self@.arrays =~= old(self)@.arrays.update(
            old(self)@.arrays.len() - 1,
            old(self)@.arrays.last().push(v@),
        ));
    }

    /// The value of the block at its end.
    fn value(&self) -> (r: Value)
        ensures
            r@ == block_value(self@),
    {
        let n = self.arrays.len();
        if n == 0 {
            return Value::Null;
        }
        let top = &self.arrays[n - 1];
        if top.len() == 0 {
            Value::Null
        } else {
            top[top.len() - 1].clone()
        }
    }
}

impl Machine {
    /// Puts the innermost frame back after it was taken off and changed.
    fn put_back(&mut self, f: Frame)
        ensures
            final(self)@ == old(self)@.entered(f@),
    {
        proof {
            lemma_frame_views_push(self.frames@, f);
        }
        self.frames.push(f);
    }

    /// Takes the innermost frame off.
    fn take_frame(&mut self) -> (f: Frame)
        requires
            old(self)@.frames.len() > 0,
        ensures
            final(self)@ == old(self)@.left(),
            f@ == old(self)@.frames.last(),
    {
        proof {
            lemma_frame_views_drop(self.frames@);
        }
        self.frames.pop().unwrap()
    }

    /// Delivers `v` to the innermost frame.
    fn deliver(&mut self, v: Value)
        requires
            old(self)@.wf(),
        ensures
            final(self)@ == old(self)@.delivered(v@),
            final(self)@.wf(),
    {
        proof {
            lemma_delivered_wf(self@, v@);
        }
        if self.frames.len() == 0 {
            return;
        }
        let mut f = self.take_frame();
        f.push_value(v);
        self.put_back(f);
        assert(self@.frames =~= old(self)@.delivered(v@).frames);
    }

    /// Closes the top scope.
    fn close_scope(&mut self)
        requires
            old(self)@.env.scopes.len() > 0,
        ensures
            final(self)@ == old(self)@.with_env(popped_scope(old(self)@.env)),
    {
        let _ = self.env.pop();
    }

    /// Takes the returned value off the return channel and delivers it.
    fn take_returned(&mut self, return_point: usize)
        requires
            old(self)@.wf(),
            old(self)@.env.returns.len() - 1 > return_point,
        ensures
            final(self)@ == old(self)@.returned(return_point as nat),
            final(self)@.wf(),
    {
        let newest = self.env.current_ret_index();
        assert(return_point < newest);
        let v = self.env.pop_ret_index(return_point + 1);
        self.deliver(v);
    }

    /// Raises the signal `e`.
    fn raise(&mut self, e: LCoreError) -> (action: Action)
        requires
            old(self)@.wf(),
        ensures
            (final(self)@, action@) == old(self)@.unwound(e@),
            final(self)@.wf(),
    {
        proof {
            lemma_unwound_wf(self@, e@);
        }
        loop
            invariant
                self@.wf(),
                self@.unwound(e@) == old(self)@.unwound(e@),
            decreases self@.frames.len(),
        {
            if self.frames.len() == 0 {
                return Action::Done(Err(e));
            }
            proof {
                lemma_left_wf(self@);
            }
            let f = self.take_frame();
            match f.kind {
                FrameKind::Call { return_point } => {
                    self.close_scope();
                    let is_return = match &e {
                        LCoreError::ReturnError => true,
                        _ => false,
                    };
                    if is_return && self.env.current_ret_index() > return_point {
                        self.take_returned(return_point);
                        return Action::Idle;
                    }
                },
                FrameKind::Iteration { .. } => {
                    self.close_scope();
                    let is_break = match &e {
                        LCoreError::BreakError => true,
                        _ => false,
                    };
                    if is_break {
                        self.deliver(Value::Null);
                        return Action::Idle;
                    }
                },
                _ => {},
            }
        }
    }
}

impl Machine {
    /// Ends the innermost block.
    fn finish(&mut self) -> (action: Action)
        requires
            old(self)@.wf(),
            old(self)@.frames.len() > 0,
        ensures
            (final(self)@, action@) == old(self)@.finished(),
            final(self)@.wf(),
    {
        proof {
            lemma_finished_wf(self@);
            lemma_left_wf(self@);
        }
        let mut f = self.take_frame();
        match f.kind {
            FrameKind::Top => Action::Done(Ok(f.value())),
            FrameKind::Branch => {
                self.deliver(f.value());
                Action::Idle
            },
            FrameKind::Literal => {
                let top = f.arrays.pop().unwrap();
                self.deliver(Value::Array(top));
                Action::Idle
            },
            FrameKind::Call { return_point } => {
                self.close_scope();
                if self.env.current_ret_index() > return_point {
                    self.take_returned(return_point);
                } else {
                    self.deliver(f.value());
                }
                Action::Idle
            },
            FrameKind::Iteration { var, index, count } => {
                self.close_scope();
                if (index as i128) + 1 < count as i128 {
                    self.env.push();
                    self.env.define(var.clone(), Value::Int(index + 1));
                    let next = new_frame(
                        f.tokens,
                        FrameKind::Iteration { var, index: index + 1, count },
                    );
                    self.put_back(next);
                    assert(self@.frames =~= old(self)@.finished().0.frames);
                } else {
                    self.deliver(Value::Null);
                }
                Action::Idle
            },
        }
    }

    /// Enters the block `tokens`, whose value goes to the frame that is now
    /// innermost.
    fn enter_block(&mut self, tokens: Vec<Value>)
        requires
            old(self)@.wf(),
        ensures
            final(self)@ == old(self)@.entered(fresh_frame(views(tokens@), KindView::Branch)),
            final(self)@.wf(),
    {
        proof {
            crate::laws::lemma_entered_wf(self@, views(tokens@), KindView::Branch);
        }
        self.put_back(new_frame(tokens, FrameKind::Branch));
    }

    /// Does what an application calls for.
    fn perform(&mut self, a: Applied) -> (action: Action)
        requires
            old(self)@.wf(),
        ensures
            (final(self)@, action@) == old(self)@.performed(a@),
            final(self)@.wf(),
    {
        proof {
            lemma_performed_wf(self@, a@);
        }
        match a {
            Applied::Value(v) => {
                self.deliver(v);
                Action::Idle
            },
            Applied::Block(tokens) => {
                self.enter_block(tokens);
                Action::Idle
            },
            Applied::Loop { var, count, body } => {
                if count <= 0 {
                    self.deliver(Value::Null);
                } else {
                    self.env.push();
                    self.env.define(var.clone(), Value::Int(0));
                    self.put_back(new_frame(body, FrameKind::Iteration { var, index: 0, count }));
                }
                Action::Idle
            },
            Applied::Print(pieces) => {
                self.deliver(Value::Null);
                Action::Print(pieces)
            },
            Applied::Import(path) => {
                self.awaiting = Awaiting::Module;
                Action::Import(path)
            },
            Applied::Quit => {
                self.deliver(Value::Null);
                Action::Quit
            },
            Applied::Float { op, a, b } => {
                self.awaiting = Awaiting::Float;
                Action::Float { op, a, b }
            },
        }
    }

    /// Opens a scope and defines each parameter in it as its argument.
    fn bind(&mut self, params: &Vec<Value>, args: &Vec<Value>)
        requires
            is_params(Datum::Array(views(params@))),
            params@.len() == args@.len(),
        ensures
            final(self)@ == old(self)@.with_env(
                call_env(old(self)@.env, views(params@), views(args@)),
            ),
    {
        let ghost names = views(params@);
        let ghost data = views(args@);
        let ghost opened = self@.env.scopes.push(Scope::empty());
        self.env.push();
        let mut i: usize = 0;
        while i < params.len()
            invariant
                i <= params@.len(),
                params@.len() == args@.len(),
                names == views(params@),
                data == views(args@),
                is_params(Datum::Array(names)),
                opened.len() > 0,
                self@ == old(self)@.with_env(
                    crate::environment::EnvModel {
                        scopes: bound(opened, names, data, i as nat),
                        returns: old(self)@.env.returns,
                    },
                ),
            decreases params@.len() - i,
        {
            proof {
                lemma_bound_len(opened, names, data, i as nat);
            }
            match param_in(&params[i]) {
                Some(name) => {
                    self.env.define(name.clone(), args[i].clone());
                },
                None => {},
            }
            i += 1;
        }
    }

    /// Applies `head` to `args`.
    fn apply(&mut self, head: Value, args: Vec<Value>) -> (action: Action)
        requires
            old(self)@.wf(),
        ensures
            (final(self)@, action@) == old(self)@.applied(head@, views(args@)),
            final(self)@.wf(),
    {
        proof {
            lemma_applied_wf(self@, head@, views(args@));
        }
        match head {
            Value::Func { f } => {
                proof {
                    lemma_builtin_keeps_depth(f, views(args@), self@.env);
                }
                let mut packed = Value::Array(args);
                let r = apply_builtin(f, &mut packed, &mut self.env);
                match r {
                    Ok(a) => self.perform(a),
                    Err(e) => self.raise(e),
                }
            },
            Value::Array(parts) => {
                assert(views(parts@).len() == parts@.len());
                if parts.len() != 2 {
                    return self.raise(not_a_function_error());
                }
                if !check_params(&parts[0]) {
                    return self.raise(not_a_function_error());
                }
                match (&parts[0], &parts[1]) {
                    (Value::Array(params), Value::Array(body)) => {
                        assert(views(params@).len() == params@.len());
                        if params.len() != args.len() {
                            return self.raise(
                                LCoreError::ArgumentError(
                                    String::from_str("ArgumentError: Wrong number of arguments"),
                                ),
                            );
                        }
                        let return_point = self.env.current_ret_index();
                        self.bind(params, &args);
                        self.put_back(
                            new_frame(clone_all(body), FrameKind::Call { return_point }),
                        );
                        Action::Idle
                    },
                    _ => self.raise(not_a_function_error()),
                }
            },
            _ => {
                self.deliver(Value::Null);
                Action::Idle
            },
        }
    }

    /// One step: takes the next token of the innermost block in, or ends
    /// the block where no token is left.
    pub fn step(&mut self) -> (action: Action)
        requires
            old(self)@.wf(),
        ensures
            (final(self)@, action@) == old(self)@.stepped(),
            final(self)@.wf(),
            machine_well_keyed(old(self)@) ==> machine_well_keyed(final(self)@),
    {
        proof {
            lemma_stepped_wf(self@);
            if machine_well_keyed(self@) {
                lemma_stepped_well_keyed(self@);
            }
        }
        if self.frames.len() == 0 {
            return Action::Done(Ok(Value::Null));
        }
        match self.awaiting {
            Awaiting::Nothing => {},
            _ => {
                return Action::Idle;
            },
        }
        let mut f = self.take_frame();
        if f.pos < f.tokens.len() {
            let node = f.tokens[f.pos].clone();
            f.pos = f.pos + 1;
            self.put_back(f);
            assert(self@.frames =~= old(self)@.advanced().frames);
            proof {
                let g = old(self)@.frames.last();
                lemma_reframed_wf(old(self)@, FrameView { pos: g.pos + 1, ..g });
            }
            lcore_interpret_expression(self, node)
        } else {
            self.put_back(f);
            assert(self@.frames =~= old(self)@.frames);
            self.finish()
        }
    }

    /// Takes the answer of the host to `Action::Float`: the double `bits` is
    /// the result of the application that asked for it. Nothing changes
    /// where the machine does not wait for a double.
    pub fn answer_float(&mut self, bits: u64)
        requires
            old(self)@.wf(),
        ensures
            final(self)@ == old(self)@.answered_float(bits),
            final(self)@.wf(),
            machine_well_keyed(old(self)@) ==> machine_well_keyed(final(self)@),
    {
        proof {
            if machine_well_keyed(self@) {
                lemma_answered_well_keyed(self@, bits, Scope::empty());
            }
        }
        match self.awaiting {
            Awaiting::Float => {
                self.awaiting = Awaiting::Nothing;
                self.deliver(Value::Float(bits));
            },
            _ => {},
        }
    }

    /// Takes the answer of the host to `Action::Import`: the bindings of the
    /// module are merged into the top scope, and the result of the
    /// application is `Null`. Nothing changes where the machine does not
    /// wait for a module.
    pub fn answer_import(&mut self, table: SymTab)
        requires
            old(self)@.wf(),
        ensures
            final(self)@ == old(self)@.answered_import(table@),
            final(self)@.wf(),
            machine_well_keyed(old(self)@) && scopes_well_keyed(seq![table@])
                ==> machine_well_keyed(final(self)@),
    {
        proof {
            if machine_well_keyed(self@) && scopes_well_keyed(seq![table@]) {
                assert forall|name: Seq<char>| table@.dom().contains(name) implies well_keyed(
                    #[trigger] table@[name],
                ) by {
                    assert(seq![table@][0] == table@);
                }
                lemma_answered_well_keyed(self@, 0, table@);
            }
        }
        match self.awaiting {
            Awaiting::Module => {
                self.awaiting = Awaiting::Nothing;
                self.env.extend(table);
                self.deliver(Value::Null);
            },
            _ => {},
        }
    }
}

fn not_a_function_error() -> (e: LCoreError)
    ensures
        e@ == crate::semantics::not_a_function(),
{
    LCoreError::ArgumentError(String::from_str("ArgumentError: Not a function"))
}

/// Takes the token `node` in: a name gives the value that it is bound to, a
/// parenthesis begins or ends an argument array, an array literal is entered
/// as a block, and any other token is a value. The end of an argument array
/// applies its first element to the rest.
pub fn lcore_interpret_expression(machine: &mut Machine, node: Value) -> (action: Action)
    requires
        old(machine)@.wf(),
        old(machine)@.frames.len() > 0,
    ensures
        (final(machine)@, action@) == old(machine)@.taken(node@),
        final(machine)@.wf(),
        machine_well_keyed(old(machine)@) && well_keyed(node@) ==> machine_well_keyed(
            final(machine)@,
        ),
{
    proof {
        lemma_taken_wf(machine@, node@);
        if machine_well_keyed(machine@) && well_keyed(node@) {
            lemma_taken_well_keyed(machine@, node@);
        }
    }
    match node {
        Value::Identifier(name) => {
            let found = match machine.env.peek(&name) {
                Some(v) => Some(v.clone()),
                None => None,
            };
            match found {
                Some(v) => {
                    machine.deliver(v);
                    Action::Idle
                },
                None => {
                    let mut msg = String::from_str("NameError: Cannot lookup name: \"");
                    msg.append(name.as_str());
                    msg.append("\"");
                    machine.raise(LCoreError::NameError(msg))
                },
            }
        },
        Value::OpenFunc => {
            let mut f = machine.take_frame();
            let empty: Vec<Value> = Vec::new();
            proof {
                lemma_array_views_push(f.arrays@, empty);
                assert(views(empty@) =~= Seq::<Datum>::empty());
            }
            f.arrays.push(empty);
            machine.put_back(f);
            assert(machine@.frames =~= old(machine)@.opened().frames);
            Action::Idle
        },
        Value::CloseFunc => {
            let mut f = machine.take_frame();
            if f.arrays.len() < 2 {
                machine.put_back(f);
                assert(machine@.frames =~= old(machine)@.frames);
                return machine.raise(
                    LCoreError::LambdaCoreError(
                        String::from_str("LambdaCoreError: Unbalanced parentheses"),
                    ),
                );
            }
            let ghost whole = f.arrays@;
            let mut call = f.arrays.pop().unwrap();
            assert(array_views(f.arrays@) =~= array_views(whole).drop_last());
            machine.put_back(f);
            assert(machine@.frames =~= old(machine)@.closed().frames);
            proof {
                let g = old(machine)@.frames.last();
                lemma_reframed_wf(old(machine)@, FrameView { arrays: g.arrays.drop_last(), ..g });
            }
            if call.len() == 0 {
                return machine.raise(
                    LCoreError::ArgumentError(
                        String::from_str("ArgumentError: Nothing to apply"),
                    ),
                );
            }
            let ghost data = views(call@);
            let head = call.remove(0);
            assert(views(call@) =~= data.skip(1));
            machine.apply(head, call)
        },
        Value::Array(items) => {
            proof {
                crate::laws::lemma_entered_wf(machine@, views(items@), KindView::Literal);
            }
            machine.put_back(new_frame(items, FrameKind::Literal));
            Action::Idle
        },
        other => {
            machine.deliver(other);
            Action::Idle
        },
    }
}

/// Enters the block `element`, an array of tokens: its last value will be
/// the next value of the frame that is now innermost.
pub fn lcore_interpret_array(machine: &mut Machine, element: &Value)
    requires
        old(machine)@.wf(),
        element is Array,
    ensures
        final(machine)@ == old(machine)@.entered(
            fresh_frame(element@->Array_0, KindView::Branch),
        ),
        final(machine)@.wf(),
{
    let tokens = clone_all(element.as_array());
    machine.enter_block(tokens);
}

/// Runs the machine: steps follow one another until one asks something of
/// the host, or the program ends, or `budget` steps are done.
pub fn lcore_interpret(machine: &mut Machine, budget: usize) -> (action: Action)
    requires
        old(machine)@.wf(),
    ensures
        (final(machine)@, action@) == old(machine)@.run(budget as nat),
        final(machine)@.wf(),
        machine_well_keyed(old(machine)@) ==> machine_well_keyed(final(machine)@),
{
    proof {
        if machine_well_keyed(machine@) {
            lemma_run_well_keyed(machine@, budget as nat);
        }
    }
    if !machine.is_done() && machine.awaiting() != Awaiting::Nothing {
        proof {
            crate::laws::lemma_run_waits(machine@, budget as nat);
        }
        return Action::Idle;
    }
    let mut left = budget;
    while left > 0
        invariant
            machine@.wf(),
            machine@.run(left as nat) == old(machine)@.run(budget as nat),
            machine_well_keyed(old(machine)@) ==> machine_well_keyed(
                old(machine)@.run(budget as nat).0,
            ),
        decreases left,
    {
        let action = machine.step();
        match action {
            Action::Idle => {},
            other => {
                return other;
            },
        }
        left -= 1;
    }
    Action::Idle
}

} // verus!
