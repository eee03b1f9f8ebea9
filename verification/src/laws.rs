//! What holds of every evaluation: the invariant of the machine, and how
//! signals, calls and loops behave.

use crate::binding::{is_params, param_name, user_function};
use crate::builtin::{builtin_of, lemma_builtin_keeps_depth};
use crate::effect::AppliedView;
use crate::environment::{EnvModel, Scope, define, lookup};
use crate::error::Signal;
use crate::semantics::{
    ActionView, Awaiting, FrameView, KindView, MachineView, bound, call_env, fresh_frame,
    iteration_env, popped_scope, scoped, scoped_count,
};
use crate::value::{Builtin, Datum};
use vstd::prelude::*;

verus! {

/// One more frame counts if it runs in a scope of its own.
pub proof fn lemma_scoped_push(frames: Seq<FrameView>, f: FrameView)
    ensures
        scoped_count(frames.push(f)) == scoped_count(frames) + if scoped(f.kind) {
            1nat
        } else {
            0nat
        },
{
    assert(frames.push(f).drop_last() =~= frames);
}

/// A frame replaced by one of the same kind leaves the count as it was.
pub proof fn lemma_scoped_replace(frames: Seq<FrameView>, f: FrameView)
    requires
        frames.len() > 0,
        scoped(f.kind) == scoped(frames.last().kind),
    ensures
        scoped_count(frames.update(frames.len() - 1, f)) == scoped_count(frames),
{
    assert(frames.update(frames.len() - 1, f).drop_last() =~= frames.drop_last());
}

/// Binding parameters leaves the number of scopes as it was.
pub proof fn lemma_bound_len(scopes: Seq<Scope>, params: Seq<Datum>, args: Seq<Datum>, n: nat)
    requires
        scopes.len() > 0,
    ensures
        bound(scopes, params, args, n).len() == scopes.len(),
    decreases n,
{
    if !(n == 0 || n > params.len() || n > args.len()) {
        lemma_bound_len(scopes, params, args, (n - 1) as nat);
    }
}

/// Delivering a value keeps the invariant.
pub proof fn lemma_delivered_wf(m: MachineView, d: Datum)
    requires
        m.wf(),
    ensures
        m.delivered(d).wf(),
        m.delivered(d).frames.len() == m.frames.len(),
        m.delivered(d).env == m.env,
        m.delivered(d).awaiting == m.awaiting,
{
    if m.frames.len() > 0 {
        let f = m.frames.last();
        assert(f.arrays.len() >= 1);
        let arrays = f.arrays.update(f.arrays.len() - 1, f.arrays.last().push(d));
        lemma_scoped_replace(m.frames, FrameView { arrays, ..f });
    }
}

/// Entering a block that has no scope of its own keeps the invariant.
pub proof fn lemma_entered_wf(m: MachineView, tokens: Seq<Datum>, kind: KindView)
    requires
        m.wf(),
        !scoped(kind),
    ensures
        m.entered(fresh_frame(tokens, kind)).wf(),
{
    lemma_scoped_push(m.frames, fresh_frame(tokens, kind));
}

/// Entering a block in a new scope keeps the invariant.
pub proof fn lemma_entered_scoped_wf(
    m: MachineView,
    env: EnvModel,
    tokens: Seq<Datum>,
    kind: KindView,
)
    requires
        m.wf(),
        scoped(kind),
        env.scopes.len() == m.env.scopes.len() + 1,
        env.returns == m.env.returns,
    ensures
        m.with_env(env).entered(fresh_frame(tokens, kind)).wf(),
{
    lemma_scoped_push(m.frames, fresh_frame(tokens, kind));
}

/// Raising a signal keeps the invariant.
pub proof fn lemma_unwound_wf(m: MachineView, s: Signal)
    requires
        m.wf(),
    ensures
        m.unwound(s).0.wf(),
        m.unwound(s).0.awaiting == m.awaiting,
    decreases m.frames.len(),
{
    if m.frames.len() > 0 {
        let f = m.frames.last();
        let rest = m.left();
        assert forall|i: int| 0 <= i < rest.frames.len() implies (
        #[trigger] rest.frames[i]).arrays.len() >= 1 && rest.frames[i].pos
            <= rest.frames[i].tokens.len() by {
            assert(rest.frames[i] == m.frames[i]);
        }
        match f.kind {
            KindView::Call { return_point } => {
                let out = rest.with_env(popped_scope(m.env));
                assert(out.wf());
                if s is Return && m.env.returns.len() - 1 > return_point {
                    let cut = out.with_env(
                        EnvModel {
                            scopes: out.env.scopes,
                            returns: out.env.returns.take(return_point as int + 1),
                        },
                    );
                    assert(cut.wf());
                    lemma_delivered_wf(cut, out.env.returns[return_point as int + 1]);
                } else {
                    lemma_unwound_wf(out, s);
                }
            },
            KindView::Iteration { .. } => {
                let out = rest.with_env(popped_scope(m.env));
                assert(out.wf());
                if s is Break {
                    lemma_delivered_wf(out, Datum::Null);
                } else {
                    lemma_unwound_wf(out, s);
                }
            },
            _ => {
                assert(rest.wf());
                lemma_unwound_wf(rest, s);
            },
        }
    }
}

/// Without its innermost frame, and without the scope of that frame if it
/// has one, a machine keeps the invariant.
pub proof fn lemma_left_wf(m: MachineView)
    requires
        m.wf(),
        m.frames.len() > 0,
    ensures
        !scoped(m.frames.last().kind) ==> m.left().wf(),
        scoped(m.frames.last().kind) ==> m.left().with_env(popped_scope(m.env)).wf(),
{
    let rest = m.left();
    assert forall|i: int| 0 <= i < rest.frames.len() implies (
    #[trigger] rest.frames[i]).arrays.len() >= 1 && rest.frames[i].pos
        <= rest.frames[i].tokens.len() by {
        assert(rest.frames[i] == m.frames[i]);
    }
}

/// The end of a block keeps the invariant.
pub proof fn lemma_finished_wf(m: MachineView)
    requires
        m.wf(),
        m.frames.len() > 0,
    ensures
        m.finished().0.wf(),
        m.finished().0.awaiting == m.awaiting,
{
    let f = m.frames.last();
    lemma_left_wf(m);
    match f.kind {
        KindView::Top => {},
        KindView::Branch => {
            lemma_delivered_wf(m.left(), crate::semantics::block_value(f));
        },
        KindView::Literal => {
            lemma_delivered_wf(m.left(), Datum::Array(f.arrays.last()));
        },
        KindView::Call { return_point } => {
            let out = m.left().with_env(popped_scope(m.env));
            if m.env.returns.len() - 1 > return_point {
                let cut = out.with_env(
                    EnvModel {
                        scopes: out.env.scopes,
                        returns: out.env.returns.take(return_point as int + 1),
                    },
                );
                assert(cut.wf());
                lemma_delivered_wf(cut, out.env.returns[return_point as int + 1]);
            } else {
                lemma_delivered_wf(out, crate::semantics::block_value(f));
            }
        },
        KindView::Iteration { var, index, count } => {
            let out = m.left().with_env(popped_scope(m.env));
            if index + 1 < count {
                let next = fresh_frame(
                    f.tokens,
                    KindView::Iteration { var, index: (index + 1) as i64, count },
                );
                lemma_scoped_replace(m.frames, next);
                let after = m.finished().0;
                assert(after.frames == m.frames.update(m.frames.len() - 1, next));
                assert(after.env.scopes.len() == m.env.scopes.len());
                assert forall|i: int| 0 <= i < after.frames.len() implies (
                #[trigger] after.frames[i]).arrays.len() >= 1 && after.frames[i].pos
                    <= after.frames[i].tokens.len() by {
                    if i < m.frames.len() - 1 {
                        assert(after.frames[i] == m.frames[i]);
                    }
                }
            } else {
                lemma_delivered_wf(out, Datum::Null);
            }
        },
    }
}

/// Doing what an application calls for keeps the invariant.
pub proof fn lemma_performed_wf(m: MachineView, a: AppliedView)
    requires
        m.wf(),
    ensures
        m.performed(a).0.wf(),
{
    match a {
        AppliedView::Value(d) => {
            lemma_delivered_wf(m, d);
        },
        AppliedView::Block(tokens) => {
            lemma_entered_wf(m, tokens, KindView::Branch);
        },
        AppliedView::Loop { var, count, body } => {
            if count <= 0 {
                lemma_delivered_wf(m, Datum::Null);
            } else {
                lemma_entered_scoped_wf(
                    m,
                    iteration_env(m.env, var, 0),
                    body,
                    KindView::Iteration { var, index: 0, count },
                );
            }
        },
        AppliedView::Print(_) => {
            lemma_delivered_wf(m, Datum::Null);
        },
        AppliedView::Import(_) => {},
        AppliedView::Quit => {
            lemma_delivered_wf(m, Datum::Null);
        },
        AppliedView::Float { .. } => {},
    }
}

/// An application keeps the invariant.
pub proof fn lemma_applied_wf(m: MachineView, head: Datum, args: Seq<Datum>)
    requires
        m.wf(),
    ensures
        m.applied(head, args).0.wf(),
{
    match head {
        Datum::Func(b) => {
            lemma_builtin_keeps_depth(b, args, m.env);
            let (r, env) = builtin_of(b, args, m.env);
            match r {
                Ok(a) => {
                    lemma_performed_wf(m.with_env(env), a);
                },
                Err(s) => {
                    lemma_unwound_wf(m.with_env(env), s);
                },
            }
        },
        Datum::Array(parts) => {
            if parts.len() == 2 && crate::binding::is_params(parts[0]) && parts[1] is Array {
                let params = parts[0]->Array_0;
                if params.len() != args.len() {
                    lemma_unwound_wf(m, crate::semantics::wrong_count());
                } else {
                    lemma_bound_len(m.env.scopes.push(Scope::empty()), params, args, params.len());
                    lemma_entered_scoped_wf(
                        m,
                        call_env(m.env, params, args),
                        parts[1]->Array_0,
                        KindView::Call { return_point: (m.env.returns.len() - 1) as nat },
                    );
                }
            } else {
                lemma_unwound_wf(m, crate::semantics::not_a_function());
            }
        },
        _ => {
            lemma_delivered_wf(m, Datum::Null);
        },
    }
}

/// A frame changed in its position or its arrays, with at least one array
/// left, keeps the invariant.
pub proof fn lemma_reframed_wf(m: MachineView, f: FrameView)
    requires
        m.wf(),
        m.frames.len() > 0,
        f.kind == m.frames.last().kind,
        f.arrays.len() >= 1,
        f.pos <= f.tokens.len(),
    ensures
        (MachineView { frames: m.frames.update(m.frames.len() - 1, f), ..m }).wf(),
{
    lemma_scoped_replace(m.frames, f);
}

/// Taking a token in keeps the invariant.
pub proof fn lemma_taken_wf(m: MachineView, node: Datum)
    requires
        m.wf(),
        m.frames.len() > 0,
    ensures
        m.taken(node).0.wf(),
{
    let f = m.frames.last();
    match node {
        Datum::Identifier(name) => {
            match crate::environment::lookup(m.env.scopes, name) {
                Some(d) => {
                    lemma_delivered_wf(m, d);
                },
                None => {
                    lemma_unwound_wf(m, crate::semantics::unbound(name));
                },
            }
        },
        Datum::OpenFunc => {
            lemma_reframed_wf(m, FrameView { arrays: f.arrays.push(Seq::empty()), ..f });
        },
        Datum::CloseFunc => {
            let call = f.arrays.last();
            if f.arrays.len() < 2 {
                lemma_unwound_wf(m, crate::semantics::unbalanced());
            } else {
                lemma_reframed_wf(m, FrameView { arrays: f.arrays.drop_last(), ..f });
                if call.len() == 0 {
                    lemma_unwound_wf(m.closed(), crate::semantics::nothing_to_apply());
                } else {
                    lemma_applied_wf(m.closed(), call[0], call.skip(1));
                }
            }
        },
        Datum::Array(items) => {
            lemma_entered_wf(m, items, KindView::Literal);
        },
        _ => {
            lemma_delivered_wf(m, node);
        },
    }
}

/// Every step keeps the invariant of the machine: the environment keeps at
/// least the scopes that it began with, one more for each user function
/// call and each run of a loop that is under way.
pub proof fn lemma_stepped_wf(m: MachineView)
    requires
        m.wf(),
    ensures
        m.stepped().0.wf(),
{
    let f = m.frames.last();
    if m.frames.len() > 0 && m.awaiting == Awaiting::Nothing {
        if f.pos < f.tokens.len() {
            lemma_reframed_wf(m, FrameView { pos: f.pos + 1, ..f });
            lemma_taken_wf(m.advanced(), f.tokens[f.pos as int]);
        } else {
            lemma_finished_wf(m);
        }
    }
}

/// A machine that waits for an answer of the host, and whose program has
/// not ended, does not move, however many steps it is given.
pub proof fn lemma_run_waits(m: MachineView, budget: nat)
    requires
        m.frames.len() > 0,
        m.awaiting != Awaiting::Nothing,
    ensures
        m.run(budget) == (m, ActionView::Idle),
    decreases budget,
{
    if budget > 0 {
        lemma_run_waits(m, (budget - 1) as nat);
    }
}

/// An error that is raised ends the program with that very error, whatever
/// blocks are being run: no frame takes it for itself. The scopes that the
/// frames had opened are closed.
pub proof fn lemma_error_ends_program(m: MachineView, s: Signal)
    requires
        m.wf(),
        s.is_error(),
    ensures
        m.unwound(s).1 == ActionView::Done(Err(s)),
        m.unwound(s).0.frames.len() == 0,
        m.unwound(s).0.env.scopes == m.env.scopes.take(m.base as int),
        m.unwound(s).0.env.returns == m.env.returns,
    decreases m.frames.len(),
{
    if m.frames.len() == 0 {
        assert(scoped_count(m.frames) == 0);
        assert(m.env.scopes.take(m.base as int) =~= m.env.scopes);
    } else {
        lemma_left_wf(m);
        let f = m.frames.last();
        if scoped(f.kind) {
            let out = m.left().with_env(popped_scope(m.env));
            lemma_error_ends_program(out, s);
            assert(out.env.scopes.take(m.base as int) =~= m.env.scopes.take(m.base as int));
        } else {
            lemma_error_ends_program(m.left(), s);
        }
    }
}

/// A signal that a native operator raises is the signal that is raised: an
/// error of the operator ends the program with that error.
pub proof fn lemma_operator_error_ends_program(m: MachineView, b: Builtin, args: Seq<Datum>)
    requires
        m.wf(),
        builtin_of(b, args, m.env).0 matches Err(s) && s.is_error(),
    ensures
        m.applied(Datum::Func(b), args).1 == ActionView::Done(
            Err(builtin_of(b, args, m.env).0->Err_0),
        ),
{
    lemma_builtin_keeps_depth(b, args, m.env);
    lemma_error_ends_program(
        m.with_env(builtin_of(b, args, m.env).1),
        builtin_of(b, args, m.env).0->Err_0,
    );
}

/// Where the top scope binds a name, the name stands for what the top scope
/// binds it to.
pub proof fn lemma_lookup_top(scopes: Seq<Scope>, name: Seq<char>)
    requires
        scopes.len() > 0,
        scopes.last().dom().contains(name),
    ensures
        lookup(scopes, name) == Some(scopes.last()[name]),
{
}

/// Whether none of the first `n` parameters after the one at `i` has its
/// name.
pub open spec fn last_of_its_name(params: Seq<Datum>, n: nat, i: int) -> bool {
    forall|j: int| i < j < n ==> param_name(#[trigger] params[j]) != param_name(params[i])
}

/// What binding the first `n` parameters leaves: the scopes below the top
/// as they were, and in the top scope each of these parameters, if no later
/// one of them has its name, bound to the argument at its position.
pub proof fn lemma_bound(scopes: Seq<Scope>, params: Seq<Datum>, args: Seq<Datum>, n: nat)
    requires
        scopes.len() > 0,
        n <= params.len(),
        params.len() == args.len(),
        is_params(Datum::Array(params)),
    ensures
        bound(scopes, params, args, n).len() == scopes.len(),
        bound(scopes, params, args, n).drop_last() == scopes.drop_last(),
        forall|i: int|
            0 <= i < n && last_of_its_name(params, n, i) ==> bound(
                scopes,
                params,
                args,
                n,
            ).last().dom().contains(param_name(#[trigger] params[i])->0) && bound(
                scopes,
                params,
                args,
                n,
            ).last()[param_name(params[i])->0] == args[i],
    decreases n,
{
    if n > 0 {
        let before = bound(scopes, params, args, (n - 1) as nat);
        lemma_bound(scopes, params, args, (n - 1) as nat);
        let after = bound(scopes, params, args, n);
        let name = param_name(params[n - 1])->0;
        assert(after == define(before, name, args[n - 1]));
        assert(after.drop_last() =~= before.drop_last());
        assert forall|i: int|
            0 <= i < n && last_of_its_name(params, n, i) implies after.last().dom().contains(
            param_name(#[trigger] params[i])->0,
        ) && after.last()[param_name(params[i])->0] == args[i] by {
            assert(param_name(params[n - 1]).is_some());
            assert(param_name(params[i]).is_some());
            assert(after.last() == before.last().insert(name, args[n - 1]));
            if i < n - 1 {
                assert(param_name(params[n - 1]) != param_name(params[i]));
                assert(last_of_its_name(params, (n - 1) as nat, i));
            }
        }
    } else {
        assert(bound(scopes, params, args, n) == scopes);
    }
}

/// Applying a user function to as many arguments as it has parameters
/// enters its body in a new scope, above the scopes of the caller, in which
/// each parameter stands for the argument at its position. (Of two
/// parameters of one name the later one counts.)
pub proof fn lemma_call_binds_parameters(
    m: MachineView,
    params: Seq<Datum>,
    body: Seq<Datum>,
    args: Seq<Datum>,
)
    requires
        m.wf(),
        is_params(Datum::Array(params)),
        params.len() == args.len(),
    ensures
        ({
            let (after, action) = m.applied(user_function(Datum::Array(params), body), args);
            &&& action is Idle
            &&& after.frames == m.frames.push(
                fresh_frame(
                    body,
                    KindView::Call { return_point: (m.env.returns.len() - 1) as nat },
                ),
            )
            &&& after.env.scopes.len() == m.env.scopes.len() + 1
            &&& after.env.scopes.drop_last() == m.env.scopes
            &&& after.env.returns == m.env.returns
            &&& forall|i: int|
                0 <= i < params.len() && last_of_its_name(params, params.len(), i) ==> lookup(
                    after.env.scopes,
                    param_name(#[trigger] params[i])->0,
                ) == Some(args[i])
        }),
{
    let opened = m.env.scopes.push(Scope::empty());
    lemma_bound(opened, params, args, params.len());
    let scopes = bound(opened, params, args, params.len());
    assert(opened.drop_last() =~= m.env.scopes);
    let head = user_function(Datum::Array(params), body);
    assert(head->Array_0.len() == 2);
    assert(head->Array_0[0] == Datum::Array(params));
    assert(head->Array_0[1] == Datum::Array(body));
    assert forall|i: int|
        0 <= i < params.len() && last_of_its_name(params, params.len(), i) implies lookup(
        scopes,
        param_name(#[trigger] params[i])->0,
    ) == Some(args[i]) by {
        lemma_lookup_top(scopes, param_name(params[i])->0);
    }
}

/// The end of the body of a user function closes the scope of the call and
/// leaves the frame of the call.
pub proof fn lemma_call_closes_scope(m: MachineView)
    requires
        m.wf(),
        m.frames.len() > 0,
        m.frames.last().kind is Call,
    ensures
        m.finished().1 is Idle,
        m.finished().0.env.scopes == m.env.scopes.drop_last(),
        m.finished().0.frames.len() == m.frames.len() - 1,
{
    lemma_left_wf(m);
    let f = m.frames.last();
    let out = m.left().with_env(popped_scope(m.env));
    let return_point = f.kind->Call_return_point;
    if m.env.returns.len() - 1 > return_point {
        let cut = out.with_env(
            EnvModel {
                scopes: out.env.scopes,
                returns: out.env.returns.take(return_point as int + 1),
            },
        );
        lemma_delivered_wf(cut, out.env.returns[return_point as int + 1]);
    } else {
        lemma_delivered_wf(out, crate::semantics::block_value(f));
    }
}

/// A `loop` with a count of at least one begins its first run in a new
/// scope, above the scopes around it, in which its variable stands for 0;
/// with a smaller count its body is not run at all and it gives `Null`.
pub proof fn lemma_loop_begins(m: MachineView, var: Seq<char>, count: i64, body: Seq<Datum>)
    requires
        m.wf(),
    ensures
        ({
            let (after, action) = m.performed(AppliedView::Loop { var, count, body });
            &&& action is Idle
            &&& count <= 0 ==> after == m.delivered(Datum::Null)
            &&& count >= 1 ==> {
                &&& after.frames == m.frames.push(
                    fresh_frame(body, KindView::Iteration { var, index: 0, count }),
                )
                &&& after.env.scopes.drop_last() == m.env.scopes
                &&& lookup(after.env.scopes, var) == Some(Datum::Int(0))
            }
        }),
{
    if count >= 1 {
        let scopes = iteration_env(m.env, var, 0).scopes;
        assert(scopes.drop_last() =~= m.env.scopes);
        lemma_lookup_top(scopes, var);
    }
}

/// At the end of run number `index` of a loop the scope of the run is
/// closed. If `index + 1` is less than the count, the body begins anew in a
/// new scope in which the variable stands for `index + 1`; if not, the loop
/// is left and gives `Null`. So a body that raises no signal is run once for
/// each of 0, 1, ..., count - 1, and no more.
pub proof fn lemma_loop_continues(m: MachineView)
    requires
        m.wf(),
        m.frames.len() > 0,
        m.frames.last().kind is Iteration,
    ensures
        ({
            let f = m.frames.last();
            let var = f.kind->Iteration_var;
            let index = f.kind->Iteration_index;
            let count = f.kind->Iteration_count;
            let (after, action) = m.finished();
            &&& action is Idle
            &&& index + 1 < count ==> {
                &&& after.frames == m.frames.update(
                    m.frames.len() - 1,
                    fresh_frame(
                        f.tokens,
                        KindView::Iteration { var, index: (index + 1) as i64, count },
                    ),
                )
                &&& after.env.scopes.drop_last() == m.env.scopes.drop_last()
                &&& lookup(after.env.scopes, var) == Some(Datum::Int((index + 1) as i64))
            }
            &&& index + 1 >= count ==> after == m.left().with_env(popped_scope(m.env)).delivered(
                Datum::Null,
            )
        }),
{
    let f = m.frames.last();
    let var = f.kind->Iteration_var;
    let index = f.kind->Iteration_index;
    let count = f.kind->Iteration_count;
    if index + 1 < count {
        let scopes = iteration_env(popped_scope(m.env), var, (index + 1) as i64).scopes;
        assert(scopes.drop_last() =~= m.env.scopes.drop_last());
        lemma_lookup_top(scopes, var);
    }
}

/// The frames from `from` on that run in a scope of their own.
pub open spec fn scoped_above(frames: Seq<FrameView>, from: int) -> nat {
    scoped_count(frames.skip(from))
}

/// The count of a stack of frames is that of its lower part and that of its
/// upper part.
pub proof fn lemma_scoped_split(frames: Seq<FrameView>, at: int)
    requires
        0 <= at <= frames.len(),
    ensures
        scoped_count(frames) == scoped_count(frames.take(at)) + scoped_count(frames.skip(at)),
    decreases frames.len() - at,
{
    if at == frames.len() {
        assert(frames.take(at) =~= frames);
        assert(frames.skip(at) =~= Seq::<FrameView>::empty());
    } else {
        lemma_scoped_split(frames.drop_last(), at);
        assert(frames.drop_last().take(at) =~= frames.take(at));
        assert(frames.skip(at).drop_last() =~= frames.drop_last().skip(at));
    }
}

/// `Return` reaches the innermost user function call, however many blocks
/// and loops are being run inside its body: their frames are left and their
/// scopes closed, the scope of the call is closed, and the value that was
/// put on the return channel is the result of the call.
pub proof fn lemma_return_reaches_call(m: MachineView, call: int)
    requires
        m.wf(),
        0 <= call < m.frames.len(),
        m.frames[call].kind is Call,
        m.env.returns.len() - 1 > m.frames[call].kind->Call_return_point,
        forall|j: int| call < j < m.frames.len() ==> !((#[trigger] m.frames[j]).kind is Call),
    ensures
        ({
            let return_point = m.frames[call].kind->Call_return_point;
            m.unwound(Signal::Return) == (
                (MachineView {
                    frames: m.frames.take(call),
                    env: EnvModel {
                        scopes: m.env.scopes.take(
                            m.env.scopes.len() - scoped_above(m.frames, call),
                        ),
                        returns: m.env.returns.take(return_point as int + 1),
                    },
                    ..m
                }).delivered(m.env.returns[return_point as int + 1]),
                ActionView::Idle,
            )
        }),
    decreases m.frames.len(),
{
    lemma_left_wf(m);
    lemma_scoped_split(m.frames, call);
    let f = m.frames.last();
    let last = m.frames.len() - 1;
    assert(m.frames.skip(call).drop_last() =~= m.frames.drop_last().skip(call));
    if call == last {
        assert(m.frames.skip(call).drop_last() =~= Seq::<FrameView>::empty());
        assert(scoped_count(m.frames.skip(call).drop_last()) == 0);
        assert(scoped_above(m.frames, call) == 1);
        assert(m.frames.take(call) =~= m.frames.drop_last());
        assert(m.env.scopes.take(m.env.scopes.len() - 1) =~= m.env.scopes.drop_last());
    } else {
        assert(!(m.frames[last].kind is Call));
        let out = if scoped(f.kind) {
            m.left().with_env(popped_scope(m.env))
        } else {
            m.left()
        };
        assert(out.frames[call] == m.frames[call]);
        assert forall|j: int| call < j < out.frames.len() implies !((
        #[trigger] out.frames[j]).kind is Call) by {
            assert(out.frames[j] == m.frames[j]);
        }
        lemma_return_reaches_call(out, call);
        assert(out.frames.take(call) =~= m.frames.take(call));
        lemma_scoped_split(out.frames, call);
        assert(out.env.scopes.take(out.env.scopes.len() - scoped_above(out.frames, call))
            =~= m.env.scopes.take(m.env.scopes.len() - scoped_above(m.frames, call)));
    }
}

/// `Break` reaches the innermost loop, however many blocks and user
/// function calls are being run inside its body: their frames are left and
/// their scopes closed, the scope of the run is closed, no further run
/// begins, and the loop gives `Null`.
pub proof fn lemma_break_ends_loop(m: MachineView, run: int)
    requires
        m.wf(),
        0 <= run < m.frames.len(),
        m.frames[run].kind is Iteration,
        forall|j: int| run < j < m.frames.len() ==> !((#[trigger] m.frames[j]).kind is Iteration),
    ensures
        m.unwound(Signal::Break) == (
            (MachineView {
                frames: m.frames.take(run),
                env: EnvModel {
                    scopes: m.env.scopes.take(m.env.scopes.len() - scoped_above(m.frames, run)),
                    returns: m.env.returns,
                },
                ..m
            }).delivered(Datum::Null),
            ActionView::Idle,
        ),
    decreases m.frames.len(),
{
    lemma_left_wf(m);
    lemma_scoped_split(m.frames, run);
    let f = m.frames.last();
    let last = m.frames.len() - 1;
    assert(m.frames.skip(run).drop_last() =~= m.frames.drop_last().skip(run));
    if run == last {
        assert(m.frames.skip(run).drop_last() =~= Seq::<FrameView>::empty());
        assert(scoped_count(m.frames.skip(run).drop_last()) == 0);
        assert(scoped_above(m.frames, run) == 1);
        assert(m.frames.take(run) =~= m.frames.drop_last());
        assert(m.env.scopes.take(m.env.scopes.len() - 1) =~= m.env.scopes.drop_last());
    } else {
        assert(!(m.frames[last].kind is Iteration));
        let out = if scoped(f.kind) {
            m.left().with_env(popped_scope(m.env))
        } else {
            m.left()
        };
        assert(out.frames[run] == m.frames[run]);
        assert forall|j: int| run < j < out.frames.len() implies !((
        #[trigger] out.frames[j]).kind is Iteration) by {
            assert(out.frames[j] == m.frames[j]);
        }
        lemma_break_ends_loop(out, run);
        assert(out.frames.take(run) =~= m.frames.take(run));
        lemma_scoped_split(out.frames, run);
        assert(out.env.scopes.take(out.env.scopes.len() - scoped_above(out.frames, run))
            =~= m.env.scopes.take(m.env.scopes.len() - scoped_above(m.frames, run)));
    }
}

/// `ret` makes the innermost user function call produce its argument: where
/// nothing has been put on the return channel since the call began, applying
/// `ret` to `v` leaves the body, however deep inside blocks and loops the
/// application stands, closes the scopes that were opened since the call,
/// leaves the return channel as it was, and gives `v` as the result of the
/// call.
pub proof fn lemma_ret_produces(m: MachineView, v: Datum, call: int)
    requires
        m.wf(),
        0 <= call < m.frames.len(),
        m.frames[call].kind is Call,
        m.frames[call].kind->Call_return_point == m.env.returns.len() - 1,
        forall|j: int| call < j < m.frames.len() ==> !((#[trigger] m.frames[j]).kind is Call),
    ensures
        m.applied(Datum::Func(Builtin::Return), seq![v]) == (
            (MachineView {
                frames: m.frames.take(call),
                env: EnvModel {
                    scopes: m.env.scopes.take(m.env.scopes.len() - scoped_above(m.frames, call)),
                    returns: m.env.returns,
                },
                ..m
            }).delivered(v),
            ActionView::Idle,
        ),
{
    let args = seq![v];
    let pushed = m.with_env(
        EnvModel { scopes: m.env.scopes, returns: m.env.returns.push(v) },
    );
    assert(builtin_of(Builtin::Return, args, m.env).1 == pushed.env);
    assert(pushed.frames == m.frames);
    lemma_return_reaches_call(pushed, call);
    assert(pushed.env.returns.take(m.env.returns.len() as int) =~= m.env.returns);
}

/// Whether two frames run the same block in the same way: they have the
/// same tokens and the same kind.
pub open spec fn same_block(a: FrameView, b: FrameView) -> bool {
    a.tokens == b.tokens && a.kind == b.kind
}

/// Whether every frame of `after` runs the same block as the frame of
/// `before` at its place.
pub open spec fn frames_kept(before: Seq<FrameView>, after: Seq<FrameView>) -> bool {
    after.len() <= before.len() && forall|j: int|
        0 <= j < after.len() ==> same_block(before[j], #[trigger] after[j])
}

/// Delivering a value changes no block.
pub proof fn lemma_delivered_keeps(m: MachineView, d: Datum)
    ensures
        frames_kept(m.frames, m.delivered(d).frames),
        m.delivered(d).frames.len() == m.frames.len(),
{
}

/// Raising a signal leaves frames and changes no block of those that stay.
pub proof fn lemma_unwound_keeps(m: MachineView, s: Signal)
    ensures
        frames_kept(m.frames, m.unwound(s).0.frames),
    decreases m.frames.len(),
{
    if m.frames.len() > 0 {
        let f = m.frames.last();
        let rest = m.left();
        match f.kind {
            KindView::Call { return_point } => {
                let out = rest.with_env(popped_scope(m.env));
                if s is Return && m.env.returns.len() - 1 > return_point {
                    let cut = out.with_env(
                        EnvModel {
                            scopes: out.env.scopes,
                            returns: out.env.returns.take(return_point as int + 1),
                        },
                    );
                    lemma_delivered_keeps(cut, out.env.returns[return_point as int + 1]);
                } else {
                    lemma_unwound_keeps(out, s);
                }
            },
            KindView::Iteration { .. } => {
                let out = rest.with_env(popped_scope(m.env));
                if s is Break {
                    lemma_delivered_keeps(out, Datum::Null);
                } else {
                    lemma_unwound_keeps(out, s);
                }
            },
            _ => {
                lemma_unwound_keeps(rest, s);
            },
        }
    }
}

/// Whether `after` comes from `before` by one step as far as the blocks go:
/// the frames that stay run the blocks that they ran, one frame at most is
/// new, and only the innermost frame of `before` may have changed its kind,
/// from one run of a loop to the next.
pub open spec fn blocks_step(before: Seq<FrameView>, after: Seq<FrameView>) -> bool {
    &&& after.len() <= before.len() + 1
    &&& forall|j: int|
        0 <= j < after.len() && j < before.len() ==> {
            ||| same_block(before[j], #[trigger] after[j])
            ||| {
                &&& j == before.len() - 1
                &&& before[j].pos >= before[j].tokens.len()
                &&& before[j].kind is Iteration
                &&& before[j].kind->Iteration_index + 1 < before[j].kind->Iteration_count
                &&& after[j].tokens == before[j].tokens
                &&& after[j].kind == KindView::Iteration {
                    var: before[j].kind->Iteration_var,
                    index: (before[j].kind->Iteration_index + 1) as i64,
                    count: before[j].kind->Iteration_count,
                }
            }
        }
}

/// What an application calls for changes no block.
pub proof fn lemma_performed_keeps(m: MachineView, a: AppliedView)
    ensures
        m.performed(a).0.frames.len() <= m.frames.len() + 1,
        forall|j: int|
            0 <= j < m.performed(a).0.frames.len() && j < m.frames.len() ==> same_block(
                m.frames[j],
                #[trigger] m.performed(a).0.frames[j],
            ),
{
}

/// An application changes no block.
pub proof fn lemma_applied_keeps(m: MachineView, head: Datum, args: Seq<Datum>)
    ensures
        m.applied(head, args).0.frames.len() <= m.frames.len() + 1,
        forall|j: int|
            0 <= j < m.applied(head, args).0.frames.len() && j < m.frames.len() ==> same_block(
                m.frames[j],
                #[trigger] m.applied(head, args).0.frames[j],
            ),
{
    match head {
        Datum::Func(b) => {
            let (r, env) = builtin_of(b, args, m.env);
            match r {
                Ok(a) => {
                    lemma_performed_keeps(m.with_env(env), a);
                },
                Err(s) => {
                    lemma_unwound_keeps(m.with_env(env), s);
                },
            }
        },
        Datum::Array(parts) => {
            lemma_unwound_keeps(m, crate::semantics::wrong_count());
            lemma_unwound_keeps(m, crate::semantics::not_a_function());
        },
        _ => {},
    }
}

/// A step changes no block, but that the end of a run of a loop leads to
/// the next run: a frame keeps its tokens and its kind for as long as it
/// stays, and the number of a run of a loop changes only at the end of that
/// run, by one. So the body of a loop without `break` is run for 0, 1, ...,
/// each in turn, up to the count.
pub proof fn lemma_step_keeps_blocks(m: MachineView)
    requires
        m.wf(),
    ensures
        blocks_step(m.frames, m.stepped().0.frames),
{
    if m.frames.len() > 0 && m.awaiting == Awaiting::Nothing {
        let f = m.frames.last();
        if f.pos < f.tokens.len() {
            let a = m.advanced();
            let node = f.tokens[f.pos as int];
            assert(frames_kept(m.frames, a.frames));
            match node {
                Datum::Identifier(name) => {
                    lemma_unwound_keeps(a, crate::semantics::unbound(name));
                },
                Datum::CloseFunc => {
                    let call = a.frames.last().arrays.last();
                    lemma_unwound_keeps(a, crate::semantics::unbalanced());
                    let c = a.closed();
                    assert(frames_kept(m.frames, c.frames));
                    lemma_unwound_keeps(c, crate::semantics::nothing_to_apply());
                    lemma_applied_keeps(c, call[0], call.skip(1));
                },
                _ => {},
            }
        }
    }
}

} // verus!
