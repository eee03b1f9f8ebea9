//! The invariant of dictionaries holds throughout evaluation: a machine
//! whose tokens and bindings are well keyed stays so, step after step.

use crate::builtin::{builtin_of, installed, lemma_builtin_keeps_depth};
use crate::effect::AppliedView;
use crate::environment::{EnvModel, Scope, define};
use crate::error::Signal;
use crate::keys::{
    all_well_keyed, applied_well_keyed, env_well_keyed, lemma_assign_well_keyed,
    lemma_builtin_well_keyed, lemma_lookup_well_keyed, scopes_well_keyed, well_keyed,
};
use crate::laws::lemma_bound_len;
use crate::parse::{NodeView, tokens_of, tokens_of_all};
use crate::semantics::{
    Awaiting, FrameView, KindView, MachineView, block_value, bound, call_env, fresh_frame,
    iteration_env, popped_scope,
};
use crate::value::{Builtin, Datum};
use vstd::prelude::*;

verus! {

/// Whether the tokens of a frame and the values in its arrays are well
/// keyed.
pub open spec fn frame_well_keyed(f: FrameView) -> bool {
    &&& all_well_keyed(f.tokens)
    &&& forall|i: int| 0 <= i < f.arrays.len() ==> all_well_keyed(#[trigger] f.arrays[i])
}

/// Whether every value that a machine holds is well keyed: in its
/// environment and in its frames.
pub open spec fn machine_well_keyed(m: MachineView) -> bool {
    &&& env_well_keyed(m.env)
    &&& forall|i: int| 0 <= i < m.frames.len() ==> frame_well_keyed(#[trigger] m.frames[i])
}

/// Defining a name as a well-keyed value keeps the scopes well keyed.
pub proof fn lemma_define_well_keyed(scopes: Seq<Scope>, name: Seq<char>, d: Datum)
    requires
        scopes.len() > 0,
        scopes_well_keyed(scopes),
        well_keyed(d),
    ensures
        scopes_well_keyed(define(scopes, name, d)),
{
    let after = define(scopes, name, d);
    let at = scopes.len() - 1;
    assert forall|k: int, other: Seq<char>|
        0 <= k < after.len() && (#[trigger] after[k]).dom().contains(other) implies well_keyed(
        #[trigger] after[k][other],
    ) by {
        if k == at {
            if other != name {
                assert(scopes[k].dom().contains(other));
                assert(after[k][other] == scopes[k][other]);
            }
        } else {
            assert(after[k] == scopes[k]);
        }
    }
}

/// A new, empty scope keeps the scopes well keyed, and so does closing the
/// top scope.
pub proof fn lemma_push_pop_well_keyed(scopes: Seq<Scope>)
    requires
        scopes_well_keyed(scopes),
    ensures
        scopes_well_keyed(scopes.push(Scope::empty())),
        scopes.len() > 0 ==> scopes_well_keyed(scopes.drop_last()),
{
    let pushed = scopes.push(Scope::empty());
    assert forall|k: int, name: Seq<char>|
        0 <= k < pushed.len() && (#[trigger] pushed[k]).dom().contains(name) implies well_keyed(
        #[trigger] pushed[k][name],
    ) by {
        if k < scopes.len() {
            assert(pushed[k] == scopes[k]);
        }
    }
    if scopes.len() > 0 {
        let popped = scopes.drop_last();
        assert forall|k: int, name: Seq<char>|
            0 <= k < popped.len() && (#[trigger] popped[k]).dom().contains(name) implies well_keyed(
            #[trigger] popped[k][name],
        ) by {
            assert(popped[k] == scopes[k]);
        }
    }
}

/// Binding parameters to well-keyed arguments keeps the scopes well keyed.
pub proof fn lemma_bound_well_keyed(
    scopes: Seq<Scope>,
    params: Seq<Datum>,
    args: Seq<Datum>,
    n: nat,
)
    requires
        scopes.len() > 0,
        scopes_well_keyed(scopes),
        all_well_keyed(args),
    ensures
        scopes_well_keyed(bound(scopes, params, args, n)),
    decreases n,
{
    if !(n == 0 || n > params.len() || n > args.len()) {
        lemma_bound_well_keyed(scopes, params, args, (n - 1) as nat);
        lemma_bound_len(scopes, params, args, (n - 1) as nat);
        assert(well_keyed(args[n - 1]));
        lemma_define_well_keyed(
            bound(scopes, params, args, (n - 1) as nat),
            crate::binding::param_name(params[n - 1])->0,
            args[n - 1],
        );
    }
}

/// Delivering a well-keyed value keeps a machine well keyed.
pub proof fn lemma_delivered_well_keyed(m: MachineView, d: Datum)
    requires
        machine_well_keyed(m),
        well_keyed(d),
    ensures
        machine_well_keyed(m.delivered(d)),
{
    let after = m.delivered(d);
    if m.frames.len() > 0 && m.frames.last().arrays.len() > 0 {
        let last = m.frames.len() - 1;
        let f = m.frames.last();
        let top = f.arrays.len() - 1;
        assert(frame_well_keyed(f));
        assert forall|i: int| 0 <= i < after.frames.len() implies frame_well_keyed(
            #[trigger] after.frames[i],
        ) by {
            if i == last {
                let g = after.frames[i];
                assert forall|k: int| 0 <= k < g.arrays.len() implies all_well_keyed(
                    #[trigger] g.arrays[k],
                ) by {
                    if k == top {
                        assert(all_well_keyed(f.arrays[top]));
                        assert forall|j: int| 0 <= j < g.arrays[k].len() implies well_keyed(
                            #[trigger] g.arrays[k][j],
                        ) by {
                            if j < f.arrays[top].len() {
                                assert(g.arrays[k][j] == f.arrays[top][j]);
                            }
                        }
                    } else {
                        assert(g.arrays[k] == f.arrays[k]);
                    }
                }
            } else {
                assert(after.frames[i] == m.frames[i]);
                assert(frame_well_keyed(m.frames[i]));
            }
        }
    }
}

/// Entering a block of well-keyed tokens keeps a machine well keyed.
pub proof fn lemma_entered_well_keyed(m: MachineView, tokens: Seq<Datum>, kind: KindView)
    requires
        machine_well_keyed(m),
        all_well_keyed(tokens),
    ensures
        machine_well_keyed(m.entered(fresh_frame(tokens, kind))),
{
    let f = fresh_frame(tokens, kind);
    let after = m.entered(f);
    assert(all_well_keyed(f.arrays[0]));
    assert forall|i: int| 0 <= i < after.frames.len() implies frame_well_keyed(
        #[trigger] after.frames[i],
    ) by {
        if i < m.frames.len() {
            assert(after.frames[i] == m.frames[i]);
        }
    }
}

/// Without its innermost frame a machine stays well keyed, whether or not a
/// scope is closed with it.
pub proof fn lemma_left_well_keyed(m: MachineView)
    requires
        machine_well_keyed(m),
        m.frames.len() > 0,
    ensures
        machine_well_keyed(m.left()),
        m.env.scopes.len() > 0 ==> machine_well_keyed(m.left().with_env(popped_scope(m.env))),
        frame_well_keyed(m.frames.last()),
{
    let rest = m.left();
    assert forall|i: int| 0 <= i < rest.frames.len() implies frame_well_keyed(
        #[trigger] rest.frames[i],
    ) by {
        assert(rest.frames[i] == m.frames[i]);
    }
    lemma_push_pop_well_keyed(m.env.scopes);
}

/// Taking the returned value off the return channel and delivering it
/// keeps a machine well keyed.
pub proof fn lemma_returned_well_keyed(m: MachineView, return_point: nat)
    requires
        machine_well_keyed(m),
        m.env.returns.len() - 1 > return_point,
    ensures
        machine_well_keyed(m.returned(return_point)),
{
    let cut = m.with_env(
        EnvModel { scopes: m.env.scopes, returns: m.env.returns.take(return_point as int + 1) },
    );
    assert forall|i: int| 0 <= i < cut.env.returns.len() implies well_keyed(
        #[trigger] cut.env.returns[i],
    ) by {
        assert(cut.env.returns[i] == m.env.returns[i]);
    }
    assert(well_keyed(m.env.returns[return_point as int + 1]));
    lemma_delivered_well_keyed(cut, m.env.returns[return_point as int + 1]);
}

/// Raising a signal keeps a machine well keyed.
pub proof fn lemma_unwound_well_keyed(m: MachineView, s: Signal)
    requires
        m.wf(),
        machine_well_keyed(m),
    ensures
        machine_well_keyed(m.unwound(s).0),
    decreases m.frames.len(),
{
    if m.frames.len() > 0 {
        crate::laws::lemma_left_wf(m);
        lemma_left_well_keyed(m);
        let f = m.frames.last();
        match f.kind {
            KindView::Call { return_point } => {
                let out = m.left().with_env(popped_scope(m.env));
                if s is Return && m.env.returns.len() - 1 > return_point {
                    lemma_returned_well_keyed(out, return_point);
                } else {
                    lemma_unwound_well_keyed(out, s);
                }
            },
            KindView::Iteration { .. } => {
                let out = m.left().with_env(popped_scope(m.env));
                if s is Break {
                    lemma_delivered_well_keyed(out, Datum::Null);
                } else {
                    lemma_unwound_well_keyed(out, s);
                }
            },
            _ => {
                lemma_unwound_well_keyed(m.left(), s);
            },
        }
    }
}

/// The value of a well-keyed frame at its end is well keyed, and so is the
/// array of its values.
pub proof fn lemma_block_value_well_keyed(f: FrameView)
    requires
        frame_well_keyed(f),
        f.arrays.len() >= 1,
    ensures
        well_keyed(block_value(f)),
        well_keyed(Datum::Array(f.arrays.last())),
{
    let top = f.arrays.last();
    assert(all_well_keyed(f.arrays[f.arrays.len() - 1]));
    assert(Datum::Array(top)->Array_0 == top);
    if top.len() > 0 {
        assert(well_keyed(top[top.len() - 1]));
    }
}

/// The environment of a run of a loop is well keyed where the environment
/// around it is.
pub proof fn lemma_iteration_env_well_keyed(env: EnvModel, var: Seq<char>, i: i64)
    requires
        env_well_keyed(env),
    ensures
        env_well_keyed(iteration_env(env, var, i)),
{
    lemma_push_pop_well_keyed(env.scopes);
    lemma_define_well_keyed(env.scopes.push(Scope::empty()), var, Datum::Int(i));
}

/// The end of a block keeps a machine well keyed.
pub proof fn lemma_finished_well_keyed(m: MachineView)
    requires
        m.wf(),
        m.frames.len() > 0,
        machine_well_keyed(m),
    ensures
        machine_well_keyed(m.finished().0),
{
    crate::laws::lemma_left_wf(m);
    lemma_left_well_keyed(m);
    let f = m.frames.last();
    lemma_block_value_well_keyed(f);
    match f.kind {
        KindView::Top => {},
        KindView::Branch => {
            lemma_delivered_well_keyed(m.left(), block_value(f));
        },
        KindView::Literal => {
            lemma_delivered_well_keyed(m.left(), Datum::Array(f.arrays.last()));
        },
        KindView::Call { return_point } => {
            let out = m.left().with_env(popped_scope(m.env));
            if m.env.returns.len() - 1 > return_point {
                lemma_returned_well_keyed(out, return_point);
            } else {
                lemma_delivered_well_keyed(out, block_value(f));
            }
        },
        KindView::Iteration { var, index, count } => {
            let out = m.left().with_env(popped_scope(m.env));
            if index + 1 < count {
                lemma_iteration_env_well_keyed(popped_scope(m.env), var, (index + 1) as i64);
                let next = fresh_frame(
                    f.tokens,
                    KindView::Iteration { var, index: (index + 1) as i64, count },
                );
                lemma_entered_well_keyed(
                    m.left().with_env(
                        iteration_env(popped_scope(m.env), var, (index + 1) as i64),
                    ),
                    f.tokens,
                    next.kind,
                );
                assert(m.finished().0.frames =~= m.left().frames.push(next));
            } else {
                lemma_delivered_well_keyed(out, Datum::Null);
            }
        },
    }
}

/// Doing what a well-keyed application calls for keeps a machine well
/// keyed.
pub proof fn lemma_performed_well_keyed(m: MachineView, a: AppliedView)
    requires
        machine_well_keyed(m),
        applied_well_keyed(a),
    ensures
        machine_well_keyed(m.performed(a).0),
{
    match a {
        AppliedView::Value(d) => {
            lemma_delivered_well_keyed(m, d);
        },
        AppliedView::Block(tokens) => {
            lemma_entered_well_keyed(m, tokens, KindView::Branch);
        },
        AppliedView::Loop { var, count, body } => {
            if count <= 0 {
                lemma_delivered_well_keyed(m, Datum::Null);
            } else {
                lemma_iteration_env_well_keyed(m.env, var, 0);
                lemma_entered_well_keyed(
                    m.with_env(iteration_env(m.env, var, 0)),
                    body,
                    KindView::Iteration { var, index: 0, count },
                );
            }
        },
        AppliedView::Print(_) => {
            lemma_delivered_well_keyed(m, Datum::Null);
        },
        AppliedView::Quit => {
            lemma_delivered_well_keyed(m, Datum::Null);
        },
        _ => {},
    }
}

/// An application to well-keyed arguments keeps a machine well keyed.
pub proof fn lemma_applied_well_keyed(m: MachineView, head: Datum, args: Seq<Datum>)
    requires
        m.wf(),
        machine_well_keyed(m),
        well_keyed(head),
        all_well_keyed(args),
    ensures
        machine_well_keyed(m.applied(head, args).0),
{
    match head {
        Datum::Func(b) => {
            lemma_builtin_keeps_depth(b, args, m.env);
            lemma_builtin_well_keyed(b, args, m.env);
            let (r, env) = builtin_of(b, args, m.env);
            match r {
                Ok(a) => {
                    lemma_performed_well_keyed(m.with_env(env), a);
                },
                Err(s) => {
                    lemma_unwound_well_keyed(m.with_env(env), s);
                },
            }
        },
        Datum::Array(parts) => {
            lemma_unwound_well_keyed(m, crate::semantics::wrong_count());
            lemma_unwound_well_keyed(m, crate::semantics::not_a_function());
            if parts.len() == 2 && crate::binding::is_params(parts[0]) && parts[1] is Array {
                let params = parts[0]->Array_0;
                let body = parts[1]->Array_0;
                assert(well_keyed(parts[1]));
                if params.len() == args.len() {
                    lemma_push_pop_well_keyed(m.env.scopes);
                    lemma_bound_well_keyed(
                        m.env.scopes.push(Scope::empty()),
                        params,
                        args,
                        params.len(),
                    );
                    lemma_entered_well_keyed(
                        m.with_env(call_env(m.env, params, args)),
                        body,
                        KindView::Call { return_point: (m.env.returns.len() - 1) as nat },
                    );
                }
            }
        },
        _ => {
            lemma_delivered_well_keyed(m, Datum::Null);
        },
    }
}

/// A frame changed in its position or its arrays, whose arrays stay well
/// keyed, keeps a machine well keyed.
pub proof fn lemma_reframed_well_keyed(m: MachineView, f: FrameView)
    requires
        machine_well_keyed(m),
        m.frames.len() > 0,
        frame_well_keyed(f),
    ensures
        machine_well_keyed(MachineView { frames: m.frames.update(m.frames.len() - 1, f), ..m }),
{
    let after = MachineView { frames: m.frames.update(m.frames.len() - 1, f), ..m };
    assert forall|i: int| 0 <= i < after.frames.len() implies frame_well_keyed(
        #[trigger] after.frames[i],
    ) by {
        if i < m.frames.len() - 1 {
            assert(after.frames[i] == m.frames[i]);
        }
    }
}

/// Taking a well-keyed token in keeps a machine well keyed.
pub proof fn lemma_taken_well_keyed(m: MachineView, node: Datum)
    requires
        m.wf(),
        m.frames.len() > 0,
        machine_well_keyed(m),
        well_keyed(node),
    ensures
        machine_well_keyed(m.taken(node).0),
{
    let f = m.frames.last();
    assert(frame_well_keyed(f));
    match node {
        Datum::Identifier(name) => {
            match crate::environment::lookup(m.env.scopes, name) {
                Some(d) => {
                    lemma_lookup_well_keyed(m.env.scopes, name);
                    lemma_delivered_well_keyed(m, d);
                },
                None => {
                    lemma_unwound_well_keyed(m, crate::semantics::unbound(name));
                },
            }
        },
        Datum::OpenFunc => {
            let g = FrameView { arrays: f.arrays.push(Seq::empty()), ..f };
            assert forall|k: int| 0 <= k < g.arrays.len() implies all_well_keyed(
                #[trigger] g.arrays[k],
            ) by {
                if k < f.arrays.len() {
                    assert(g.arrays[k] == f.arrays[k]);
                }
            }
            lemma_reframed_well_keyed(m, g);
        },
        Datum::CloseFunc => {
            let call = f.arrays.last();
            if f.arrays.len() < 2 {
                lemma_unwound_well_keyed(m, crate::semantics::unbalanced());
            } else {
                let g = FrameView { arrays: f.arrays.drop_last(), ..f };
                assert forall|k: int| 0 <= k < g.arrays.len() implies all_well_keyed(
                    #[trigger] g.arrays[k],
                ) by {
                    assert(g.arrays[k] == f.arrays[k]);
                }
                lemma_reframed_well_keyed(m, g);
                crate::laws::lemma_reframed_wf(m, g);
                assert(all_well_keyed(f.arrays[f.arrays.len() - 1]));
                if call.len() == 0 {
                    lemma_unwound_well_keyed(m.closed(), crate::semantics::nothing_to_apply());
                } else {
                    assert(well_keyed(call[0]));
                    assert forall|j: int| 0 <= j < call.skip(1).len() implies well_keyed(
                        #[trigger] call.skip(1)[j],
                    ) by {
                        assert(call.skip(1)[j] == call[j + 1]);
                    }
                    lemma_applied_well_keyed(m.closed(), call[0], call.skip(1));
                }
            }
        },
        Datum::Array(items) => {
            assert(node->Array_0 == items);
            lemma_entered_well_keyed(m, items, KindView::Literal);
        },
        _ => {
            lemma_delivered_well_keyed(m, node);
        },
    }
}

/// Every step keeps the invariant of dictionaries: in a machine whose
/// tokens and bindings are well keyed, no dictionary ever holds a key that
/// is not hashable, or a key twice.
pub proof fn lemma_stepped_well_keyed(m: MachineView)
    requires
        m.wf(),
        machine_well_keyed(m),
    ensures
        machine_well_keyed(m.stepped().0),
{
    if m.frames.len() > 0 && m.awaiting == Awaiting::Nothing {
        let f = m.frames.last();
        assert(frame_well_keyed(f));
        if f.pos < f.tokens.len() {
            let g = FrameView { pos: f.pos + 1, ..f };
            lemma_reframed_well_keyed(m, g);
            crate::laws::lemma_reframed_wf(m, g);
            assert(well_keyed(f.tokens[f.pos as int]));
            lemma_taken_well_keyed(m.advanced(), f.tokens[f.pos as int]);
        } else {
            lemma_finished_well_keyed(m);
        }
    }
}

/// A run of any number of steps keeps the invariant of dictionaries.
pub proof fn lemma_run_well_keyed(m: MachineView, budget: nat)
    requires
        m.wf(),
        machine_well_keyed(m),
    ensures
        machine_well_keyed(m.run(budget).0),
    decreases budget,
{
    if budget > 0 {
        lemma_stepped_well_keyed(m);
        crate::laws::lemma_stepped_wf(m);
        if m.stepped().1 is Idle {
            lemma_run_well_keyed(m.stepped().0, (budget - 1) as nat);
        }
    }
}

/// The answers of the host keep the invariant of dictionaries, where the
/// bindings of a module are well keyed.
pub proof fn lemma_answered_well_keyed(m: MachineView, bits: u64, table: Scope)
    requires
        m.wf(),
        machine_well_keyed(m),
        forall|name: Seq<char>| table.dom().contains(name) ==> well_keyed(#[trigger] table[name]),
    ensures
        machine_well_keyed(m.answered_float(bits)),
        machine_well_keyed(m.answered_import(table)),
{
    lemma_delivered_well_keyed(
        MachineView { awaiting: Awaiting::Nothing, ..m },
        Datum::Float(bits),
    );
    let scopes = m.env.scopes;
    let top = scopes.len() - 1;
    let merged = scopes.update(top, scopes.last().union_prefer_right(table));
    assert forall|k: int, name: Seq<char>|
        0 <= k < merged.len() && (#[trigger] merged[k]).dom().contains(name) implies well_keyed(
        #[trigger] merged[k][name],
    ) by {
        if k == top {
            if !table.dom().contains(name) {
                assert(scopes[k].dom().contains(name));
                assert(merged[k][name] == scopes[k][name]);
            }
        } else {
            assert(merged[k] == scopes[k]);
        }
    }
    let before = MachineView {
        awaiting: Awaiting::Nothing,
        env: EnvModel { scopes: merged, returns: m.env.returns },
        ..m
    };
    lemma_delivered_well_keyed(before, Datum::Null);
}

/// The scopes in which the native operators are set are well keyed where
/// they were before.
pub proof fn lemma_installed_well_keyed(
    scopes: Seq<Scope>,
    table: Seq<(Seq<char>, Builtin)>,
    n: nat,
)
    requires
        scopes.len() > 0,
        scopes_well_keyed(scopes),
    ensures
        scopes_well_keyed(installed(scopes, table, n)),
    decreases n,
{
    if !(n == 0 || n > table.len()) {
        lemma_installed_well_keyed(scopes, table, (n - 1) as nat);
        crate::builtin::lemma_installed_len(scopes, table, (n - 1) as nat);
        lemma_assign_well_keyed(
            installed(scopes, table, (n - 1) as nat),
            table[n - 1].0,
            Datum::Func(table[n - 1].1),
        );
    }
}

/// The tokens of a parse tree hold no dictionary, so they are well keyed.
pub proof fn lemma_tokens_well_keyed(node: NodeView)
    ensures
        all_well_keyed(tokens_of(node)),
    decreases node, 1nat,
{
    lemma_tokens_of_all_well_keyed(node.children, node.children.len());
    let inner = tokens_of_all(node.children, node.children.len());
    assert(Datum::Array(inner)->Array_0 == inner);
    if node.children.len() > 0 {
        lemma_tokens_of_all_well_keyed(
            node.children.skip(1),
            (node.children.len() - 1) as nat,
        );
    }
    if inner.len() == 1 {
        assert(well_keyed(inner[0]));
    }
}

/// The tokens of some parse trees are well keyed.
pub proof fn lemma_tokens_of_all_well_keyed(nodes: Seq<NodeView>, n: nat)
    ensures
        all_well_keyed(tokens_of_all(nodes, n)),
    decreases nodes, n,
{
    if !(n == 0 || n > nodes.len()) {
        lemma_tokens_of_all_well_keyed(nodes, (n - 1) as nat);
        lemma_tokens_well_keyed(nodes[n - 1]);
        let a = tokens_of_all(nodes, (n - 1) as nat);
        let b = tokens_of(nodes[n - 1]);
        assert forall|i: int| 0 <= i < (a + b).len() implies well_keyed(#[trigger] (a + b)[i]) by {
            if i < a.len() {
                assert((a + b)[i] == a[i]);
            } else {
                assert((a + b)[i] == b[i - a.len()]);
            }
        }
    }
}

} // verus!
