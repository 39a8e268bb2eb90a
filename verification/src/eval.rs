//! The evaluator and the dispatcher.
//!
//! [`eval`] walks an expression node structurally under an environment and
//! produces a new node; [`exec`] resolves an already-evaluated sequence of
//! values into a field access or an invocation.  Both are specified against
//! the model functions [`eval_spec`] and [`exec_spec`], which also account
//! for every output line the `log` primitive emits.
//!
//! Evaluation carries an explicit depth budget.  Each evaluation step spends
//! one unit; a budget of zero fails fast with a depth failure instead of
//! recursing unboundedly.

use vstd::prelude::*;

use crate::builtins::native_spec;
use crate::{
    entry_views_of, env_key, lemma_entry_views_of, lemma_views_of, lookup_spec, res_view,
    views_of, Error, ErrorV, Kind, Node, NodeV,
};

verus! {

/// Outcome of evaluation in the model: the resulting value or failure,
/// together with the output lines emitted along the way.
#[verifier::ext_equal]
pub struct EvalRes {
    pub val: Result<NodeV, ErrorV>,
    pub logs: Seq<Seq<char>>,
}

/// The model of evaluation, as a case split on the expression's variant:
///
/// - literals evaluate to themselves;
/// - a quoted name evaluates to the bare identifier, unresolved;
/// - an identifier resolves to the environment itself when it is the
///   reserved name, and through the scope chain otherwise;
/// - a native runs against the calling environment;
/// - a block keeps its parameters and evaluates its body eagerly under the
///   defining environment;
/// - a dictionary evaluates every value, keys unchanged;
/// - a list evaluates every item left to right, then dispatches the results.
///
/// `fuel` bounds the depth of evaluation; when it runs out the result is a
/// depth failure.
pub open spec fn eval_spec(env: NodeV, expr: NodeV, fuel: nat) -> EvalRes
    decreases fuel, 0int, 0int,
{
    if fuel == 0 {
        EvalRes { val: Err(ErrorV::DepthError), logs: Seq::empty() }
    } else {
        match expr {
            NodeV::Nil => EvalRes { val: Ok(expr), logs: Seq::empty() },
            NodeV::Num(_) => EvalRes { val: Ok(expr), logs: Seq::empty() },
            NodeV::Str(_) => EvalRes { val: Ok(expr), logs: Seq::empty() },
            NodeV::Bool(_) => EvalRes { val: Ok(expr), logs: Seq::empty() },
            NodeV::Sym(name) => EvalRes { val: Ok(NodeV::Id(name)), logs: Seq::empty() },
            NodeV::Id(name) => if name == env_key() {
                EvalRes { val: Ok(env), logs: Seq::empty() }
            } else {
                EvalRes { val: lookup_spec(env, name), logs: Seq::empty() }
            },
            NodeV::Native(op) => native_spec(op, env),
            NodeV::Block(params, body) => {
                let b = eval_spec(env, *body, (fuel - 1) as nat);
                match b.val {
                    Ok(v) => EvalRes {
                        val: Ok(NodeV::Block(params, Box::new(v))),
                        logs: b.logs,
                    },
                    Err(e) => EvalRes { val: Err(e), logs: b.logs },
                }
            },
            NodeV::Dict(entries) => {
                let r = eval_entries_spec(env, entries, (fuel - 1) as nat);
                match r.0 {
                    Ok(es) => EvalRes { val: Ok(NodeV::Dict(es)), logs: r.1 },
                    Err(e) => EvalRes { val: Err(e), logs: r.1 },
                }
            },
            NodeV::List(items) => {
                let r = eval_items_spec(env, items, (fuel - 1) as nat);
                match r.0 {
                    Ok(vals) => {
                        let ex = exec_spec(env, vals, (fuel - 1) as nat);
                        EvalRes { val: ex.val, logs: r.1 + ex.logs }
                    },
                    Err(e) => EvalRes { val: Err(e), logs: r.1 },
                }
            },
        }
    }
}

/// Evaluation of a dictionary's entries, front to back: keys are kept,
/// values are evaluated, output lines accumulate in entry order, and the
/// first failure stops the walk.
pub open spec fn eval_entries_spec(env: NodeV, entries: Seq<(Seq<char>, NodeV)>, fuel: nat) -> (
    Result<Seq<(Seq<char>, NodeV)>, ErrorV>,
    Seq<Seq<char>>,
)
    decreases fuel, 1int, entries.len(),
{
    if entries.len() == 0 {
        (Ok(Seq::empty()), Seq::empty())
    } else {
        let head = eval_spec(env, entries[0].1, fuel);
        match head.val {
            Err(e) => (Err(e), head.logs),
            Ok(v) => {
                let rest = eval_entries_spec(
                    env,
                    entries.subrange(1, entries.len() as int),
                    fuel,
                );
                match rest.0 {
                    Err(e) => (Err(e), head.logs + rest.1),
                    Ok(es) => (Ok(seq![(entries[0].0, v)] + es), head.logs + rest.1),
                }
            },
        }
    }
}

/// Evaluation of a list's items, left to right: output lines accumulate in
/// item order, and the first failure stops the walk.
pub open spec fn eval_items_spec(env: NodeV, items: Seq<NodeV>, fuel: nat) -> (
    Result<Seq<NodeV>, ErrorV>,
    Seq<Seq<char>>,
)
    decreases fuel, 1int, items.len(),
{
    if items.len() == 0 {
        (Ok(Seq::empty()), Seq::empty())
    } else {
        let head = eval_spec(env, items[0], fuel);
        match head.val {
            Err(e) => (Err(e), head.logs),
            Ok(v) => {
                let rest = eval_items_spec(env, items.subrange(1, items.len() as int), fuel);
                match rest.0 {
                    Err(e) => (Err(e), head.logs + rest.1),
                    Ok(vs) => (Ok(seq![v] + vs), head.logs + rest.1),
                }
            },
        }
    }
}

/// The model of dispatch, purely on the count and the kinds of the
/// already-evaluated values:
///
/// - no values: the result is `Nil`;
/// - one value: the result is that value, unchanged;
/// - a dictionary followed by an identifier: field access, the identifier
///   re-evaluated with the dictionary as the environment;
/// - a dictionary followed by a block: invocation, the block's body
///   evaluated under a scope copied from the dictionary's bindings (a copy
///   and its source have the same mathematical value);
/// - any other pair: a type failure naming the kind that was expected where
///   the mismatch was found, a dictionary in front or a block behind;
/// - three or more values: an arity failure.
pub open spec fn exec_spec(env: NodeV, vals: Seq<NodeV>, fuel: nat) -> EvalRes
    decreases fuel, 1int, 0int,
{
    if vals.len() == 0 {
        EvalRes { val: Ok(NodeV::Nil), logs: Seq::empty() }
    } else if vals.len() == 1 {
        EvalRes { val: Ok(vals[0]), logs: Seq::empty() }
    } else if vals.len() == 2 {
        match vals[0] {
            NodeV::Dict(_) => match vals[1] {
                NodeV::Id(_) => eval_spec(vals[0], vals[1], fuel),
                NodeV::Block(_, body) => eval_spec(vals[0], *body, fuel),
                _ => EvalRes {
                    val: Err(ErrorV::TypeError(Kind::Block, vals[1])),
                    logs: Seq::empty(),
                },
            },
            _ => EvalRes {
                val: Err(ErrorV::TypeError(Kind::Dict, vals[0])),
                logs: Seq::empty(),
            },
        }
    } else {
        EvalRes { val: Err(ErrorV::ArityError(vals.len())), logs: Seq::empty() }
    }
}

/// Deep copy of a sequence of nodes, element by element.
fn dup_nodes(items: &Vec<Node>) -> (r: Vec<Node>)
    ensures
        views_of(r@) == views_of(items@),
{
    let mut out: Vec<Node> = Vec::new();
    let mut i: usize = 0;
    while i < items.len()
        invariant
            i <= items.len(),
            out@.len() == i,
            forall|j: int| 0 <= j < i ==> #[trigger] out@[j].view() == items@[j].view(),
        decreases items.len() - i,
    {
        out.push(items[i].dup());
        i += 1;
    }
    proof {
        lemma_views_of(out@);
        lemma_views_of(items@);
        assert forall|k: int| 0 <= k < items@.len() implies views_of(out@)[k]
            == views_of(items@)[k] by {
            assert(out@[k].view() == items@[k].view());
        }
        assert(views_of(out@) =~= views_of(items@));
    }
    out
}

/// Evaluate `expr` under the environment `env`, spending at most `fuel`
/// units of evaluation depth, and append every output line emitted by the
/// `log` primitive to `out`.  The result and the emitted lines are exactly
/// those of the model [`eval_spec`].
pub fn eval(env: &Node, expr: &Node, fuel: u64, out: &mut Vec<String>) -> (r: Result<Node, Error>)
    ensures
        ({
            let m = eval_spec(env@, expr@, fuel as nat);
            res_view(r) == m.val && final(out).deep_view() == old(out).deep_view() + m.logs
        }),
    decreases fuel, 0int, 0int,
{
    proof {
        assert(old(out).deep_view() + Seq::<Seq<char>>::empty() =~= old(out).deep_view());
    }
    if fuel == 0 {
        return Err(Error::DepthError);
    }
    match expr {
        Node::Nil => Ok(expr.dup()),
        Node::Num(_) => Ok(expr.dup()),
        Node::Str(_) => Ok(expr.dup()),
        Node::Bool(_) => Ok(expr.dup()),
        Node::Sym(name) => Ok(Node::Id(name.clone())),
        Node::Id(name) => {
            let reserved: String = "env".to_owned();
            if *name == reserved {
                Ok(env.dup())
            } else {
                env.lookup(name.as_str())
            }
        }
        Node::Native(op) => crate::builtins::apply_native(*op, env, out),
        Node::Block(params, body) => {
            let copied = dup_nodes(params);
            match eval(env, body, fuel - 1, out) {
                Ok(v) => Ok(Node::Block(copied, Box::new(v))),
                Err(e) => Err(e),
            }
        }
        Node::Dict(entries) => {
            proof {
                lemma_entry_views_of(entries@);
                let ev = entry_views_of(entries@);
                assert(ev.subrange(0, ev.len() as int) =~= ev);
            }
            match eval_entries(env, entries, 0, fuel - 1, out) {
                Ok(es) => Ok(Node::Dict(es)),
                Err(e) => Err(e),
            }
        }
        Node::List(items) => {
            proof {
                lemma_views_of(items@);
                let iv = views_of(items@);
                assert(iv.subrange(0, iv.len() as int) =~= iv);
            }
            let ghost d0 = out.deep_view();
            let ghost m_items = eval_items_spec(env@, views_of(items@), (fuel - 1) as nat);
            match eval_items(env, items, 0, fuel - 1, out) {
                Ok(vals) => {
                    let ghost m_exec = exec_spec(env@, views_of(vals@), (fuel - 1) as nat);
                    let r = exec(env, vals, fuel - 1, out);
                    proof {
                        assert(out.deep_view() =~= d0 + (m_items.1 + m_exec.logs));
                    }
                    r
                }
                Err(e) => Err(e),
            }
        }
    }
}

/// Evaluate the entries of a dictionary from position `start` on, keys
/// kept, values evaluated left to right under `env`.
fn eval_entries(
    env: &Node,
    entries: &Vec<(String, Node)>,
    start: usize,
    fuel: u64,
    out: &mut Vec<String>,
) -> (r: Result<Vec<(String, Node)>, Error>)
    requires
        start <= entries@.len(),
    ensures
        ({
            let ev = entry_views_of(entries@);
            let m = eval_entries_spec(env@, ev.subrange(start as int, ev.len() as int), fuel as nat);
            (match (r, m.0) {
                (Ok(v), Ok(es)) => entry_views_of(v@) == es,
                (Err(e), Err(me)) => e@ == me,
                _ => false,
            }) && final(out).deep_view() == old(out).deep_view() + m.1
        }),
    decreases fuel, 1int, entries@.len() - start,
{
    proof {
        lemma_entry_views_of(entries@);
        assert(old(out).deep_view() + Seq::<Seq<char>>::empty() =~= old(out).deep_view());
    }
    let ghost ev = entry_views_of(entries@);
    let ghost tail = ev.subrange(start as int, ev.len() as int);
    if start == entries.len() {
        proof {
            assert(tail =~= Seq::<(Seq<char>, NodeV)>::empty());
        }
        return Ok(Vec::new());
    }
    proof {
        assert(tail[0] == ev[start as int]);
        assert(ev[start as int] == (entries@[start as int].0@, entries@[start as int].1.view()));
    }
    let ghost d0 = out.deep_view();
    let ghost m_head = eval_spec(env@, tail[0].1, fuel as nat);
    let pair = &entries[start];
    match eval(env, &pair.1, fuel, out) {
        Err(e) => Err(e),
        Ok(v) => {
            let ghost vv = v@;
            proof {
                assert(tail.subrange(1, tail.len() as int)
                    =~= ev.subrange(start as int + 1, ev.len() as int));
            }
            let ghost m_rest = eval_entries_spec(
                env@,
                ev.subrange(start as int + 1, ev.len() as int),
                fuel as nat,
            );
            match eval_entries(env, entries, start + 1, fuel, out) {
                Err(e) => {
                    proof {
                        assert(out.deep_view() =~= d0 + (m_head.logs + m_rest.1));
                    }
                    Err(e)
                }
                Ok(mut rest) => {
                    let ghost restv = rest@;
                    rest.insert(0, (pair.0.clone(), v));
                    proof {
                        assert(out.deep_view() =~= d0 + (m_head.logs + m_rest.1));
                        lemma_entry_views_of(rest@);
                        lemma_entry_views_of(restv);
                        let want = seq![(tail[0].0, m_head.val->Ok_0)] + (m_rest.0)->Ok_0;
                        assert forall|j: int| 0 <= j < rest@.len() implies
                            entry_views_of(rest@)[j] == want[j] by {
                            assert(entry_views_of(rest@)[j] == (rest@[j].0@, rest@[j].1.view()));
                            if j == 0 {
                                assert(rest@[0].1.view() == vv);
                            }
                            if j > 0 {
                                assert(rest@[j] == restv[j - 1]);
                                assert(entry_views_of(restv)[j - 1]
                                    == (restv[j - 1].0@, restv[j - 1].1.view()));
                            }
                        }
                        assert(entry_views_of(rest@) =~= want);
                    }
                    Ok(rest)
                }
            }
        }
    }
}

/// Evaluate the items of a list from position `start` on, left to right
/// under `env`.
fn eval_items(
    env: &Node,
    items: &Vec<Node>,
    start: usize,
    fuel: u64,
    out: &mut Vec<String>,
) -> (r: Result<Vec<Node>, Error>)
    requires
        start <= items@.len(),
    ensures
        ({
            let iv = views_of(items@);
            let m = eval_items_spec(env@, iv.subrange(start as int, iv.len() as int), fuel as nat);
            (match (r, m.0) {
                (Ok(v), Ok(vs)) => views_of(v@) == vs,
                (Err(e), Err(me)) => e@ == me,
                _ => false,
            }) && final(out).deep_view() == old(out).deep_view() + m.1
        }),
    decreases fuel, 1int, items@.len() - start,
{
    proof {
        lemma_views_of(items@);
        assert(old(out).deep_view() + Seq::<Seq<char>>::empty() =~= old(out).deep_view());
    }
    let ghost iv = views_of(items@);
    let ghost tail = iv.subrange(start as int, iv.len() as int);
    if start == items.len() {
        proof {
            assert(tail =~= Seq::<NodeV>::empty());
        }
        return Ok(Vec::new());
    }
    proof {
        assert(tail[0] == iv[start as int]);
        assert(iv[start as int] == items@[start as int].view());
    }
    let ghost d0 = out.deep_view();
    let ghost m_head = eval_spec(env@, tail[0], fuel as nat);
    match eval(env, &items[start], fuel, out) {
        Err(e) => Err(e),
        Ok(v) => {
            let ghost vv = v@;
            proof {
                assert(tail.subrange(1, tail.len() as int)
                    =~= iv.subrange(start as int + 1, iv.len() as int));
            }
            let ghost m_rest = eval_items_spec(
                env@,
                iv.subrange(start as int + 1, iv.len() as int),
                fuel as nat,
            );
            match eval_items(env, items, start + 1, fuel, out) {
                Err(e) => {
                    proof {
                        assert(out.deep_view() =~= d0 + (m_head.logs + m_rest.1));
                    }
                    Err(e)
                }
                Ok(mut rest) => {
                    let ghost restv = rest@;
                    rest.insert(0, v);
                    proof {
                        assert(out.deep_view() =~= d0 + (m_head.logs + m_rest.1));
                        lemma_views_of(rest@);
                        lemma_views_of(restv);
                        let want = seq![m_head.val->Ok_0] + (m_rest.0)->Ok_0;
                        assert forall|j: int| 0 <= j < rest@.len() implies
                            views_of(rest@)[j] == want[j] by {
                            assert(views_of(rest@)[j] == rest@[j].view());
                            if j == 0 {
                                assert(rest@[0].view() == vv);
                            }
                            if j > 0 {
                                assert(rest@[j] == restv[j - 1]);
                                assert(views_of(restv)[j - 1] == restv[j - 1].view());
                            }
                        }
                        assert(views_of(rest@) =~= want);
                    }
                    Ok(rest)
                }
            }
        }
    }
}

/// Dispatch an already-evaluated sequence of values under `env`, per the
/// model [`exec_spec`]: nothing, a single value, a field access or an
/// invocation.  The environment parameter is part of the call protocol but
/// dispatch itself only reads the values.  The invocation scope is a copy
/// of the leading dictionary's bindings; with immutable owned nodes that
/// copy is the dictionary value itself.
#[allow(unused_variables)]
pub fn exec(env: &Node, vec: Vec<Node>, fuel: u64, out: &mut Vec<String>) -> (r: Result<
    Node,
    Error,
>)
    ensures
        ({
            let m = exec_spec(env@, views_of(vec@), fuel as nat);
            res_view(r) == m.val && final(out).deep_view() == old(out).deep_view() + m.logs
        }),
    decreases fuel, 1int, 0int,
{
    proof {
        lemma_views_of(vec@);
        assert(old(out).deep_view() + Seq::<Seq<char>>::empty() =~= old(out).deep_view());
    }
    if vec.len() == 0 {
        Ok(Node::Nil)
    } else if vec.len() == 1 {
        Ok(vec[0].dup())
    } else if vec.len() == 2 {
        let first = &vec[0];
        let second = &vec[1];
        match first {
            Node::Dict(_) => match second {
                Node::Id(_) => eval(first, second, fuel, out),
                Node::Block(_, body) => eval(first, &**body, fuel, out),
                _ => Err(Error::TypeError(Kind::Block, second.dup())),
            },
            _ => Err(Error::TypeError(Kind::Dict, first.dup())),
        }
    } else {
        Err(Error::ArityError(vec.len()))
    }
}

} // verus!
