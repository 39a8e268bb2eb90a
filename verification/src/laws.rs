//! The general laws of the evaluator, stated over the model and proved.
//!
//! Each law quantifies over every environment, name or value sequence the
//! language admits; laws about single chosen inputs live with the tests
//! instead.

use vstd::prelude::*;

use crate::eval::{eval_entries_spec, eval_items_spec, eval_spec, exec_spec, EvalRes};
use crate::{dict_find, dict_set, env_key, lookup_spec, up_key, ErrorV, Kind, NodeV};

verus! {

/// A literal: absence, a number, text or a truth value.
pub open spec fn is_literal(n: NodeV) -> bool {
    n is Nil || n is Num || n is Str || n is Bool
}

/// Self-evaluation: under any environment, a literal evaluates to itself
/// and emits nothing, whenever any depth budget at all is available.
pub proof fn lemma_self_evaluation(env: NodeV, v: NodeV, fuel: nat)
    requires
        fuel >= 1,
        is_literal(v),
    ensures
        eval_spec(env, v, fuel) == (EvalRes { val: Ok(v), logs: Seq::<Seq<char>>::empty() }),
{
}

/// Quoting: a quoted name evaluates to the bare identifier, without
/// resolving it, under any environment — bound or not.
pub proof fn lemma_quote(env: NodeV, name: Seq<char>, fuel: nat)
    requires
        fuel >= 1,
    ensures
        eval_spec(env, NodeV::Sym(name), fuel) == (EvalRes {
            val: Ok(NodeV::Id(name)),
            logs: Seq::<Seq<char>>::empty(),
        }),
{
}

/// The reserved identifier resolves to the current environment itself,
/// whatever that environment is and whether or not it carries the name as
/// one of its own keys.
pub proof fn lemma_reserved_env(scope: NodeV, fuel: nat)
    requires
        fuel >= 1,
    ensures
        eval_spec(scope, NodeV::Id(env_key()), fuel) == (EvalRes {
            val: Ok(scope),
            logs: Seq::<Seq<char>>::empty(),
        }),
{
}

/// Evaluating any other identifier is exactly chain resolution, emitting
/// nothing.
pub proof fn lemma_eval_id(env: NodeV, name: Seq<char>, fuel: nat)
    requires
        fuel >= 1,
        name != env_key(),
    ensures
        eval_spec(env, NodeV::Id(name), fuel) == (EvalRes {
            val: lookup_spec(env, name),
            logs: Seq::<Seq<char>>::empty(),
        }),
{
}

/// Shadowing: a name bound in the current frame resolves there, never in a
/// parent frame.
pub proof fn lemma_lookup_local(entries: Seq<(Seq<char>, NodeV)>, name: Seq<char>, v: NodeV)
    requires
        dict_find(entries, name) == Some(v),
    ensures
        lookup_spec(NodeV::Dict(entries), name) == Ok::<NodeV, ErrorV>(v),
{
}

/// Chain fallback: a name absent from the current frame resolves exactly as
/// it resolves in the parent frame.
pub proof fn lemma_lookup_parent(entries: Seq<(Seq<char>, NodeV)>, parent: NodeV, name: Seq<char>)
    requires
        dict_find(entries, name) is None,
        dict_find(entries, up_key()) == Some(parent),
        parent is Dict,
    ensures
        lookup_spec(NodeV::Dict(entries), name) == lookup_spec(parent, name),
{
}

/// Rebinding reads back: after a binding is set, looking the key up among
/// the entries yields exactly the new value.
pub proof fn lemma_dict_set_find_same(s: Seq<(Seq<char>, NodeV)>, name: Seq<char>, v: NodeV)
    ensures
        dict_find(dict_set(s, name, v), name) == Some(v),
    decreases s.len(),
{
    if s.len() == 0 {
        let t = dict_set(s, name, v);
        assert(t[0] == (name, v));
    } else if s[0].0 == name {
        let t = dict_set(s, name, v);
        assert(t[0] == (name, v));
    } else {
        let sub = s.subrange(1, s.len() as int);
        let t = seq![s[0]] + dict_set(sub, name, v);
        assert(t[0] == s[0]);
        lemma_dict_set_find_same(sub, name, v);
        assert(t.subrange(1, t.len() as int) =~= dict_set(sub, name, v));
    }
}

/// Rebinding is local: setting one key leaves what every other key reads
/// unchanged.
pub proof fn lemma_dict_set_find_other(
    s: Seq<(Seq<char>, NodeV)>,
    name: Seq<char>,
    v: NodeV,
    other: Seq<char>,
)
    requires
        other != name,
    ensures
        dict_find(dict_set(s, name, v), other) == dict_find(s, other),
    decreases s.len(),
{
    if s.len() == 0 {
        let t = dict_set(s, name, v);
        assert(t[0] == (name, v));
        assert(t.subrange(1, t.len() as int) =~= Seq::<(Seq<char>, NodeV)>::empty());
        assert(dict_find(Seq::<(Seq<char>, NodeV)>::empty(), other) is None);
        assert(dict_find(t, other) is None);
    } else if s[0].0 == name {
        let sub = s.subrange(1, s.len() as int);
        let t = dict_set(s, name, v);
        assert(t[0] == (name, v));
        assert(t.subrange(1, t.len() as int) =~= sub);
        assert(dict_find(t, other) == dict_find(sub, other));
        assert(dict_find(s, other) == dict_find(sub, other));
    } else {
        let sub = s.subrange(1, s.len() as int);
        let t = seq![s[0]] + dict_set(sub, name, v);
        assert(t[0] == s[0]);
        assert(t.subrange(1, t.len() as int) =~= dict_set(sub, name, v));
        if s[0].0 == other {
            assert(dict_find(t, other) == Some(s[0].1));
            assert(dict_find(s, other) == Some(s[0].1));
        } else {
            lemma_dict_set_find_other(sub, name, v, other);
            assert(dict_find(t, other) == dict_find(dict_set(sub, name, v), other));
            assert(dict_find(s, other) == dict_find(sub, other));
        }
    }
}

/// Arity boundary: dispatch of no values yields `Nil`; of one value, that
/// value unchanged, whatever it is; of three or more values, an arity
/// failure naming the count — each emitting nothing.
pub proof fn lemma_arity_boundary(env: NodeV, vals: Seq<NodeV>, fuel: nat)
    ensures
        vals.len() == 0 ==> exec_spec(env, vals, fuel) == (EvalRes {
            val: Ok(NodeV::Nil),
            logs: Seq::<Seq<char>>::empty(),
        }),
        vals.len() == 1 ==> exec_spec(env, vals, fuel) == (EvalRes {
            val: Ok(vals[0]),
            logs: Seq::<Seq<char>>::empty(),
        }),
        vals.len() >= 3 ==> exec_spec(env, vals, fuel) == (EvalRes {
            val: Err(ErrorV::ArityError(vals.len())),
            logs: Seq::<Seq<char>>::empty(),
        }),
{
}

/// Unsupported pairs: dispatch of two values fails with a type failure, not
/// a crash, whenever the first is not a dictionary, or the second neither
/// an identifier nor a block.
pub proof fn lemma_unsupported_pairs(env: NodeV, vals: Seq<NodeV>, fuel: nat)
    requires
        vals.len() == 2,
    ensures
        !(vals[0] is Dict) ==> exec_spec(env, vals, fuel) == (EvalRes {
            val: Err(ErrorV::TypeError(Kind::Dict, vals[0])),
            logs: Seq::<Seq<char>>::empty(),
        }),
        vals[0] is Dict && !(vals[1] is Id) && !(vals[1] is Block) ==> exec_spec(env, vals, fuel)
            == (EvalRes {
            val: Err(ErrorV::TypeError(Kind::Block, vals[1])),
            logs: Seq::<Seq<char>>::empty(),
        }),
{
}

/// The depth budget decides only whether evaluation finishes, never what it
/// yields: any outcome other than a depth failure stands unchanged under
/// every larger budget.
pub proof fn lemma_fuel_monotone(env: NodeV, expr: NodeV, f1: nat, f2: nat)
    requires
        f1 <= f2,
        eval_spec(env, expr, f1).val != Err::<NodeV, ErrorV>(ErrorV::DepthError),
    ensures
        eval_spec(env, expr, f2) == eval_spec(env, expr, f1),
    decreases f1, 0int, 0int,
{
    if f1 == 0 {
        assert(eval_spec(env, expr, f1).val == Err::<NodeV, ErrorV>(ErrorV::DepthError));
    } else {
        match expr {
            NodeV::Block(params, body) => {
                lemma_fuel_monotone(env, *body, (f1 - 1) as nat, (f2 - 1) as nat);
            },
            NodeV::Dict(entries) => {
                lemma_entries_fuel_monotone(env, entries, (f1 - 1) as nat, (f2 - 1) as nat);
            },
            NodeV::List(items) => {
                lemma_items_fuel_monotone(env, items, (f1 - 1) as nat, (f2 - 1) as nat);
                let r = eval_items_spec(env, items, (f1 - 1) as nat);
                if r.0 is Ok {
                    lemma_exec_fuel_monotone(env, (r.0)->Ok_0, (f1 - 1) as nat, (f2 - 1) as nat);
                }
            },
            _ => {},
        }
    }
}

/// Fuel monotonicity for the walk over a dictionary's entries.
pub proof fn lemma_entries_fuel_monotone(
    env: NodeV,
    entries: Seq<(Seq<char>, NodeV)>,
    f1: nat,
    f2: nat,
)
    requires
        f1 <= f2,
        eval_entries_spec(env, entries, f1).0 != Err::<Seq<(Seq<char>, NodeV)>, ErrorV>(
            ErrorV::DepthError,
        ),
    ensures
        eval_entries_spec(env, entries, f2) == eval_entries_spec(env, entries, f1),
    decreases f1, 1int, entries.len(),
{
    if entries.len() > 0 {
        lemma_fuel_monotone(env, entries[0].1, f1, f2);
        let head = eval_spec(env, entries[0].1, f1);
        if head.val is Ok {
            lemma_entries_fuel_monotone(
                env,
                entries.subrange(1, entries.len() as int),
                f1,
                f2,
            );
        }
    }
}

/// Fuel monotonicity for the walk over a list's items.
pub proof fn lemma_items_fuel_monotone(env: NodeV, items: Seq<NodeV>, f1: nat, f2: nat)
    requires
        f1 <= f2,
        eval_items_spec(env, items, f1).0 != Err::<Seq<NodeV>, ErrorV>(ErrorV::DepthError),
    ensures
        eval_items_spec(env, items, f2) == eval_items_spec(env, items, f1),
    decreases f1, 1int, items.len(),
{
    if items.len() > 0 {
        lemma_fuel_monotone(env, items[0], f1, f2);
        let head = eval_spec(env, items[0], f1);
        if head.val is Ok {
            lemma_items_fuel_monotone(env, items.subrange(1, items.len() as int), f1, f2);
        }
    }
}

/// Fuel monotonicity for dispatch.
pub proof fn lemma_exec_fuel_monotone(env: NodeV, vals: Seq<NodeV>, f1: nat, f2: nat)
    requires
        f1 <= f2,
        exec_spec(env, vals, f1).val != Err::<NodeV, ErrorV>(ErrorV::DepthError),
    ensures
        exec_spec(env, vals, f2) == exec_spec(env, vals, f1),
    decreases f1, 1int, 0int,
{
    if vals.len() == 2 {
        match vals[0] {
            NodeV::Dict(_) => match vals[1] {
                NodeV::Id(_) => lemma_fuel_monotone(vals[0], vals[1], f1, f2),
                NodeV::Block(_, body) => lemma_fuel_monotone(vals[0], *body, f1, f2),
                _ => {},
            },
            _ => {},
        }
    }
}

} // verus!
