//! The two required native primitives and the root-environment seeding.
//!
//! A builtin is registered as an ordinary binding `name -> Block(params,
//! Native(op))`: the parameters are quoted names describing the values the
//! native expects to find in its calling environment, and the body is the
//! native itself.

use vstd::prelude::*;

use crate::eval::EvalRes;
use crate::{
    dict_find, find_entry, lemma_entry_views_of, res_view, Error, ErrorV, Kind, NativeOp, Node,
    NodeV,
};

verus! {

/// The model of running a native primitive against its calling environment.
///
/// Both primitives read their argument from the immediate entries of the
/// calling environment, which must be a dictionary; the parent chain is not
/// searched.
///
/// - `def` cannot bind into an immutable scope: with its `vals` argument
///   present it fails loudly as unsupported, and without the argument the
///   missing name is a lookup failure.
/// - `log` reads `msg`: a string emits one output line holding its text and
///   the result is `Nil`; a binding of any other kind emits one empty line;
///   a missing binding is a lookup failure.
pub open spec fn native_spec(op: NativeOp, env: NodeV) -> EvalRes {
    match env {
        NodeV::Dict(entries) => match op {
            NativeOp::Def => match dict_find(entries, "vals"@) {
                Some(_) => EvalRes {
                    val: Err(ErrorV::UnsupportedError("def"@)),
                    logs: Seq::empty(),
                },
                None => EvalRes { val: Err(ErrorV::LookupError("vals"@)), logs: Seq::empty() },
            },
            NativeOp::Log => match dict_find(entries, "msg"@) {
                Some(NodeV::Str(text)) => EvalRes { val: Ok(NodeV::Nil), logs: seq![text] },
                Some(_) => EvalRes { val: Ok(NodeV::Nil), logs: seq![Seq::empty()] },
                None => EvalRes { val: Err(ErrorV::LookupError("msg"@)), logs: Seq::empty() },
            },
        },
        _ => EvalRes { val: Err(ErrorV::TypeError(Kind::Dict, env)), logs: Seq::empty() },
    }
}

/// The value bound to `name` among the immediate entries of `env`, without
/// following the parent chain; nothing when `env` is not a dictionary or
/// does not bind `name`.
pub fn loc(env: &Node, name: &str) -> (r: Option<Node>)
    ensures
        match env@ {
            NodeV::Dict(es) => match r {
                Some(n) => dict_find(es, name@) == Some(n@),
                None => dict_find(es, name@) is None,
            },
            _ => r is None,
        },
{
    match env {
        Node::Dict(entries) => match find_entry(entries, name) {
            Some(i) => Some(entries[i].1.dup()),
            None => None,
        },
        _ => None,
    }
}

/// The text of the string bound to `name` among the immediate entries of
/// `env`.  A binding of any other kind reads as empty text; a missing
/// binding is a lookup failure, a non-dictionary environment a type failure.
pub fn loc_str(env: &Node, name: &str) -> (r: Result<String, Error>)
    ensures
        match env@ {
            NodeV::Dict(es) => match dict_find(es, name@) {
                Some(NodeV::Str(text)) => r matches Ok(s) && s@ == text,
                Some(_) => r matches Ok(s) && s@ == Seq::<char>::empty(),
                None => r matches Err(e) && e@ == ErrorV::LookupError(name@),
            },
            _ => r matches Err(e) && e@ == ErrorV::TypeError(Kind::Dict, env@),
        },
{
    match env {
        Node::Dict(entries) => match find_entry(entries, name) {
            Some(i) => match &entries[i].1 {
                Node::Str(text) => Ok(text.clone()),
                _ => Ok(String::new()),
            },
            None => Err(Error::LookupError(name.to_owned())),
        },
        _ => Err(Error::TypeError(Kind::Dict, env.dup())),
    }
}

/// `def`: with its `vals` argument present the binding operation is
/// unsupported under immutable scopes and fails loudly; without it the
/// missing name is reported.
fn native_def(env: &Node) -> (r: Result<Node, Error>)
    ensures
        res_view(r) == native_spec(NativeOp::Def, env@).val,
{
    if let Node::Dict(_) = env {
        match loc(env, "vals") {
            Some(_) => Err(Error::UnsupportedError("def".to_owned())),
            None => Err(Error::LookupError("vals".to_owned())),
        }
    } else {
        Err(Error::TypeError(Kind::Dict, env.dup()))
    }
}

/// `log`: emit the text of the `msg` binding as one output line.
fn native_log(env: &Node, out: &mut Vec<String>) -> (r: Result<Node, Error>)
    ensures
        ({
            let m = native_spec(NativeOp::Log, env@);
            res_view(r) == m.val && final(out).deep_view() == old(out).deep_view() + m.logs
        }),
{
    match loc_str(env, "msg") {
        Ok(text) => {
            let ghost before = out.deep_view();
            let ghost line = text@;
            out.push(text);
            proof {
                assert(out.deep_view() =~= before + seq![line]);
            }
            Ok(Node::Nil)
        }
        Err(e) => {
            proof {
                assert(out.deep_view() =~= old(out).deep_view() + Seq::<Seq<char>>::empty());
            }
            Err(e)
        }
    }
}

/// Run the native primitive `op` against the calling environment `env`,
/// appending every emitted output line to `out`.
pub fn apply_native(op: NativeOp, env: &Node, out: &mut Vec<String>) -> (r: Result<Node, Error>)
    ensures
        ({
            let m = native_spec(op, env@);
            res_view(r) == m.val && final(out).deep_view() == old(out).deep_view() + m.logs
        }),
{
    match op {
        NativeOp::Def => {
            let r = native_def(env);
            proof {
                assert(out.deep_view() =~= old(out).deep_view() + Seq::<Seq<char>>::empty());
            }
            r
        }
        NativeOp::Log => native_log(env, out),
    }
}

/// The value a builtin is registered as: one quoted parameter name in front
/// of the native body.
pub open spec fn builtin_view(param: Seq<char>, op: NativeOp) -> NodeV {
    NodeV::Block(seq![NodeV::Sym(param)], Box::new(NodeV::Native(op)))
}

/// Build a builtin binding value: the parameter names quoted, the native as
/// the body.
pub fn builtin(names: Vec<String>, op: NativeOp) -> (r: Node)
    ensures
        ({
            let params = Seq::new(names@.len(), |i: int| NodeV::Sym(names@[i]@));
            r@ == NodeV::Block(params, Box::new(NodeV::Native(op)))
        }),
{
    let mut syms: Vec<Node> = Vec::new();
    let mut i: usize = 0;
    while i < names.len()
        invariant
            i <= names.len(),
            syms@.len() == i,
            forall|j: int| 0 <= j < i ==> #[trigger] syms@[j].view() == NodeV::Sym(names@[j]@),
        decreases names.len() - i,
    {
        syms.push(Node::Sym(names[i].clone()));
        i += 1;
    }
    proof {
        crate::lemma_views_of(syms@);
        let params = Seq::new(names@.len(), |i: int| NodeV::Sym(names@[i]@));
        assert forall|j: int| 0 <= j < names@.len() implies crate::views_of(syms@)[j]
            == params[j] by {
            assert(syms@[j].view() == NodeV::Sym(names@[j]@));
        }
        assert(crate::views_of(syms@) =~= params);
    }
    let ghost sv = syms@;
    let result = Node::Block(syms, Box::new(Node::Native(op)));
    proof {
        reveal_with_fuel(Node::view, 2);
        assert(result@ == NodeV::Block(crate::views_of(sv), Box::new(NodeV::Native(op))));
    }
    result
}

/// Seed the root environment's entries with the two required builtins,
/// `def` and `log`, appended in that order.
pub fn init_builtins(map: &mut Vec<(String, Node)>)
    ensures
        crate::entry_views_of(final(map)@) == crate::entry_views_of(old(map)@) + seq![
            ("def"@, builtin_view("vals"@, NativeOp::Def)),
            ("log"@, builtin_view("msg"@, NativeOp::Log)),
        ],
{
    let ghost before = map@;
    let mut def_params: Vec<String> = Vec::new();
    def_params.push("vals".to_owned());
    let ghost dp = def_params@;
    let def_node = builtin(def_params, NativeOp::Def);
    proof {
        assert(Seq::new(dp.len(), |i: int| NodeV::Sym(dp[i]@)) =~= seq![NodeV::Sym("vals"@)]);
        assert(def_node@ == builtin_view("vals"@, NativeOp::Def));
    }
    map.push(("def".to_owned(), def_node));

    let mut log_params: Vec<String> = Vec::new();
    log_params.push("msg".to_owned());
    let ghost lp = log_params@;
    let log_node = builtin(log_params, NativeOp::Log);
    proof {
        assert(Seq::new(lp.len(), |i: int| NodeV::Sym(lp[i]@)) =~= seq![NodeV::Sym("msg"@)]);
        assert(log_node@ == builtin_view("msg"@, NativeOp::Log));
    }
    map.push(("log".to_owned(), log_node));

    proof {
        lemma_entry_views_of(map@);
        lemma_entry_views_of(before);
        let want = crate::entry_views_of(before) + seq![
            ("def"@, builtin_view("vals"@, NativeOp::Def)),
            ("log"@, builtin_view("msg"@, NativeOp::Log)),
        ];
        assert forall|j: int| 0 <= j < map@.len() implies crate::entry_views_of(map@)[j]
            == want[j] by {
            assert(crate::entry_views_of(map@)[j] == (map@[j].0@, map@[j].1.view()));
            if j < before.len() {
                assert(map@[j] == before[j]);
                assert(crate::entry_views_of(before)[j] == (before[j].0@, before[j].1.view()));
            }
        }
        assert(crate::entry_views_of(map@) =~= want);
    }
}

} // verus!
