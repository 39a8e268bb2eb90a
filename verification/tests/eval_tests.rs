use kurt::builtins::{apply_native, builtin, init_builtins, loc, loc_str};
use kurt::eval::{eval, exec};
use kurt::{r, Error, Kind, NativeOp, Node};

const FUEL: u64 = 100;

fn num(x: f64) -> Node {
    Node::Num(x.to_bits())
}

fn text(t: &str) -> Node {
    Node::Str(t.to_string())
}

fn id(t: &str) -> Node {
    Node::Id(t.to_string())
}

fn sym(t: &str) -> Node {
    Node::Sym(t.to_string())
}

fn dict(entries: Vec<(&str, Node)>) -> Node {
    Node::Dict(entries.into_iter().map(|(k, v)| (k.to_string(), v)).collect())
}

fn run(env: &Node, expr: &Node) -> Result<Node, Error> {
    let mut out: Vec<String> = Vec::new();
    eval(env, expr, FUEL, &mut out)
}

fn dispatch(env: &Node, vals: Vec<Node>) -> Result<Node, Error> {
    let mut out: Vec<String> = Vec::new();
    exec(env, vals, FUEL, &mut out)
}

fn is_num(n: &Node, x: f64) -> bool {
    matches!(n, Node::Num(b) if *b == x.to_bits())
}

#[test]
fn literals_self_evaluate() {
    let env = dict(vec![("x", num(7.0))]);
    assert!(matches!(run(&env, &Node::Nil), Ok(Node::Nil)));
    assert!(matches!(run(&env, &Node::Bool(true)), Ok(Node::Bool(true))));
    assert!(matches!(run(&env, &num(2.5)), Ok(ref n) if is_num(n, 2.5)));
    assert!(matches!(run(&env, &text("hi")), Ok(Node::Str(ref s)) if s == "hi"));
}

#[test]
fn literals_self_evaluate_under_any_environment() {
    // Even a non-dictionary environment: literals never consult it.
    let env = num(1.0);
    assert!(matches!(run(&env, &Node::Nil), Ok(Node::Nil)));
    assert!(matches!(run(&env, &Node::Bool(false)), Ok(Node::Bool(false))));
}

#[test]
fn quote_yields_bare_identifier() {
    // `foo` is unbound, yet quoting succeeds and does not resolve it.
    let env = dict(vec![]);
    assert!(matches!(run(&env, &sym("foo")), Ok(Node::Id(ref n)) if n == "foo"));
    // Bound names quote the same way: the binding is not consulted.
    let env2 = dict(vec![("foo", num(3.0))]);
    assert!(matches!(run(&env2, &sym("foo")), Ok(Node::Id(ref n)) if n == "foo"));
}

#[test]
fn lookup_shadowing_and_fallback() {
    let root = dict(vec![("x", num(1.0))]);
    let child = dict(vec![("x", num(2.0)), ("^", root.dup())]);
    assert!(matches!(run(&child, &id("x")), Ok(ref n) if is_num(n, 2.0)));
    assert!(matches!(run(&root, &id("x")), Ok(ref n) if is_num(n, 1.0)));
    // A fresh child without its own binding falls back to the root.
    let child2 = dict(vec![("^", root.dup())]);
    assert!(matches!(run(&child2, &id("x")), Ok(ref n) if is_num(n, 1.0)));
}

#[test]
fn lookup_failure_names_the_identifier() {
    let env = dict(vec![("x", num(1.0))]);
    assert!(matches!(run(&env, &id("nope")), Err(Error::LookupError(ref n)) if n == "nope"));
}

#[test]
fn lookup_against_non_dict_frame_is_a_type_failure() {
    let env = num(4.0);
    assert!(matches!(
        run(&env, &id("x")),
        Err(Error::TypeError(Kind::Dict, Node::Num(_)))
    ));
}

#[test]
fn lookup_stops_at_non_dict_parent() {
    // A parent link that is not a dictionary ends the chain: the name is
    // simply not found.
    let env = dict(vec![("^", num(9.0))]);
    assert!(matches!(run(&env, &id("x")), Err(Error::LookupError(ref n)) if n == "x"));
}

#[test]
fn reserved_env_identifier_yields_the_scope_itself() {
    let scope = dict(vec![("a", num(1.0))]);
    match run(&scope, &id("env")) {
        Ok(Node::Dict(entries)) => {
            assert_eq!(entries.len(), 1);
            assert_eq!(entries[0].0, "a");
            assert!(is_num(&entries[0].1, 1.0));
        }
        other => panic!("expected the scope back, got {:?}", other),
    }
}

#[test]
fn reserved_env_identifier_wins_over_a_binding() {
    // Even when `env` is a key of the scope, the identifier resolves to the
    // scope itself, not to the binding.
    let scope = dict(vec![("env", num(5.0))]);
    match run(&scope, &id("env")) {
        Ok(Node::Dict(entries)) => {
            assert_eq!(entries.len(), 1);
            assert_eq!(entries[0].0, "env");
        }
        other => panic!("expected the scope back, got {:?}", other),
    }
}

#[test]
fn dict_evaluation_is_structural() {
    // { a: [1] } evaluates the inner list through dispatch: a one-element
    // list yields the element itself.
    let env = dict(vec![]);
    let expr = dict(vec![("a", Node::List(vec![num(1.0)]))]);
    match run(&env, &expr) {
        Ok(Node::Dict(entries)) => {
            assert_eq!(entries.len(), 1);
            assert_eq!(entries[0].0, "a");
            assert!(is_num(&entries[0].1, 1.0));
        }
        other => panic!("expected a dictionary, got {:?}", other),
    }
}

#[test]
fn field_access() {
    let env = dict(vec![]);
    let obj = dict(vec![("y", text("hi"))]);
    let got = dispatch(&env, vec![obj, id("y")]);
    assert!(matches!(got, Ok(Node::Str(ref s)) if s == "hi"));
}

#[test]
fn invocation_runs_the_body_under_the_dict() {
    let env = dict(vec![]);
    let obj = dict(vec![("y", text("hi"))]);
    let block = Node::Block(vec![sym("y")], r(id("y")));
    let got = dispatch(&env, vec![obj, block]);
    assert!(matches!(got, Ok(Node::Str(ref s)) if s == "hi"));
}

#[test]
fn invocation_copies_and_later_rebinding_does_not_alias() {
    let env = dict(vec![]);
    let mut obj = dict(vec![("y", text("hi"))]);
    let block = Node::Block(vec![sym("y")], r(id("y")));
    let got = dispatch(&env, vec![obj.dup(), block]);
    assert!(matches!(got, Ok(Node::Str(ref s)) if s == "hi"));
    // Rebind the name in the source dictionary after the invocation.
    assert!(obj.sdefine("y", text("bye")).is_ok());
    // The value the invocation produced is unaffected.
    assert!(matches!(got, Ok(Node::Str(ref s)) if s == "hi"));
}

#[test]
fn arity_boundary() {
    let env = dict(vec![]);
    assert!(matches!(dispatch(&env, vec![]), Ok(Node::Nil)));
    assert!(matches!(
        dispatch(&env, vec![text("solo")]),
        Ok(Node::Str(ref s)) if s == "solo"
    ));
    let three = vec![num(1.0), num(2.0), num(3.0)];
    assert!(matches!(dispatch(&env, three), Err(Error::ArityError(3))));
}

#[test]
fn unsupported_two_element_shapes_fail_with_type_errors() {
    let env = dict(vec![]);
    // Not led by a dictionary.
    assert!(matches!(
        dispatch(&env, vec![num(1.0), num(2.0)]),
        Err(Error::TypeError(Kind::Dict, Node::Num(_)))
    ));
    // Led by a dictionary, followed by neither identifier nor block.
    assert!(matches!(
        dispatch(&env, vec![dict(vec![]), num(2.0)]),
        Err(Error::TypeError(Kind::Block, Node::Num(_)))
    ));
}

#[test]
fn list_evaluates_items_before_dispatch() {
    // [obj :y] evaluates the quote to the identifier `y`, then dispatches
    // the pair as field access.
    let env = dict(vec![("obj", dict(vec![("y", num(8.0))]))]);
    let expr = Node::List(vec![id("obj"), sym("y")]);
    assert!(matches!(run(&env, &expr), Ok(ref n) if is_num(n, 8.0)));
}

#[test]
fn block_body_is_evaluated_eagerly_at_definition() {
    let env = dict(vec![("x", num(5.0))]);
    let block = Node::Block(vec![sym("a")], r(id("x")));
    match run(&env, &block) {
        Ok(Node::Block(params, body)) => {
            assert_eq!(params.len(), 1);
            assert!(matches!(&params[0], Node::Sym(n) if n == "a"));
            assert!(is_num(&body, 5.0));
        }
        other => panic!("expected a block, got {:?}", other),
    }
}

#[test]
fn depth_budget_exhaustion_fails_fast() {
    let env = dict(vec![]);
    let mut out: Vec<String> = Vec::new();
    assert!(matches!(
        eval(&env, &Node::Nil, 0, &mut out),
        Err(Error::DepthError)
    ));
    // A deeply nested expression also runs out before finishing.
    let mut expr = num(1.0);
    for _ in 0..10 {
        expr = Node::List(vec![expr]);
    }
    assert!(matches!(eval(&env, &expr, 5, &mut out), Err(Error::DepthError)));
}

#[test]
fn log_emits_the_message_and_returns_nil() {
    let env = dict(vec![]);
    let log_block = builtin(vec!["msg".to_string()], NativeOp::Log);
    let args = dict(vec![("msg", text("hello world"))]);
    let mut out: Vec<String> = Vec::new();
    let got = exec(&env, vec![args, log_block], FUEL, &mut out);
    assert!(matches!(got, Ok(Node::Nil)));
    assert_eq!(out, vec!["hello world".to_string()]);
}

#[test]
fn log_with_a_non_string_message_emits_an_empty_line() {
    let env = dict(vec![]);
    let log_block = builtin(vec!["msg".to_string()], NativeOp::Log);
    let args = dict(vec![("msg", num(3.0))]);
    let mut out: Vec<String> = Vec::new();
    let got = exec(&env, vec![args, log_block], FUEL, &mut out);
    assert!(matches!(got, Ok(Node::Nil)));
    assert_eq!(out, vec![String::new()]);
}

#[test]
fn log_without_a_message_is_a_lookup_failure() {
    let env = dict(vec![]);
    let log_block = builtin(vec!["msg".to_string()], NativeOp::Log);
    let args = dict(vec![("other", text("x"))]);
    let mut out: Vec<String> = Vec::new();
    let got = exec(&env, vec![args, log_block], FUEL, &mut out);
    assert!(matches!(got, Err(Error::LookupError(ref n)) if n == "msg"));
    assert!(out.is_empty());
}

#[test]
fn def_fails_loudly_instead_of_silently_doing_nothing() {
    let env = dict(vec![]);
    let def_block = builtin(vec!["vals".to_string()], NativeOp::Def);
    let args = dict(vec![("vals", dict(vec![("a", num(1.0))]))]);
    let mut out: Vec<String> = Vec::new();
    let got = exec(&env, vec![args, def_block], FUEL, &mut out);
    assert!(matches!(got, Err(Error::UnsupportedError(ref n)) if n == "def"));
}

#[test]
fn def_without_vals_is_a_lookup_failure() {
    let env = dict(vec![]);
    let def_block = builtin(vec!["vals".to_string()], NativeOp::Def);
    let args = dict(vec![]);
    let mut out: Vec<String> = Vec::new();
    let got = exec(&env, vec![args, def_block], FUEL, &mut out);
    assert!(matches!(got, Err(Error::LookupError(ref n)) if n == "vals"));
}

#[test]
fn init_builtins_registers_def_and_log() {
    let mut map: Vec<(String, Node)> = Vec::new();
    init_builtins(&mut map);
    assert_eq!(map.len(), 2);
    assert_eq!(map[0].0, "def");
    assert_eq!(map[1].0, "log");
    match &map[0].1 {
        Node::Block(params, body) => {
            assert_eq!(params.len(), 1);
            assert!(matches!(&params[0], Node::Sym(n) if n == "vals"));
            assert!(matches!(**body, Node::Native(NativeOp::Def)));
        }
        other => panic!("expected a block, got {:?}", other),
    }
    match &map[1].1 {
        Node::Block(params, body) => {
            assert!(matches!(&params[0], Node::Sym(n) if n == "msg"));
            assert!(matches!(**body, Node::Native(NativeOp::Log)));
        }
        other => panic!("expected a block, got {:?}", other),
    }
}

#[test]
fn sdefine_appends_and_rebinds() {
    let mut scope = dict(vec![("a", num(1.0))]);
    assert!(scope.sdefine("b", num(2.0)).is_ok());
    assert!(scope.sdefine("a", num(3.0)).is_ok());
    match &scope {
        Node::Dict(entries) => {
            assert_eq!(entries.len(), 2);
            assert_eq!(entries[0].0, "a");
            assert!(is_num(&entries[0].1, 3.0));
            assert_eq!(entries[1].0, "b");
            assert!(is_num(&entries[1].1, 2.0));
        }
        other => panic!("expected a dictionary, got {:?}", other),
    }
}

#[test]
fn sdefine_refuses_non_dicts() {
    let mut n = num(1.0);
    let got = n.sdefine("a", num(2.0));
    assert!(matches!(got, Err(Error::TypeError(Kind::Dict, Node::Num(_)))));
    assert!(is_num(&n, 1.0));
}

#[test]
fn lookup_method_follows_the_chain() {
    let root = dict(vec![("x", num(1.0))]);
    let child = dict(vec![("^", root)]);
    assert!(matches!(child.lookup("x"), Ok(ref n) if is_num(n, 1.0)));
    assert!(matches!(child.lookup("y"), Err(Error::LookupError(ref n)) if n == "y"));
}

#[test]
fn loc_reads_only_the_immediate_frame() {
    let root = dict(vec![("x", num(1.0))]);
    let child = dict(vec![("^", root)]);
    assert!(loc(&child, "x").is_none());
    assert!(matches!(loc(&child, "^"), Some(Node::Dict(_))));
}

#[test]
fn loc_str_reads_string_bindings() {
    let envd = dict(vec![("msg", text("m")), ("n", num(1.0))]);
    assert!(matches!(loc_str(&envd, "msg"), Ok(ref s) if s == "m"));
    assert!(matches!(loc_str(&envd, "n"), Ok(ref s) if s.is_empty()));
    assert!(matches!(loc_str(&envd, "gone"), Err(Error::LookupError(_))));
    assert!(matches!(
        loc_str(&num(0.0), "msg"),
        Err(Error::TypeError(Kind::Dict, _))
    ));
}

#[test]
fn apply_native_log_directly() {
    let envd = dict(vec![("msg", text("direct"))]);
    let mut out: Vec<String> = Vec::new();
    let got = apply_native(NativeOp::Log, &envd, &mut out);
    assert!(matches!(got, Ok(Node::Nil)));
    assert_eq!(out, vec!["direct".to_string()]);
}

#[test]
fn nested_scope_through_full_evaluation() {
    // A root environment seeded with the builtins still resolves ordinary
    // bindings through the chain.
    let mut root_map: Vec<(String, Node)> = Vec::new();
    init_builtins(&mut root_map);
    root_map.push(("greeting".to_string(), text("hey")));
    let root = Node::Dict(root_map);
    let child = dict(vec![("^", root)]);
    assert!(matches!(run(&child, &id("greeting")), Ok(Node::Str(ref s)) if s == "hey"));
}
