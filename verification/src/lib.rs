//! Evaluation core of a small expression language whose parsed syntax tree
//! doubles as its runtime value representation.
//!
//! A single recursive [`Node`] type carries both parsed syntax and runtime
//! values.  Dictionaries double as environment frames: a `Dict` used as a
//! scope holds its parent under the reserved key `"^"`.  The evaluator walks
//! a node structurally and produces a new node; it never mutates its input.
//!
//! Every operation is specified against a mathematical model: [`NodeV`], a
//! ghost mirror of `Node` built from `Seq` and `Box`, reached through each
//! node's view.

use vstd::prelude::*;

pub mod builtins;
pub mod eval;
pub mod laws;

verus! {

/// Tag naming a host-supplied primitive operation.  Natives are ordinary
/// values in the language; the evaluator dispatches on this tag when it
/// meets one.
#[derive(Clone, Copy, PartialEq, Eq, Structural, Debug)]
pub enum NativeOp {
    /// Intended to bind names into the enclosing scope; under the immutable
    /// scope design it cannot, and evaluating it fails loudly instead of
    /// silently doing nothing.
    Def,
    /// Reads a string-valued `msg` entry from its calling environment and
    /// emits that text as one output line, returning `Nil`.
    Log,
}

/// The single tagged type for every syntactic and runtime entity.
///
/// A `Dict` is a mapping from names to nodes, kept as an ordered list of
/// entries; well-formed dictionaries have pairwise distinct keys.  A numeric
/// literal is carried as the bit pattern of a 64-bit IEEE-754 value: the
/// core never computes with numbers, it only carries them, and the host
/// converts at the boundary.
#[derive(Debug)]
pub enum Node {
    Dict(Vec<(String, Node)>),
    List(Vec<Node>),
    Str(String),
    Num(u64),
    Bool(bool),
    Id(String),
    Sym(String),
    Block(Vec<Node>, Box<Node>),
    Native(NativeOp),
    Nil,
}

/// Ghost mirror of [`Node`]: the mathematical value that contracts speak of.
#[verifier::ext_equal]
pub enum NodeV {
    Dict(Seq<(Seq<char>, NodeV)>),
    List(Seq<NodeV>),
    Str(Seq<char>),
    Num(u64),
    Bool(bool),
    Id(Seq<char>),
    Sym(Seq<char>),
    Block(Seq<NodeV>, Box<NodeV>),
    Native(NativeOp),
    Nil,
}

impl Node {
    /// The mathematical value this node stands for.
    pub open spec fn view(&self) -> NodeV
        decreases self,
    {
        match self {
            Node::Dict(entries) => NodeV::Dict(entry_views_of(entries@)),
            Node::List(items) => NodeV::List(views_of(items@)),
            Node::Str(s) => NodeV::Str(s@),
            Node::Num(bits) => NodeV::Num(*bits),
            Node::Bool(b) => NodeV::Bool(*b),
            Node::Id(name) => NodeV::Id(name@),
            Node::Sym(name) => NodeV::Sym(name@),
            Node::Block(params, body) => NodeV::Block(
                views_of(params@),
                Box::new(body.view()),
            ),
            Node::Native(op) => NodeV::Native(*op),
            Node::Nil => NodeV::Nil,
        }
    }
}

/// The views of a sequence of nodes, element by element.
pub open spec fn views_of(s: Seq<Node>) -> Seq<NodeV>
    decreases s,
{
    if s.len() == 0 {
        Seq::empty()
    } else {
        views_of(s.subrange(0, s.len() - 1)).push(s[s.len() - 1].view())
    }
}

/// The views of a sequence of dictionary entries, element by element.
pub open spec fn entry_views_of(s: Seq<(String, Node)>) -> Seq<(Seq<char>, NodeV)>
    decreases s,
{
    if s.len() == 0 {
        Seq::empty()
    } else {
        entry_views_of(s.subrange(0, s.len() - 1)).push(
            (s[s.len() - 1].0@, s[s.len() - 1].1.view()),
        )
    }
}

/// `views_of` is the element-wise view.
pub proof fn lemma_views_of(s: Seq<Node>)
    ensures
        views_of(s).len() == s.len(),
        forall|i: int| 0 <= i < s.len() ==> views_of(s)[i] == #[trigger] s[i].view(),
    decreases s.len(),
{
    if s.len() > 0 {
        let sub = s.subrange(0, s.len() - 1);
        lemma_views_of(sub);
        assert forall|i: int| 0 <= i < s.len() implies views_of(s)[i]
            == #[trigger] s[i].view() by {
            if i < s.len() - 1 {
                assert(sub[i] == s[i]);
                assert(views_of(s)[i] == views_of(sub)[i]);
            }
        }
    }
}

/// The variant a node belongs to, used to report what an operation expected
/// against what it found.
#[derive(Clone, Copy, PartialEq, Eq, Structural, Debug)]
pub enum Kind {
    Dict,
    List,
    Str,
    Num,
    Bool,
    Id,
    Sym,
    Block,
    Native,
    Nil,
}

/// A failure of evaluation, propagated to the caller instead of aborting.
///
/// A type failure carries the kind the operation expected together with the
/// offending node itself, so a host can render the context of the failure.
#[derive(Debug)]
pub enum Error {
    /// The name was found nowhere in the scope chain.
    LookupError(String),
    /// A node was used where its variant is unsupported.
    TypeError(Kind, Node),
    /// The dispatcher was handed a value sequence of unsupported length.
    ArityError(usize),
    /// Source text did not satisfy the grammar; produced only by the parser
    /// collaborator, never by the core.
    MalformedInputError,
    /// The depth budget handed to the evaluator ran out before a result was
    /// reached; evaluation fails fast instead of running unboundedly.
    DepthError,
    /// A primitive was asked for an operation the design does not support;
    /// carries the primitive's name.  Binding through `def` fails this way
    /// rather than silently doing nothing.
    UnsupportedError(String),
}

/// Ghost mirror of [`Error`].
#[verifier::ext_equal]
pub enum ErrorV {
    LookupError(Seq<char>),
    TypeError(Kind, NodeV),
    ArityError(nat),
    MalformedInputError,
    DepthError,
    UnsupportedError(Seq<char>),
}

impl Error {
    /// The mathematical value this error stands for.
    pub open spec fn view(&self) -> ErrorV {
        match self {
            Error::LookupError(name) => ErrorV::LookupError(name@),
            Error::TypeError(expected, found) => ErrorV::TypeError(*expected, found@),
            Error::ArityError(count) => ErrorV::ArityError(*count as nat),
            Error::MalformedInputError => ErrorV::MalformedInputError,
            Error::DepthError => ErrorV::DepthError,
            Error::UnsupportedError(what) => ErrorV::UnsupportedError(what@),
        }
    }
}

/// The view of an evaluation outcome: both sides taken to their models.
pub open spec fn res_view(r: Result<Node, Error>) -> Result<NodeV, ErrorV> {
    match r {
        Ok(n) => Ok(n@),
        Err(e) => Err(e@),
    }
}

/// The reserved key under which a scope stores its parent scope.
pub open spec fn up_key() -> Seq<char> {
    "^"@
}

/// The reserved identifier that always denotes the current environment.
pub open spec fn env_key() -> Seq<char> {
    "env"@
}

/// `entry_views_of` is the element-wise view: keys kept, values viewed.
pub proof fn lemma_entry_views_of(s: Seq<(String, Node)>)
    ensures
        entry_views_of(s).len() == s.len(),
        forall|i: int| 0 <= i < s.len() ==> entry_views_of(s)[i]
            == (#[trigger] s[i].0@, s[i].1.view()),
    decreases s.len(),
{
    if s.len() > 0 {
        let sub = s.subrange(0, s.len() - 1);
        lemma_entry_views_of(sub);
        assert forall|i: int| 0 <= i < s.len() implies entry_views_of(s)[i]
            == (#[trigger] s[i].0@, s[i].1.view()) by {
            if i < s.len() - 1 {
                assert(sub[i] == s[i]);
                assert(entry_views_of(s)[i] == entry_views_of(sub)[i]);
            }
        }
    }
}

/// The binding of `name` among a dictionary's entries: the first entry whose
/// key is `name`, if any.  Well-formed dictionaries have distinct keys, so
/// "first" is then the only one.
pub open spec fn dict_find(entries: Seq<(Seq<char>, NodeV)>, name: Seq<char>) -> Option<NodeV>
    decreases entries.len(),
{
    if entries.len() == 0 {
        None
    } else if entries[0].0 == name {
        Some(entries[0].1)
    } else {
        dict_find(entries.subrange(1, entries.len() as int), name)
    }
}

/// A found binding is one of the entries.
pub proof fn lemma_dict_find_element(entries: Seq<(Seq<char>, NodeV)>, name: Seq<char>, v: NodeV)
    requires
        dict_find(entries, name) == Some(v),
    ensures
        exists|i: int| 0 <= i < entries.len() && #[trigger] entries[i] == (name, v),
    decreases entries.len(),
{
    if entries[0].0 == name {
        assert(entries[0] == (name, v));
    } else {
        let sub = entries.subrange(1, entries.len() as int);
        lemma_dict_find_element(sub, name, v);
        let j = choose|j: int| 0 <= j < sub.len() && #[trigger] sub[j] == (name, v);
        assert(entries[j + 1] == sub[j]);
    }
}

/// Resolution of `name` against a scope, following the parent chain.
///
/// The current frame must be a dictionary; its entries are searched first,
/// then the frame reached through the reserved parent key, and so on.  A
/// chain that runs out, or that reaches a parent which is not a dictionary,
/// yields a lookup failure naming the identifier; a non-dictionary current
/// frame is a type failure.
pub open spec fn lookup_spec(scope: NodeV, name: Seq<char>) -> Result<NodeV, ErrorV>
    decreases scope,
{
    match scope {
        NodeV::Dict(entries) => match dict_find(entries, name) {
            Some(v) => Ok(v),
            None => match dict_find(entries, up_key()) {
                Some(parent) => if parent is Dict {
                    proof {
                        lemma_dict_find_element(entries, up_key(), parent);
                        let i = choose|i: int|
                            0 <= i < entries.len() && #[trigger] entries[i] == (up_key(), parent);
                        assert(decreases_to!(scope => entries));
                        assert(decreases_to!(entries => entries[i]));
                        assert(decreases_to!(entries[i] => entries[i].1));
                        assert(decreases_to!(scope => parent));
                    }
                    lookup_spec(parent, name)
                } else {
                    Err(ErrorV::LookupError(name))
                },
                None => Err(ErrorV::LookupError(name)),
            },
        },
        _ => Err(ErrorV::TypeError(Kind::Dict, scope)),
    }
}

impl Node {
    /// Deep copy: the copy has the same mathematical value as the original.
    #[verifier::loop_isolation(false)]
    pub fn dup(&self) -> (r: Node)
        ensures
            r@ == self@,
        decreases self,
    {
        match self {
            Node::Dict(entries) => {
                let mut out: Vec<(String, Node)> = Vec::new();
                let mut i: usize = 0;
                while i < entries.len()
                    invariant
                        i <= entries.len(),
                        out@.len() == i,
                        forall|j: int| 0 <= j < i ==> #[trigger] out@[j].0 == entries@[j].0
                            && out@[j].1.view() == entries@[j].1.view(),
                    decreases entries.len() - i,
                {
                    proof {
                        broadcast use vstd::std_specs::vec::axiom_vec_index_decreases;

                        assert(*self == Node::Dict(*entries));
                        assert(decreases_to!(*self => *entries));
                        assert(decreases_to!(*entries => entries[i as int]));
                        assert(decreases_to!(*self => entries[i as int].1));
                    }
                    let pair = &entries[i];
                    out.push((pair.0.clone(), pair.1.dup()));
                    i += 1;
                }
                proof {
                    lemma_entry_views_of(out@);
                    lemma_entry_views_of(entries@);
                    assert forall|k: int| 0 <= k < entries@.len() implies entry_views_of(out@)[k]
                        == entry_views_of(entries@)[k] by {
                        assert(out@[k].0 == entries@[k].0
                            && out@[k].1.view() == entries@[k].1.view());
                        assert(entry_views_of(out@)[k] == (out@[k].0@, out@[k].1.view()));
                        assert(entry_views_of(entries@)[k]
                            == (entries@[k].0@, entries@[k].1.view()));
                    }
                    assert(entry_views_of(out@) =~= entry_views_of(entries@));
                }
                Node::Dict(out)
            }
            Node::List(items) => {
                let mut out: Vec<Node> = Vec::new();
                let mut i: usize = 0;
                while i < items.len()
                    invariant
                        i <= items.len(),
                        out@.len() == i,
                        forall|j: int| 0 <= j < i ==> #[trigger] out@[j].view()
                            == items@[j].view(),
                    decreases items.len() - i,
                {
                    proof {
                        broadcast use vstd::std_specs::vec::axiom_vec_index_decreases;

                        assert(*self == Node::List(*items));
                        assert(decreases_to!(*self => *items));
                        assert(decreases_to!(*items => items[i as int]));
                    }
                    out.push(items[i].dup());
                    i += 1;
                }
                proof {
                    lemma_views_of(out@);
                    lemma_views_of(items@);
                    assert forall|k: int| 0 <= k < items@.len() implies views_of(out@)[k]
                        == views_of(items@)[k] by {
                        assert(out@[k].view() == items@[k].view());
                    }
                    assert(views_of(out@) =~= views_of(items@));
                }
                Node::List(out)
            }
            Node::Str(s) => Node::Str(s.clone()),
            Node::Num(bits) => Node::Num(*bits),
            Node::Bool(b) => Node::Bool(*b),
            Node::Id(name) => Node::Id(name.clone()),
            Node::Sym(name) => Node::Sym(name.clone()),
            Node::Block(params, body) => {
                let mut out: Vec<Node> = Vec::new();
                let mut i: usize = 0;
                while i < params.len()
                    invariant
                        i <= params.len(),
                        out@.len() == i,
                        forall|j: int| 0 <= j < i ==> #[trigger] out@[j].view()
                            == params@[j].view(),
                    decreases params.len() - i,
                {
                    proof {
                        broadcast use vstd::std_specs::vec::axiom_vec_index_decreases;

                        assert(*self == Node::Block(*params, *body));
                        assert(decreases_to!(*self => *params));
                        assert(decreases_to!(*params => params[i as int]));
                    }
                    out.push(params[i].dup());
                    i += 1;
                }
                proof {
                    lemma_views_of(out@);
                    lemma_views_of(params@);
                    assert forall|k: int| 0 <= k < params@.len() implies views_of(out@)[k]
                        == views_of(params@)[k] by {
                        assert(out@[k].view() == params@[k].view());
                    }
                    assert(views_of(out@) =~= views_of(params@));
                }
                Node::Block(out, Box::new(body.dup()))
            }
            Node::Native(op) => Node::Native(*op),
            Node::Nil => Node::Nil,
        }
    }
}

/// Index of the first entry bound to `name`, searching from the front.
pub(crate) fn find_entry(entries: &Vec<(String, Node)>, name: &str) -> (r: Option<usize>)
    ensures
        match r {
            Some(i) => 0 <= i < entries@.len() && entries@[i as int].0@ == name@
                && dict_find(entry_views_of(entries@), name@)
                    == Some(entries@[i as int].1.view())
                && (forall|j: int| 0 <= j < i ==> (#[trigger] entries@[j]).0@ != name@),
            None => dict_find(entry_views_of(entries@), name@) is None,
        },
{
    let ghost ev = entry_views_of(entries@);
    proof {
        lemma_entry_views_of(entries@);
    }
    let owned: String = name.to_owned();
    proof {
        assert(ev.subrange(0, ev.len() as int) =~= ev);
    }
    let mut i: usize = 0;
    while i < entries.len()
        invariant
            i <= entries.len(),
            owned@ == name@,
            ev == entry_views_of(entries@),
            ev.len() == entries@.len(),
            forall|j: int| 0 <= j < ev.len() ==> ev[j]
                == (#[trigger] entries@[j].0@, entries@[j].1.view()),
            dict_find(ev, name@) == dict_find(ev.subrange(i as int, ev.len() as int), name@),
            forall|j: int| 0 <= j < i ==> (#[trigger] entries@[j]).0@ != name@,
        decreases entries.len() - i,
    {
        if entries[i].0 == owned {
            proof {
                let tail = ev.subrange(i as int, ev.len() as int);
                assert(tail[0] == ev[i as int]);
            }
            return Some(i);
        }
        proof {
            let tail = ev.subrange(i as int, ev.len() as int);
            assert(tail[0] == ev[i as int]);
            assert(tail.subrange(1, tail.len() as int)
                =~= ev.subrange(i + 1, ev.len() as int));
        }
        i += 1;
    }
    proof {
        assert(ev.subrange(i as int, ev.len() as int) =~= Seq::empty());
    }
    None
}

/// Functional update of a dictionary's entries: rebind the first entry whose
/// key is `name`, or append a new entry when the key is absent.
pub open spec fn dict_set(
    s: Seq<(Seq<char>, NodeV)>,
    name: Seq<char>,
    v: NodeV,
) -> Seq<(Seq<char>, NodeV)>
    decreases s.len(),
{
    if s.len() == 0 {
        seq![(name, v)]
    } else if s[0].0 == name {
        seq![(name, v)] + s.subrange(1, s.len() as int)
    } else {
        seq![s[0]] + dict_set(s.subrange(1, s.len() as int), name, v)
    }
}

/// Rebinding a key present first at index `i` is an update in place.
pub proof fn lemma_dict_set_update(
    s: Seq<(Seq<char>, NodeV)>,
    name: Seq<char>,
    v: NodeV,
    i: int,
)
    requires
        0 <= i < s.len(),
        s[i].0 == name,
        forall|j: int| 0 <= j < i ==> (#[trigger] s[j]).0 != name,
    ensures
        dict_set(s, name, v) =~= s.update(i, (name, v)),
    decreases s.len(),
{
    if i == 0 {
    } else {
        let sub = s.subrange(1, s.len() as int);
        lemma_dict_set_update(sub, name, v, i - 1);
    }
}

/// Binding an absent key appends a new entry.
pub proof fn lemma_dict_set_append(s: Seq<(Seq<char>, NodeV)>, name: Seq<char>, v: NodeV)
    requires
        dict_find(s, name) is None,
    ensures
        dict_set(s, name, v) =~= s.push((name, v)),
    decreases s.len(),
{
    if s.len() > 0 {
        lemma_dict_set_append(s.subrange(1, s.len() as int), name, v);
    }
}

impl Node {
    /// Bind `k` to `val` in this node, which must be a dictionary: rebind the
    /// key if it is present, append the binding if it is not.  On any other
    /// variant the node is left unchanged and a type failure is returned.
    pub fn sdefine(&mut self, k: &str, val: Node) -> (r: Result<(), Error>)
        ensures
            match old(self)@ {
                NodeV::Dict(es) => r is Ok && final(self)@ == NodeV::Dict(dict_set(es, k@, val@)),
                _ => final(self)@ == old(self)@ && (match r {
                    Err(e) => e@ == ErrorV::TypeError(Kind::Dict, old(self)@),
                    Ok(_) => false,
                }),
            },
    {
        match self {
            Node::Dict(entries) => {
                proof {
                    lemma_entry_views_of(entries@);
                }
                let ghost ev = entry_views_of(entries@);
                match find_entry(entries, k) {
                    Some(i) => {
                        let ghost olde = entries@;
                        entries[i] = (k.to_owned(), val);
                        proof {
                            assert forall|j: int| 0 <= j < i implies (#[trigger] ev[j]).0
                                != k@ by {
                                assert(olde[j].0@ != k@);
                                assert(ev[j] == (olde[j].0@, olde[j].1.view()));
                            }
                            lemma_dict_set_update(ev, k@, val@, i as int);
                            lemma_entry_views_of(entries@);
                            assert forall|j: int| 0 <= j < entries@.len() implies
                                entry_views_of(entries@)[j] == dict_set(ev, k@, val@)[j] by {
                                assert(entry_views_of(entries@)[j]
                                    == (entries@[j].0@, entries@[j].1.view()));
                                if j != i as int {
                                    assert(entries@[j] == olde[j]);
                                    assert(ev[j] == (olde[j].0@, olde[j].1.view()));
                                }
                            }
                            assert(entry_views_of(entries@) =~= dict_set(ev, k@, val@));
                        }
                        Ok(())
                    }
                    None => {
                        let ghost olde = entries@;
                        entries.push((k.to_owned(), val));
                        proof {
                            lemma_dict_set_append(ev, k@, val@);
                            lemma_entry_views_of(entries@);
                            assert forall|j: int| 0 <= j < entries@.len() implies
                                entry_views_of(entries@)[j] == dict_set(ev, k@, val@)[j] by {
                                assert(entry_views_of(entries@)[j]
                                    == (entries@[j].0@, entries@[j].1.view()));
                                if j < olde.len() {
                                    assert(entries@[j] == olde[j]);
                                    assert(ev[j] == (olde[j].0@, olde[j].1.view()));
                                }
                            }
                            assert(entry_views_of(entries@) =~= dict_set(ev, k@, val@));
                        }
                        Ok(())
                    }
                }
            }
            _ => Err(Error::TypeError(Kind::Dict, self.dup())),
        }
    }
}

/// Wrap a node for use where an owned boxed node is called for, such as a
/// block body.
pub fn r(n: Node) -> (b: Box<Node>)
    ensures
        b == n,
{
    Box::new(n)
}

impl Node {
    /// Resolve `name` against this node taken as a scope, per the model
    /// [`lookup_spec`]: search this dictionary's entries, then the chain of
    /// parents reached through the reserved parent key.
    pub fn lookup(&self, name: &str) -> (r: Result<Node, Error>)
        ensures
            res_view(r) == lookup_spec(self@, name@),
        decreases self,
    {
        match self {
            Node::Dict(entries) => match find_entry(entries, name) {
                Some(i) => Ok(entries[i].1.dup()),
                None => match find_entry(entries, "^") {
                    Some(j) => {
                        let parent = &entries[j].1;
                        if matches!(parent, Node::Dict(_)) {
                            parent.lookup(name)
                        } else {
                            Err(Error::LookupError(name.to_owned()))
                        }
                    }
                    None => Err(Error::LookupError(name.to_owned())),
                },
            },
            _ => Err(Error::TypeError(Kind::Dict, self.dup())),
        }
    }
}

} // verus!
