//! The tree-walking model of Lox: it runs a resolved syntax tree directly,
//! with environments that closures share.
//!
//! Environments, classes, functions and instances live in arenas and are
//! named by their index. Functions borrow their declarations from the
//! program being run. Each statement, expression and call takes one unit of
//! fuel, so that every run ends: a run that uses up its fuel stops.
use vstd::prelude::*;

use crate::double::{double_equal, double_less, double_less_equal, negated};
use crate::ast::{Expr, ExprLiteral, ExprS, OpInfix, OpPrefix, Program, Stmt, StmtClass, StmtFun, StmtS, Var};
use crate::error::{AttributeError, Error, ErrorS, IoError, NameError, Span, SyntaxError, TypeError};
use crate::host::Host;
use crate::object::Native;
use crate::vm::wrap;

verus! {

/// A value of the tree-walking model. Classes, functions and instances are
/// named by their index in the interpreter's arenas.
#[derive(Debug)]
pub enum Object {
    Bool(bool),
    Class(usize),
    Function(usize),
    Instance(usize),
    Native(Native),
    Nil,
    /// The bits of a double.
    Number(u64),
    String(String),
}

impl Object {
    /// Lox truthiness: everything but `nil` and `false` is true.
    pub fn bool(&self) -> (r: bool)
        ensures
            r == truthy(*self),
    {
        match self {
            Object::Nil => false,
            Object::Bool(b) => *b,
            _ => true,
        }
    }

    /// A copy of the value; handles still name the same arena entries.
    pub fn duplicate(&self) -> (r: Object)
        ensures
            r == *self,
    {
        match self {
            Object::Bool(b) => Object::Bool(*b),
            Object::Class(c) => Object::Class(*c),
            Object::Function(f) => Object::Function(*f),
            Object::Instance(i) => Object::Instance(*i),
            Object::Native(n) => Object::Native(*n),
            Object::Nil => Object::Nil,
            Object::Number(n) => Object::Number(*n),
            Object::String(s) => Object::String(s.clone()),
        }
    }
}

pub open spec fn truthy(o: Object) -> bool {
    !(o is Nil || o == Object::Bool(false))
}

/// The index of the last entry of `list` under `name`.
pub open spec fn last_index<T>(list: Seq<(String, T)>, name: Seq<char>) -> Option<nat>
    decreases list.len(),
{
    if list.len() == 0 {
        None
    } else if list.last().0@ == name {
        Some((list.len() - 1) as nat)
    } else {
        last_index(list.drop_last(), name)
    }
}

/// What `list` holds under `name`: its last entry there.
pub open spec fn lookup<T>(list: Seq<(String, T)>, name: Seq<char>) -> Option<T> {
    match last_index(list, name) {
        Some(i) => Some(list[i as int].1),
        None => None,
    }
}

/// `list` with `key` bound to `value`: the last entry under `key` gets the
/// value, or a new entry is added at the end.
pub open spec fn bind<T>(list: Seq<(String, T)>, key: String, value: T) -> Seq<(String, T)> {
    match last_index(list, key@) {
        Some(i) => list.update(i as int, (list[i as int].0, value)),
        None => list.push((key, value)),
    }
}

proof fn lemma_last_index<T>(list: Seq<(String, T)>, name: Seq<char>)
    ensures
        last_index(list, name) matches Some(i) ==> i < list.len() && list[i as int].0@ == name
            && forall|j: int| i < j < list.len() ==> list[j].0@ != name,
        last_index(list, name) is None ==> forall|j: int| 0 <= j < list.len() ==> list[j].0@ != name,
    decreases list.len(),
{
    if list.len() > 0 && list.last().0@ != name {
        lemma_last_index(list.drop_last(), name);
        assert forall|j: int| 0 <= j < list.len() - 1 implies list[j] == list.drop_last()[j] by {}
    }
}

proof fn lemma_last_index_at<T>(list: Seq<(String, T)>, name: Seq<char>, i: int)
    requires
        0 <= i < list.len(),
        list[i].0@ == name,
        forall|j: int| i < j < list.len() ==> list[j].0@ != name,
    ensures
        last_index(list, name) == Some(i as nat),
    decreases list.len(),
{
    if i < list.len() - 1 {
        assert(list.last().0@ != name);
        lemma_last_index_at(list.drop_last(), name, i);
    }
}

proof fn lemma_last_index_none<T>(list: Seq<(String, T)>, name: Seq<char>)
    requires
        forall|j: int| 0 <= j < list.len() ==> list[j].0@ != name,
    ensures
        last_index(list, name) is None,
    decreases list.len(),
{
    if list.len() > 0 {
        assert(list.last().0@ != name);
        lemma_last_index_none(list.drop_last(), name);
    }
}

/// Where two lists hold the same names in the same places, the last entry
/// under each name is in the same place.
proof fn lemma_last_index_names<T>(a: Seq<(String, T)>, b: Seq<(String, T)>, name: Seq<char>)
    requires
        a.len() == b.len(),
        forall|j: int| 0 <= j < a.len() ==> a[j].0 == b[j].0,
    ensures
        last_index(a, name) == last_index(b, name),
{
    lemma_last_index(a, name);
    match last_index(a, name) {
        Some(i) => lemma_last_index_at(b, name, i as int),
        None => lemma_last_index_none(b, name),
    }
}

/// A read gives back what a write under the same name wrote, and a write
/// leaves what every other name holds as it was.
pub proof fn law_bind_lookup<T>(list: Seq<(String, T)>, key: String, value: T, other: Seq<char>)
    ensures
        lookup(bind(list, key, value), key@) == Some(value),
        other != key@ ==> lookup(bind(list, key, value), other) == lookup(list, other),
{
    lemma_last_index(list, key@);
    let bound = bind(list, key, value);
    match last_index(list, key@) {
        Some(i) => {
            lemma_last_index_names(list, bound, key@);
            lemma_last_index_names(list, bound, other);
            lemma_last_index(list, other);
            if other != key@ {
                if let Some(j) = last_index(list, other) {
                    assert(j != i);
                    assert(bound[j as int] == list[j as int]);
                }
            }
        },
        None => {
            lemma_last_index_at(bound, key@, list.len() as int);
            if other != key@ {
                assert(bound.drop_last() =~= list);
                assert(bound.last().0@ == key@);
                assert(last_index(bound, other) == last_index(list, other));
                lemma_last_index(list, other);
            }
        },
    }
}

/// The index of the last entry of `list` under `name`, if any.
fn find<T>(list: &Vec<(String, T)>, name: &str) -> (r: Option<usize>)
    ensures
        r matches Some(i) ==> last_index(list@, name@) == Some(i as nat) && i < list@.len(),
        r is None <==> last_index(list@, name@) is None,
{
    let key = name.to_owned();
    let mut i = list.len();
    while i > 0
        invariant
            i <= list@.len(),
            key@ == name@,
            forall|j: int| i <= j < list@.len() ==> list@[j].0@ != name@,
        decreases i,
    {
        if list[i - 1].0 == key {
            proof {
                lemma_last_index_at(list@, name@, i - 1);
            }
            return Some(i - 1);
        }
        i = i - 1;
    }
    proof {
        lemma_last_index_none(list@, name@);
    }
    None
}

/// Binds `key` to `value` in `list`.
fn bind_in<T>(list: &mut Vec<(String, T)>, key: String, value: T)
    ensures
        final(list)@ == bind(old(list)@, key, value),
{
    proof {
        lemma_last_index(old(list)@, key@);
    }
    match find(list, key.as_str()) {
        Some(i) => {
            let name = list[i].0.clone();
            list.set(i, (name, value));
        },
        None => {
            list.push((key, value));
        },
    }
}

/// A scope of variables.
pub struct EnvFrame {
    pub vars: Vec<(String, Object)>,
    pub parent: Option<usize>,
}

pub struct ClassObj {
    pub name: String,
    pub super_: Option<usize>,
    /// The methods: function indices by name; a later one overrides an
    /// earlier one.
    pub methods: Vec<(String, usize)>,
}

pub struct FunctionObj<'a> {
    pub decl: &'a StmtFun,
    /// The environment the function closes over.
    pub env: usize,
}

pub struct InstanceObj {
    pub class: usize,
    pub fields: Vec<(String, Object)>,
}

/// How a run stopped early.
pub enum Unwind {
    /// An error of the program.
    Error(ErrorS),
    /// A `return`, with its value, on its way to the function it leaves.
    Return(Option<Object>, Span),
    /// The tree or the arenas are not what the resolver and the interpreter
    /// make.
    Fault,
    /// The fuel ran out.
    OutOfFuel,
}

/// What a whole run came to.
pub enum Outcome {
    Done,
    Errors(Vec<ErrorS>),
    Fault,
    OutOfFuel,
}

pub struct Interpreter<'a> {
    pub envs: Vec<EnvFrame>,
    pub classes: Vec<ClassObj>,
    pub functions: Vec<FunctionObj<'a>>,
    pub instances: Vec<InstanceObj>,
    /// The environment of the globals.
    pub globals: usize,
    /// The lines handed to the host to print, in order.
    pub written: Ghost<Seq<Seq<char>>>,
}

/// Whether every handle in `o` names an entry of arenas of these sizes.
pub open spec fn valid_in(o: Object, nc: nat, nf: nat, ni: nat) -> bool {
    match o {
        Object::Class(c) => c < nc,
        Object::Function(f) => f < nf,
        Object::Instance(i) => i < ni,
        _ => true,
    }
}

pub open spec fn vars_valid(vars: Seq<(String, Object)>, nc: nat, nf: nat, ni: nat) -> bool {
    forall|j: int| 0 <= j < vars.len() ==> valid_in(#[trigger] vars[j].1, nc, nf, ni)
}

proof fn lemma_bind_valid(vars: Seq<(String, Object)>, key: String, value: Object, nc: nat, nf: nat, ni: nat)
    requires
        vars_valid(vars, nc, nf, ni),
        valid_in(value, nc, nf, ni),
    ensures
        vars_valid(bind(vars, key, value), nc, nf, ni),
{
    lemma_last_index(vars, key@);
}

impl<'a> Interpreter<'a> {
    pub open spec fn valid(&self, o: Object) -> bool {
        valid_in(o, self.classes@.len(), self.functions@.len(), self.instances@.len())
    }

    pub open spec fn frame_ok(&self, fr: EnvFrame) -> bool {
        &&& fr.parent matches Some(p) ==> p < self.envs@.len()
        &&& vars_valid(fr.vars@, self.classes@.len(), self.functions@.len(), self.instances@.len())
    }

    pub open spec fn class_ok(&self, c: int, cl: ClassObj) -> bool {
        &&& cl.super_ matches Some(s) ==> s < c
        &&& forall|m: int| 0 <= m < cl.methods@.len() ==> #[trigger] cl.methods@[m].1 < self.functions@.len()
    }

    pub open spec fn instance_ok(&self, inst: InstanceObj) -> bool {
        &&& inst.class < self.classes@.len()
        &&& vars_valid(inst.fields@, self.classes@.len(), self.functions@.len(), self.instances@.len())
    }

    /// Every handle in the arenas names an entry of them, and a class's
    /// superclass was made before it.
    pub open spec fn wf(&self) -> bool {
        &&& self.globals < self.envs@.len()
        &&& forall|e: int| 0 <= e < self.envs@.len() ==> self.frame_ok(#[trigger] self.envs@[e])
        &&& forall|c: int| 0 <= c < self.classes@.len() ==> self.class_ok(c, #[trigger] self.classes@[c])
        &&& forall|f: int| 0 <= f < self.functions@.len() ==> (#[trigger] self.functions@[f]).env < self.envs@.len()
        &&& forall|i: int| 0 <= i < self.instances@.len() ==> self.instance_ok(#[trigger] self.instances@[i])
    }

    /// `self` came from `old` by operations of the interpreter: arenas only
    /// grow, classes and functions never change, environments keep their
    /// parents and instances their classes.
    pub open spec fn grows_from(&self, old: &Interpreter<'a>) -> bool {
        &&& self.envs@.len() >= old.envs@.len()
        &&& self.classes@.len() >= old.classes@.len()
        &&& self.functions@.len() >= old.functions@.len()
        &&& self.instances@.len() >= old.instances@.len()
        &&& self.globals == old.globals
        &&& forall|c: int| 0 <= c < old.classes@.len() ==> #[trigger] self.classes@[c] == old.classes@[c]
        &&& forall|f: int| 0 <= f < old.functions@.len() ==> #[trigger] self.functions@[f] == old.functions@[f]
        &&& forall|e: int| 0 <= e < old.envs@.len() ==> (#[trigger] self.envs@[e]).parent == old.envs@[e].parent
        &&& forall|i: int| 0 <= i < old.instances@.len() ==> (#[trigger] self.instances@[i]).class == old.instances@[i].class
    }

    /// What environment `env` itself binds to `name`.
    pub open spec fn env_lookup(&self, env: int, name: Seq<char>) -> Option<Object> {
        if 0 <= env < self.envs@.len() {
            lookup(self.envs@[env].vars@, name)
        } else {
            None
        }
    }

    /// The environment `depth` parents out from `env`.
    pub open spec fn ancestor_spec(&self, env: int, depth: nat) -> Option<int>
        decreases depth,
    {
        if !(0 <= env < self.envs@.len()) {
            None
        } else if depth == 0 {
            Some(env)
        } else {
            match self.envs@[env].parent {
                Some(p) => self.ancestor_spec(p as int, (depth - 1) as nat),
                None => None,
            }
        }
    }

    /// What the environment `depth` parents out from `env` binds to `name`.
    pub open spec fn lookup_at(&self, env: int, name: Seq<char>, depth: nat) -> Option<Object> {
        match self.ancestor_spec(env, depth) {
            Some(e) => self.env_lookup(e, name),
            None => None,
        }
    }

    /// An interpreter whose globals hold the native functions.
    pub fn new() -> (r: Interpreter<'a>)
        ensures
            r.wf(),
            r.envs@.len() == 1,
            r.globals == 0,
            r.envs@[0].parent is None,
            r.classes@.len() == 0,
            r.functions@.len() == 0,
            r.instances@.len() == 0,
            r.env_lookup(0, seq!['c', 'l', 'o', 'c', 'k']) == Some(Object::Native(Native::Clock)),
    {
        let mut vars: Vec<(String, Object)> = Vec::new();
        let name = String::from_str("clock");
        proof {
            reveal_strlit("clock");
            lemma_last_index_at(seq![(name, Object::Native(Native::Clock))], name@, 0);
            assert(name@ =~= seq!['c', 'l', 'o', 'c', 'k']);
        }
        vars.push((name, Object::Native(Native::Clock)));
        assert(vars@ =~= seq![(name, Object::Native(Native::Clock))]);
        let mut envs = Vec::new();
        envs.push(EnvFrame { vars, parent: None });
        Interpreter {
            envs,
            classes: Vec::new(),
            functions: Vec::new(),
            instances: Vec::new(),
            globals: 0,
            written: Ghost(Seq::empty()),
        }
    }

    /// A new, empty environment inside `parent`.
    pub fn with_parent(&mut self, parent: usize) -> (r: usize)
        requires
            old(self).wf(),
            parent < old(self).envs@.len(),
        ensures
            final(self).wf(),
            final(self).grows_from(&*old(self)),
            r == old(self).envs@.len(),
            final(self).envs@.len() == old(self).envs@.len() + 1,
            final(self).envs@[r as int].parent == Some(parent),
            final(self).envs@[r as int].vars@.len() == 0,
            final(self).written == old(self).written,
            forall|e: int| 0 <= e < old(self).envs@.len() ==> #[trigger] final(self).envs@[e] == old(self).envs@[e],
            final(self).classes == old(self).classes,
            final(self).functions == old(self).functions,
            final(self).instances == old(self).instances,
    {
        let n = self.envs.len();
        self.envs.push(EnvFrame { vars: Vec::new(), parent: Some(parent) });
        n
    }

    /// Whether `env` itself binds `name`.
    pub fn contains(&self, env: usize, name: &str) -> (r: bool)
        ensures
            r == self.env_lookup(env as int, name@) is Some,
    {
        if env >= self.envs.len() {
            return false;
        }
        find(&self.envs[env].vars, name).is_some()
    }

    /// What `env` itself binds to `name`.
    pub fn get(&self, env: usize, name: &str) -> (r: Option<Object>)
        ensures
            r == self.env_lookup(env as int, name@),
    {
        if env >= self.envs.len() {
            return None;
        }
        match find(&self.envs[env].vars, name) {
            Some(i) => Some(self.envs[env].vars[i].1.duplicate()),
            None => None,
        }
    }

    /// The environment `depth` parents out from `env`.
    pub fn ancestor(&self, env: usize, depth: usize) -> (r: Option<usize>)
        ensures
            r matches Some(e) ==> self.ancestor_spec(env as int, depth as nat) == Some(e as int)
                && e < self.envs@.len(),
            r is None <==> self.ancestor_spec(env as int, depth as nat) is None,
        decreases depth,
    {
        if env >= self.envs.len() {
            return None;
        }
        if depth == 0 {
            return Some(env);
        }
        match self.envs[env].parent {
            Some(p) => self.ancestor(p, depth - 1),
            None => None,
        }
    }

    /// What the environment `depth` parents out from `env` binds to `name`.
    pub fn get_at(&self, env: usize, name: &str, depth: usize) -> (r: Option<Object>)
        ensures
            r == self.lookup_at(env as int, name@, depth as nat),
    {
        match self.ancestor(env, depth) {
            Some(e) => self.get(e, name),
            None => None,
        }
    }

    /// Binds `name` to `value` in `env` itself, replacing its binding there
    /// if it has one.
    pub fn insert_var(&mut self, env: usize, name: &str, value: Object)
        requires
            old(self).wf(),
            old(self).valid(value),
            env < old(self).envs@.len(),
        ensures
            final(self).wf(),
            final(self).grows_from(&*old(self)),
            final(self).env_lookup(env as int, name@) == Some(value),
            forall|n: Seq<char>| n != name@ ==> #[trigger] final(self).env_lookup(env as int, n) == old(self).env_lookup(env as int, n),
            final(self).envs@.len() == old(self).envs@.len(),
            forall|e: int| 0 <= e < old(self).envs@.len() && e != env ==> #[trigger] final(self).envs@[e] == old(self).envs@[e],
            final(self).classes == old(self).classes,
            final(self).functions == old(self).functions,
            final(self).instances == old(self).instances,
    {
        let key = name.to_owned();
        proof {
            law_bind_lookup(old(self).envs@[env as int].vars@, key, value, name@);
            assert forall|n: Seq<char>| n != name@ implies lookup(bind(old(self).envs@[env as int].vars@, key, value), n)
                == lookup(old(self).envs@[env as int].vars@, n) by {
                law_bind_lookup(old(self).envs@[env as int].vars@, key, value, n);
            }
            lemma_bind_valid(old(self).envs@[env as int].vars@, key, value, old(self).classes@.len(),
                old(self).functions@.len(), old(self).instances@.len());
        }
        bind_in(&mut self.envs[env].vars, key, value);
        proof {
            assert(self.frame_ok(self.envs@[env as int]));
        }
    }

    /// Rebinds `name` where `env` itself binds it; false, with nothing
    /// changed, where it does not.
    pub fn set(&mut self, env: usize, name: &str, value: Object) -> (ok: bool)
        requires
            old(self).wf(),
            old(self).valid(value),
        ensures
            ok == old(self).env_lookup(env as int, name@) is Some,
            ok ==> final(self).env_lookup(env as int, name@) == Some(value),
            forall|n: Seq<char>| n != name@ ==> #[trigger] final(self).env_lookup(env as int, n) == old(self).env_lookup(env as int, n),
            !ok ==> *final(self) == *old(self),
            final(self).wf(),
            final(self).grows_from(&*old(self)),
            final(self).envs@.len() == old(self).envs@.len(),
            forall|e: int| 0 <= e < old(self).envs@.len() && e != env ==> #[trigger] final(self).envs@[e] == old(self).envs@[e],
            final(self).classes == old(self).classes,
            final(self).functions == old(self).functions,
            final(self).instances == old(self).instances,
    {
        if env >= self.envs.len() || !self.contains(env, name) {
            return false;
        }
        self.insert_var(env, name, value);
        true
    }

    /// Rebinds `name` in the environment `depth` parents out from `env`;
    /// false, with nothing changed, where that one does not bind it.
    pub fn set_at(&mut self, env: usize, name: &str, value: Object, depth: usize) -> (ok: bool)
        requires
            old(self).wf(),
            old(self).valid(value),
        ensures
            ok == old(self).lookup_at(env as int, name@, depth as nat) is Some,
            ok ==> final(self).lookup_at(env as int, name@, depth as nat) == Some(value),
            !ok ==> *final(self) == *old(self),
            final(self).wf(),
            final(self).grows_from(&*old(self)),
            final(self).classes == old(self).classes,
            final(self).functions == old(self).functions,
            final(self).instances == old(self).instances,
    {
        match self.ancestor(env, depth) {
            Some(e) => {
                let ok = self.set(e, name, value);
                proof {
                    if ok {
                        self.lemma_ancestor_same(&*old(self), env as int, depth as nat);
                    }
                }
                ok
            },
            None => false,
        }
    }

    /// Where two states agree on the parents of their environments, they
    /// agree on the ancestors.
    proof fn lemma_ancestor_same(&self, other: &Interpreter<'a>, env: int, depth: nat)
        requires
            self.envs@.len() == other.envs@.len(),
            forall|e: int| 0 <= e < other.envs@.len() ==> (#[trigger] self.envs@[e]).parent == other.envs@[e].parent,
        ensures
            self.ancestor_spec(env, depth) == other.ancestor_spec(env, depth),
        decreases depth,
    {
        if 0 <= env < self.envs@.len() && depth > 0 {
            if let Some(p) = self.envs@[env].parent {
                self.lemma_ancestor_same(other, p as int, (depth - 1) as nat);
            }
        }
    }

    /// The name of a value's type, as errors show it.
    pub open spec fn type_spec(&self, o: Object) -> Seq<char> {
        match o {
            Object::Bool(_) => seq!['b', 'o', 'o', 'l'],
            Object::Class(_) => seq!['c', 'l', 'a', 's', 's'],
            Object::Function(_) => seq!['f', 'u', 'n', 'c', 't', 'i', 'o', 'n'],
            Object::Native(_) => seq!['f', 'u', 'n', 'c', 't', 'i', 'o', 'n'],
            Object::Instance(i) => self.classes@[self.instances@[i as int].class as int].name@,
            Object::Nil => seq!['n', 'i', 'l'],
            Object::Number(_) => seq!['n', 'u', 'm', 'b', 'e', 'r'],
            Object::String(_) => seq!['s', 't', 'r', 'i', 'n', 'g'],
        }
    }

    /// The name of a value's type, as errors show it: an instance goes by
    /// the name of its class.
    pub fn type_of(&self, o: &Object) -> (s: String)
        requires
            self.wf(),
            self.valid(*o),
        ensures
            s@ == self.type_spec(*o),
    {
        proof {
            reveal_strlit("bool");
            reveal_strlit("class");
            reveal_strlit("function");
            reveal_strlit("nil");
            reveal_strlit("number");
            reveal_strlit("string");
        }
        match o {
            Object::Bool(_) => String::from_str("bool"),
            Object::Class(_) => String::from_str("class"),
            Object::Function(_) => String::from_str("function"),
            Object::Native(_) => String::from_str("function"),
            Object::Instance(i) => {
                let class = self.instances[*i].class;
                self.classes[class].name.clone()
            },
            Object::Nil => String::from_str("nil"),
            Object::Number(_) => String::from_str("number"),
            Object::String(_) => String::from_str("string"),
        }
    }

    /// A value as `print` shows it; a number's text comes from the host.
    pub open spec fn display_spec(&self, o: Object) -> Seq<char> {
        match o {
            Object::Bool(b) => if b { seq!['t', 'r', 'u', 'e'] } else { seq!['f', 'a', 'l', 's', 'e'] },
            Object::Class(c) => seq!['<', 'c', 'l', 'a', 's', 's', ' '] + self.classes@[c as int].name@ + seq!['>'],
            Object::Function(f) => seq!['<', 'f', 'u', 'n', 'c', 't', 'i', 'o', 'n', ' ']
                + self.functions@[f as int].decl.name@ + seq!['>'],
            Object::Instance(i) => seq!['<', 'o', 'b', 'j', 'e', 'c', 't', ' ']
                + self.classes@[self.instances@[i as int].class as int].name@ + seq!['>'],
            Object::Native(_) => seq!['<', 'n', 'a', 't', 'i', 'v', 'e', ' ', 'c', 'l', 'o', 'c', 'k', '>'],
            Object::Nil => seq!['n', 'i', 'l'],
            Object::Number(_) => Seq::empty(),
            Object::String(s) => s@,
        }
    }

    /// A value as `print` shows it.
    pub fn display<H: Host>(&self, o: &Object, host: &H) -> (s: String)
        requires
            self.wf(),
            self.valid(*o),
        ensures
            !(*o is Number) ==> s@ == self.display_spec(*o),
    {
        proof {
            reveal_strlit("true");
            reveal_strlit("false");
            reveal_strlit("<class ");
            reveal_strlit("<function ");
            reveal_strlit("<object ");
            reveal_strlit("<native clock>");
            reveal_strlit(">");
            reveal_strlit("nil");
        }
        match o {
            Object::Bool(b) => if *b { String::from_str("true") } else { String::from_str("false") },
            Object::Class(c) => wrap("<class ", self.classes[*c].name.as_str(), ">"),
            Object::Function(f) => wrap("<function ", self.functions[*f].decl.name.as_str(), ">"),
            Object::Instance(i) => {
                let class = self.instances[*i].class;
                wrap("<object ", self.classes[class].name.as_str(), ">")
            },
            Object::Native(_) => String::from_str("<native clock>"),
            Object::Nil => String::from_str("nil"),
            Object::Number(n) => host.display_number(*n),
            Object::String(s) => s.clone(),
        }
    }

    /// The class of `c`, or the nearest class it inherits from, that has a
    /// method `name`, and that method's function.
    pub open spec fn method_spec(&self, c: int, name: Seq<char>) -> Option<usize>
        decreases c,
    {
        if !(0 <= c < self.classes@.len()) {
            None
        } else {
            match lookup(self.classes@[c].methods@, name) {
                Some(f) => Some(f),
                None => match self.classes@[c].super_ {
                    Some(s) => if s < c { self.method_spec(s as int, name) } else { None },
                    None => None,
                },
            }
        }
    }

    proof fn lemma_method_valid(&self, c: int, name: Seq<char>)
        requires
            self.wf(),
        ensures
            self.method_spec(c, name) matches Some(f) ==> f < self.functions@.len(),
        decreases c,
    {
        if 0 <= c < self.classes@.len() {
            let cl = self.classes@[c];
            assert(self.class_ok(c, cl));
            lemma_last_index(cl.methods@, name);
            if lookup(cl.methods@, name) is None {
                if let Some(s) = cl.super_ {
                    self.lemma_method_valid(s as int, name);
                }
            }
        }
    }

    /// The function of the method `name` that instances of class `class`
    /// have, searching the superclasses in turn.
    pub fn find_method(&self, class: usize, name: &str) -> (r: Option<usize>)
        requires
            self.wf(),
        ensures
            r == self.method_spec(class as int, name@),
            r matches Some(f) ==> f < self.functions@.len(),
        decreases class,
    {
        proof {
            self.lemma_method_valid(class as int, name@);
        }
        if class >= self.classes.len() {
            return None;
        }
        match find(&self.classes[class].methods, name) {
            Some(m) => Some(self.classes[class].methods[m].1),
            None => match self.classes[class].super_ {
                Some(s) => if s < class { self.find_method(s, name) } else { None },
                None => None,
            },
        }
    }

    /// A copy of function `f` bound to `this`: it closes over a new
    /// environment, inside the function's own, that binds `this`.
    pub fn bind_method(&mut self, f: usize, this: Object) -> (r: usize)
        requires
            old(self).wf(),
            old(self).valid(this),
            f < old(self).functions@.len(),
        ensures
            final(self).wf(),
            final(self).grows_from(&*old(self)),
            r == old(self).functions@.len(),
            final(self).functions@.len() == r + 1,
            final(self).functions@[r as int].decl == old(self).functions@[f as int].decl,
            final(self).functions@[r as int].env == old(self).envs@.len(),
            final(self).envs@.len() == old(self).envs@.len() + 1,
            final(self).envs@[old(self).envs@.len() as int].parent == Some(old(self).functions@[f as int].env),
            final(self).env_lookup(old(self).envs@.len() as int, seq!['t', 'h', 'i', 's']) == Some(this),
            forall|e: int| 0 <= e < old(self).envs@.len() ==> #[trigger] final(self).envs@[e] == old(self).envs@[e],
            final(self).classes == old(self).classes,
            final(self).instances == old(self).instances,
    {
        let parent = self.functions[f].env;
        let env = self.with_parent(parent);
        proof {
            reveal_strlit("this");
            assert("this"@ =~= seq!['t', 'h', 'i', 's']);
        }
        self.insert_var(env, "this", this);
        let decl = self.functions[f].decl;
        let ghost before = *self;
        self.functions.push(FunctionObj { decl, env });
        proof {
            assert(self.wf()) by {
                assert forall|e: int| 0 <= e < self.envs@.len() implies self.frame_ok(#[trigger] self.envs@[e]) by {
                    assert(before.frame_ok(before.envs@[e]));
                }
                assert forall|c: int| 0 <= c < self.classes@.len() implies self.class_ok(c, #[trigger] self.classes@[c]) by {
                    assert(before.class_ok(c, before.classes@[c]));
                }
                assert forall|i: int| 0 <= i < self.instances@.len() implies self.instance_ok(#[trigger] self.instances@[i]) by {
                    assert(before.instance_ok(before.instances@[i]));
                }
            }
        }
        r_index(self.functions.len() - 1)
    }
}

/// An index, unchanged.
fn r_index(i: usize) -> (r: usize)
    ensures
        r == i,
{
    i
}

impl<'a> Interpreter<'a> {
    /// What reading property `name` of `object` gives: a field of an
    /// instance, else a method of its class bound to it.
    pub fn get_property(&mut self, object: &Object, name: &str, span: Span) -> (r: Result<Object, ErrorS>)
        requires
            old(self).wf(),
            old(self).valid(*object),
        ensures
            final(self).wf(),
            final(self).grows_from(&*old(self)),
            r matches Ok(o) ==> final(self).valid(o),
            !(*object is Instance) ==> *final(self) == *old(self) && no_such_attribute(r, old(self).type_spec(*object), name@, span),
            *object matches Object::Instance(i) ==> {
                let fields = old(self).instances@[i as int].fields@;
                let class = old(self).instances@[i as int].class as int;
                &&& lookup(fields, name@) matches Some(v) ==> r == Ok::<Object, ErrorS>(v) && *final(self) == *old(self)
                &&& lookup(fields, name@) is None && old(self).method_spec(class, name@) is Some ==> {
                    &&& r == Ok::<Object, ErrorS>(Object::Function(old(self).functions@.len() as usize))
                    &&& final(self).functions@[old(self).functions@.len() as int].decl
                        == old(self).functions@[old(self).method_spec(class, name@)->0 as int].decl
                    &&& final(self).env_lookup(final(self).functions@[old(self).functions@.len() as int].env as int,
                        seq!['t', 'h', 'i', 's']) == Some(*object)
                }
                &&& lookup(fields, name@) is None && old(self).method_spec(class, name@) is None ==> *final(self)
                    == *old(self) && no_such_attribute(r, old(self).type_spec(*object), name@, span)
            },
    {
        match object {
            Object::Instance(i) => {
                let i = *i;
                let class = self.instances[i].class;
                match find(&self.instances[i].fields, name) {
                    Some(k) => {
                        proof {
                            assert(self.instance_ok(self.instances@[i as int]));
                        }
                        return Ok(self.instances[i].fields[k].1.duplicate());
                    },
                    None => {},
                }
                match self.find_method(class, name) {
                    Some(f) => {
                        let g = self.bind_method(f, Object::Instance(i));
                        Ok(Object::Function(g))
                    },
                    None => Err((
                        Error::AttributeError(
                            AttributeError::NoSuchAttribute { type_: self.type_of(object), name: name.to_owned() },
                        ),
                        span,
                    )),
                }
            },
            _ => Err((
                Error::AttributeError(
                    AttributeError::NoSuchAttribute { type_: self.type_of(object), name: name.to_owned() },
                ),
                span,
            )),
        }
    }

    /// Sets field `name` of an instance to `value`.
    pub fn set_property(&mut self, object: &Object, name: &str, value: Object, span: Span) -> (r: Result<(), ErrorS>)
        requires
            old(self).wf(),
            old(self).valid(*object),
            old(self).valid(value),
        ensures
            final(self).wf(),
            final(self).grows_from(&*old(self)),
            final(self).classes == old(self).classes,
            final(self).functions == old(self).functions,
            final(self).envs == old(self).envs,
            final(self).instances@.len() == old(self).instances@.len(),
            *object matches Object::Instance(i) ==> r is Ok && lookup(final(self).instances@[i as int].fields@, name@)
                == Some(value) && forall|n: Seq<char>| n != name@ ==> #[trigger] lookup(
                final(self).instances@[i as int].fields@,
                n,
            ) == lookup(old(self).instances@[i as int].fields@, n),
            !(*object is Instance) ==> *final(self) == *old(self) && no_such_attribute(r, old(self).type_spec(*object), name@, span),
    {
        match object {
            Object::Instance(i) => {
                let i = *i;
                let key = name.to_owned();
                proof {
                    let fields = old(self).instances@[i as int].fields@;
                    assert(old(self).instance_ok(old(self).instances@[i as int]));
                    law_bind_lookup(fields, key, value, name@);
                    assert forall|n: Seq<char>| n != name@ implies lookup(bind(fields, key, value), n) == lookup(fields, n) by {
                        law_bind_lookup(fields, key, value, n);
                    }
                    lemma_bind_valid(fields, key, value, old(self).classes@.len(), old(self).functions@.len(),
                        old(self).instances@.len());
                }
                bind_in(&mut self.instances[i].fields, key, value);
                proof {
                    assert(self.instance_ok(self.instances@[i as int]));
                }
                Ok(())
            },
            _ => Err((
                Error::AttributeError(
                    AttributeError::NoSuchAttribute { type_: self.type_of(object), name: name.to_owned() },
                ),
                span,
            )),
        }
    }
}

/// Whether `r` is the error that an object has no attribute `name`.
pub open spec fn no_such_attribute<T>(r: Result<T, ErrorS>, type_: Seq<char>, name: Seq<char>, span: Span) -> bool {
    match r {
        Err((Error::AttributeError(AttributeError::NoSuchAttribute { type_: t, name: n }), sp)) => t@ == type_
            && n@ == name && sp == span,
        _ => false,
    }
}

/// Whether two values are equal under `==`; for two numbers it is the host's
/// comparison of doubles.
pub open spec fn same_object(a: Object, b: Object) -> bool {
    match (a, b) {
        (Object::Bool(x), Object::Bool(y)) => x == y,
        (Object::Class(x), Object::Class(y)) => x == y,
        (Object::Function(x), Object::Function(y)) => x == y,
        (Object::Instance(x), Object::Instance(y)) => x == y,
        (Object::Native(x), Object::Native(y)) => x == y,
        (Object::Nil, Object::Nil) => true,
        (Object::String(x), Object::String(y)) => x@ == y@,
        _ => false,
    }
}

/// `lt op rt` on the values and step counts of its operands, for `==`,
/// `!=`, `and` and `or`: the value and the steps the operands take (`and`
/// and `or` skip the right operand when the left one decides).
pub open spec fn pure_infix(op: OpInfix, a: Option<(Object, nat)>, b: Option<(Object, nat)>) -> Option<(Object, nat)> {
    match (a, b) {
        (Some((x, n)), Some((y, m))) => if op is LogicAnd {
            if truthy(x) {
                Some((y, n + m))
            } else {
                Some((x, n))
            }
        } else if op is LogicOr {
            if truthy(x) {
                Some((x, n))
            } else {
                Some((y, n + m))
            }
        } else if op is Equal {
            Some((Object::Bool(same_object(x, y)), n + m))
        } else if op is NotEqual {
            Some((Object::Bool(!same_object(x, y)), n + m))
        } else {
            None
        },
        _ => None,
    }
}

/// The value of an expression built from `nil`, `true` and `false` with
/// `!`, `==`, `!=`, `and` and `or`, and the number of evaluation steps it
/// takes; `None` for any other expression.
pub open spec fn pure_eval(e: Expr) -> Option<(Object, nat)>
    decreases e,
{
    match e {
        Expr::Literal(ExprLiteral::Nil) => Some((Object::Nil, 1)),
        Expr::Literal(ExprLiteral::Bool(b)) => Some((Object::Bool(b), 1)),
        Expr::Prefix(p) => if p.op is Not {
            match pure_eval(p.rt.0) {
                Some((v, n)) => Some((Object::Bool(!truthy(v)), n + 1)),
                None => None,
            }
        } else {
            None
        },
        Expr::Infix(i) => match pure_infix(i.op, pure_eval(i.lt.0), pure_eval(i.rt.0)) {
            Some((v, n)) => Some((v, n + 1)),
            None => None,
        },
        _ => None,
    }
}

/// How `print` shows `nil` and the booleans.
pub open spec fn pure_text(v: Object) -> Seq<char> {
    match v {
        Object::Bool(b) => if b { seq!['t', 'r', 'u', 'e'] } else { seq!['f', 'a', 'l', 's', 'e'] },
        Object::Nil => seq!['n', 'i', 'l'],
        _ => Seq::empty(),
    }
}

/// For a list of `print` statements of such expressions: the lines they
/// print and the fuel they take; `None` for any other list.
pub open spec fn pure_prints(ss: Seq<StmtS>) -> Option<(Seq<Seq<char>>, nat)>
    decreases ss.len(),
{
    if ss.len() == 0 {
        Some((Seq::empty(), 0))
    } else {
        match (pure_prints(ss.drop_last()), ss.last().0) {
            (Some((lines, n)), Stmt::Print(p)) => match pure_eval(p.value.0) {
                Some((v, m)) => Some((lines.push(pure_text(v)), n + m + 1)),
                None => None,
            },
            _ => None,
        }
    }
}

/// The prefixes of such a list are such lists too, and take no more fuel.
proof fn lemma_pure_prints_prefix(ss: Seq<StmtS>, k: int)
    requires
        pure_prints(ss) is Some,
        0 <= k <= ss.len(),
    ensures
        pure_prints(ss.take(k)) is Some,
        pure_prints(ss.take(k))->Some_0.1 <= pure_prints(ss)->Some_0.1,
    decreases ss.len() - k,
{
    if k < ss.len() {
        lemma_pure_prints_prefix(ss, k + 1);
        assert(ss.take(k + 1).drop_last() =~= ss.take(k));
    } else {
        assert(ss.take(k) =~= ss);
    }
}

/// What such an expression gives is `nil` or a boolean.
pub proof fn lemma_pure_value(e: Expr)
    requires
        pure_eval(e) is Some,
    ensures
        pure_eval(e)->Some_0.0 is Nil || pure_eval(e)->Some_0.0 is Bool,
    decreases e,
{
    match e {
        Expr::Prefix(p) => {
            lemma_pure_value(p.rt.0);
        },
        Expr::Infix(i) => {
            lemma_pure_value(i.lt.0);
            lemma_pure_value(i.rt.0);
        },
        _ => {},
    }
}

/// What a comparison or equality operator answers on two numbers; `None`
/// for the arithmetic operators.
pub open spec fn number_compared(op: OpInfix, x: u64, y: u64) -> Option<bool> {
    match op {
        OpInfix::Less => Some(double_less(x, y)),
        OpInfix::LessEqual => Some(double_less_equal(x, y)),
        OpInfix::Greater => Some(double_less(y, x)),
        OpInfix::GreaterEqual => Some(double_less_equal(y, x)),
        OpInfix::Equal => Some(double_equal(x, y)),
        OpInfix::NotEqual => Some(!double_equal(x, y)),
        _ => None,
    }
}

/// On two finite numbers, each comparison and equality operator answers as
/// the numbers they denote compare.
pub proof fn lemma_number_comparisons(x: u64, y: u64)
    requires
        crate::double::finite(x),
        crate::double::finite(y),
    ensures
        number_compared(OpInfix::Less, x, y) == Some(crate::double::number_value(x) < crate::double::number_value(y)),
        number_compared(OpInfix::LessEqual, x, y) == Some(crate::double::number_value(x) <= crate::double::number_value(y)),
        number_compared(OpInfix::Greater, x, y) == Some(crate::double::number_value(x) > crate::double::number_value(y)),
        number_compared(OpInfix::GreaterEqual, x, y) == Some(crate::double::number_value(x) >= crate::double::number_value(y)),
        number_compared(OpInfix::Equal, x, y) == Some(crate::double::number_value(x) == crate::double::number_value(y)),
        number_compared(OpInfix::NotEqual, x, y) == Some(crate::double::number_value(x) != crate::double::number_value(y)),
{
    crate::double::lemma_comparisons_are_numeric(x, y);
    crate::double::lemma_comparisons_are_numeric(y, x);
}

/// Lox `==`: classes, functions and instances are equal only to
/// themselves.
pub fn objects_equal<H: Host>(a: &Object, b: &Object, host: &H) -> (r: bool)
    ensures
        !(*a is Number && *b is Number) ==> r == same_object(*a, *b),
        (*a is Number && *b is Number) ==> r == double_equal(a->Number_0, b->Number_0),
{
    match (a, b) {
        (Object::Bool(x), Object::Bool(y)) => *x == *y,
        (Object::Class(x), Object::Class(y)) => *x == *y,
        (Object::Function(x), Object::Function(y)) => *x == *y,
        (Object::Instance(x), Object::Instance(y)) => *x == *y,
        (Object::Native(_), Object::Native(_)) => true,
        (Object::Nil, Object::Nil) => true,
        (Object::Number(x), Object::Number(y)) => crate::double::equal(*x, *y),
        (Object::String(x), Object::String(y)) => *x == *y,
        _ => false,
    }
}

/// Whether `r` is the error that `name` is not defined.
pub open spec fn not_defined<T>(r: Result<T, Unwind>, name: Seq<char>, span: Span) -> bool {
    match r {
        Err(Unwind::Error((Error::NameError(NameError::NotDefined { name: n }), sp))) => n@ == name && sp == span,
        _ => false,
    }
}

/// Whether `r` is the error that an infix operator does not apply to
/// operands of these types.
pub open spec fn unsupported_infix(
    r: Result<Object, ErrorS>,
    op: OpInfix,
    lt_type: Seq<char>,
    rt_type: Seq<char>,
    span: Span,
) -> bool {
    match r {
        Err((Error::TypeError(TypeError::UnsupportedOperandInfix { op: o, lt_type: a, rt_type: b }), sp)) => o@
            == crate::ast::infix_text(op) && a@ == lt_type && b@ == rt_type && sp == span,
        _ => false,
    }
}

/// Whether `r` is the string that joins two strings.
pub open spec fn concatenation(r: Result<Object, ErrorS>, a: Object, b: Object) -> bool {
    match (r, a, b) {
        (Ok(Object::String(c)), Object::String(x), Object::String(y)) => c@ == x@ + y@,
        _ => false,
    }
}

/// Whether an arithmetic or comparison operator.
pub open spec fn numeric_op(op: OpInfix) -> bool {
    !(op is Equal || op is NotEqual || op is LogicAnd || op is LogicOr)
}

/// Whether a comparison operator.
pub open spec fn comparison_op(op: OpInfix) -> bool {
    op is Less || op is LessEqual || op is Greater || op is GreaterEqual
}

impl<'a> Interpreter<'a> {
    /// The value of `lt op rt`, for an operator that is not short-circuiting.
    pub fn infix<H: Host>(&self, op: OpInfix, lt: &Object, rt: &Object, span: Span, host: &H) -> (r: Result<
        Object,
        ErrorS,
    >)
        requires
            self.wf(),
            self.valid(*lt),
            self.valid(*rt),
            !(op is LogicAnd || op is LogicOr),
        ensures
            r matches Ok(o) ==> self.valid(o),
            op is Equal && !(*lt is Number && *rt is Number) ==> r == Ok::<Object, ErrorS>(
                Object::Bool(same_object(*lt, *rt)),
            ),
            op is NotEqual && !(*lt is Number && *rt is Number) ==> r == Ok::<Object, ErrorS>(
                Object::Bool(!same_object(*lt, *rt)),
            ),
            (op is Equal || op is NotEqual) ==> r matches Ok(Object::Bool(_)),
            numeric_op(op) && *lt is Number && *rt is Number ==> (if comparison_op(op) {
                r matches Ok(Object::Bool(_))
            } else {
                r matches Ok(Object::Number(_))
            }),
            op is Add && *lt is String && *rt is String ==> concatenation(r, *lt, *rt),
            numeric_op(op) && !(*lt is Number && *rt is Number) && !(op is Add && *lt is String && *rt is String)
                ==> unsupported_infix(r, op, self.type_spec(*lt), self.type_spec(*rt), span),
            (*lt is Number && *rt is Number && number_compared(op, lt->Number_0, rt->Number_0) is Some) ==> r == Ok::<
                Object,
                ErrorS,
            >(Object::Bool(number_compared(op, lt->Number_0, rt->Number_0)->Some_0)),
    {
        match (lt, rt) {
            (Object::Number(a), Object::Number(b)) => {
                let (a, b) = (*a, *b);
                match op {
                    OpInfix::Add => return Ok(Object::Number(host.add(a, b))),
                    OpInfix::Subtract => return Ok(Object::Number(host.subtract(a, b))),
                    OpInfix::Multiply => return Ok(Object::Number(host.multiply(a, b))),
                    OpInfix::Divide => return Ok(Object::Number(host.divide(a, b))),
                    OpInfix::Less => return Ok(Object::Bool(crate::double::less(a, b))),
                    OpInfix::LessEqual => return Ok(Object::Bool(crate::double::less_equal(a, b))),
                    OpInfix::Greater => return Ok(Object::Bool(crate::double::greater(a, b))),
                    OpInfix::GreaterEqual => return Ok(Object::Bool(crate::double::greater_equal(a, b))),
                    _ => {},
                }
            },
            (Object::String(a), Object::String(b)) => {
                if op == OpInfix::Add {
                    let mut c = a.clone();
                    c.append(b.as_str());
                    return Ok(Object::String(c));
                }
            },
            _ => {},
        }
        match op {
            OpInfix::Equal => Ok(Object::Bool(objects_equal(lt, rt, host))),
            OpInfix::NotEqual => Ok(Object::Bool(!objects_equal(lt, rt, host))),
            _ => Err((
                Error::TypeError(
                    TypeError::UnsupportedOperandInfix {
                        op: op.as_str().to_owned(),
                        lt_type: self.type_of(lt),
                        rt_type: self.type_of(rt),
                    },
                ),
                span,
            )),
        }
    }

    /// The value of `op rt`.
    pub fn prefix<H: Host>(&self, op: OpPrefix, rt: &Object, span: Span, host: &H) -> (r: Result<Object, ErrorS>)
        requires
            self.wf(),
            self.valid(*rt),
        ensures
            r matches Ok(o) ==> self.valid(o),
            op is Not ==> r == Ok::<Object, ErrorS>(Object::Bool(!truthy(*rt))),
            op is Negate && *rt is Number ==> r == Ok::<Object, ErrorS>(Object::Number(negated(rt->Number_0))),
            op is Negate && !(*rt is Number) ==> (match r {
                Err((Error::TypeError(TypeError::UnsupportedOperandPrefix { op: o, rt_type: t }), sp)) => o@
                    == crate::ast::prefix_text(op) && t@ == self.type_spec(*rt) && sp == span,
                _ => false,
            }),
    {
        match op {
            OpPrefix::Not => Ok(Object::Bool(!rt.bool())),
            OpPrefix::Negate => match rt {
                Object::Number(n) => Ok(Object::Number(crate::double::negate(*n))),
                _ => Err((
                    Error::TypeError(
                        TypeError::UnsupportedOperandPrefix { op: op.as_str().to_owned(), rt_type: self.type_of(rt) },
                    ),
                    span,
                )),
            },
        }
    }
}

impl<'a> Interpreter<'a> {
    /// What an environment binds is a value whose handles are valid.
    pub proof fn lemma_lookup_valid(&self, env: int, name: Seq<char>)
        requires
            self.wf(),
        ensures
            self.env_lookup(env, name) matches Some(o) ==> self.valid(o),
    {
        if 0 <= env < self.envs@.len() {
            assert(self.frame_ok(self.envs@[env]));
            lemma_last_index(self.envs@[env].vars@, name);
        }
    }

    pub proof fn lemma_lookup_at_valid(&self, env: int, name: Seq<char>, depth: nat)
        requires
            self.wf(),
        ensures
            self.lookup_at(env, name, depth) matches Some(o) ==> self.valid(o),
    {
        if let Some(e) = self.ancestor_spec(env, depth) {
            self.lemma_lookup_valid(e, name);
        }
    }

    /// Arenas that grew in two steps grew in one.
    pub proof fn lemma_grows_trans(&self, mid: &Interpreter<'a>, old: &Interpreter<'a>)
        requires
            self.grows_from(mid),
            mid.grows_from(old),
        ensures
            self.grows_from(old),
    {
    }

    pub open spec fn result_ok(&self, r: Result<Object, Unwind>) -> bool {
        match r {
            Ok(o) => self.valid(o),
            Err(Unwind::Return(Some(o), _)) => self.valid(o),
            _ => true,
        }
    }

    pub open spec fn unit_ok(&self, r: Result<(), Unwind>) -> bool {
        match r {
            Err(Unwind::Return(Some(o), _)) => self.valid(o),
            _ => true,
        }
    }

    pub open spec fn all_valid(&self, args: Seq<Object>) -> bool {
        forall|j: int| 0 <= j < args.len() ==> self.valid(#[trigger] args[j])
    }

    /// What a variable reads, as the resolver placed it: a global by name,
    /// a local in the environment its depth names.
    pub open spec fn var_result(&self, env: int, v: Var, span: Span, r: Result<Object, Unwind>) -> bool {
        match v.depth {
            Some(d) => match self.lookup_at(env, v.name@, d as nat) {
                Some(o) => r == Ok::<Object, Unwind>(o),
                None => r == Err::<Object, Unwind>(Unwind::Fault),
            },
            None => match self.env_lookup(self.globals as int, v.name@) {
                Some(o) => r == Ok::<Object, Unwind>(o),
                None => not_defined(r, v.name@, span),
            },
        }
    }

    /// Whether variable `v`, read from `env` where the resolver placed it,
    /// holds `value`.
    pub open spec fn assigned(&self, env: int, v: Var, value: Object) -> bool {
        match v.depth {
            Some(d) => self.lookup_at(env, v.name@, d as nat) == Some(value),
            None => self.env_lookup(self.globals as int, v.name@) == Some(value),
        }
    }

    /// What the expressions that read no other expression evaluate to.
    pub open spec fn leaf_result(&self, env: int, expr: ExprS, r: Result<Object, Unwind>) -> bool {
        match expr.0 {
            Expr::Literal(ExprLiteral::Nil) => r == Ok::<Object, Unwind>(Object::Nil),
            Expr::Literal(ExprLiteral::Bool(b)) => r == Ok::<Object, Unwind>(Object::Bool(b)),
            Expr::Literal(ExprLiteral::String(s)) => r == Ok::<Object, Unwind>(Object::String(s)),
            Expr::Literal(ExprLiteral::Number(_)) => r matches Ok(Object::Number(_)),
            Expr::Var(v) => self.var_result(env, v.var, expr.1, r),
            _ => true,
        }
    }

    pub open spec fn is_leaf(expr: ExprS) -> bool {
        expr.0 is Literal || expr.0 is Var
    }

    /// Evaluates an expression in environment `env`.
    pub fn run_expr<H: Host>(&mut self, env: usize, expr: &'a ExprS, host: &mut H, fuel: &mut u64) -> (r: Result<
        Object,
        Unwind,
    >)
        requires
            old(self).wf(),
            env < old(self).envs@.len(),
        ensures
            final(self).wf(),
            final(self).grows_from(&*old(self)),
            final(self).result_ok(r),
            !(r matches Err(Unwind::Return(_, _))),
            *final(fuel) <= *old(fuel),
            r is Ok ==> *final(fuel) < *old(fuel),
            *old(fuel) == 0 ==> r == Err::<Object, Unwind>(Unwind::OutOfFuel) && *final(self) == *old(self),
            *old(fuel) > 0 ==> old(self).leaf_result(env as int, *expr, r),
            *old(fuel) > 0 && Self::is_leaf(*expr) ==> *final(self) == *old(self) && *final(fuel) == *old(fuel) - 1,
            expr.0 is Assign && r is Ok ==> final(self).assigned(env as int, expr.0->Assign_0.var, r->Ok_0),
            (pure_eval(expr.0) is Some && *old(fuel) >= pure_eval(expr.0)->Some_0.1) ==> r == Ok::<Object, Unwind>(
                pure_eval(expr.0)->Some_0.0,
            ) && *final(fuel) == *old(fuel) - pure_eval(expr.0)->Some_0.1 && *final(self) == *old(self),
        decreases *old(fuel), 0int,
    {
        if *fuel == 0 {
            return Err(Unwind::OutOfFuel);
        }
        *fuel = *fuel - 1;
        let span = expr.1;
        match &expr.0 {
            Expr::Literal(literal) => match literal {
                ExprLiteral::Nil => Ok(Object::Nil),
                ExprLiteral::Bool(b) => Ok(Object::Bool(*b)),
                ExprLiteral::Number(text) => Ok(Object::Number(host.parse_number(text.as_str()))),
                ExprLiteral::String(s) => Ok(Object::String(s.clone())),
            },
            Expr::Var(var) => {
                proof {
                    self.lemma_lookup_valid(self.globals as int, var.var.name@);
                }
                match var.var.depth {
                    Some(depth) => {
                        proof {
                            self.lemma_lookup_at_valid(env as int, var.var.name@, depth as nat);
                        }
                        match self.get_at(env, var.var.name.as_str(), depth) {
                            Some(o) => Ok(o),
                            None => Err(Unwind::Fault),
                        }
                    },
                    None => match self.get(self.globals, var.var.name.as_str()) {
                        Some(o) => Ok(o),
                        None => Err(
                            Unwind::Error((Error::NameError(NameError::NotDefined { name: var.var.name.clone() }), span)),
                        ),
                    },
                }
            },
            Expr::Assign(assign) => self.eval_assign(env, &assign.var, &assign.value, span, host, fuel),
            Expr::Call(call) => self.eval_call(env, &call.callee, &call.args, span, host, fuel),
            Expr::Get(get) => {
                let object = match self.run_expr(env, &get.object, host, fuel) {
                    Ok(o) => o,
                    Err(e) => return Err(e),
                };
                match self.get_property(&object, get.name.as_str(), span) {
                    Ok(o) => Ok(o),
                    Err(e) => Err(Unwind::Error(e)),
                }
            },
            Expr::Infix(infix) => self.eval_infix(env, infix.op, &infix.lt, &infix.rt, span, host, fuel),
            Expr::Prefix(prefix) => {
                let rt = match self.run_expr(env, &prefix.rt, host, fuel) {
                    Ok(o) => o,
                    Err(e) => return Err(e),
                };
                match self.prefix(prefix.op, &rt, span, host) {
                    Ok(o) => Ok(o),
                    Err(e) => Err(Unwind::Error(e)),
                }
            },
            Expr::SetProperty(set) => {
                let value = match self.run_expr(env, &set.value, host, fuel) {
                    Ok(o) => o,
                    Err(e) => return Err(e),
                };
                let ghost mid = *self;
                let object = match self.run_expr(env, &set.object, host, fuel) {
                    Ok(o) => o,
                    Err(e) => return Err(e),
                };
                match self.set_property(&object, set.name.as_str(), value.duplicate(), span) {
                    Ok(()) => Ok(value),
                    Err(e) => Err(Unwind::Error(e)),
                }
            },
            Expr::Super(sup) => self.eval_super(env, &sup.super_, sup.name.as_str(), span),
        }
    }

    /// Evaluates an assignment: the value, then the write where the
    /// resolver placed the variable.
    fn eval_assign<H: Host>(
        &mut self,
        env: usize,
        var: &Var,
        value: &'a ExprS,
        span: Span,
        host: &mut H,
        fuel: &mut u64,
    ) -> (r: Result<Object, Unwind>)
        requires
            old(self).wf(),
            env < old(self).envs@.len(),
        ensures
            final(self).wf(),
            final(self).grows_from(&*old(self)),
            final(self).result_ok(r),
            !(r matches Err(Unwind::Return(_, _))),
            *final(fuel) <= *old(fuel),
            r is Ok ==> *final(fuel) < *old(fuel),
            r matches Ok(v) ==> final(self).assigned(env as int, *var, v),
        decreases *old(fuel), 1int,
    {
        let value = match self.run_expr(env, value, host, fuel) {
            Ok(o) => o,
            Err(e) => return Err(e),
        };
        match var.depth {
            Some(depth) => {
                if self.set_at(env, var.name.as_str(), value.duplicate(), depth) {
                    Ok(value)
                } else {
                    Err(Unwind::Fault)
                }
            },
            None => {
                let globals = self.globals;
                if self.set(globals, var.name.as_str(), value.duplicate()) {
                    Ok(value)
                } else {
                    Err(Unwind::Error((Error::NameError(NameError::NotDefined { name: var.name.clone() }), span)))
                }
            },
        }
    }

    /// Evaluates a call: the arguments from left to right, then the callee.
    #[verifier::loop_isolation(false)]
    fn eval_call<H: Host>(
        &mut self,
        env: usize,
        callee: &'a ExprS,
        args: &'a Vec<ExprS>,
        span: Span,
        host: &mut H,
        fuel: &mut u64,
    ) -> (r: Result<Object, Unwind>)
        requires
            old(self).wf(),
            env < old(self).envs@.len(),
        ensures
            final(self).wf(),
            final(self).grows_from(&*old(self)),
            final(self).result_ok(r),
            !(r matches Err(Unwind::Return(_, _))),
            *final(fuel) <= *old(fuel),
            r is Ok ==> *final(fuel) < *old(fuel),
        decreases *old(fuel), 1int,
    {
        let ghost start = *self;
        let ghost start_fuel = *fuel;
        let mut values: Vec<Object> = Vec::new();
        let mut i: usize = 0;
        while i < args.len()
            invariant
                self.wf(),
                self.grows_from(&start),
                env < self.envs@.len(),
                self.all_valid(values@),
                *fuel <= start_fuel,
                i <= args@.len(),
            decreases args@.len() - i,
        {
            let v = match self.run_expr(env, &args[i], host, fuel) {
                Ok(o) => o,
                Err(e) => return Err(e),
            };
            values.push(v);
            i = i + 1;
        }
        let callee = match self.run_expr(env, callee, host, fuel) {
            Ok(o) => o,
            Err(e) => return Err(e),
        };
        self.call_value(&callee, values, span, host, fuel)
    }

    /// Evaluates `lt op rt`; `and` and `or` evaluate `rt` only when `lt`
    /// does not decide.
    fn eval_infix<H: Host>(
        &mut self,
        env: usize,
        op: OpInfix,
        lt: &'a ExprS,
        rt: &'a ExprS,
        span: Span,
        host: &mut H,
        fuel: &mut u64,
    ) -> (r: Result<Object, Unwind>)
        requires
            old(self).wf(),
            env < old(self).envs@.len(),
        ensures
            final(self).wf(),
            final(self).grows_from(&*old(self)),
            final(self).result_ok(r),
            !(r matches Err(Unwind::Return(_, _))),
            *final(fuel) <= *old(fuel),
            r is Ok ==> *final(fuel) < *old(fuel),
        ({
                let p = pure_infix(op, pure_eval(lt.0), pure_eval(rt.0));
                (p is Some && *old(fuel) >= p->Some_0.1) ==> r == Ok::<Object, Unwind>(p->Some_0.0) && *final(fuel) == *old(
                    fuel,
                ) - p->Some_0.1 && *final(self) == *old(self)
            }),
        decreases *old(fuel), 1int,
    {
        let ghost lt_e = lt.0;
        let ghost rt_e = rt.0;
        let lt = match self.run_expr(env, lt, host, fuel) {
            Ok(o) => o,
            Err(e) => return Err(e),
        };
        match op {
            OpInfix::LogicAnd => if lt.bool() {
                return self.run_expr(env, rt, host, fuel);
            } else {
                return Ok(lt);
            },
            OpInfix::LogicOr => if lt.bool() {
                return Ok(lt);
            } else {
                return self.run_expr(env, rt, host, fuel);
            },
            _ => {},
        }
        let rt = match self.run_expr(env, rt, host, fuel) {
            Ok(o) => o,
            Err(e) => return Err(e),
        };
        proof {
            if pure_eval(lt_e) is Some && pure_eval(rt_e) is Some {
                lemma_pure_value(lt_e);
                lemma_pure_value(rt_e);
            }
        }
        match self.infix(op, &lt, &rt, span, host) {
            Ok(o) => Ok(o),
            Err(e) => Err(Unwind::Error(e)),
        }
    }

    /// Evaluates `super.name`: the method of the superclass, bound to the
    /// `this` of the method that runs.
    fn eval_super(&mut self, env: usize, sup: &Var, name: &str, span: Span) -> (r: Result<Object, Unwind>)
        requires
            old(self).wf(),
            env < old(self).envs@.len(),
        ensures
            final(self).wf(),
            final(self).grows_from(&*old(self)),
            final(self).result_ok(r),
            !(r matches Err(Unwind::Return(_, _))),
    {
        let depth = match sup.depth {
            Some(d) => d,
            None => {
                return Err(
                    Unwind::Error((Error::NameError(NameError::NotDefined { name: String::from_str("super") }), span)),
                );
            },
        };
        proof {
            self.lemma_lookup_at_valid(env as int, "super"@, depth as nat);
        }
        let class = match self.get_at(env, "super", depth) {
            Some(Object::Class(c)) => c,
            _ => return Err(Unwind::Fault),
        };
        if depth == 0 {
            return Err(Unwind::Fault);
        }
        proof {
            self.lemma_lookup_at_valid(env as int, "this"@, (depth - 1) as nat);
        }
        let this = match self.get_at(env, "this", depth - 1) {
            Some(o) => o,
            None => return Err(Unwind::Fault),
        };
        match self.find_method(class, name) {
            Some(f) => Ok(Object::Function(self.bind_method(f, this))),
            None => Err(
                Unwind::Error(
                    (
                        Error::AttributeError(
                            AttributeError::NoSuchAttribute {
                                type_: self.classes[class].name.clone(),
                                name: name.to_owned(),
                            },
                        ),
                        span,
                    ),
                ),
            ),
        }
    }

    /// The error of a call with the wrong number of arguments.
    fn arity_mismatch(name: String, exp_args: usize, got_args: usize, span: Span) -> (r: Unwind)
        ensures
            r == Unwind::Error((Error::TypeError(TypeError::ArityMismatch { name, exp_args, got_args }), span)),
    {
        Unwind::Error((Error::TypeError(TypeError::ArityMismatch { name, exp_args, got_args }), span))
    }

    /// Calls `callee` with `args`: a class makes an instance and runs its
    /// initializer, a function runs its body, a native function asks the
    /// host.
    pub fn call_value<H: Host>(
        &mut self,
        callee: &Object,
        args: Vec<Object>,
        span: Span,
        host: &mut H,
        fuel: &mut u64,
    ) -> (r: Result<Object, Unwind>)
        requires
            old(self).wf(),
            old(self).valid(*callee),
            old(self).all_valid(args@),
        ensures
            final(self).wf(),
            final(self).grows_from(&*old(self)),
            final(self).result_ok(r),
            !(r matches Err(Unwind::Return(_, _))),
            *final(fuel) <= *old(fuel),
            r is Ok ==> *final(fuel) < *old(fuel),
            *old(fuel) == 0 ==> r == Err::<Object, Unwind>(Unwind::OutOfFuel) && *final(self) == *old(self),
            *old(fuel) > 0 && !(*callee is Class || *callee is Function || *callee is Native) ==> *final(self)
                == *old(self) && (match r {
                Err(Unwind::Error((Error::TypeError(TypeError::NotCallable { type_ }), sp))) => type_@
                    == old(self).type_spec(*callee) && sp == span,
                _ => false,
            }),
            *old(fuel) > 0 && *callee is Native ==> (if args@.len() == 0 {
                r matches Ok(Object::Number(_))
            } else {
                r matches Err(Unwind::Error((Error::TypeError(TypeError::ArityMismatch { exp_args, got_args, .. }), _)))
                    && exp_args == 0 && got_args == args@.len()
            }),
        decreases *old(fuel), 0int,
    {
        if *fuel == 0 {
            return Err(Unwind::OutOfFuel);
        }
        *fuel = *fuel - 1;
        match callee {
            Object::Class(c) => {
                let c = *c;
                proof {
                    reveal_strlit("init");
                }
                let init = self.find_method(c, "init");
                let arity = match init {
                    Some(m) => self.functions[m].decl.params.len(),
                    None => 0,
                };
                if args.len() != arity {
                    return Err(Self::arity_mismatch(self.classes[c].name.clone(), arity, args.len(), span));
                }
                let inst = self.instances.len();
                let ghost before = *self;
                self.instances.push(InstanceObj { class: c, fields: Vec::new() });
                proof {
                    assert(self.wf()) by {
                        assert forall|e: int| 0 <= e < self.envs@.len() implies self.frame_ok(#[trigger] self.envs@[e]) by {
                            assert(before.frame_ok(before.envs@[e]));
                        }
                        assert forall|k: int| 0 <= k < self.classes@.len() implies self.class_ok(k, #[trigger] self.classes@[k]) by {
                            assert(before.class_ok(k, before.classes@[k]));
                        }
                        assert forall|k: int| 0 <= k < self.instances@.len() implies self.instance_ok(#[trigger] self.instances@[k]) by {
                            if k < before.instances@.len() {
                                assert(before.instance_ok(before.instances@[k]));
                            }
                        }
                    }
                }
                match init {
                    Some(m) => {
                        let bound = self.bind_method(m, Object::Instance(inst));
                        match self.call_function(bound, args, span, host, fuel) {
                            Ok(_) => {},
                            Err(e) => return Err(e),
                        }
                    },
                    None => {},
                }
                Ok(Object::Instance(inst))
            },
            Object::Function(f) => {
                let arity = self.functions[*f].decl.params.len();
                if args.len() != arity {
                    return Err(Self::arity_mismatch(self.functions[*f].decl.name.clone(), arity, args.len(), span));
                }
                self.call_function(*f, args, span, host, fuel)
            },
            Object::Native(_) => {
                if args.len() != 0 {
                    return Err(Self::arity_mismatch(String::from_str("clock"), 0, args.len(), span));
                }
                Ok(Object::Number(host.now()))
            },
            _ => Err(Unwind::Error((Error::TypeError(TypeError::NotCallable { type_: self.type_of(callee) }), span))),
        }
    }

    /// What a call of function `f` gives back once its body has stopped,
    /// with the value a `return` gave, if any: an initializer gives back
    /// its `this`.
    fn finish_call(&self, f: usize, value: Option<Object>, span: Span) -> (r: Result<Object, Unwind>)
        requires
            self.wf(),
            f < self.functions@.len(),
            value matches Some(o) ==> self.valid(o),
        ensures
            self.result_ok(r),
            !(r matches Err(Unwind::Return(_, _))),
            self.is_initializer(f as int) && value is None ==> r == Ok::<Object, Unwind>(
                self.env_lookup(self.functions@[f as int].env as int, seq!['t', 'h', 'i', 's'])->Some_0,
            ),
            self.is_initializer(f as int) && value is Some ==> (match r {
                Err(Unwind::Error((Error::TypeError(TypeError::InitInvalidReturnType { .. }), sp))) => sp == span,
                _ => false,
            }),
            !self.is_initializer(f as int) ==> r == Ok::<Object, Unwind>(
                match value {
                    Some(o) => o,
                    None => Object::Nil,
                },
            ),
    {
        let closure = self.functions[f].env;
        proof {
            reveal_strlit("this");
            reveal_strlit("init");
            assert("this"@ =~= seq!['t', 'h', 'i', 's']);
            assert("init"@ =~= seq!['i', 'n', 'i', 't']);
            self.lemma_lookup_valid(closure as int, "this"@);
        }
        let is_init = self.contains(closure, "this") && self.functions[f].decl.name == String::from_str("init");
        if is_init {
            match value {
                None => match self.get(closure, "this") {
                    Some(o) => Ok(o),
                    None => Err(Unwind::Fault),
                },
                Some(o) => Err(
                    Unwind::Error((Error::TypeError(TypeError::InitInvalidReturnType { type_: self.type_of(&o) }), span)),
                ),
            }
        } else {
            match value {
                Some(o) => Ok(o),
                None => Ok(Object::Nil),
            }
        }
    }

    /// Function `f` is an initializer: a method named `init`, whose closure
    /// binds `this`.
    pub open spec fn is_initializer(&self, f: int) -> bool {
        &&& self.env_lookup(self.functions@[f].env as int, seq!['t', 'h', 'i', 's']) is Some
        &&& self.functions@[f].decl.name@ == seq!['i', 'n', 'i', 't']
    }

    /// Runs function `f` on `args`, each bound to its parameter in a new
    /// environment inside the one the function closes over.
    #[verifier::loop_isolation(false)]
    pub fn call_function<H: Host>(
        &mut self,
        f: usize,
        args: Vec<Object>,
        span: Span,
        host: &mut H,
        fuel: &mut u64,
    ) -> (r: Result<Object, Unwind>)
        requires
            old(self).wf(),
            f < old(self).functions@.len(),
            old(self).all_valid(args@),
        ensures
            final(self).wf(),
            final(self).grows_from(&*old(self)),
            final(self).result_ok(r),
            !(r matches Err(Unwind::Return(_, _))),
            *final(fuel) <= *old(fuel),
            r is Ok ==> *final(fuel) < *old(fuel),
            *old(fuel) == 0 ==> r == Err::<Object, Unwind>(Unwind::OutOfFuel) && *final(self) == *old(self),
            *old(fuel) > 0 ==> {
                let e = old(self).envs@.len() as int;
                &&& final(self).envs@.len() > e
                &&& final(self).envs@[e].parent == Some(old(self).functions@[f as int].env)
            },
            (*old(fuel) > 0 && old(self).functions@[f as int].decl.body.stmts@.len() == 0) ==> {
                let e = old(self).envs@.len() as int;
                let params = old(self).functions@[f as int].decl.params@;
                &&& old(self).is_initializer(f as int) ==> r == Ok::<Object, Unwind>(
                    old(self).env_lookup(old(self).functions@[f as int].env as int, seq!['t', 'h', 'i', 's'])->Some_0,
                )
                &&& !old(self).is_initializer(f as int) ==> r == Ok::<Object, Unwind>(Object::Nil)
                &&& crate::resolver::views_distinct(params) ==> forall|j: int|
                    0 <= j < params.len() && j < args@.len() ==> #[trigger] final(self).env_lookup(e, params[j]@) == Some(args@[j])
            },
        decreases *old(fuel), 0int,
    {
        if *fuel == 0 {
            return Err(Unwind::OutOfFuel);
        }
        *fuel = *fuel - 1;
        let ghost start = *self;
        let ghost start_fuel = *fuel;
        let decl: &'a StmtFun = self.functions[f].decl;
        let closure = self.functions[f].env;
        let env = self.with_parent(closure);
        let n = if decl.params.len() < args.len() {
            decl.params.len()
        } else {
            args.len()
        };
        let mut i: usize = 0;
        while i < n
            invariant
                self.wf(),
                self.grows_from(&start),
                env < self.envs@.len(),
                self.all_valid(args@),
                n <= decl.params@.len(),
                n <= args@.len(),
                i <= n,
                f < self.functions@.len(),
                env == start.envs@.len(),
                self.envs@[env as int].parent == Some(closure),
                self.functions == start.functions,
                forall|e: int| 0 <= e < start.envs@.len() ==> #[trigger] self.envs@[e] == start.envs@[e],
                crate::resolver::views_distinct(decl.params@) ==> forall|j: int|
                    0 <= j < i ==> #[trigger] self.env_lookup(env as int, decl.params@[j]@) == Some(args@[j]),
            decreases n - i,
        {
            let ghost before = *self;
            self.insert_var(env, decl.params[i].as_str(), args[i].duplicate());
            proof {
                if crate::resolver::views_distinct(decl.params@) {
                    assert forall|j: int| 0 <= j < i + 1 implies #[trigger] self.env_lookup(env as int, decl.params@[j]@) == Some(args@[j]) by {
                        if j < i {
                            assert(decl.params@[j]@ != decl.params@[i as int]@);
                            assert(before.env_lookup(env as int, decl.params@[j]@) == Some(args@[j]));
                        }
                    }
                }
            }
            i = i + 1;
        }
        let ghost mid = *self;
        let mut k: usize = 0;
        while k < decl.body.stmts.len()
            invariant
                self.wf(),
                self.grows_from(&start),
                env < self.envs@.len(),
                f < self.functions@.len(),
                *fuel <= start_fuel,
                k <= decl.body.stmts@.len(),
                self.envs@[env as int].parent == Some(closure),
                k == 0 ==> *self == mid,
            decreases decl.body.stmts@.len() - k,
        {
            match self.run_stmt(env, &decl.body.stmts[k], host, fuel) {
                Ok(()) => {},
                Err(Unwind::Return(value, _)) => return self.finish_call(f, value, span),
                Err(e) => return Err(e),
            }
            k = k + 1;
        }
        self.finish_call(f, None, span)
    }

    /// Makes the class that `class` declares, with `super_` as its
    /// superclass, and binds it to its name in `env`.
    #[verifier::loop_isolation(false)]
    fn define_class(&mut self, env: usize, class: &'a StmtClass, super_: Option<usize>)
        requires
            old(self).wf(),
            env < old(self).envs@.len(),
            super_ matches Some(s) ==> s < old(self).classes@.len(),
        ensures
            final(self).wf(),
            final(self).grows_from(&*old(self)),
            final(self).classes@.len() == old(self).classes@.len() + 1,
            final(self).classes@[old(self).classes@.len() as int].name@ == class.name@,
            final(self).classes@[old(self).classes@.len() as int].super_ == super_,
            final(self).env_lookup(env as int, class.name@) == Some(Object::Class(old(self).classes@.len() as usize)),
            ({
                let bound = final(self).env_lookup(env as int, class.name@);
                &&& bound is Some && bound->Some_0 is Class
                &&& bound->Some_0->Class_0 + 1 == final(self).classes@.len()
                &&& final(self).classes@[bound->Some_0->Class_0 as int].name@ == class.name@
            }),
    {
        let ghost start = *self;
        let methods_env = match super_ {
            Some(s) => {
                let m = self.with_parent(env);
                proof {
                    reveal_strlit("super");
                }
                self.insert_var(m, "super", Object::Class(s));
                m
            },
            None => env,
        };
        let mut methods: Vec<(String, usize)> = Vec::new();
        let mut i: usize = 0;
        while i < class.methods.len()
            invariant
                self.wf(),
                self.grows_from(&start),
                methods_env < self.envs@.len(),
                env < self.envs@.len(),
                i <= class.methods@.len(),
                self.classes@.len() == start.classes@.len(),
                forall|m: int| 0 <= m < methods@.len() ==> #[trigger] methods@[m].1 < self.functions@.len(),
            decreases class.methods@.len() - i,
        {
            let idx = self.functions.len();
            let ghost before = *self;
            self.functions.push(FunctionObj { decl: &class.methods[i].0, env: methods_env });
            proof {
                assert(self.wf()) by {
                    assert forall|e: int| 0 <= e < self.envs@.len() implies self.frame_ok(#[trigger] self.envs@[e]) by {
                        assert(before.frame_ok(before.envs@[e]));
                    }
                    assert forall|k: int| 0 <= k < self.classes@.len() implies self.class_ok(k, #[trigger] self.classes@[k]) by {
                        assert(before.class_ok(k, before.classes@[k]));
                    }
                    assert forall|k: int| 0 <= k < self.instances@.len() implies self.instance_ok(#[trigger] self.instances@[k]) by {
                        assert(before.instance_ok(before.instances@[k]));
                    }
                }
            }
            methods.push((class.methods[i].0.name.clone(), idx));
            i = i + 1;
        }
        let c = self.classes.len();
        let ghost before = *self;
        self.classes.push(ClassObj { name: class.name.clone(), super_, methods });
        proof {
            assert(self.wf()) by {
                assert forall|e: int| 0 <= e < self.envs@.len() implies self.frame_ok(#[trigger] self.envs@[e]) by {
                    assert(before.frame_ok(before.envs@[e]));
                }
                assert forall|k: int| 0 <= k < self.classes@.len() implies self.class_ok(k, #[trigger] self.classes@[k]) by {
                    if k < before.classes@.len() {
                        assert(before.class_ok(k, before.classes@[k]));
                    }
                }
                assert forall|k: int| 0 <= k < self.instances@.len() implies self.instance_ok(#[trigger] self.instances@[k]) by {
                    assert(before.instance_ok(before.instances@[k]));
                }
            }
        }
        self.insert_var(env, class.name.as_str(), Object::Class(c));
    }

    /// What the statements that run no other statement come to.
    pub open spec fn stmt_leaf(&self, fin: &Interpreter<'a>, env: int, stmt: StmtS, r: Result<(), Unwind>) -> bool {
        match stmt.0 {
            Stmt::Fun(fun) => {
                let k = self.functions@.len();
                &&& r is Ok
                &&& fin.functions@.len() == k + 1
                &&& *fin.functions@[k as int].decl == fun
                &&& fin.functions@[k as int].env == env
                &&& fin.env_lookup(env, fun.name@) == Some(Object::Function(k as usize))
            },
            Stmt::Var(v) => v.value is None ==> r is Ok && fin.env_lookup(env, v.var.name@) == Some(Object::Nil),
            Stmt::Return(ret) => ret.value is None ==> r == Err::<(), Unwind>(Unwind::Return(None, stmt.1)),
            Stmt::Error => r == Err::<(), Unwind>(Unwind::Fault),
            _ => true,
        }
    }

    /// Runs a statement in environment `env`.
    #[verifier::loop_isolation(false)]
    pub fn run_stmt<H: Host>(&mut self, env: usize, stmt: &'a StmtS, host: &mut H, fuel: &mut u64) -> (r: Result<
        (),
        Unwind,
    >)
        requires
            old(self).wf(),
            env < old(self).envs@.len(),
        ensures
            final(self).wf(),
            final(self).grows_from(&*old(self)),
            final(self).unit_ok(r),
            *final(fuel) <= *old(fuel),
            r is Ok ==> *final(fuel) < *old(fuel),
            *old(fuel) == 0 ==> r == Err::<(), Unwind>(Unwind::OutOfFuel) && *final(self) == *old(self),
            *old(fuel) > 0 ==> old(self).stmt_leaf(&*final(self), env as int, *stmt, r),
            stmt.0 is Var && r is Ok ==> final(self).env_lookup(env as int, stmt.0->Var_0.var.name@) is Some,
            ({
                let p = pure_eval(stmt.0->Print_0.value.0);
                (stmt.0 is Print && p is Some && *old(fuel) > p->Some_0.1) ==> {
                    &&& final(self).written@ == old(self).written@.push(old(self).display_spec(p->Some_0.0))
                    &&& *final(fuel) == *old(fuel) - 1 - p->Some_0.1
                    &&& (r is Ok || r matches Err(Unwind::Error((Error::IoError(_), _))))
                }
            }),
            ({
                let p = pure_eval(stmt.0->If_0.cond.0);
                (stmt.0 is If && stmt.0->If_0.else_ is None && p is Some && !truthy(p->Some_0.0) && *old(fuel) > p->Some_0.1)
                    ==> r is Ok && *final(self) == *old(self) && *final(fuel) == *old(fuel) - 1 - p->Some_0.1
            }),
            ({
                let p = pure_eval(stmt.0->While_0.cond.0);
                (stmt.0 is While && p is Some && !truthy(p->Some_0.0) && *old(fuel) > p->Some_0.1) ==> r is Ok && *final(self)
                    == *old(self) && *final(fuel) == *old(fuel) - 1 - p->Some_0.1
            }),
            (stmt.0 is Return && stmt.0->Return_0.value is None && *old(fuel) > 0) ==> *final(fuel) == *old(fuel) - 1
                && *final(self) == *old(self),
            ({
                let f = stmt.0->For_0;
                let p = pure_eval(f.cond->Some_0.0);
                (stmt.0 is For && f.init is None && f.cond is Some && p is Some && *old(fuel) > p->Some_0.1 + 1) ==> {
                    &&& !truthy(p->Some_0.0) ==> r is Ok && *final(fuel) == *old(fuel) - 1 - p->Some_0.1 && final(self).written
                        == old(self).written
                    &&& (truthy(p->Some_0.0) && f.body.0 is Return && f.body.0->Return_0.value is None) ==> r == Err::<(), Unwind>(
                        Unwind::Return(None, f.body.1),
                    ) && *final(fuel) == *old(fuel) - 2 - p->Some_0.1 && final(self).written == old(self).written
                }
            }),
            stmt.0 is Class && r is Ok ==> {
                let bound = final(self).env_lookup(env as int, stmt.0->Class_0.name@);
                &&& bound is Some && bound->Some_0 is Class
                &&& bound->Some_0->Class_0 + 1 == final(self).classes@.len()
                &&& final(self).classes@[bound->Some_0->Class_0 as int].name@ == stmt.0->Class_0.name@
            },
        decreases *old(fuel), 0int,
    {
        if *fuel == 0 {
            return Err(Unwind::OutOfFuel);
        }
        *fuel = *fuel - 1;
        let ghost start = *self;
        let ghost start_fuel = *fuel;
        let span = stmt.1;
        match &stmt.0 {
            Stmt::Block(block) => {
                let inner = self.with_parent(env);
                let mut i: usize = 0;
                while i < block.stmts.len()
                    invariant
                        self.wf(),
                        self.grows_from(&start),
                        inner < self.envs@.len(),
                        *fuel <= start_fuel,
                        i <= block.stmts@.len(),
                    decreases block.stmts@.len() - i,
                {
                    match self.run_stmt(inner, &block.stmts[i], host, fuel) {
                        Ok(()) => {},
                        Err(e) => return Err(e),
                    }
                    i = i + 1;
                }
                Ok(())
            },
            Stmt::Class(class) => {
                let super_ = match &class.super_ {
                    Some(e) => match self.run_expr(env, e, host, fuel) {
                        Ok(Object::Class(s)) => Some(s),
                        Ok(o) => {
                            return Err(
                                Unwind::Error(
                                    (
                                        Error::TypeError(TypeError::SuperclassInvalidType { type_: self.type_of(&o) }),
                                        span,
                                    ),
                                ),
                            );
                        },
                        Err(e) => return Err(e),
                    },
                    None => None,
                };
                self.define_class(env, class, super_);
                Ok(())
            },
            Stmt::Expr(e) => match self.run_expr(env, &e.value, host, fuel) {
                Ok(_) => Ok(()),
                Err(e) => Err(e),
            },
            Stmt::For(for_) => {
                let inner = self.with_parent(env);
                let ghost after_scope = *self;
                match &for_.init {
                    Some(init) => match self.run_stmt(inner, init, host, fuel) {
                        Ok(()) => {},
                        Err(e) => return Err(e),
                    },
                    None => {},
                }
                let ghost mut first = true;
                loop
                    invariant
                        self.wf(),
                        self.grows_from(&start),
                        inner < self.envs@.len(),
                        *fuel <= start_fuel,
                        (first && for_.init is None) ==> *self == after_scope && *fuel == start_fuel,
                        self.written == start.written || !(for_.init is None && for_.cond is Some && pure_eval(
                            for_.cond->Some_0.0,
                        ) is Some && start_fuel > pure_eval(for_.cond->Some_0.0)->Some_0.1 && (!truthy(
                            pure_eval(for_.cond->Some_0.0)->Some_0.0,
                        ) || (for_.body.0 is Return && for_.body.0->Return_0.value is None))),
                        !first ==> !(for_.init is None && for_.cond is Some && pure_eval(for_.cond->Some_0.0) is Some
                            && start_fuel > pure_eval(for_.cond->Some_0.0)->Some_0.1 && (!truthy(
                            pure_eval(for_.cond->Some_0.0)->Some_0.0,
                        ) || (for_.body.0 is Return && for_.body.0->Return_0.value is None))),
                    decreases *fuel,
                {
                    let go = match &for_.cond {
                        Some(cond) => match self.run_expr(inner, cond, host, fuel) {
                            Ok(o) => o.bool(),
                            Err(e) => return Err(e),
                        },
                        None => true,
                    };
                    if !go {
                        return Ok(());
                    }
                    match self.run_stmt(inner, &for_.body, host, fuel) {
                        Ok(()) => {},
                        Err(e) => return Err(e),
                    }
                    match &for_.incr {
                        Some(incr) => match self.run_expr(inner, incr, host, fuel) {
                            Ok(_) => {},
                            Err(e) => return Err(e),
                        },
                        None => {},
                    }
                    proof {
                        first = false;
                    }
                }
            },
            Stmt::Fun(fun) => {
                let idx = self.functions.len();
                let ghost before = *self;
                self.functions.push(FunctionObj { decl: fun, env });
                proof {
                    assert(self.wf()) by {
                        assert forall|e: int| 0 <= e < self.envs@.len() implies self.frame_ok(#[trigger] self.envs@[e]) by {
                            assert(before.frame_ok(before.envs@[e]));
                        }
                        assert forall|k: int| 0 <= k < self.classes@.len() implies self.class_ok(k, #[trigger] self.classes@[k]) by {
                            assert(before.class_ok(k, before.classes@[k]));
                        }
                        assert forall|k: int| 0 <= k < self.instances@.len() implies self.instance_ok(#[trigger] self.instances@[k]) by {
                            assert(before.instance_ok(before.instances@[k]));
                        }
                    }
                }
                self.insert_var(env, fun.name.as_str(), Object::Function(idx));
                Ok(())
            },
            Stmt::If(if_) => {
                let crate::ast::StmtIf { cond, then, else_ } = &**if_;
                let c = match self.run_expr(env, cond, host, fuel) {
                    Ok(o) => o,
                    Err(e) => return Err(e),
                };
                if c.bool() {
                    self.run_stmt(env, then, host, fuel)
                } else {
                    match else_ {
                        Some(e) => self.run_stmt(env, e, host, fuel),
                        None => Ok(()),
                    }
                }
            },
            Stmt::Print(print) => {
                let value = match self.run_expr(env, &print.value, host, fuel) {
                    Ok(o) => o,
                    Err(e) => return Err(e),
                };
                proof {
                    if pure_eval(print.value.0) is Some {
                        lemma_pure_value(print.value.0);
                    }
                }
                let text = self.display(&value, host);
                proof {
                    self.written = Ghost(self.written@.push(text@));
                }
                if host.write_line(text.as_str()) {
                    Ok(())
                } else {
                    Err(Unwind::Error((Error::IoError(IoError::WriteError { file: String::from_str("stdout") }), span)))
                }
            },
            Stmt::Return(ret) => {
                let value = match &ret.value {
                    Some(e) => match self.run_expr(env, e, host, fuel) {
                        Ok(o) => Some(o),
                        Err(e) => return Err(e),
                    },
                    None => None,
                };
                Err(Unwind::Return(value, span))
            },
            Stmt::Var(var) => {
                let value = match &var.value {
                    Some(e) => match self.run_expr(env, e, host, fuel) {
                        Ok(o) => o,
                        Err(e) => return Err(e),
                    },
                    None => Object::Nil,
                };
                self.insert_var(env, var.var.name.as_str(), value);
                Ok(())
            },
            Stmt::While(while_) => {
                let ghost mut first = true;
                loop
                    invariant
                        self.wf(),
                        self.grows_from(&start),
                        env < self.envs@.len(),
                        *fuel <= start_fuel,
                        first ==> *self == start && *fuel == start_fuel,
                        !first ==> !(pure_eval(while_.cond.0) is Some && !truthy(pure_eval(while_.cond.0)->Some_0.0)
                            && start_fuel >= pure_eval(while_.cond.0)->Some_0.1),
                    decreases *fuel,
                {
                    let c = match self.run_expr(env, &while_.cond, host, fuel) {
                        Ok(o) => o,
                        Err(e) => return Err(e),
                    };
                    if !c.bool() {
                        return Ok(());
                    }
                    match self.run_stmt(env, &while_.body, host, fuel) {
                        Ok(()) => {},
                        Err(e) => return Err(e),
                    }
                    proof {
                        first = false;
                    }
                }
            },
            Stmt::Error => Err(Unwind::Fault),
        }
    }

    /// Runs the statements of a resolved program, in order, in the global
    /// environment, until one stops the run.
    #[verifier::loop_isolation(false)]
    pub fn run_program<H: Host>(&mut self, program: &'a Program, host: &mut H, fuel: &mut u64) -> (r: Outcome)
        requires
            old(self).wf(),
        ensures
            final(self).wf(),
            final(self).grows_from(&*old(self)),
            *final(fuel) <= *old(fuel),
            program.stmts@.len() == 0 ==> r is Done && *final(self) == *old(self),
            program.stmts@.len() > 0 && *old(fuel) == 0 ==> r is OutOfFuel && *final(self) == *old(self),
            r matches Outcome::Errors(errs) ==> errs@.len() == 1,
            ({
                let pp = pure_prints(program.stmts@);
                (pp is Some && *old(fuel) >= pp->Some_0.1) ==> (r is Done && final(self).written@ == old(self).written@
                    + pp->Some_0.0) || (r matches Outcome::Errors(errs) && errs@[0].0 is IoError)
            }),
    {
        let ghost start = *self;
        let ghost pp = pure_prints(program.stmts@);
        let mut i: usize = 0;
        while i < program.stmts.len()
            invariant
                self.wf(),
                self.grows_from(&start),
                i <= program.stmts@.len(),
                *fuel <= *old(fuel),
                i == 0 ==> *self == start && *fuel == *old(fuel),
                *old(fuel) == 0 ==> i == 0,
                (pp is Some && *old(fuel) >= pp->Some_0.1) ==> {
                    let q = pure_prints(program.stmts@.take(i as int));
                    &&& q is Some
                    &&& self.written@ == start.written@ + q->Some_0.0
                    &&& *fuel == *old(fuel) - q->Some_0.1
                },
            decreases program.stmts@.len() - i,
        {
            let globals = self.globals;
            let ghost written_before = self.written@;
            proof {
                if pp is Some && *old(fuel) >= pp->Some_0.1 {
                    lemma_pure_prints_prefix(program.stmts@, i + 1);
                    assert(program.stmts@.take(i + 1).drop_last() =~= program.stmts@.take(i as int));
                    assert(program.stmts@.take(i + 1).last() == program.stmts@[i as int]);
                }
            }
            match self.run_stmt(globals, &program.stmts[i], host, fuel) {
                Ok(()) => {},
                Err(Unwind::Error(e)) => {
                    let mut errs = Vec::new();
                    errs.push(e);
                    return Outcome::Errors(errs);
                },
                Err(Unwind::Return(_, span)) => {
                    let mut errs = Vec::new();
                    errs.push((Error::SyntaxError(SyntaxError::ReturnOutsideFunction), span));
                    return Outcome::Errors(errs);
                },
                Err(Unwind::Fault) => return Outcome::Fault,
                Err(Unwind::OutOfFuel) => return Outcome::OutOfFuel,
            }
            proof {
                if pp is Some && *old(fuel) >= pp->Some_0.1 {
                    let q = pure_prints(program.stmts@.take(i as int));
                    let q1 = pure_prints(program.stmts@.take(i + 1));
                    let e = program.stmts@[i as int].0->Print_0.value.0;
                    assert(q1->Some_0.0 == q->Some_0.0.push(pure_text(pure_eval(e)->Some_0.0)));
                    lemma_pure_value(e);
                    assert(self.written@ == written_before.push(pure_text(pure_eval(e)->Some_0.0)));
                    assert(self.written@ =~= start.written@ + q1->Some_0.0);
                }
            }
            i = i + 1;
        }
        proof {
            assert(program.stmts@.take(program.stmts@.len() as int) =~= program.stmts@);
        }
        Outcome::Done
    }

    /// Parses, resolves and runs `source` in a new interpreter with `fuel`
    /// units of fuel; the errors of parsing or resolving stop it before it
    /// runs.
    pub fn run<H: Host>(source: &str, host: &mut H, fuel: u64) -> (r: Outcome)
        ensures
            r matches Outcome::Errors(errs) ==> errs@.len() == 1,
            crate::parser::tokens_from(source@, 0) is None ==> r is Errors,
            crate::parser::tokens_from(source@, 0) == Some(Seq::<(int, crate::lexer::TokenKind, int)>::empty()) ==> r is Done,
            (fuel == 0 && r is Done) ==> crate::parser::tokens_from(source@, 0) == Some(
                Seq::<(int, crate::lexer::TokenKind, int)>::empty(),
            ),
    {
        let mut program = match crate::parser::parse(source) {
            Ok(p) => p,
            Err(errs) => return Outcome::Errors(errs),
        };
        proof {
            let expected = crate::parser::tokens_from(source@, 0)->Some_0;
            if program.stmts@.len() == 0 {
                let tokens = choose|tokens: Seq<crate::lexer::Spanned>|
                    #[trigger] crate::parser::tokens_match(source@, tokens, expected) && crate::parser::decls_parsed(
                        tokens,
                        0,
                        program.stmts@,
                        tokens.len() as int,
                    );
                assert(tokens.len() == 0);
                assert(expected =~= Seq::<(int, crate::lexer::TokenKind, int)>::empty());
            }
        }
        let errs = crate::resolver::resolve(&mut program);
        if errs.len() > 0 {
            return Outcome::Errors(errs);
        }
        let mut interpreter = Interpreter::new();
        let mut fuel = fuel;
        interpreter.run_program(&program, host, &mut fuel)
    }
}

} // verus!
