//! The resolver of the tree-walking model: it finds, for each use of a
//! variable, how many scopes out the variable was declared, and rejects a
//! name declared twice in one local scope.
//!
//! Each scope is the list of names declared in it, none twice. Globals live
//! outside every scope: a name found in no scope keeps no depth.
use vstd::prelude::*;

use crate::ast::{
    Expr, ExprAssign, ExprCall, ExprGet, ExprInfix, ExprLiteral, ExprPrefix, ExprS, ExprSet, ExprSuper, ExprVar,
    Program, Stmt, StmtBlock, StmtClass, StmtExpr, StmtFor, StmtFun, StmtIf, StmtPrint, StmtReturn, StmtS, StmtVar,
    StmtWhile, Var,
};
use crate::error::{Error, ErrorS, NameError, Span};

verus! {

pub struct Resolver {
    pub scopes: Vec<Vec<String>>,
}

/// The names of a scope.
pub open spec fn names(scope: Seq<String>) -> Seq<Seq<char>> {
    scope.map_values(|s: String| s@)
}

/// How many scopes out from the innermost the name is declared: the
/// innermost scope that declares it counts.
pub open spec fn depth_in(scopes: Seq<Seq<Seq<char>>>, name: Seq<char>) -> Option<nat>
    decreases scopes.len(),
{
    if scopes.len() == 0 {
        None
    } else if scopes.last().contains(name) {
        Some(0)
    } else {
        match depth_in(scopes.drop_last(), name) {
            Some(d) => Some(d + 1),
            None => None,
        }
    }
}

/// A depth counted from `d` scopes further out.
pub open spec fn shift(o: Option<nat>, d: nat) -> Option<nat> {
    match o {
        Some(x) => Some(x + d),
        None => None,
    }
}

/// The depth the resolver records for a name.
pub open spec fn depth_opt(scopes: Seq<Seq<Seq<char>>>, name: Seq<char>) -> Option<usize> {
    match depth_in(scopes, name) {
        Some(d) => Some(d as usize),
        None => None,
    }
}

/// `w` is the variable `v` with its depth filled in from `scopes`.
pub open spec fn var_resolved(scopes: Seq<Seq<Seq<char>>>, v: Var, w: Var) -> bool {
    w.name@ == v.name@ && w.depth == depth_opt(scopes, v.name@)
}

/// `r` is the expression `e`, with the same shape, spans, names and values,
/// and with the depth of every variable it uses filled in from `scopes`.
pub open spec fn expr_resolved(scopes: Seq<Seq<Seq<char>>>, e: ExprS, r: ExprS) -> bool
    decreases e,
{
    r.1 == e.1 && match (e.0, r.0) {
        (Expr::Assign(a), Expr::Assign(b)) => var_resolved(scopes, a.var, b.var) && expr_resolved(scopes, a.value, b.value),
        (Expr::Call(a), Expr::Call(b)) => {
            proof {
                assert(decreases_to!(e => e.0));
                assert(decreases_to!(e.0 => e.0->Call_0));
                assert(decreases_to!(e.0->Call_0 => e.0->Call_0.args));
                assert(decreases_to!(a.args => a.args@));
            }
            expr_resolved(scopes, a.callee, b.callee) && list_resolved(scopes, a.args@, b.args@)
        },
        (Expr::Get(a), Expr::Get(b)) => a.name@ == b.name@ && expr_resolved(scopes, a.object, b.object),
        (Expr::Literal(a), Expr::Literal(b)) => a == b,
        (Expr::Infix(a), Expr::Infix(b)) => a.op == b.op && expr_resolved(scopes, a.lt, b.lt) && expr_resolved(
            scopes,
            a.rt,
            b.rt,
        ),
        (Expr::Prefix(a), Expr::Prefix(b)) => a.op == b.op && expr_resolved(scopes, a.rt, b.rt),
        (Expr::SetProperty(a), Expr::SetProperty(b)) => a.name@ == b.name@ && expr_resolved(scopes, a.object, b.object)
            && expr_resolved(scopes, a.value, b.value),
        (Expr::Super(a), Expr::Super(b)) => a.name@ == b.name@ && var_resolved(scopes, a.super_, b.super_),
        (Expr::Var(a), Expr::Var(b)) => var_resolved(scopes, a.var, b.var),
        _ => false,
    }
}

/// Each expression of `r` is the one of `e` in the same place, resolved.
pub open spec fn list_resolved(scopes: Seq<Seq<Seq<char>>>, e: Seq<ExprS>, r: Seq<ExprS>) -> bool
    decreases e,
{
    e.len() == r.len() && (e.len() > 0 ==> expr_resolved(scopes, e.last(), r.last()) && list_resolved(
        scopes,
        e.drop_last(),
        r.drop_last(),
    ))
}

/// Both absent, or both present with `r` resolved from `e`.
pub open spec fn opt_resolved(scopes: Seq<Seq<Seq<char>>>, e: Option<ExprS>, r: Option<ExprS>) -> bool {
    match (e, r) {
        (Some(a), Some(b)) => expr_resolved(scopes, a, b),
        (None, None) => true,
        _ => false,
    }
}

/// The scopes with `name` declared in the innermost one, if there is one.
/// No two of the names have the same characters.
pub open spec fn views_distinct(ps: Seq<String>) -> bool {
    forall|a: int, b: int| 0 <= a < b < ps.len() ==> ps[a]@ != ps[b]@
}

/// Declaring `name` in the innermost scope, if there is one, is allowed.
pub open spec fn free_in(scopes: Seq<Seq<Seq<char>>>, name: Seq<char>) -> bool {
    scopes.len() == 0 || !scopes.last().contains(name)
}

/// A statement that declares nothing but, at most, one variable: an
/// expression, `print`, or `var`.
pub open spec fn flat_stmt(s: StmtS) -> bool {
    s.0 is Expr || s.0 is Print || s.0 is Var
}

/// Whether `r` is the error that a name is declared twice in one scope.
pub open spec fn redefined<T>(r: Result<T, ErrorS>) -> bool {
    match r {
        Err((Error::NameError(NameError::AlreadyDefined { .. }), _)) => true,
        _ => false,
    }
}

pub open spec fn declared(scopes: Seq<Seq<Seq<char>>>, name: Seq<char>) -> Seq<Seq<Seq<char>>> {
    if scopes.len() == 0 {
        scopes
    } else {
        scopes.update(scopes.len() - 1, scopes.last().push(name))
    }
}

/// The scopes after a statement: a `var`, `fun` or (without a superclass)
/// `class` declares its name in the innermost scope; blocks and `for`
/// loops declare only in scopes of their own.
pub open spec fn scopes_after(sc: Seq<Seq<Seq<char>>>, s: StmtS) -> Seq<Seq<Seq<char>>>
    decreases s,
{
    match s.0 {
        Stmt::Var(v) => declared(sc, v.var.name@),
        Stmt::Fun(f) => declared(sc, f.name@),
        Stmt::Class(c) => if c.super_ is None {
            declared(sc, c.name@)
        } else {
            sc
        },
        Stmt::If(a) => {
            let StmtIf { cond, then, else_ } = *a;
            proof {
                assert(decreases_to!(s => s.0));
                assert(decreases_to!(s.0 => s.0->If_0));
                assert(decreases_to!(s.0->If_0 => s.0->If_0.else_));
            }
            let s1 = scopes_after(sc, then);
            match else_ {
                Some(e) => scopes_after(s1, e),
                None => s1,
            }
        },
        Stmt::While(a) => scopes_after(sc, a.body),
        _ => sc,
    }
}

/// The scopes after a list of statements, in order.
pub open spec fn stmts_after(sc: Seq<Seq<Seq<char>>>, ss: Seq<StmtS>) -> Seq<Seq<Seq<char>>>
    decreases ss.len(),
{
    if ss.len() == 0 {
        sc
    } else {
        scopes_after(stmts_after(sc, ss.drop_last()), ss.last())
    }
}

/// The scopes after the names of a list of methods are declared in turn.
pub open spec fn methods_after(sc: Seq<Seq<Seq<char>>>, ms: Seq<(StmtFun, Span)>) -> Seq<Seq<Seq<char>>>
    decreases ms.len(),
{
    if ms.len() == 0 {
        sc
    } else {
        declared(methods_after(sc, ms.drop_last()), ms.last().0.name@)
    }
}

/// Both absent, or both present with `r` resolved from `s`.
pub open spec fn opt_stmt_resolved(sc: Seq<Seq<Seq<char>>>, s: Option<StmtS>, r: Option<StmtS>) -> bool
    decreases s,
{
    match (s, r) {
        (Some(a), Some(b)) => stmt_resolved(sc, a, b),
        (None, None) => true,
        _ => false,
    }
}

/// `r` is the statement `s`, resolved when it starts in scopes `sc`: every
/// expression in it resolved in the scopes in force where it stands.
pub open spec fn stmt_resolved(sc: Seq<Seq<Seq<char>>>, s: StmtS, r: StmtS) -> bool
    decreases s,
{
    r.1 == s.1 && match (s.0, r.0) {
        (Stmt::Expr(a), Stmt::Expr(b)) => expr_resolved(sc, a.value, b.value),
        (Stmt::Print(a), Stmt::Print(b)) => expr_resolved(sc, a.value, b.value),
        (Stmt::Return(a), Stmt::Return(b)) => opt_resolved(sc, a.value, b.value),
        (Stmt::Var(a), Stmt::Var(b)) => a.var.name@ == b.var.name@ && b.var.depth == a.var.depth && opt_resolved(
            sc,
            a.value,
            b.value,
        ),
        (Stmt::If(a), Stmt::If(b)) => {
            let StmtIf { cond, then, else_ } = *a;
            let StmtIf { cond: rc, then: rt, else_: re } = *b;
            proof {
                assert(decreases_to!(s => s.0));
                assert(decreases_to!(s.0 => s.0->If_0));
                assert(decreases_to!(s.0->If_0 => s.0->If_0.else_));
            }
            expr_resolved(sc, cond, rc) && stmt_resolved(sc, then, rt) && opt_stmt_resolved(
                scopes_after(sc, then),
                else_,
                re,
            )
        },
        (Stmt::While(a), Stmt::While(b)) => expr_resolved(sc, a.cond, b.cond) && stmt_resolved(sc, a.body, b.body),
        (Stmt::Block(a), Stmt::Block(b)) => {
            proof {
                assert(decreases_to!(s => s.0));
                assert(decreases_to!(s.0 => s.0->Block_0));
                assert(decreases_to!(s.0->Block_0 => s.0->Block_0.stmts));
                assert(decreases_to!(a.stmts => a.stmts@));
            }
            stmts_resolved(sc.push(Seq::empty()), a.stmts@, b.stmts@)
        },
        (Stmt::For(a), Stmt::For(b)) => {
            proof {
                assert(decreases_to!(s => s.0));
                assert(decreases_to!(s.0 => s.0->For_0));
                assert(decreases_to!(s.0->For_0 => s.0->For_0.init));
            }
            let inner = sc.push(Seq::empty());
            let s1 = match a.init {
                Some(i) => scopes_after(inner, i),
                None => inner,
            };
            opt_stmt_resolved(inner, a.init, b.init) && opt_resolved(s1, a.cond, b.cond) && opt_resolved(
                s1,
                a.incr,
                b.incr,
            ) && stmt_resolved(s1, a.body, b.body)
        },
        (Stmt::Fun(a), Stmt::Fun(b)) => {
            proof {
                assert(decreases_to!(s => s.0));
                assert(decreases_to!(s.0 => s.0->Fun_0));
            }
            fun_resolved(declared(sc, a.name@), a, b)
        },
        (Stmt::Class(a), Stmt::Class(b)) => {
            proof {
                assert(decreases_to!(s => s.0));
                assert(decreases_to!(s.0 => s.0->Class_0));
            }
            class_resolved(sc, a, b)
        },
        (Stmt::Error, Stmt::Error) => true,
        _ => false,
    }
}

/// Each statement of `rs` is the one of `ss` in the same place, resolved in
/// the scopes that the statements before it leave.
pub open spec fn stmts_resolved(sc: Seq<Seq<Seq<char>>>, ss: Seq<StmtS>, rs: Seq<StmtS>) -> bool
    decreases ss,
{
    ss.len() == rs.len() && (ss.len() > 0 ==> stmts_resolved(sc, ss.drop_last(), rs.drop_last()) && stmt_resolved(
        stmts_after(sc, ss.drop_last()),
        ss.last(),
        rs.last(),
    ))
}

/// `g` is the function `f` resolved where its name is declared in `sc`: its
/// parameters and body share a scope of their own.
pub open spec fn fun_resolved(sc: Seq<Seq<Seq<char>>>, f: StmtFun, g: StmtFun) -> bool
    decreases f,
{
    proof {
        assert(decreases_to!(f => f.body));
        assert(decreases_to!(f.body => f.body.stmts));
        assert(decreases_to!(f.body.stmts => f.body.stmts@));
    }
    g.name@ == f.name@ && names(g.params@) == names(f.params@) && stmts_resolved(
        sc.push(names(f.params@)),
        f.body.stmts@,
        g.body.stmts@,
    )
}

/// The methods of `ns` are those of `ms` in the same places, each resolved
/// where the names of the methods before it and its own are declared.
pub open spec fn methods_resolved(sc: Seq<Seq<Seq<char>>>, ms: Seq<(StmtFun, Span)>, ns: Seq<(StmtFun, Span)>) -> bool
    decreases ms,
{
    ms.len() == ns.len() && (ms.len() > 0 ==> methods_resolved(sc, ms.drop_last(), ns.drop_last()) && ns.last().1
        == ms.last().1 && fun_resolved(declared(methods_after(sc, ms.drop_last()), ms.last().0.name@), ms.last().0, ns.last().0))
}

/// `d` is the class `c` resolved in scopes `sc`: a superclass in a scope of
/// its own that declares `super`, the class's name declared, and the
/// methods in a scope that declares `this`.
pub open spec fn class_resolved(sc: Seq<Seq<Seq<char>>>, c: StmtClass, d: StmtClass) -> bool
    decreases c,
{
    proof {
        assert(decreases_to!(c => c.methods));
        assert(decreases_to!(c.methods => c.methods@));
    }
    d.name@ == c.name@ && match (c.super_, d.super_) {
        (Some(e), Some(f)) => {
            let s1 = sc.push(seq![super_text()]);
            expr_resolved(s1, e, f) && methods_resolved(declared(s1, c.name@).push(seq![this_text()]), c.methods@, d.methods@)
        },
        (None, None) => methods_resolved(declared(sc, c.name@).push(seq![this_text()]), c.methods@, d.methods@),
        _ => false,
    }
}

/// Resolving `s` from scopes `sc` declares no name twice in one scope:
/// every `var`, `fun` and `class` name is new to its scope, the parameters
/// of each function are distinct, and so are the methods of each class.
pub open spec fn stmt_ok(sc: Seq<Seq<Seq<char>>>, s: StmtS) -> bool
    decreases s,
{
    match s.0 {
        Stmt::Var(v) => free_in(sc, v.var.name@),
        Stmt::Fun(f) => {
            proof {
                assert(decreases_to!(s => s.0));
                assert(decreases_to!(s.0 => s.0->Fun_0));
            }
            free_in(sc, f.name@) && fun_ok(declared(sc, f.name@), f)
        },
        Stmt::Class(c) => {
            proof {
                assert(decreases_to!(s => s.0));
                assert(decreases_to!(s.0 => s.0->Class_0));
            }
            class_ok(sc, c)
        },
        Stmt::If(a) => {
            let StmtIf { cond, then, else_ } = *a;
            proof {
                assert(decreases_to!(s => s.0));
                assert(decreases_to!(s.0 => s.0->If_0));
                assert(decreases_to!(s.0->If_0 => s.0->If_0.else_));
            }
            stmt_ok(sc, then) && match else_ {
                Some(e) => stmt_ok(scopes_after(sc, then), e),
                None => true,
            }
        },
        Stmt::While(a) => stmt_ok(sc, a.body),
        Stmt::Block(b) => {
            proof {
                assert(decreases_to!(s => s.0));
                assert(decreases_to!(s.0 => s.0->Block_0));
                assert(decreases_to!(s.0->Block_0 => s.0->Block_0.stmts));
                assert(decreases_to!(b.stmts => b.stmts@));
            }
            stmts_ok(sc.push(Seq::empty()), b.stmts@)
        },
        Stmt::For(a) => {
            proof {
                assert(decreases_to!(s => s.0));
                assert(decreases_to!(s.0 => s.0->For_0));
                assert(decreases_to!(s.0->For_0 => s.0->For_0.init));
            }
            let inner = sc.push(Seq::empty());
            let s1 = match a.init {
                Some(i) => scopes_after(inner, i),
                None => inner,
            };
            (match a.init {
                Some(i) => stmt_ok(inner, i),
                None => true,
            }) && stmt_ok(s1, a.body)
        },
        _ => true,
    }
}

/// Each statement of `ss` is fine in the scopes the ones before it leave.
pub open spec fn stmts_ok(sc: Seq<Seq<Seq<char>>>, ss: Seq<StmtS>) -> bool
    decreases ss,
{
    ss.len() > 0 ==> stmts_ok(sc, ss.drop_last()) && stmt_ok(stmts_after(sc, ss.drop_last()), ss.last())
}

/// A function whose name is declared in `sc`: distinct parameters, and a
/// body that is fine in the scope they open.
pub open spec fn fun_ok(sc: Seq<Seq<Seq<char>>>, f: StmtFun) -> bool
    decreases f,
{
    proof {
        assert(decreases_to!(f => f.body));
        assert(decreases_to!(f.body => f.body.stmts));
        assert(decreases_to!(f.body.stmts => f.body.stmts@));
    }
    views_distinct(f.params@) && stmts_ok(sc.push(names(f.params@)), f.body.stmts@)
}

/// Each method's name is new among the methods before it, and the method
/// is fine.
pub open spec fn methods_ok(sc: Seq<Seq<Seq<char>>>, ms: Seq<(StmtFun, Span)>) -> bool
    decreases ms,
{
    ms.len() > 0 ==> methods_ok(sc, ms.drop_last()) && free_in(methods_after(sc, ms.drop_last()), ms.last().0.name@)
        && fun_ok(declared(methods_after(sc, ms.drop_last()), ms.last().0.name@), ms.last().0)
}

/// A class: its name is new to its scope (the scope of `super` when it has
/// a superclass) and its methods are fine in the scope of `this`.
pub open spec fn class_ok(sc: Seq<Seq<Seq<char>>>, c: StmtClass) -> bool
    decreases c,
{
    proof {
        assert(decreases_to!(c => c.methods));
        assert(decreases_to!(c.methods => c.methods@));
    }
    let s1 = if c.super_ is Some {
        sc.push(seq![super_text()])
    } else {
        sc
    };
    free_in(s1, c.name@) && methods_ok(declared(s1, c.name@).push(seq![this_text()]), c.methods@)
}

/// A list is fine up to `k + 1` exactly when it is up to `k` and its
/// statement `k` is, in the scopes the ones before leave.
proof fn lemma_stmts_ok_step(sc: Seq<Seq<Seq<char>>>, ss: Seq<StmtS>, k: int)
    requires
        0 <= k < ss.len(),
    ensures
        stmts_ok(sc, ss.take(k + 1)) == (stmts_ok(sc, ss.take(k)) && stmt_ok(stmts_after(sc, ss.take(k)), ss[k])),
{
    assert(ss.take(k + 1).drop_last() =~= ss.take(k));
}

/// Every prefix of a fine list is fine.
proof fn lemma_stmts_ok_prefix(sc: Seq<Seq<Seq<char>>>, ss: Seq<StmtS>, k: int)
    requires
        stmts_ok(sc, ss),
        0 <= k <= ss.len(),
    ensures
        stmts_ok(sc, ss.take(k)),
    decreases ss.len() - k,
{
    if k < ss.len() {
        lemma_stmts_ok_prefix(sc, ss, k + 1);
        lemma_stmts_ok_step(sc, ss, k);
    } else {
        assert(ss.take(k) =~= ss);
    }
}

/// The methods are fine up to `k + 1` exactly when they are up to `k` and
/// method `k` is.
proof fn lemma_methods_ok_step(sc: Seq<Seq<Seq<char>>>, ms: Seq<(StmtFun, Span)>, k: int)
    requires
        0 <= k < ms.len(),
    ensures
        methods_ok(sc, ms.take(k + 1)) == (methods_ok(sc, ms.take(k)) && free_in(methods_after(sc, ms.take(k)), ms[k].0.name@)
            && fun_ok(declared(methods_after(sc, ms.take(k)), ms[k].0.name@), ms[k].0)),
{
    assert(ms.take(k + 1).drop_last() =~= ms.take(k));
}

/// Every prefix of fine methods is fine.
proof fn lemma_methods_ok_prefix(sc: Seq<Seq<Seq<char>>>, ms: Seq<(StmtFun, Span)>, k: int)
    requires
        methods_ok(sc, ms),
        0 <= k <= ms.len(),
    ensures
        methods_ok(sc, ms.take(k)),
    decreases ms.len() - k,
{
    if k < ms.len() {
        lemma_methods_ok_prefix(sc, ms, k + 1);
        lemma_methods_ok_step(sc, ms, k);
    } else {
        assert(ms.take(k) =~= ms);
    }
}

pub open spec fn super_text() -> Seq<char> {
    seq!['s', 'u', 'p', 'e', 'r']
}

pub open spec fn this_text() -> Seq<char> {
    seq!['t', 'h', 'i', 's']
}

impl Resolver {
    /// The names of each scope, the outermost first.
    pub open spec fn view_scopes(&self) -> Seq<Seq<Seq<char>>> {
        self.scopes@.map_values(|s: Vec<String>| names(s@))
    }

    pub fn new() -> (r: Resolver)
        ensures
            r.scopes@.len() == 0,
    {
        Resolver { scopes: Vec::new() }
    }

    fn begin_scope(&mut self)
        ensures
            final(self).view_scopes() == old(self).view_scopes().push(Seq::empty()),
    {
        self.scopes.push(Vec::new());
        proof {
            assert(names(Seq::<String>::empty()) =~= Seq::<Seq<char>>::empty());
            assert(self.view_scopes() =~= old(self).view_scopes().push(Seq::empty()));
        }
    }

    fn end_scope(&mut self)
        requires
            old(self).scopes@.len() > 0,
        ensures
            final(self).view_scopes() == old(self).view_scopes().drop_last(),
    {
        self.scopes.pop();
        proof {
            assert(self.view_scopes() =~= old(self).view_scopes().drop_last());
        }
    }

    /// Declares a name in the innermost scope; outside every scope it is a
    /// global, and nothing is recorded.
    pub fn define(&mut self, name: &str, span: Span) -> (r: Result<(), ErrorS>)
        ensures
            ({
                let sc = old(self).view_scopes();
                &&& sc.len() == 0 ==> r is Ok && final(self).view_scopes() == sc
                &&& (sc.len() > 0 && sc.last().contains(name@)) ==> final(self).view_scopes() == sc && (r matches Err(
                    (Error::NameError(NameError::AlreadyDefined { name: n }), sp),
                ) && n@ == name@ && sp == span)
                &&& (sc.len() > 0 && !sc.last().contains(name@)) ==> r is Ok
                    && final(self).view_scopes() == sc.update(sc.len() - 1, sc.last().push(name@))
            }),
    {
        let n = self.scopes.len();
        if n == 0 {
            return Ok(());
        }
        let key = name.to_owned();
        let ghost sc = self.view_scopes();
        let ghost last = self.scopes@[n - 1]@;
        let mut i: usize = 0;
        while i < self.scopes[n - 1].len()
            invariant
                n == self.scopes@.len(),
                n > 0,
                sc == self.view_scopes(),
                last == self.scopes@[n - 1]@,
                key@ == name@,
                i <= last.len(),
                forall|j: int| 0 <= j < i ==> last[j]@ != name@,
            decreases last.len() - i,
        {
            if self.scopes[n - 1][i] == key {
                proof {
                    assert(names(last)[i as int] == name@);
                    assert(sc.last() == names(last));
                }
                let e = name.to_owned();
                return Err((Error::NameError(NameError::AlreadyDefined { name: e }), span));
            }
            i = i + 1;
        }
        proof {
            assert(sc.last() == names(last));
            assert(!sc.last().contains(name@)) by {
                if sc.last().contains(name@) {
                    let j = choose|j: int| 0 <= j < sc.last().len() && sc.last()[j] == name@;
                    assert(last[j]@ == name@);
                }
            }
        }
        let mut scope = Vec::new();
        std::mem::swap(&mut scope, &mut self.scopes[n - 1]);
        scope.push(key);
        std::mem::swap(&mut scope, &mut self.scopes[n - 1]);
        proof {
            assert(names(self.scopes@[n - 1]@) =~= names(last).push(name@));
            assert(self.view_scopes() =~= sc.update(sc.len() - 1, sc.last().push(name@)));
        }
        Ok(())
    }

    /// How many scopes out from the innermost the name is declared, if in
    /// any.
    pub fn depth_of(&self, name: &str) -> (r: Option<usize>)
        ensures
            match depth_in(self.view_scopes(), name@) {
                Some(d) => r == Some(d as usize),
                None => r is None,
            },
    {
        let key = name.to_owned();
        let n = self.scopes.len();
        let mut d: usize = 0;
        proof {
            assert(self.view_scopes().take(n as int) =~= self.view_scopes());
            match depth_in(self.view_scopes(), name@) {
                Some(x) => assert(shift(Some(x), 0) == Some(x)),
                None => {},
            }
        }
        while d < n
            invariant
                n == self.scopes@.len(),
                d <= n,
                key@ == name@,
                depth_in(self.view_scopes(), name@) == shift(depth_in(self.view_scopes().take(n - d), name@), d as nat),
            decreases n - d,
        {
            let scope = &self.scopes[n - 1 - d];
            let mut found = false;
            let mut j: usize = 0;
            while j < scope.len()
                invariant
                    j <= scope@.len(),
                    key@ == name@,
                    found == exists|k: int| 0 <= k < j && scope@[k]@ == name@,
                decreases scope@.len() - j,
            {
                if scope[j] == key {
                    found = true;
                }
                j = j + 1;
            }
            let ghost t = self.view_scopes().take(n - d);
            proof {
                assert(t.last() == names(scope@));
                assert(t.last().contains(name@) == found) by {
                    if found {
                        let k = choose|k: int| 0 <= k < scope@.len() && scope@[k]@ == name@;
                        assert(t.last()[k] == name@);
                    }
                    if t.last().contains(name@) {
                        let k = choose|k: int| 0 <= k < t.last().len() && t.last()[k] == name@;
                        assert(scope@[k]@ == name@);
                    }
                }
                assert(t.drop_last() =~= self.view_scopes().take(n - d - 1));
            }
            if found {
                return Some(d);
            }
            d = d + 1;
        }
        proof {
            assert(self.view_scopes().take(0) =~= Seq::<Seq<Seq<char>>>::empty());
        }
        None
    }

    /// The variable, with the depth at which its name is declared now.
    fn access(&self, var: &Var) -> (r: Var)
        ensures
            r.name@ == var.name@,
            match depth_in(self.view_scopes(), var.name@) {
                Some(d) => r.depth == Some(d as usize),
                None => r.depth is None,
            },
    {
        Var { name: var.name.clone(), depth: self.depth_of(var.name.as_str()) }
    }

    /// The expression with the depth of each variable it uses filled in.
    pub fn resolve_expr(&self, expr: &ExprS) -> (r: ExprS)
        ensures
            expr_resolved(self.view_scopes(), *expr, r),
        decreases expr,
    {
        let span = expr.1;
        let e = match &expr.0 {
            Expr::Assign(a) => {
                let value = self.resolve_expr(&a.value);
                Expr::Assign(Box::new(ExprAssign { var: self.access(&a.var), value }))
            },
            Expr::Call(c) => {
                let mut args: Vec<ExprS> = Vec::new();
                let mut i: usize = 0;
                proof {
                    assert(c.args@.take(0) =~= Seq::<ExprS>::empty());
                }
                #[verifier::loop_isolation(false)]
                while i < c.args.len()
                    invariant
                        i <= c.args@.len(),
                        list_resolved(self.view_scopes(), c.args@.take(i as int), args@),
                    decreases c.args@.len() - i,
                {
                    proof {
                        assert(decreases_to!(*expr => expr.0));
                        assert(decreases_to!(expr.0 => expr.0->Call_0));
                        assert(decreases_to!(expr.0->Call_0 => expr.0->Call_0.args));
                        assert(decreases_to!(c.args => c.args@));
                        assert(decreases_to!(c.args@ => c.args@[i as int]));
                    }
                    let ghost before = args@;
                    args.push(self.resolve_expr(&c.args[i]));
                    proof {
                        assert(c.args@.take(i + 1).drop_last() =~= c.args@.take(i as int));
                        assert(args@.drop_last() =~= before);
                    }
                    i = i + 1;
                }
                proof {
                    assert(c.args@.take(c.args@.len() as int) =~= c.args@);
                }
                let callee = self.resolve_expr(&c.callee);
                Expr::Call(Box::new(ExprCall { callee, args }))
            },
            Expr::Get(g) => Expr::Get(Box::new(ExprGet { object: self.resolve_expr(&g.object), name: g.name.clone() })),
            Expr::Literal(l) => Expr::Literal(
                match l {
                    ExprLiteral::Nil => ExprLiteral::Nil,
                    ExprLiteral::Bool(b) => ExprLiteral::Bool(*b),
                    ExprLiteral::Number(n) => ExprLiteral::Number(n.clone()),
                    ExprLiteral::String(s) => ExprLiteral::String(s.clone()),
                },
            ),
            Expr::Infix(i) => {
                let lt = self.resolve_expr(&i.lt);
                let rt = self.resolve_expr(&i.rt);
                Expr::Infix(Box::new(ExprInfix { lt, op: i.op, rt }))
            },
            Expr::Prefix(p) => Expr::Prefix(Box::new(ExprPrefix { op: p.op, rt: self.resolve_expr(&p.rt) })),
            Expr::SetProperty(s) => {
                let value = self.resolve_expr(&s.value);
                let object = self.resolve_expr(&s.object);
                Expr::SetProperty(Box::new(ExprSet { object, name: s.name.clone(), value }))
            },
            Expr::Super(s) => Expr::Super(ExprSuper { super_: self.access(&s.super_), name: s.name.clone() }),
            Expr::Var(v) => Expr::Var(ExprVar { var: self.access(&v.var) }),
        };
        (e, span)
    }
}


impl Resolver {
    /// The scopes are as many as before, and all but the innermost are as
    /// they were.
    pub open spec fn kept(&self, old: &Resolver) -> bool {
        let a = old.view_scopes();
        let b = self.view_scopes();
        &&& b.len() == a.len()
        &&& forall|i: int| 0 <= i < a.len() - 1 ==> #[trigger] b[i] == a[i]
    }

    fn resolve_opt_expr(&self, e: &Option<ExprS>) -> (r: Option<ExprS>)
        ensures
            r is Some == e is Some,
            opt_resolved(self.view_scopes(), *e, r),
        decreases e,
    {
        match e {
            Some(x) => Some(self.resolve_expr(x)),
            None => None,
        }
    }

    /// Resolves a function: its name is declared, then its parameters and
    /// body in a scope of their own.
    pub fn resolve_fun(&mut self, fun: &StmtFun, span: Span) -> (r: Result<StmtFun, ErrorS>)
        ensures
            r is Ok ==> final(self).kept(old(self)),
            r is Ok ==> final(self).view_scopes() == declared(old(self).view_scopes(), fun.name@),
            r matches Ok(f) ==> f.name@ == fun.name@ && f.params@.len() == fun.params@.len(),
            r matches Ok(f) ==> fun_resolved(declared(old(self).view_scopes(), fun.name@), *fun, f),
            !free_in(old(self).view_scopes(), fun.name@) ==> redefined(r),
            (free_in(old(self).view_scopes(), fun.name@) && views_distinct(fun.params@) && fun.body.stmts@.len() == 0) ==> r is Ok,
            r is Ok <==> (free_in(old(self).view_scopes(), fun.name@) && fun_ok(declared(old(self).view_scopes(), fun.name@), *fun)),
        decreases fun, 0int,
    {
        let ghost s0 = *self;
        self.define(fun.name.as_str(), span)?;
        let ghost s1 = *self;
        self.begin_scope();
        let mut i: usize = 0;
        proof {
            assert(names(fun.params@.take(0)) =~= Seq::<Seq<char>>::empty());
        }
        while i < fun.params.len()
            invariant
                i <= fun.params@.len(),
                self.view_scopes() == s1.view_scopes().push(names(fun.params@.take(i as int))),
                free_in(old(self).view_scopes(), fun.name@),
                views_distinct(fun.params@.take(i as int)),
            decreases fun.params@.len() - i,
        {
            proof {
                if views_distinct(fun.params@) {
                    if names(fun.params@.take(i as int)).contains(fun.params@[i as int]@) {
                        let j = choose|j: int| 0 <= j < i && names(fun.params@.take(i as int))[j] == fun.params@[i as int]@;
                        assert(fun.params@[j]@ == fun.params@[i as int]@);
                    }
                }
            }
            proof {
                if names(fun.params@.take(i as int)).contains(fun.params@[i as int]@) {
                    let j = choose|j: int| 0 <= j < i && names(fun.params@.take(i as int))[j] == fun.params@[i as int]@;
                    assert(fun.params@[j]@ == fun.params@[i as int]@);
                    assert(!views_distinct(fun.params@));
                }
            }
            self.define(fun.params[i].as_str(), span)?;
            proof {
                assert forall|a: int, b: int| 0 <= a < b < i + 1 implies #[trigger] fun.params@.take(i + 1)[a]@ != #[trigger] fun.params@.take(i + 1)[b]@ by {
                    if b == i {
                        assert(names(fun.params@.take(i as int))[a] == fun.params@[a]@);
                    } else {
                        assert(fun.params@.take(i as int)[a] == fun.params@[a]);
                        assert(fun.params@.take(i as int)[b] == fun.params@[b]);
                    }
                }
                assert(names(fun.params@.take(i + 1)) =~= names(fun.params@.take(i as int)).push(fun.params@[i as int]@));
                assert(self.view_scopes() =~= s1.view_scopes().push(names(fun.params@.take(i + 1))));
            }
            i = i + 1;
        }
        let ghost start = s1.view_scopes().push(names(fun.params@));
        proof {
            assert(fun.params@.take(fun.params@.len() as int) =~= fun.params@);
            assert(s1.view_scopes() == declared(old(self).view_scopes(), fun.name@));
            assert(fun.body.stmts@.take(0) =~= Seq::<StmtS>::empty());
        }
        let mut stmts: Vec<StmtS> = Vec::new();
        let mut k: usize = 0;
        #[verifier::loop_isolation(false)]
        while k < fun.body.stmts.len()
            invariant
                k <= fun.body.stmts@.len(),
                self.view_scopes().len() == s1.view_scopes().len() + 1,
                forall|m: int| 0 <= m < s1.view_scopes().len() ==> #[trigger] self.view_scopes()[m] == s1.view_scopes()[m],
                self.view_scopes() == stmts_after(start, fun.body.stmts@.take(k as int)),
                stmts_resolved(start, fun.body.stmts@.take(k as int), stmts@),
                stmts_ok(start, fun.body.stmts@.take(k as int)),
                views_distinct(fun.params@),
            decreases fun.body.stmts@.len() - k,
        {
            proof {
                assert(decreases_to!(*fun => fun.body));
                assert(decreases_to!(fun.body => fun.body.stmts));
                assert(decreases_to!(fun.body.stmts => fun.body.stmts@));
                assert(decreases_to!(fun.body.stmts@ => fun.body.stmts@[k as int]));
            }
            let ghost before = stmts@;
            proof {
                lemma_stmts_ok_step(start, fun.body.stmts@, k as int);
                if stmts_ok(start, fun.body.stmts@) {
                    lemma_stmts_ok_prefix(start, fun.body.stmts@, k + 1);
                }
            }
            let st = self.resolve_stmt(&fun.body.stmts[k])?;
            stmts.push(st);
            proof {
                assert(fun.body.stmts@.take(k + 1).drop_last() =~= fun.body.stmts@.take(k as int));
                assert(stmts@.drop_last() =~= before);
            }
            k = k + 1;
        }
        proof {
            assert(fun.body.stmts@.take(fun.body.stmts@.len() as int) =~= fun.body.stmts@);
        }
        self.end_scope();
        proof {
            assert(self.view_scopes() =~= s1.view_scopes());
        }
        proof {
            assert forall|m: int| 0 <= m < s0.view_scopes().len() - 1 implies #[trigger] self.view_scopes()[m] == s0.view_scopes()[m] by {
                assert(self.view_scopes()[m] == s1.view_scopes()[m]);
            }
        }
        let mut params: Vec<String> = Vec::new();
        let mut j: usize = 0;
        while j < fun.params.len()
            invariant
                j <= fun.params@.len(),
                params@ == fun.params@.take(j as int),
            decreases fun.params@.len() - j,
        {
            params.push(fun.params[j].clone());
            proof {
                assert(params@ =~= fun.params@.take(j + 1));
            }
            j = j + 1;
        }
        proof {
            assert(params@ =~= fun.params@);
        }
        Ok(StmtFun { name: fun.name.clone(), params, body: StmtBlock { stmts } })
    }

    /// The statement with the depth of each variable it uses filled in.
    pub fn resolve_stmt(&mut self, stmt: &StmtS) -> (r: Result<StmtS, ErrorS>)
        ensures
            r is Ok ==> final(self).kept(old(self)),
            r is Ok ==> final(self).view_scopes() == scopes_after(old(self).view_scopes(), *stmt),
            r matches Ok(st) ==> st.1 == stmt.1,
            r matches Ok(st) ==> stmt_resolved(old(self).view_scopes(), *stmt, st),
            stmt.0 is Var && r is Ok ==> final(self).view_scopes() == declared(old(self).view_scopes(), stmt.0->Var_0.var.name@),
            (stmt.0 is Var && old(self).view_scopes().len() > 0 && old(self).view_scopes().last().contains(stmt.0->Var_0.var.name@))
                ==> r matches Err((Error::NameError(NameError::AlreadyDefined { .. }), _)),
            (stmt.0 is Expr || stmt.0 is Print) ==> r is Ok,
            (stmt.0 is Var && free_in(old(self).view_scopes(), stmt.0->Var_0.var.name@)) ==> r is Ok,
            r is Ok <==> stmt_ok(old(self).view_scopes(), *stmt),
        decreases stmt, 1int,
    {
        let ghost s0 = *self;
        let span = stmt.1;
        let st = match &stmt.0 {
            Stmt::Block(block) => {
                self.begin_scope();
                let ghost s1 = *self;
                let mut stmts: Vec<StmtS> = Vec::new();
                let mut i: usize = 0;
                proof {
                    assert(block.stmts@.take(0) =~= Seq::<StmtS>::empty());
                }
                #[verifier::loop_isolation(false)]
                while i < block.stmts.len()
                    invariant
                        i <= block.stmts@.len(),
                        self.kept(&s1),
                        self.view_scopes() == stmts_after(s1.view_scopes(), block.stmts@.take(i as int)),
                        stmts_resolved(s1.view_scopes(), block.stmts@.take(i as int), stmts@),
                        stmts_ok(s1.view_scopes(), block.stmts@.take(i as int)),
                    decreases block.stmts@.len() - i,
                {
                    proof {
                        assert(decreases_to!(*stmt => stmt.0));
                        assert(decreases_to!(stmt.0 => stmt.0->Block_0));
                        assert(decreases_to!(stmt.0->Block_0 => stmt.0->Block_0.stmts));
                        assert(decreases_to!(block.stmts => block.stmts@));
                        assert(decreases_to!(block.stmts@ => block.stmts@[i as int]));
                    }
                    let ghost before = *self;
                    let ghost done = stmts@;
                    proof {
                        lemma_stmts_ok_step(s1.view_scopes(), block.stmts@, i as int);
                        if stmts_ok(s1.view_scopes(), block.stmts@) {
                            lemma_stmts_ok_prefix(s1.view_scopes(), block.stmts@, i + 1);
                        }
                    }
                    let st = self.resolve_stmt(&block.stmts[i])?;
                    proof {
                        assert forall|m: int| 0 <= m < s1.view_scopes().len() - 1 implies #[trigger] self.view_scopes()[m] == s1.view_scopes()[m] by {
                            assert(self.view_scopes()[m] == before.view_scopes()[m]);
                        }
                    }
                    stmts.push(st);
                    proof {
                        assert(block.stmts@.take(i + 1).drop_last() =~= block.stmts@.take(i as int));
                        assert(stmts@.drop_last() =~= done);
                    }
                    i = i + 1;
                }
                proof {
                    assert(block.stmts@.take(block.stmts@.len() as int) =~= block.stmts@);
                }
                self.end_scope();
                Stmt::Block(StmtBlock { stmts })
            },
            Stmt::Class(class) => {
                proof {
                    assert(decreases_to!(*stmt => stmt.0));
                    assert(decreases_to!(stmt.0 => stmt.0->Class_0));
                }
                self.resolve_class(class, span)?
            },
            Stmt::Expr(e) => Stmt::Expr(StmtExpr { value: self.resolve_expr(&e.value) }),
            Stmt::For(f) => {
                self.begin_scope();
                let ghost s1 = *self;
                let init = match &f.init {
                    Some(i) => {
                        proof {
                            assert(decreases_to!(*stmt => stmt.0));
                            assert(decreases_to!(stmt.0 => stmt.0->For_0));
                            assert(decreases_to!(stmt.0->For_0 => stmt.0->For_0.init));
                            assert(decreases_to!(f.init => f.init->Some_0));
                        }
                        Some(self.resolve_stmt(i)?)
                    },
                    None => None,
                };
                let ghost s2 = *self;
                proof {
                    assert(opt_stmt_resolved(s1.view_scopes(), f.init, init));
                    assert(s2.view_scopes() == (match f.init {
                        Some(i) => scopes_after(s1.view_scopes(), i),
                        None => s1.view_scopes(),
                    }));
                }
                let cond = self.resolve_opt_expr(&f.cond);
                let incr = self.resolve_opt_expr(&f.incr);
                let body = self.resolve_stmt(&f.body)?;
                proof {
                    assert forall|m: int| 0 <= m < s1.view_scopes().len() - 1 implies #[trigger] self.view_scopes()[m] == s1.view_scopes()[m] by {
                        assert(self.view_scopes()[m] == s2.view_scopes()[m]);
                    }
                }
                self.end_scope();
                Stmt::For(Box::new(StmtFor { init, cond, incr, body }))
            },
            Stmt::Fun(fun) => {
                proof {
                    assert(decreases_to!(*stmt => stmt.0));
                    assert(decreases_to!(stmt.0 => stmt.0->Fun_0));
                }
                Stmt::Fun(self.resolve_fun(fun, span)?)
            },
            Stmt::If(if_) => {
                let StmtIf { cond, then, else_ } = &**if_;
                let c = self.resolve_expr(cond);
                let ghost s1 = *self;
                let t = self.resolve_stmt(then)?;
                let ghost s2 = *self;
                let e = match else_ {
                    Some(x) => {
                        proof {
                            assert(decreases_to!(*stmt => stmt.0));
                            assert(decreases_to!(stmt.0 => stmt.0->If_0));
                            assert(decreases_to!(stmt.0->If_0 => stmt.0->If_0.else_));
                            assert(decreases_to!(if_.else_ => if_.else_->Some_0));
                        }
                        Some(self.resolve_stmt(x)?)
                    },
                    None => None,
                };
                proof {
                    assert forall|m: int| 0 <= m < s0.view_scopes().len() - 1 implies #[trigger] self.view_scopes()[m] == s0.view_scopes()[m] by {
                        assert(self.view_scopes()[m] == s2.view_scopes()[m]);
                        assert(s2.view_scopes()[m] == s1.view_scopes()[m]);
                    }
                }
                proof {
                    assert(s1.view_scopes() == s0.view_scopes());
                    assert(stmt_resolved(s0.view_scopes(), *then, t));
                    assert(s2.view_scopes() == scopes_after(s0.view_scopes(), *then));
                    assert(opt_stmt_resolved(s2.view_scopes(), *else_, e));
                }
                Stmt::If(Box::new(StmtIf { cond: c, then: t, else_: e }))
            },
            Stmt::Print(p) => Stmt::Print(StmtPrint { value: self.resolve_expr(&p.value) }),
            Stmt::Return(ret) => Stmt::Return(StmtReturn { value: self.resolve_opt_expr(&ret.value) }),
            Stmt::Var(v) => {
                let value = self.resolve_opt_expr(&v.value);
                self.define(v.var.name.as_str(), span)?;
                Stmt::Var(StmtVar { var: Var { name: v.var.name.clone(), depth: v.var.depth }, value })
            },
            Stmt::While(w) => {
                let cond = self.resolve_expr(&w.cond);
                let body = self.resolve_stmt(&w.body)?;
                Stmt::While(Box::new(StmtWhile { cond, body }))
            },
            Stmt::Error => Stmt::Error,
        };
        Ok((st, span))
    }

    /// Resolves a class: `super` is declared in a scope around it when it
    /// has a superclass, and `this` in a scope around its methods.
    fn resolve_class(&mut self, class: &StmtClass, span: Span) -> (r: Result<Stmt, ErrorS>)
        ensures
            r is Ok ==> final(self).kept(old(self)),
            r matches Ok(st) ==> st is Class,
            r matches Ok(st) ==> class_resolved(old(self).view_scopes(), *class, st->Class_0),
            r is Ok ==> final(self).view_scopes() == (if class.super_ is None {
                declared(old(self).view_scopes(), class.name@)
            } else {
                old(self).view_scopes()
            }),
            (class.super_ is None && !free_in(old(self).view_scopes(), class.name@)) ==> redefined(r),
            (class.methods@.len() == 0 && (class.super_ is None ==> free_in(old(self).view_scopes(), class.name@)) && (
            class.super_ is Some ==> class.name@ != super_text())) ==> r is Ok,
            r is Ok <==> class_ok(old(self).view_scopes(), *class),
        decreases class, 2int,
    {
        let ghost s0 = *self;
        proof {
            reveal_strlit("super");
            reveal_strlit("this");
            assert("super"@ =~= super_text());
            assert("this"@ =~= this_text());
        }
        let super_ = match &class.super_ {
            Some(sup) => {
                self.begin_scope();
                self.define("super", span)?;
                proof {
                    assert(self.view_scopes() =~= s0.view_scopes().push(seq![super_text()]));
                }
                Some(self.resolve_expr(sup))
            },
            None => None,
        };
        let ghost s1 = *self;
        assert(class.super_.is_some() ==> s1.view_scopes().len() == s0.view_scopes().len() + 1);
        self.define(class.name.as_str(), span)?;
        let ghost s2 = *self;
        self.begin_scope();
        self.define("this", span)?;
        let ghost s3 = *self;
        proof {
            assert(s3.view_scopes() =~= s2.view_scopes().push(seq![this_text()]));
            assert(class.methods@.take(0) =~= Seq::<(StmtFun, Span)>::empty());
        }
        let mut methods: Vec<(StmtFun, Span)> = Vec::new();
        let mut i: usize = 0;
        #[verifier::loop_isolation(false)]
        while i < class.methods.len()
            invariant
                i <= class.methods@.len(),
                self.kept(&s3),
                self.view_scopes() == methods_after(s3.view_scopes(), class.methods@.take(i as int)),
                methods_resolved(s3.view_scopes(), class.methods@.take(i as int), methods@),
                methods_ok(s3.view_scopes(), class.methods@.take(i as int)),
            decreases class.methods@.len() - i,
        {
            proof {
                assert(decreases_to!(*class => class.methods));
                assert(decreases_to!(class.methods => class.methods@));
                assert(decreases_to!(class.methods@ => class.methods@[i as int]));
                assert(decreases_to!(class.methods@[i as int] => class.methods@[i as int].0));
            }
            let ghost before = *self;
            let ghost done = methods@;
            proof {
                lemma_methods_ok_step(s3.view_scopes(), class.methods@, i as int);
                if methods_ok(s3.view_scopes(), class.methods@) {
                    lemma_methods_ok_prefix(s3.view_scopes(), class.methods@, i + 1);
                }
            }
            let m = self.resolve_fun(&class.methods[i].0, class.methods[i].1)?;
            proof {
                assert forall|k: int| 0 <= k < s3.view_scopes().len() - 1 implies #[trigger] self.view_scopes()[k] == s3.view_scopes()[k] by {
                    assert(self.view_scopes()[k] == before.view_scopes()[k]);
                }
            }
            methods.push((m, class.methods[i].1));
            proof {
                assert(class.methods@.take(i + 1).drop_last() =~= class.methods@.take(i as int));
                assert(methods@.drop_last() =~= done);
            }
            i = i + 1;
        }
        proof {
            assert(class.methods@.take(class.methods@.len() as int) =~= class.methods@);
        }
        self.end_scope();
        assert(self.view_scopes().len() == s1.view_scopes().len());
        assert(self.scopes@.len() == self.view_scopes().len());
        proof {
            assert(self.view_scopes() =~= s2.view_scopes());
        }
        if class.super_.is_some() {
            self.end_scope();
            proof {
                assert(self.view_scopes() =~= s0.view_scopes());
            }
        }
        proof {
            assert forall|k: int| 0 <= k < s0.view_scopes().len() - 1 implies #[trigger] self.view_scopes()[k] == s0.view_scopes()[k] by {
                if class.super_.is_some() {
                    assert(self.view_scopes()[k] == s1.view_scopes()[k]);
                } else {
                    assert(self.view_scopes()[k] == s2.view_scopes()[k]);
                }
            }
        }
        Ok(Stmt::Class(StmtClass { name: class.name.clone(), super_, methods }))
    }

    /// Resolves a whole program; the first name declared twice in a scope
    /// stops it.
    pub fn resolve_program(&mut self, program: &Program) -> (r: Result<Program, ErrorS>)
        ensures
            r matches Ok(p) ==> p.stmts@.len() == program.stmts@.len(),
            r matches Ok(p) ==> stmts_resolved(old(self).view_scopes(), program.stmts@, p.stmts@),
            program.stmts@.len() == 0 ==> r is Ok,
            (old(self).view_scopes().len() == 0 && forall|k: int|
                0 <= k < program.stmts@.len() ==> #[trigger] flat_stmt(program.stmts@[k])) ==> r is Ok,
            r is Ok <==> stmts_ok(old(self).view_scopes(), program.stmts@),
    {
        let ghost start = old(self).view_scopes();
        proof {
            assert(program.stmts@.take(0) =~= Seq::<StmtS>::empty());
        }
        let mut stmts: Vec<StmtS> = Vec::new();
        let mut i: usize = 0;
        while i < program.stmts.len()
            invariant
                i <= program.stmts@.len(),
                stmts@.len() == i,
                start == old(self).view_scopes(),
                self.view_scopes() == stmts_after(start, program.stmts@.take(i as int)),
                stmts_resolved(start, program.stmts@.take(i as int), stmts@),
                stmts_ok(start, program.stmts@.take(i as int)),
                (start.len() == 0 && forall|k: int| 0 <= k < program.stmts@.len() ==> #[trigger] flat_stmt(program.stmts@[k]))
                    ==> self.view_scopes().len() == 0,
            decreases program.stmts@.len() - i,
        {
            let ghost done = stmts@;
            proof {
                if start.len() == 0 && forall|k: int| 0 <= k < program.stmts@.len() ==> #[trigger] flat_stmt(program.stmts@[k]) {
                    assert(flat_stmt(program.stmts@[i as int]));
                }
            }
            proof {
                lemma_stmts_ok_step(start, program.stmts@, i as int);
                if stmts_ok(start, program.stmts@) {
                    lemma_stmts_ok_prefix(start, program.stmts@, i + 1);
                }
            }
            let st = self.resolve_stmt(&program.stmts[i])?;
            stmts.push(st);
            proof {
                assert(program.stmts@.take(i + 1).drop_last() =~= program.stmts@.take(i as int));
                assert(stmts@.drop_last() =~= done);
            }
            i = i + 1;
        }
        proof {
            assert(program.stmts@.take(program.stmts@.len() as int) =~= program.stmts@);
        }
        Ok(Program { stmts })
    }
}

/// Fills in the depth of every variable of the program; the errors, none or
/// one, are returned.
pub fn resolve(program: &mut Program) -> (errs: Vec<ErrorS>)
    ensures
        errs@.len() <= 1,
        errs@.len() == 0 ==> final(program).stmts@.len() == old(program).stmts@.len(),
        errs@.len() == 0 ==> stmts_resolved(Seq::empty(), old(program).stmts@, final(program).stmts@),
        old(program).stmts@.len() == 0 ==> errs@.len() == 0,
        errs@.len() == 0 <==> stmts_ok(Seq::empty(), old(program).stmts@),
{
    let mut resolver = Resolver::new();
    proof {
        assert(resolver.view_scopes() =~= Seq::<Seq<Seq<char>>>::empty());
    }
    let mut errs = Vec::new();
    match resolver.resolve_program(program) {
        Ok(p) => {
            *program = p;
        },
        Err(e) => {
            errs.push(e);
        },
    }
    errs
}

} // verus!
