//! What the compiled code of an expression does when the machine runs it.
use vstd::prelude::*;

use crate::ast::{Expr, ExprLiteral, ExprS};
use crate::compiler::{first_branch, for_code, hi_byte, if_code, lo_byte, pure_code};
use crate::ast::{StmtIf, StmtS};
use crate::op;
use crate::value::{bits_truthy, lemma_classification_disjoint, Value, FALSE_BITS, NIL_BITS, TRUE_BITS};
use crate::vm::{advanced_frames, compared, display_spec, ran, step_effect, CallFrame, Step, Stop, VM};
use crate::double::{finite, lemma_comparisons_are_numeric, lemma_negation_is_numeric, number_value};

verus! {

/// The bits of the value that running the code of an expression built from
/// `nil`, `true` and `false` with `!`, `==`, `!=`, `and` and `or` pushes,
/// and the number of instructions that run; `None` for any other
/// expression.
pub open spec fn vm_eval(e: Expr) -> Option<(u64, nat)>
    decreases e,
{
    match e {
        Expr::Literal(ExprLiteral::Nil) => Some((NIL_BITS, 1)),
        Expr::Literal(ExprLiteral::Bool(b)) => Some((if b { TRUE_BITS } else { FALSE_BITS }, 1)),
        Expr::Prefix(p) => if p.op is Not {
            match vm_eval(p.rt.0) {
                Some((v, n)) => Some((if bits_truthy(v) { FALSE_BITS } else { TRUE_BITS }, n + 1)),
                None => None,
            }
        } else {
            None
        },
        Expr::Infix(i) => match (vm_eval(i.lt.0), vm_eval(i.rt.0)) {
            (Some((x, n)), Some((y, m))) => if i.op is LogicAnd {
                if bits_truthy(x) {
                    Some((y, n + 2 + m))
                } else {
                    Some((x, n + 1))
                }
            } else if i.op is LogicOr {
                if bits_truthy(x) {
                    Some((x, n + 2))
                } else {
                    Some((y, n + 2 + m))
                }
            } else if i.op is Equal {
                Some((Value::from_bool_spec(x == y).0, n + m + 1))
            } else if i.op is NotEqual {
                Some((Value::from_bool_spec(x != y).0, n + m + 1))
            } else {
                None
            },
            _ => None,
        },
        _ => None,
    }
}

/// The code ahead of `a` starts with `c`.
pub open spec fn code_ahead(a: VM, c: Seq<u8>) -> bool {
    &&& a.frames@.len() > 0
    &&& a.running_function() is Some
    &&& a.frames@.last().ip + c.len() <= usize::MAX
    &&& forall|k: int| 0 <= k < c.len() ==> #[trigger] a.code_at(k) == Some(c[k])
}

/// `n + m` instructions are `n` and then `m`.
proof fn lemma_ran_split(a: VM, b: VM, n: nat, m: nat)
    requires
        ran(a, b, n + m),
    ensures
        exists|x: VM| #[trigger] ran(a, x, n) && ran(x, b, m),
    decreases m,
{
    if m == 0 {
        assert(ran(b, b, 0));
        assert(ran(a, b, n) && ran(b, b, m));
    } else {
        let y = choose|y: VM| #[trigger] step_effect(y, b, Ok(Step::Running)) && ran(a, y, (n + m - 1) as nat);
        lemma_ran_split(a, y, n, (m - 1) as nat);
        let x = choose|x: VM| #[trigger] ran(a, x, n) && ran(x, y, (m - 1) as nat);
        assert(step_effect(y, b, Ok(Step::Running)) && ran(x, y, (m - 1) as nat));
        assert(ran(x, b, m));
    }
}

/// One instruction is one step.
proof fn lemma_ran_one(a: VM, b: VM)
    requires
        ran(a, b, 1),
    ensures
        step_effect(a, b, Ok(Step::Running)),
{
    let y = choose|y: VM| #[trigger] step_effect(y, b, Ok(Step::Running)) && ran(a, y, 0);
    assert(y == a);
}

/// A state whose frames only moved forward by `d`, over the same heap, runs
/// the same function `d` bytes further on.
proof fn lemma_moved(a: VM, x: VM, d: int)
    requires
        x.gc == a.gc,
        a.frames@.len() > 0,
        0 <= d,
        a.frames@.last().ip + d <= usize::MAX,
        x.frames@ == advanced_frames(a.frames@, d),
    ensures
        x.frames@.len() == a.frames@.len(),
        x.running_function() == a.running_function(),
        x.frames@.last().ip == a.frames@.last().ip + d,
        forall|k: int| #[trigger] x.code_at(k) == a.code_at(k + d),
{
    let n = a.frames@.len();
    assert(x.frames@[n - 1] == CallFrame { ip: (a.frames@.last().ip + d) as usize, ..a.frames@.last() });
}

/// Moving forward by `d` and then by `e` is moving forward by `d + e`.
proof fn lemma_moved_twice(f: Seq<CallFrame>, d: int, e: int)
    requires
        f.len() > 0,
        0 <= d,
        0 <= e,
        f.last().ip + d + e <= usize::MAX,
    ensures
        advanced_frames(advanced_frames(f, d), e) == advanced_frames(f, d + e),
{
    assert(advanced_frames(advanced_frames(f, d), e) =~= advanced_frames(f, d + e));
}

/// The two bytes of a jump give back its offset.
proof fn lemma_offset_bytes(k: int)
    requires
        0 <= k <= 0xffff,
    ensures
        hi_byte(k) as int * 256 + lo_byte(k) as int == k,
{
    assert(0 <= k / 256 < 256);
    assert(0 <= k % 256 < 256);
    assert(hi_byte(k) as int == k / 256);
    assert(lo_byte(k) as int == k % 256);
}

/// The code ahead of `x`, which sits `d` bytes further on than `a` over
/// the same heap, starts with the part of `a`'s code from `d`.
proof fn lemma_code_ahead_after(a: VM, x: VM, c: Seq<u8>, d: int, part: Seq<u8>)
    requires
        code_ahead(a, c),
        x.gc == a.gc,
        0 <= d,
        d + part.len() <= c.len(),
        x.frames@ == advanced_frames(a.frames@, d),
        forall|k: int| 0 <= k < part.len() ==> #[trigger] part[k] == c[d + k],
    ensures
        code_ahead(x, part),
        x.running_function() == a.running_function(),
        forall|k: int| #[trigger] x.code_at(k) == a.code_at(k + d),
{
    lemma_moved(a, x, d);
    assert forall|k: int| 0 <= k < part.len() implies #[trigger] x.code_at(k) == Some(part[k]) by {
        assert(x.code_at(k) == a.code_at(k + d));
        assert(a.code_at(d + k) == Some(c[d + k]));
    }
}

/// The case of `!`.
#[verifier::rlimit(100)]
proof fn lemma_runs_not(e: Expr, a: VM, b: VM)
    requires
        pure_code(e) is Some,
        vm_eval(e) is Some,
        code_ahead(a, pure_code(e)->Some_0),
        ran(a, b, vm_eval(e)->Some_0.1),
        e is Prefix,
    ensures
        b.stack@ == a.stack@.push(Value(vm_eval(e)->Some_0.0)),
        b.gc == a.gc,
        b.written == a.written,
        b.frames@ == advanced_frames(a.frames@, pure_code(e)->Some_0.len() as int),
    decreases e, 0int,
{
    let c = pure_code(e)->Some_0;
    let p = e->Prefix_0;
    assert(decreases_to!(e => p));
    let rc = pure_code(p.rt.0)->Some_0;
    let n = vm_eval(p.rt.0)->Some_0.1;
    assert(c == rc.push(op::NOT));
    lemma_ran_split(a, b, n, 1);
    let x = choose|x: VM| #[trigger] ran(a, x, n) && ran(x, b, 1);
    assert forall|k: int| 0 <= k < rc.len() implies #[trigger] a.code_at(k) == Some(rc[k]) by {
        assert(a.code_at(k) == Some(c[k]));
    }
    lemma_pure_code_runs(p.rt.0, a, x);
    lemma_moved(a, x, rc.len() as int);
    assert(a.code_at(rc.len() as int) == Some(c[rc.len() as int]));
    assert(x.code_at(0) == Some(op::NOT));
    lemma_ran_one(x, b);
    lemma_moved_twice(a.frames@, rc.len() as int, 1);
}

/// The case of `and`.
#[verifier::rlimit(100)]
proof fn lemma_runs_and(e: Expr, a: VM, b: VM)
    requires
        pure_code(e) is Some,
        vm_eval(e) is Some,
        code_ahead(a, pure_code(e)->Some_0),
        ran(a, b, vm_eval(e)->Some_0.1),
        e is Infix && e->Infix_0.op is LogicAnd,
    ensures
        b.stack@ == a.stack@.push(Value(vm_eval(e)->Some_0.0)),
        b.gc == a.gc,
        b.written == a.written,
        b.frames@ == advanced_frames(a.frames@, pure_code(e)->Some_0.len() as int),
    decreases e, 0int,
{
    let c = pure_code(e)->Some_0;
    let i = e->Infix_0;
    let lc = pure_code(i.lt.0)->Some_0;
    let rc = pure_code(i.rt.0)->Some_0;
    let n = vm_eval(i.lt.0)->Some_0.1;
    let m = vm_eval(i.rt.0)->Some_0.1;
    let x0 = vm_eval(i.lt.0)->Some_0.0;
    let ll = lc.len() as int;
    let rl = rc.len() as int;
    assert forall|k: int| 0 <= k < lc.len() implies #[trigger] a.code_at(k) == Some(lc[k]) by {
        assert(a.code_at(k) == Some(c[k]));
    }
    let mid = seq![op::JUMP_IF_FALSE, lo_byte(rl + 1), hi_byte(rl + 1), op::POP];
    assert(c == lc + mid + rc);
    lemma_offset_bytes(rl + 1);
    if bits_truthy(x0) {
        lemma_ran_split(a, b, n, 2 + m);
        let x = choose|x: VM| #[trigger] ran(a, x, n) && ran(x, b, 2 + m);
        lemma_pure_code_runs(i.lt.0, a, x);
        lemma_code_ahead_after(a, x, c, ll, mid + rc);
        lemma_ran_split(x, b, 1, 1 + m);
        let x1 = choose|x1: VM| #[trigger] ran(x, x1, 1) && ran(x1, b, 1 + m);
        lemma_ran_one(x, x1);
        assert(x.code_at(0) == Some(op::JUMP_IF_FALSE));
        assert(x.code_at(1) == Some(lo_byte(rl + 1)));
        assert(x.code_at(2) == Some(hi_byte(rl + 1)));
        lemma_moved_twice(a.frames@, ll, 3);
        lemma_code_ahead_after(a, x1, c, ll + 3, seq![op::POP] + rc);
        lemma_ran_split(x1, b, 1, m);
        let x2 = choose|x2: VM| #[trigger] ran(x1, x2, 1) && ran(x2, b, m);
        lemma_ran_one(x1, x2);
        assert(x1.code_at(0) == Some(op::POP));
        lemma_moved_twice(a.frames@, ll + 3, 1);
        lemma_code_ahead_after(a, x2, c, ll + 4, rc);
        lemma_pure_code_runs(i.rt.0, x2, b);
        lemma_moved_twice(a.frames@, ll + 4, rl);
    } else {
        lemma_ran_split(a, b, n, 1);
        let x = choose|x: VM| #[trigger] ran(a, x, n) && ran(x, b, 1);
        lemma_pure_code_runs(i.lt.0, a, x);
        lemma_code_ahead_after(a, x, c, ll, mid + rc);
        lemma_ran_one(x, b);
        assert(x.code_at(0) == Some(op::JUMP_IF_FALSE));
        assert(x.code_at(1) == Some(lo_byte(rl + 1)));
        assert(x.code_at(2) == Some(hi_byte(rl + 1)));
        lemma_moved_twice(a.frames@, ll, 3 + rl + 1);
    }
}

/// The case of `or`.
#[verifier::rlimit(100)]
proof fn lemma_runs_or(e: Expr, a: VM, b: VM)
    requires
        pure_code(e) is Some,
        vm_eval(e) is Some,
        code_ahead(a, pure_code(e)->Some_0),
        ran(a, b, vm_eval(e)->Some_0.1),
        e is Infix && e->Infix_0.op is LogicOr,
    ensures
        b.stack@ == a.stack@.push(Value(vm_eval(e)->Some_0.0)),
        b.gc == a.gc,
        b.written == a.written,
        b.frames@ == advanced_frames(a.frames@, pure_code(e)->Some_0.len() as int),
    decreases e, 0int,
{
    let c = pure_code(e)->Some_0;
    let i = e->Infix_0;
    let lc = pure_code(i.lt.0)->Some_0;
    let rc = pure_code(i.rt.0)->Some_0;
    let n = vm_eval(i.lt.0)->Some_0.1;
    let m = vm_eval(i.rt.0)->Some_0.1;
    let x0 = vm_eval(i.lt.0)->Some_0.0;
    let ll = lc.len() as int;
    let rl = rc.len() as int;
    assert forall|k: int| 0 <= k < lc.len() implies #[trigger] a.code_at(k) == Some(lc[k]) by {
        assert(a.code_at(k) == Some(c[k]));
    }
    let mid = seq![op::JUMP_IF_FALSE, lo_byte(3), hi_byte(3), op::JUMP, lo_byte(rl + 1), hi_byte(rl + 1), op::POP];
    assert(c == lc + mid + rc);
    lemma_offset_bytes(3);
    lemma_offset_bytes(rl + 1);
    if bits_truthy(x0) {
        lemma_ran_split(a, b, n, 2);
        let x = choose|x: VM| #[trigger] ran(a, x, n) && ran(x, b, 2);
        lemma_pure_code_runs(i.lt.0, a, x);
        lemma_code_ahead_after(a, x, c, ll, mid + rc);
        lemma_ran_split(x, b, 1, 1);
        let x1 = choose|x1: VM| #[trigger] ran(x, x1, 1) && ran(x1, b, 1);
        lemma_ran_one(x, x1);
        assert(x.code_at(0) == Some(op::JUMP_IF_FALSE));
        assert(x.code_at(1) == Some(lo_byte(3)));
        assert(x.code_at(2) == Some(hi_byte(3)));
        lemma_moved_twice(a.frames@, ll, 3);
        lemma_code_ahead_after(a, x1, c, ll + 3, mid.subrange(3, 7) + rc);
        lemma_ran_one(x1, b);
        assert(x1.code_at(0) == Some(op::JUMP));
        assert(x1.code_at(1) == Some(lo_byte(rl + 1)));
        assert(x1.code_at(2) == Some(hi_byte(rl + 1)));
        lemma_moved_twice(a.frames@, ll + 3, 3 + rl + 1);
    } else {
        lemma_ran_split(a, b, n, 2 + m);
        let x = choose|x: VM| #[trigger] ran(a, x, n) && ran(x, b, 2 + m);
        lemma_pure_code_runs(i.lt.0, a, x);
        lemma_code_ahead_after(a, x, c, ll, mid + rc);
        lemma_ran_split(x, b, 1, 1 + m);
        let x1 = choose|x1: VM| #[trigger] ran(x, x1, 1) && ran(x1, b, 1 + m);
        lemma_ran_one(x, x1);
        assert(x.code_at(0) == Some(op::JUMP_IF_FALSE));
        assert(x.code_at(1) == Some(lo_byte(3)));
        assert(x.code_at(2) == Some(hi_byte(3)));
        lemma_moved_twice(a.frames@, ll, 6);
        lemma_code_ahead_after(a, x1, c, ll + 6, seq![op::POP] + rc);
        lemma_ran_split(x1, b, 1, m);
        let x2 = choose|x2: VM| #[trigger] ran(x1, x2, 1) && ran(x2, b, m);
        lemma_ran_one(x1, x2);
        assert(x1.code_at(0) == Some(op::POP));
        lemma_moved_twice(a.frames@, ll + 6, 1);
        lemma_code_ahead_after(a, x2, c, ll + 7, rc);
        lemma_pure_code_runs(i.rt.0, x2, b);
        lemma_moved_twice(a.frames@, ll + 7, rl);
    }
}

/// The case of `==` and `!=`.
#[verifier::rlimit(100)]
proof fn lemma_runs_compare(e: Expr, a: VM, b: VM)
    requires
        pure_code(e) is Some,
        vm_eval(e) is Some,
        code_ahead(a, pure_code(e)->Some_0),
        ran(a, b, vm_eval(e)->Some_0.1),
        e is Infix && !(e->Infix_0.op is LogicAnd) && !(e->Infix_0.op is LogicOr),
    ensures
        b.stack@ == a.stack@.push(Value(vm_eval(e)->Some_0.0)),
        b.gc == a.gc,
        b.written == a.written,
        b.frames@ == advanced_frames(a.frames@, pure_code(e)->Some_0.len() as int),
    decreases e, 0int,
{
    let c = pure_code(e)->Some_0;
    let i = e->Infix_0;
    let lc = pure_code(i.lt.0)->Some_0;
    let rc = pure_code(i.rt.0)->Some_0;
    let n = vm_eval(i.lt.0)->Some_0.1;
    let m = vm_eval(i.rt.0)->Some_0.1;
    let x0 = vm_eval(i.lt.0)->Some_0.0;
    let ll = lc.len() as int;
    let rl = rc.len() as int;
    assert forall|k: int| 0 <= k < lc.len() implies #[trigger] a.code_at(k) == Some(lc[k]) by {
        assert(a.code_at(k) == Some(c[k]));
    }
    let opc = crate::compiler::infix_opcode(i.op);
    assert(c == lc + rc + seq![opc]);
    lemma_ran_split(a, b, n, m + 1);
    let x = choose|x: VM| #[trigger] ran(a, x, n) && ran(x, b, m + 1);
    lemma_pure_code_runs(i.lt.0, a, x);
    lemma_code_ahead_after(a, x, c, ll, rc + seq![opc]);
    lemma_ran_split(x, b, m, 1);
    let y = choose|y: VM| #[trigger] ran(x, y, m) && ran(y, b, 1);
    assert forall|k: int| 0 <= k < rc.len() implies #[trigger] x.code_at(k) == Some(rc[k]) by {
        assert(x.code_at(k) == Some((rc + seq![opc])[k]));
    }
    lemma_pure_code_runs(i.rt.0, x, y);
    lemma_moved_twice(a.frames@, ll, rl);
    lemma_code_ahead_after(a, y, c, ll + rl, seq![opc]);
    lemma_ran_one(y, b);
    assert(y.code_at(0) == Some(opc));
    lemma_moved_twice(a.frames@, ll + rl, 1);
}

/// Running the code that the compiler emits for such an expression, from a
/// state whose code ahead is that code, pushes the expression's value and
/// moves past the code, and leaves the heap as it was.
pub proof fn lemma_pure_code_runs(e: Expr, a: VM, b: VM)
    requires
        pure_code(e) is Some,
        vm_eval(e) is Some,
        code_ahead(a, pure_code(e)->Some_0),
        ran(a, b, vm_eval(e)->Some_0.1),
    ensures
        b.stack@ == a.stack@.push(Value(vm_eval(e)->Some_0.0)),
        b.gc == a.gc,
        b.written == a.written,
        b.frames@ == advanced_frames(a.frames@, pure_code(e)->Some_0.len() as int),
    decreases e, 1int,
{
    match e {
        Expr::Literal(_) => {
            lemma_ran_one(a, b);
            assert(a.code_at(0) == Some(pure_code(e)->Some_0[0]));
        },
        Expr::Prefix(_) => lemma_runs_not(e, a, b),
        Expr::Infix(i) => if i.op is LogicAnd {
            lemma_runs_and(e, a, b)
        } else if i.op is LogicOr {
            lemma_runs_or(e, a, b)
        } else {
            lemma_runs_compare(e, a, b)
        },
        _ => {},
    }
}

/// The value of such an expression is `nil`, `true` or `false`.
proof fn lemma_vm_value(e: Expr)
    requires
        vm_eval(e) is Some,
    ensures
        vm_eval(e)->Some_0.0 == NIL_BITS || vm_eval(e)->Some_0.0 == TRUE_BITS || vm_eval(e)->Some_0.0 == FALSE_BITS,
    decreases e,
{
    match e {
        Expr::Prefix(p) => {
            lemma_vm_value(p.rt.0);
        },
        Expr::Infix(i) => {
            lemma_vm_value(i.lt.0);
            lemma_vm_value(i.rt.0);
        },
        _ => {},
    }
}

/// Running the code that `print e;` compiles to, for such an `e`, hands
/// the host the line that shows the value of `e`, and leaves the stack and
/// the heap as they were.
pub proof fn lemma_print_runs(e: Expr, a: VM, b: VM)
    requires
        pure_code(e) is Some,
        vm_eval(e) is Some,
        code_ahead(a, pure_code(e)->Some_0.push(op::PRINT)),
        ran(a, b, vm_eval(e)->Some_0.1 + 1),
    ensures
        b.stack@ == a.stack@,
        b.gc == a.gc,
        display_spec(a.gc, Value(vm_eval(e)->Some_0.0)) is Some,
        b.written@ == a.written@.push(display_spec(a.gc, Value(vm_eval(e)->Some_0.0))->Some_0),
        b.frames@ == advanced_frames(a.frames@, pure_code(e)->Some_0.len() as int + 1),
{
    let c = pure_code(e)->Some_0;
    let cp = c.push(op::PRINT);
    let n = vm_eval(e)->Some_0.1;
    let v = vm_eval(e)->Some_0.0;
    lemma_ran_split(a, b, n, 1);
    let x = choose|x: VM| #[trigger] ran(a, x, n) && ran(x, b, 1);
    assert forall|k: int| 0 <= k < c.len() implies #[trigger] a.code_at(k) == Some(c[k]) by {
        assert(a.code_at(k) == Some(cp[k]));
    }
    lemma_pure_code_runs(e, a, x);
    lemma_code_ahead_after(a, x, cp, c.len() as int, seq![op::PRINT]);
    lemma_ran_one(x, b);
    assert(x.code_at(0) == Some(op::PRINT));
    lemma_vm_value(e);
    lemma_classification_disjoint(v);
    lemma_moved_twice(a.frames@, c.len() as int, 1);
    assert(b.written@ =~= a.written@.push(display_spec(a.gc, Value(v))->Some_0));
}

/// On two finite numbers `x` (below the top of the stack) and `y` (on top),
/// each comparison opcode answers as the numbers they denote compare.
pub proof fn lemma_compared_numeric(x: u64, y: u64)
    requires
        finite(x),
        finite(y),
    ensures
        compared(Some(op::GREATER), x, y) == Some(number_value(x) > number_value(y)),
        compared(Some(op::GREATER_EQUAL), x, y) == Some(number_value(x) >= number_value(y)),
        compared(Some(op::LESS), x, y) == Some(number_value(x) < number_value(y)),
        compared(Some(op::LESS_EQUAL), x, y) == Some(number_value(x) <= number_value(y)),
{
    lemma_comparisons_are_numeric(x, y);
    lemma_comparisons_are_numeric(y, x);
}

/// A comparison instruction on two finite numbers replaces them with
/// `true` exactly when the number below the top compares that way with the
/// one on top (`GREATER`: is larger, and so on).
pub proof fn lemma_comparison_runs(a: VM, b: VM, r: Result<Step, Stop>)
    requires
        step_effect(a, b, r),
        a.stack@.len() >= 2,
        a.stack@[a.stack@.len() - 2].is_number_spec(),
        a.stack@.last().is_number_spec(),
        finite(a.stack@[a.stack@.len() - 2].0),
        finite(a.stack@.last().0),
        compared(a.code_at(0), 0, 0) is Some,
    ensures
        ({
            let st = a.stack@;
            let x = number_value(st[st.len() - 2].0);
            let y = number_value(st.last().0);
            let answer = if a.code_at(0) == Some(op::GREATER) {
                x > y
            } else if a.code_at(0) == Some(op::GREATER_EQUAL) {
                x >= y
            } else if a.code_at(0) == Some(op::LESS) {
                x < y
            } else {
                x <= y
            };
            &&& r == Ok::<Step, Stop>(Step::Running)
            &&& b.stack@ == st.drop_last().drop_last().push(Value::from_bool_spec(answer))
        }),
{
    let st = a.stack@;
    lemma_compared_numeric(st[st.len() - 2].0, st.last().0);
    assert(b.stack@ =~= b.stack@.drop_last().push(b.stack@.last()));
}

/// `NEGATE` on a finite number replaces it with the double that denotes
/// the opposite number.
pub proof fn lemma_negation_runs(a: VM, b: VM, r: Result<Step, Stop>)
    requires
        step_effect(a, b, r),
        a.code_at(0) == Some(op::NEGATE),
        a.stack@.len() > 0,
        a.stack@.last().is_number_spec(),
        finite(a.stack@.last().0),
    ensures
        r == Ok::<Step, Stop>(Step::Running),
        b.stack@.drop_last() == a.stack@.drop_last(),
        b.stack@.len() == a.stack@.len(),
        finite(b.stack@.last().0),
        number_value(b.stack@.last().0) == -number_value(a.stack@.last().0),
{
    lemma_negation_is_numeric(a.stack@.last().0);
}

/// One turn of a `for` loop whose condition holds: running the condition,
/// the jump that does not leave, the `POP` of the condition's value and the
/// body hands the host the body's line, leaves the stack as it was, and
/// brings the machine to the increment's code.
#[verifier::rlimit(100)]
pub proof fn lemma_for_turn(cond: ExprS, body: StmtS, incr: ExprS, a: VM, b: VM)
    requires
        body.0 is Print,
        for_code(Some(cond), body, Some(incr)) is Some,
        vm_eval(cond.0) is Some,
        bits_truthy(vm_eval(cond.0)->Some_0.0),
        vm_eval(body.0->Print_0.value.0) is Some,
        code_ahead(a, for_code(Some(cond), body, Some(incr))->Some_0),
        ran(a, b, vm_eval(cond.0)->Some_0.1 + 2 + (vm_eval(body.0->Print_0.value.0)->Some_0.1 + 1)),
    ensures
        b.stack@ == a.stack@,
        b.gc == a.gc,
        b.written@ == a.written@.push(display_spec(a.gc, Value(vm_eval(body.0->Print_0.value.0)->Some_0.0))->Some_0),
        code_ahead(b, pure_code(incr.0)->Some_0.push(op::POP)),
{
    crate::compiler::lemma_for_code_parts(Some(cond), body, Some(incr));
    let e = body.0->Print_0.value.0;
    let fc = for_code(Some(cond), body, Some(incr))->Some_0;
    let cc = pure_code(cond.0)->Some_0;
    let bc = pure_code(e)->Some_0;
    let ic = pure_code(incr.0)->Some_0;
    let step = bc.push(op::PRINT) + ic.push(op::POP);
    let n = step.len() as int;
    let mid = seq![op::JUMP_IF_FALSE, lo_byte(n + 4), hi_byte(n + 4), op::POP];
    let back = cc.len() + 4 + n + 3;
    assert(fc == cc + mid + step + seq![op::LOOP, lo_byte(back), hi_byte(back)] + seq![op::POP]);
    let nc = vm_eval(cond.0)->Some_0.1;
    let nb = vm_eval(e)->Some_0.1;
    let ll = cc.len() as int;
    lemma_offset_bytes(n + 4);
    lemma_ran_split(a, b, nc, 2 + (nb + 1));
    let x = choose|x: VM| #[trigger] ran(a, x, nc) && ran(x, b, 2 + (nb + 1));
    assert forall|k: int| 0 <= k < cc.len() implies #[trigger] a.code_at(k) == Some(cc[k]) by {
        assert(a.code_at(k) == Some(fc[k]));
    }
    lemma_pure_code_runs(cond.0, a, x);
    lemma_code_ahead_after(a, x, fc, ll, mid);
    lemma_ran_split(x, b, 1, 1 + (nb + 1));
    let x1 = choose|x1: VM| #[trigger] ran(x, x1, 1) && ran(x1, b, 1 + (nb + 1));
    lemma_ran_one(x, x1);
    assert(x.code_at(0) == Some(op::JUMP_IF_FALSE));
    assert(x.code_at(1) == Some(lo_byte(n + 4)));
    assert(x.code_at(2) == Some(hi_byte(n + 4)));
    lemma_moved_twice(a.frames@, ll, 3);
    lemma_code_ahead_after(a, x1, fc, ll + 3, seq![op::POP]);
    lemma_ran_split(x1, b, 1, nb + 1);
    let x2 = choose|x2: VM| #[trigger] ran(x1, x2, 1) && ran(x2, b, nb + 1);
    lemma_ran_one(x1, x2);
    assert(x1.code_at(0) == Some(op::POP));
    lemma_moved_twice(a.frames@, ll + 3, 1);
    lemma_code_ahead_after(a, x2, fc, ll + 4, bc.push(op::PRINT));
    lemma_print_runs(e, x2, b);
    lemma_moved_twice(a.frames@, ll + 4, bc.len() as int + 1);
    lemma_code_ahead_after(a, b, fc, ll + 4 + bc.len() + 1, ic.push(op::POP));
}

/// An `if` with a `print` in each branch, whose condition is such an
/// expression: running its code hands the host the line of the first branch
/// when the condition's value is truthy and that of the second otherwise,
/// leaves the stack as it was, and moves past the whole `if`.
#[verifier::rlimit(100)]
pub proof fn lemma_if_runs(s: StmtIf, a: VM, b: VM)
    requires
        first_branch(s).0 is Print,
        s.else_ is Some,
        s.else_->Some_0.0 is Print,
        if_code(s) is Some,
        vm_eval(s.cond.0) is Some,
        vm_eval(first_branch(s).0->Print_0.value.0) is Some,
        vm_eval(s.else_->Some_0.0->Print_0.value.0) is Some,
        code_ahead(a, if_code(s)->Some_0),
        ran(
            a,
            b,
            if bits_truthy(vm_eval(s.cond.0)->Some_0.0) {
                vm_eval(s.cond.0)->Some_0.1 + 2 + (vm_eval(first_branch(s).0->Print_0.value.0)->Some_0.1 + 1) + 1
            } else {
                vm_eval(s.cond.0)->Some_0.1 + 2 + (vm_eval(s.else_->Some_0.0->Print_0.value.0)->Some_0.1 + 1)
            },
        ),
    ensures
        b.stack@ == a.stack@,
        b.gc == a.gc,
        b.written@ == a.written@.push(
            display_spec(
                a.gc,
                Value(
                    if bits_truthy(vm_eval(s.cond.0)->Some_0.0) {
                        vm_eval(first_branch(s).0->Print_0.value.0)->Some_0.0
                    } else {
                        vm_eval(s.else_->Some_0.0->Print_0.value.0)->Some_0.0
                    },
                ),
            )->Some_0,
        ),
        b.frames@ == advanced_frames(a.frames@, if_code(s)->Some_0.len() as int),
{
    crate::compiler::lemma_if_code_parts(s);
    let code = if_code(s)->Some_0;
    let cc = pure_code(s.cond.0)->Some_0;
    let te = first_branch(s).0->Print_0.value.0;
    let ee = s.else_->Some_0.0->Print_0.value.0;
    let tc = pure_code(te)->Some_0.push(op::PRINT);
    let ec = pure_code(ee)->Some_0.push(op::PRINT);
    let x: int = tc.len() as int + 4;
    let y: int = ec.len() as int + 1;
    let mid1 = seq![op::JUMP_IF_FALSE, lo_byte(x), hi_byte(x), op::POP];
    let mid2 = seq![op::JUMP, lo_byte(y), hi_byte(y), op::POP];
    assert(code == cc + mid1 + tc + mid2 + ec);
    let nc = vm_eval(s.cond.0)->Some_0.1;
    let ll = cc.len() as int;
    lemma_offset_bytes(x);
    lemma_offset_bytes(y);
    assert forall|k: int| 0 <= k < cc.len() implies #[trigger] a.code_at(k) == Some(cc[k]) by {
        assert(a.code_at(k) == Some(code[k]));
    }
    if bits_truthy(vm_eval(s.cond.0)->Some_0.0) {
        let nt = vm_eval(te)->Some_0.1;
        lemma_ran_split(a, b, nc, 2 + (nt + 1) + 1);
        let x0 = choose|x0: VM| #[trigger] ran(a, x0, nc) && ran(x0, b, 2 + (nt + 1) + 1);
        lemma_pure_code_runs(s.cond.0, a, x0);
        lemma_code_ahead_after(a, x0, code, ll, mid1);
        lemma_ran_split(x0, b, 1, 1 + (nt + 1) + 1);
        let x1 = choose|x1: VM| #[trigger] ran(x0, x1, 1) && ran(x1, b, 1 + (nt + 1) + 1);
        lemma_ran_one(x0, x1);
        assert(x0.code_at(0) == Some(op::JUMP_IF_FALSE));
        assert(x0.code_at(1) == Some(lo_byte(x)));
        assert(x0.code_at(2) == Some(hi_byte(x)));
        lemma_moved_twice(a.frames@, ll, 3);
        lemma_code_ahead_after(a, x1, code, ll + 3, seq![op::POP]);
        lemma_ran_split(x1, b, 1, (nt + 1) + 1);
        let x2 = choose|x2: VM| #[trigger] ran(x1, x2, 1) && ran(x2, b, (nt + 1) + 1);
        lemma_ran_one(x1, x2);
        assert(x1.code_at(0) == Some(op::POP));
        lemma_moved_twice(a.frames@, ll + 3, 1);
        lemma_code_ahead_after(a, x2, code, ll + 4, tc);
        lemma_ran_split(x2, b, nt + 1, 1);
        let x3 = choose|x3: VM| #[trigger] ran(x2, x3, nt + 1) && ran(x3, b, 1);
        lemma_print_runs(te, x2, x3);
        lemma_moved_twice(a.frames@, ll + 4, tc.len() as int);
        lemma_code_ahead_after(a, x3, code, ll + 4 + tc.len(), mid2);
        lemma_ran_one(x3, b);
        assert(x3.code_at(0) == Some(op::JUMP));
        assert(x3.code_at(1) == Some(lo_byte(y)));
        assert(x3.code_at(2) == Some(hi_byte(y)));
        lemma_moved_twice(a.frames@, ll + 4 + tc.len(), 3 + y);
    } else {
        let ne = vm_eval(ee)->Some_0.1;
        lemma_ran_split(a, b, nc, 2 + (ne + 1));
        let x0 = choose|x0: VM| #[trigger] ran(a, x0, nc) && ran(x0, b, 2 + (ne + 1));
        lemma_pure_code_runs(s.cond.0, a, x0);
        lemma_code_ahead_after(a, x0, code, ll, mid1);
        lemma_ran_split(x0, b, 1, 1 + (ne + 1));
        let x1 = choose|x1: VM| #[trigger] ran(x0, x1, 1) && ran(x1, b, 1 + (ne + 1));
        lemma_ran_one(x0, x1);
        assert(x0.code_at(0) == Some(op::JUMP_IF_FALSE));
        assert(x0.code_at(1) == Some(lo_byte(x)));
        assert(x0.code_at(2) == Some(hi_byte(x)));
        lemma_moved_twice(a.frames@, ll, 3 + x);
        lemma_code_ahead_after(a, x1, code, ll + 3 + x, seq![op::POP]);
        lemma_ran_split(x1, b, 1, ne + 1);
        let x2 = choose|x2: VM| #[trigger] ran(x1, x2, 1) && ran(x2, b, ne + 1);
        lemma_ran_one(x1, x2);
        assert(x1.code_at(0) == Some(op::POP));
        lemma_moved_twice(a.frames@, ll + 3 + x, 1);
        lemma_code_ahead_after(a, x2, code, ll + 4 + x, ec);
        lemma_print_runs(ee, x2, b);
        lemma_moved_twice(a.frames@, ll + 4 + x, ec.len() as int);
    }
}

/// The opcode the compiler emits for each comparison operator makes the
/// machine compare the two numbers that way: `a > b` compiles to an
/// instruction that answers whether `a` is larger than `b`, and so on.
pub proof fn lemma_compiled_comparisons(x: u64, y: u64)
    requires
        finite(x),
        finite(y),
    ensures
        compared(Some(crate::compiler::infix_opcode(crate::ast::OpInfix::Greater)), x, y) == Some(
            number_value(x) > number_value(y),
        ),
        compared(Some(crate::compiler::infix_opcode(crate::ast::OpInfix::GreaterEqual)), x, y) == Some(
            number_value(x) >= number_value(y),
        ),
        compared(Some(crate::compiler::infix_opcode(crate::ast::OpInfix::Less)), x, y) == Some(
            number_value(x) < number_value(y),
        ),
        compared(Some(crate::compiler::infix_opcode(crate::ast::OpInfix::LessEqual)), x, y) == Some(
            number_value(x) <= number_value(y),
        ),
{
    lemma_compared_numeric(x, y);
}

} // verus!
