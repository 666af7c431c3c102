//! The bytecode compiler: turns a parsed program into functions on the heap.
//!
//! Each function being compiled has a context: its code, its locals and the
//! upvalues it captures. Contexts nest as functions do; the innermost one
//! receives the code.
use vstd::prelude::*;

use crate::chunk::Chunk;
use crate::ast::{Expr, ExprLiteral, ExprS, OpInfix, OpPrefix, Stmt, StmtBlock, StmtClass, StmtFor, StmtFun, StmtIf, StmtS, StmtWhile};
use crate::error::{no_span, Error, ErrorS, NameError, OverflowError, Span, SyntaxError};
use crate::host::Host;
use crate::gc::{Gc, MAX_OBJECTS};
use crate::object::{ObjectData, ObjectFunction};
use crate::op;
use crate::parser::parse;
use crate::value::Value;

verus! {

#[derive(Clone, Copy, Debug, PartialEq, Eq, Structural)]
pub enum FunctionType {
    /// A function that has been defined in code.
    Function,
    /// A class initializer.
    Initializer,
    /// A bound method.
    Method,
    /// The global-level function that is called when the program starts.
    Script,
}

#[derive(Debug)]
pub struct Local {
    /// The name of the variable.
    pub name: String,
    /// The number of scopes around the variable; globals have none, so a
    /// local's depth is at least 1.
    pub depth: usize,
    pub is_initialized: bool,
    pub is_captured: bool,
}

#[derive(Clone, Copy, Debug, PartialEq, Eq, Structural)]
pub struct Upvalue {
    /// The slot or upvalue index in the enclosing function.
    pub idx: u8,
    /// Whether `idx` is a local slot of the enclosing function, or one of its
    /// own upvalues.
    pub is_local: bool,
}

pub struct CompilerCtx {
    pub function: ObjectFunction,
    pub type_: FunctionType,
    pub locals: Vec<Local>,
    pub upvalues: Vec<Upvalue>,
    pub scope_depth: usize,
}

#[derive(Debug)]
pub struct ClassCtx {
    pub has_super: bool,
}

/// The number of locals or upvalues a function can address with one byte.
pub const MAX_SLOTS: usize = 256;

/// Where the locals of the innermost scope at `depth` begin: the locals from
/// there to the end are all at `depth` or deeper.
pub open spec fn scope_start(ls: Seq<Local>, depth: usize) -> int
    decreases ls.len(),
{
    if ls.len() == 0 {
        0
    } else if ls.last().depth < depth {
        ls.len() as int
    } else {
        scope_start(ls.drop_last(), depth)
    }
}

pub proof fn lemma_scope_start(ls: Seq<Local>, depth: usize)
    ensures
        0 <= scope_start(ls, depth) <= ls.len(),
        forall|j: int| scope_start(ls, depth) <= j < ls.len() ==> #[trigger] ls[j].depth >= depth,
        scope_start(ls, depth) > 0 ==> ls[scope_start(ls, depth) - 1].depth < depth,
    decreases ls.len(),
{
    if ls.len() > 0 && ls.last().depth >= depth {
        lemma_scope_start(ls.drop_last(), depth);
        assert forall|j: int| scope_start(ls, depth) <= j < ls.len() implies #[trigger] ls[j].depth >= depth by {
            if j < ls.len() - 1 {
                assert(ls[j] == ls.drop_last()[j]);
            }
        }
    }
}

/// Scanning back from the end, the innermost scope begins where the first
/// shallower local is found.
pub proof fn lemma_scope_start_at(ls: Seq<Local>, depth: usize, k: int)
    requires
        0 <= k <= ls.len(),
        forall|j: int| k <= j < ls.len() ==> #[trigger] ls[j].depth >= depth,
    ensures
        scope_start(ls, depth) <= k,
        (k > 0 && ls[k - 1].depth < depth) ==> scope_start(ls, depth) == k,
    decreases ls.len(),
{
    lemma_scope_start(ls, depth);
    if ls.len() > 0 && k < ls.len() {
        assert(ls.last().depth >= depth);
        assert forall|j: int| k <= j < ls.drop_last().len() implies #[trigger] ls.drop_last()[j].depth >= depth by {
            assert(ls.drop_last()[j] == ls[j]);
        }
        lemma_scope_start_at(ls.drop_last(), depth, k);
        if k > 0 {
            assert(ls.drop_last()[k - 1] == ls[k - 1]);
        }
    }
}

/// A local of the innermost scope has this name.
pub open spec fn defined_in_scope(ls: Seq<Local>, depth: usize, name: Seq<char>) -> bool {
    exists|j: int| scope_start(ls, depth) <= j < ls.len() && (#[trigger] ls[j]).name@ == name
}

/// The last local with this name, or -1.
pub open spec fn last_local(ls: Seq<Local>, name: Seq<char>) -> int
    decreases ls.len(),
{
    if ls.len() == 0 {
        -1
    } else if ls.last().name@ == name {
        ls.len() - 1
    } else {
        last_local(ls.drop_last(), name)
    }
}

pub proof fn lemma_last_local(ls: Seq<Local>, name: Seq<char>)
    ensures
        -1 <= last_local(ls, name) < ls.len(),
        last_local(ls, name) >= 0 ==> ls[last_local(ls, name)].name@ == name,
        forall|j: int| last_local(ls, name) < j < ls.len() ==> (#[trigger] ls[j]).name@ != name,
    decreases ls.len(),
{
    if ls.len() > 0 && ls.last().name@ != name {
        lemma_last_local(ls.drop_last(), name);
        assert forall|j: int| last_local(ls, name) < j < ls.len() implies (#[trigger] ls[j]).name@ != name by {
            if j < ls.len() - 1 {
                assert(ls[j] == ls.drop_last()[j]);
            }
        }
    }
}

/// The locals with `last` marked initialized.
pub open spec fn with_initialized(ls: Seq<Local>, j: int) -> Seq<Local> {
    ls.update(j, Local { name: ls[j].name, depth: ls[j].depth, is_initialized: true, is_captured: ls[j].is_captured })
}

/// The locals with slot `j` marked captured.
pub open spec fn with_captured(ls: Seq<Local>, j: int) -> Seq<Local> {
    ls.update(j, Local { name: ls[j].name, depth: ls[j].depth, is_initialized: ls[j].is_initialized, is_captured: true })
}

/// The little-endian bytes of a 16-bit jump offset.
pub open spec fn lo_byte(offset: int) -> u8 {
    (offset % 256) as u8
}

pub open spec fn hi_byte(offset: int) -> u8 {
    (offset / 256) as u8
}

/// No function enclosing the one at `level` has a local named `name`.
pub open spec fn no_local_below(c: Compiler, level: int, name: Seq<char>) -> bool {
    forall|l: int| 0 <= l < level ==> last_local(#[trigger] c.ctx_at(l).locals@, name) < 0
}

/// The byte after `at` names a constant of the compiler's function that is
/// a function object of `arity` parameters, and the code ends after the
/// pair of bytes that each of its upvalues has.
pub open spec fn closure_constant(c: Compiler, gc: Gc, at: int, arity: int) -> bool {
    let v = c.ctx.function.chunk.constants_view()[c.ops()[at + 1] as int];
    match crate::vm::object_slot(v) {
        Some(f) => match crate::vm::data_in(gc, f as int) {
            Some(ObjectData::Function(fo)) => fo.arity == arity && c.ops().len() == at + 2 + 2 * fo.upvalue_count,
            _ => false,
        },
        None => false,
    }
}

/// Where the jump whose opcode is at `k` lands: after its two offset
/// bytes, low byte first, moved forward by the offset.
pub open spec fn jump_lands(ops: Seq<u8>, k: int) -> int {
    k + 3 + ops[k + 1] + 256 * ops[k + 2]
}

/// The code has the jumps of an `if` whose `JUMP_IF_FALSE` is at `k`: the
/// condition's value is popped on either way; when it is false, the jump
/// lands on a `POP` just after the `JUMP` that ends the first branch, and
/// that `JUMP` lands at the end of the code.
pub open spec fn if_shape(ops: Seq<u8>, k: int) -> bool {
    let t = jump_lands(ops, k);
    &&& 0 <= k && k + 3 < ops.len()
    &&& ops[k] == op::JUMP_IF_FALSE
    &&& ops[k + 3] == op::POP
    &&& k + 6 < t < ops.len()
    &&& ops[t] == op::POP
    &&& ops[t - 3] == op::JUMP
    &&& jump_lands(ops, t - 3) == ops.len()
}

/// Where the `LOOP` at `k` jumps back to.
pub open spec fn loop_back(ops: Seq<u8>, k: int) -> int {
    k + 3 - (ops[k + 1] + 256 * ops[k + 2])
}

/// The code from `lo` on holds, at `k`, a `LOOP` that jumps back to a place
/// at or after `lo`.
pub open spec fn loops_back(ops: Seq<u8>, lo: int, k: int) -> bool {
    &&& 0 <= k && k + 2 < ops.len()
    &&& ops[k] == op::LOOP
    &&& lo <= loop_back(ops, k) <= k
}

/// The `LOOP` at `k` closes a loop whose condition's `JUMP_IF_FALSE` at `j`
/// lands just after it, on the `POP` of the condition's value.
pub open spec fn loop_exits(ops: Seq<u8>, lo: int, j: int, k: int) -> bool {
    &&& loops_back(ops, lo, k)
    &&& loop_back(ops, k) <= j && j + 3 < k
    &&& ops[j] == op::JUMP_IF_FALSE
    &&& ops[j + 3] == op::POP
    &&& jump_lands(ops, j) == k + 3
    &&& k + 3 < ops.len()
    &&& ops[k + 3] == op::POP
}

impl CompilerCtx {
    pub open spec fn wf(&self) -> bool {
        &&& self.function.chunk.wf()
        &&& self.locals@.len() <= MAX_SLOTS
        &&& self.upvalues@.len() <= MAX_SLOTS
        &&& self.function.upvalue_count == self.upvalues@.len()
    }

    pub open spec fn ops(&self) -> Seq<u8> {
        self.function.chunk.ops@
    }

    fn new(name: usize, arity: u8, type_: FunctionType, scope_depth: usize) -> (ctx: CompilerCtx)
        ensures
            ctx.wf(),
            ctx.function.name == name,
            ctx.function.arity == arity,
            ctx.ops().len() == 0,
            ctx.type_ == type_,
            ctx.locals@.len() == 0,
            ctx.upvalues@.len() == 0,
            ctx.scope_depth == scope_depth,
    {
        CompilerCtx {
            function: ObjectFunction::new(name, arity),
            type_,
            locals: Vec::new(),
            upvalues: Vec::new(),
            scope_depth,
        }
    }

    /// The slot of the last local called `name`: `None` when there is none,
    /// an error when it is still being initialized. When `capture` is set,
    /// the local is marked as captured by a closure.
    pub fn resolve_local(&mut self, name: &str, capture: bool, span: Span) -> (r: Result<Option<u8>, ErrorS>)
        requires
            old(self).wf(),
        ensures
            final(self).wf(),
            final(self).function == old(self).function,
            final(self).upvalues == old(self).upvalues,
            final(self).scope_depth == old(self).scope_depth,
            final(self).type_ == old(self).type_,
            ({
                let ls = old(self).locals@;
                let j = last_local(ls, name@);
                &&& j < 0 ==> r == Ok::<Option<u8>, ErrorS>(None) && final(self).locals@ == ls
                &&& (j >= 0 && !ls[j].is_initialized) ==> (final(self).locals@ == ls && (r matches Err(
                    (Error::NameError(NameError::AccessInsideInitializer { name: n }), sp),
                ) && n@ == name@ && sp == span))
                &&& (j >= 0 && ls[j].is_initialized) ==> r == Ok::<Option<u8>, ErrorS>(Some(j as u8))
                    && final(self).locals@ == (if capture { with_captured(ls, j) } else { ls })
            }),
    {
        proof {
            lemma_last_local(self.locals@, name@);
        }
        let key = name.to_owned();
        let mut i = self.locals.len();
        while i > 0
            invariant
                i <= self.locals@.len(),
                self.locals == old(self).locals,
                key@ == name@,
                forall|j: int| i <= j < self.locals@.len() ==> (#[trigger] self.locals@[j]).name@ != name@,
                last_local(self.locals@, name@) >= 0 ==> self.locals@[last_local(self.locals@, name@)].name@ == name@,
                forall|j: int| last_local(self.locals@, name@) < j < self.locals@.len() ==> (#[trigger] self.locals@[j]).name@ != name@,
                last_local(self.locals@, name@) < i,
            ensures
                self.locals == old(self).locals,
                i > 0 ==> last_local(self.locals@, name@) == i - 1,
                i == 0 ==> last_local(self.locals@, name@) < 0,
            decreases i,
        {
            if self.locals[i - 1].name == key {
                proof {
                    let ghost m = last_local(self.locals@, name@);
                    if m < i - 1 {
                        assert(self.locals@[i - 1].name@ != name@);
                    }
                }
                break;
            }
            i = i - 1;
        }
        if i == 0 {
            return Ok(None);
        }
        let j = i - 1;
        if !self.locals[j].is_initialized {
            let n = name.to_owned();
            return Err((Error::NameError(NameError::AccessInsideInitializer { name: n }), span));
        }
        let ghost ls = self.locals@;
        if capture {
            self.locals[j].is_captured = true;
            proof {
                assert(self.locals@ =~= with_captured(ls, j as int));
            }
        }
        Ok(Some(j as u8))
    }

    /// The index of the upvalue that captures `idx`: an existing one, or a
    /// new one at the end.
    pub fn add_upvalue(&mut self, idx: u8, is_local: bool, span: Span) -> (r: Result<u8, ErrorS>)
        requires
            old(self).wf(),
        ensures
            final(self).wf(),
            final(self).locals == old(self).locals,
            final(self).scope_depth == old(self).scope_depth,
            final(self).type_ == old(self).type_,
            final(self).function.chunk == old(self).function.chunk,
            final(self).function.name == old(self).function.name,
            final(self).function.arity == old(self).function.arity,
            ({
                let us = old(self).upvalues@;
                let u = Upvalue { idx, is_local };
                &&& us.contains(u) ==> (final(self).upvalues@ == us && (r matches Ok(k)
                    && us[k as int] == u && forall|m: int| 0 <= m < k ==> us[m] != u))
                &&& (!us.contains(u) && us.len() == MAX_SLOTS) ==> final(self).upvalues@ == us
                    && r == Err::<u8, ErrorS>((Error::OverflowError(OverflowError::TooManyUpvalues), span))
                &&& (!us.contains(u) && us.len() < MAX_SLOTS) ==> final(self).upvalues@ == us.push(u)
                    && r == Ok::<u8, ErrorS>(us.len() as u8)
            }),
    {
        let u = Upvalue { idx, is_local };
        let n = self.upvalues.len();
        let mut k: usize = 0;
        #[verifier::loop_isolation(false)]
        while k < n
            invariant
                n == self.upvalues@.len(),
                self.upvalues == old(self).upvalues,
                k <= n,
                forall|m: int| 0 <= m < k ==> self.upvalues@[m] != u,
            decreases n - k,
        {
            if self.upvalues[k] == u {
                return Ok(k as u8);
            }
            k = k + 1;
        }
        if n == MAX_SLOTS {
            return Err((Error::OverflowError(OverflowError::TooManyUpvalues), span));
        }
        self.upvalues.push(u);
        self.function.upvalue_count = (n + 1) as u16;
        Ok(n as u8)
    }
}

pub struct Compiler {
    /// The function being compiled.
    pub ctx: CompilerCtx,
    /// The functions that enclose it, the outermost first.
    pub parents: Vec<CompilerCtx>,
    pub class_ctx: Vec<ClassCtx>,
}

impl Compiler {
    pub open spec fn wf(&self) -> bool {
        &&& self.ctx.wf()
        &&& forall|i: int| 0 <= i < self.parents@.len() ==> (#[trigger] self.parents@[i]).wf()
    }

    pub open spec fn ops(&self) -> Seq<u8> {
        self.ctx.function.chunk.ops@
    }

    /// Only the innermost function's code and constants changed.
    pub open spec fn code_changed(&self, old: &Compiler) -> bool {
        &&& self.parents == old.parents
        &&& self.class_ctx@ == old.class_ctx@
        &&& self.ctx.locals == old.ctx.locals
        &&& self.ctx.upvalues == old.ctx.upvalues
        &&& self.ctx.scope_depth == old.ctx.scope_depth
        &&& self.ctx.type_ == old.ctx.type_
        &&& self.ctx.function.name == old.ctx.function.name
        &&& self.ctx.function.arity == old.ctx.function.arity
        &&& self.ctx.function.upvalue_count == old.ctx.function.upvalue_count
    }

    fn emit_u8(&mut self, byte: u8, span: Span)
        requires
            old(self).wf(),
        ensures
            final(self).wf(),
            final(self).code_changed(old(self)),
            final(self).ops() == old(self).ops().push(byte),
            final(self).ctx.function.chunk.constants == old(self).ctx.function.chunk.constants,
            final(self).ctx.function.chunk.constant_count == old(self).ctx.function.chunk.constant_count,
    {
        self.ctx.function.chunk.write_u8(byte, span);
    }

    /// Adds a constant to the pool and emits its index.
    fn emit_constant(&mut self, value: Value, span: Span) -> (r: Result<(), ErrorS>)
        requires
            old(self).wf(),
        ensures
            final(self).wf(),
            final(self).code_changed(old(self)),
            (old(self).ctx.function.chunk.constant_count == 256 && !old(self).ctx.function.chunk.constants_view().contains(value))
                ==> r == Err::<(), ErrorS>((Error::OverflowError(OverflowError::TooManyConstants), span)) && final(self).ops()
                == old(self).ops(),
            (old(self).ctx.function.chunk.constant_count < 256 || old(self).ctx.function.chunk.constants_view().contains(value))
                ==> r is Ok && final(self).ops().len() == old(self).ops().len() + 1
                && final(self).ops().drop_last() == old(self).ops()
                && final(self).ctx.function.chunk.constants_view()[final(self).ops().last() as int] == value,
    {
        let idx = self.ctx.function.chunk.write_constant(value, span)?;
        self.emit_u8(idx, span);
        Ok(())
    }

    /// Emits a jump with a placeholder offset, and returns where the offset
    /// is, to be patched.
    fn emit_jump(&mut self, opcode: u8, span: Span) -> (r: usize)
        requires
            old(self).wf(),
        ensures
            final(self).wf(),
            final(self).code_changed(old(self)),
            final(self).ops() == old(self).ops().push(opcode).push(0xff).push(0xff),
            r == old(self).ops().len() + 1,
    {
        self.emit_u8(opcode, span);
        self.emit_u8(0xff, span);
        self.emit_u8(0xff, span);
        self.ctx.function.chunk.ops.len() - 2
    }

    /// Points the jump whose offset is at `idx` to the end of the code.
    fn patch_jump(&mut self, idx: usize, span: Span) -> (r: Result<(), ErrorS>)
        requires
            old(self).wf(),
            idx + 2 <= old(self).ops().len(),
        ensures
            final(self).wf(),
            final(self).code_changed(old(self)),
            ({
                let offset = old(self).ops().len() - 2 - idx;
                &&& offset > 0xffff ==> r == Err::<(), ErrorS>((Error::OverflowError(OverflowError::JumpTooLarge), span))
                    && final(self).ops() == old(self).ops()
                &&& offset <= 0xffff ==> r is Ok && final(self).ops()
                    == old(self).ops().update(idx as int, lo_byte(offset)).update(idx + 1, hi_byte(offset))
            }),
    {
        let offset = self.ctx.function.chunk.ops.len() - 2 - idx;
        if offset > 0xffff {
            return Err((Error::OverflowError(OverflowError::JumpTooLarge), span));
        }
        self.ctx.function.chunk.ops[idx] = (offset % 256) as u8;
        self.ctx.function.chunk.ops[idx + 1] = (offset / 256) as u8;
        Ok(())
    }

    fn start_loop(&self) -> (r: usize)
        ensures
            r == self.ops().len(),
    {
        self.ctx.function.chunk.ops.len()
    }

    /// Emits a jump back to `start`.
    fn emit_loop(&mut self, start: usize, span: Span) -> (r: Result<(), ErrorS>)
        requires
            old(self).wf(),
            start <= old(self).ops().len(),
        ensures
            final(self).wf(),
            final(self).code_changed(old(self)),
            ({
                let offset = old(self).ops().len() + 3 - start;
                &&& offset > 0xffff ==> r == Err::<(), ErrorS>((Error::OverflowError(OverflowError::JumpTooLarge), span))
                    && final(self).ops() == old(self).ops()
                &&& offset <= 0xffff ==> r is Ok && final(self).ops()
                    == old(self).ops().push(op::LOOP).push(lo_byte(offset)).push(hi_byte(offset))
            }),
    {
        let n = self.ctx.function.chunk.ops.len();
        if n - start > 0xffff - 3 {
            return Err((Error::OverflowError(OverflowError::JumpTooLarge), span));
        }
        let offset = (n - start) + 3;
        self.emit_u8(op::LOOP, span);
        self.emit_u8((offset % 256) as u8, span);
        self.emit_u8((offset / 256) as u8, span);
        Ok(())
    }

    /// Whether the innermost function is at its outermost scope, where names
    /// are globals.
    fn is_global(&self) -> (r: bool)
        ensures
            r == (self.ctx.scope_depth == 0),
    {
        self.ctx.scope_depth == 0
    }

    /// Enters a block. The depth saturates at `usize::MAX`, which no program
    /// that fits in memory reaches.
    fn begin_scope(&mut self)
        requires
            old(self).wf(),
        ensures
            final(self).wf(),
            final(self).parents == old(self).parents,
            final(self).class_ctx@ == old(self).class_ctx@,
            final(self).ctx.function == old(self).ctx.function,
            final(self).ctx.locals == old(self).ctx.locals,
            final(self).ctx.upvalues == old(self).ctx.upvalues,
            final(self).ctx.type_ == old(self).ctx.type_,
            old(self).ctx.scope_depth < usize::MAX ==> final(self).ctx.scope_depth == old(self).ctx.scope_depth + 1,
            old(self).ctx.scope_depth == usize::MAX ==> final(self).ctx.scope_depth == usize::MAX,
    {
        if self.ctx.scope_depth < usize::MAX {
            self.ctx.scope_depth = self.ctx.scope_depth + 1;
        }
    }

    /// Leaves a block: the locals deeper than the enclosing scope are
    /// dropped, the last first, each with a `POP`, or a `CLOSE_UPVALUE` when
    /// a closure captured it.
    fn end_scope(&mut self, span: Span)
        requires
            old(self).wf(),
        ensures
            final(self).wf(),
            final(self).parents == old(self).parents,
            final(self).class_ctx@ == old(self).class_ctx@,
            final(self).ctx.upvalues == old(self).ctx.upvalues,
            final(self).ctx.type_ == old(self).ctx.type_,
            final(self).ctx.function.name == old(self).ctx.function.name,
            final(self).ctx.function.arity == old(self).ctx.function.arity,
            final(self).ctx.function.upvalue_count == old(self).ctx.function.upvalue_count,
            ({
                let d = if old(self).ctx.scope_depth > 0 { (old(self).ctx.scope_depth - 1) as usize } else { 0usize };
                let ls = old(self).ctx.locals@;
                let k = scope_start(ls, (d + 1) as usize);
                &&& final(self).ctx.scope_depth == d
                &&& final(self).ctx.locals@ == ls.take(k)
                &&& final(self).ops().len() == old(self).ops().len() + (ls.len() - k)
                &&& final(self).ops().take(old(self).ops().len() as int) == old(self).ops()
                &&& forall|i: int| 0 <= i < old(self).ops().len() ==> #[trigger] final(self).ops()[i] == old(self).ops()[i]
                &&& old(self).ops().len() <= final(self).ops().len()
                &&& forall|m: int| 0 <= m < ls.len() - k ==> #[trigger] final(self).ops()[old(self).ops().len() + m]
                    == if ls[ls.len() - 1 - m].is_captured { op::CLOSE_UPVALUE } else { op::POP }
            }),
    {
        if self.ctx.scope_depth > 0 {
            self.ctx.scope_depth = self.ctx.scope_depth - 1;
        }
        let ghost ls = self.ctx.locals@;
        let ghost ops0 = self.ops();
        let ghost d1: usize = (self.ctx.scope_depth + 1) as usize;
        proof {
            lemma_scope_start(ls, d1);
        }
        loop
            invariant
                self.wf(),
                self.parents == old(self).parents,
                self.class_ctx@ == old(self).class_ctx@,
                self.ctx.upvalues == old(self).ctx.upvalues,
                self.ctx.type_ == old(self).ctx.type_,
                self.ctx.function.name == old(self).ctx.function.name,
                self.ctx.function.arity == old(self).ctx.function.arity,
                self.ctx.function.upvalue_count == old(self).ctx.function.upvalue_count,
                self.ctx.scope_depth == d1 - 1,
                d1 == (if old(self).ctx.scope_depth > 0 { old(self).ctx.scope_depth } else { 1 }),
                ls == old(self).ctx.locals@,
                ops0 == old(self).ops(),
                scope_start(ls, d1) <= self.ctx.locals@.len() <= ls.len(),
                self.ctx.locals@ == ls.take(self.ctx.locals@.len() as int),
                self.ops().len() == ops0.len() + (ls.len() - self.ctx.locals@.len()),
                self.ops().take(ops0.len() as int) == ops0,
                forall|m: int| 0 <= m < ls.len() - self.ctx.locals@.len() ==> #[trigger] self.ops()[ops0.len() + m]
                    == if ls[ls.len() - 1 - m].is_captured { op::CLOSE_UPVALUE } else { op::POP },
                forall|j: int| scope_start(ls, d1) <= j < ls.len() ==> #[trigger] ls[j].depth >= d1,
                scope_start(ls, d1) > 0 ==> ls[scope_start(ls, d1) - 1].depth < d1,
            ensures
                self.ctx.locals@.len() == scope_start(ls, d1),
            decreases self.ctx.locals@.len(),
        {
            let n = self.ctx.locals.len();
            if n == 0 {
                proof {
                    lemma_scope_start(ls, d1);
                }
                break;
            }
            if self.ctx.locals[n - 1].depth <= self.ctx.scope_depth {
                proof {
                    assert(self.ctx.locals@[n - 1] == ls[n - 1]);
                    assert(!(ls[n - 1].depth >= d1));
                }
                break;
            }
            let captured = self.ctx.locals[n - 1].is_captured;
            let ghost before = self.ops();
            if captured {
                self.emit_u8(op::CLOSE_UPVALUE, span);
            } else {
                self.emit_u8(op::POP, span);
            }
            self.ctx.locals.pop();
            proof {
                assert(self.ctx.locals@ =~= ls.take(self.ctx.locals@.len() as int));
                assert(self.ops().take(ops0.len() as int) =~= before.take(ops0.len() as int));
                assert forall|m: int| 0 <= m < ls.len() - self.ctx.locals@.len() implies #[trigger] self.ops()[ops0.len() + m]
                    == if ls[ls.len() - 1 - m].is_captured { op::CLOSE_UPVALUE } else { op::POP } by {
                    if m < ls.len() - n {
                        assert(self.ops()[ops0.len() + m] == before[ops0.len() + m]);
                    }
                }
            }
        }
        proof {
            assert forall|i: int| 0 <= i < ops0.len() implies #[trigger] self.ops()[i] == ops0[i] by {
                assert(self.ops().take(ops0.len() as int)[i] == self.ops()[i]);
            }
        }
    }
}


/// The two contexts hold the same code, the same locals but for which of
/// them closures captured, and upvalues that only grew.
pub open spec fn ctx_kept(a: CompilerCtx, b: CompilerCtx) -> bool {
    &&& b.function.chunk == a.function.chunk
    &&& b.function.name == a.function.name
    &&& b.function.arity == a.function.arity
    &&& b.type_ == a.type_
    &&& b.scope_depth == a.scope_depth
    &&& b.locals@.len() == a.locals@.len()
    &&& forall|j: int| 0 <= j < a.locals@.len() ==> {
        &&& (#[trigger] b.locals@[j]).name == a.locals@[j].name
        &&& b.locals@[j].depth == a.locals@[j].depth
        &&& b.locals@[j].is_initialized == a.locals@[j].is_initialized
    }
    &&& a.upvalues@.len() <= b.upvalues@.len()
    &&& forall|j: int| 0 <= j < a.upvalues@.len() ==> #[trigger] b.upvalues@[j] == a.upvalues@[j]
}

/// The two contexts hold the same code for the same function, at the same
/// depth, with as many locals.
pub open spec fn frame_kept(a: CompilerCtx, b: CompilerCtx) -> bool {
    &&& b.function.chunk == a.function.chunk
    &&& b.function.name == a.function.name
    &&& b.function.arity == a.function.arity
    &&& b.type_ == a.type_
    &&& b.scope_depth == a.scope_depth
    &&& b.locals@.len() == a.locals@.len()
}

pub proof fn lemma_ctx_kept_trans(a: CompilerCtx, b: CompilerCtx, c: CompilerCtx)
    requires
        ctx_kept(a, b),
        ctx_kept(b, c),
    ensures
        ctx_kept(a, c),
{
    assert forall|j: int| 0 <= j < a.locals@.len() implies {
        &&& (#[trigger] c.locals@[j]).name == a.locals@[j].name
        &&& c.locals@[j].depth == a.locals@[j].depth
        &&& c.locals@[j].is_initialized == a.locals@[j].is_initialized
    } by {
        assert(b.locals@[j].name == a.locals@[j].name);
    }
    assert forall|j: int| 0 <= j < a.upvalues@.len() implies #[trigger] c.upvalues@[j] == a.upvalues@[j] by {
        assert(b.upvalues@[j] == a.upvalues@[j]);
    }
}

impl Compiler {
    /// The context at `level`: the parents from the outermost, then the
    /// innermost.
    pub open spec fn ctx_at(&self, level: int) -> CompilerCtx {
        if level == self.parents@.len() {
            self.ctx
        } else {
            self.parents@[level]
        }
    }

    /// Every context kept its shape; see `ctx_kept`.
    pub open spec fn shape_kept(&self, old: &Compiler) -> bool {
        &&& self.parents@.len() == old.parents@.len()
        &&& self.class_ctx@ == old.class_ctx@
        &&& forall|l: int| 0 <= l <= old.parents@.len() ==> ctx_kept(old.ctx_at(l), #[trigger] self.ctx_at(l))
    }

    /// The upvalue of the function at `level` through which `name` reaches a
    /// local of an enclosing function; `None` when no enclosing function has
    /// such a local. Upvalues are added along the way as needed, and the
    /// locals they reach are marked as captured.
    fn resolve_upvalue_in(&mut self, level: usize, name: &str, span: Span) -> (r: Result<Option<u8>, ErrorS>)
        requires
            old(self).wf(),
            level <= old(self).parents@.len(),
        ensures
            final(self).wf(),
            final(self).shape_kept(old(self)),
            level == 0 ==> r == Ok::<Option<u8>, ErrorS>(None),
            r matches Ok(Some(u)) ==> (u as int) < final(self).ctx_at(level as int).upvalues@.len(),
            no_local_below(*old(self), level as int, name@) ==> r == Ok::<Option<u8>, ErrorS>(None),
            r == Ok::<Option<u8>, ErrorS>(None) ==> no_local_below(*old(self), level as int, name@),
            match r {
                Ok(Some(u)) => {
                    let j = last_local(old(self).ctx_at(level - 1).locals@, name@);
                    &&& j >= 0 ==> final(self).ctx_at(level as int).upvalues@[u as int] == Upvalue { idx: j as u8, is_local: true }
                    &&& j < 0 ==> !final(self).ctx_at(level as int).upvalues@[u as int].is_local
                },
                _ => true,
            },
        decreases level,
    {
        if level == 0 {
            proof {
                assert forall|l: int| 0 <= l <= old(self).parents@.len() implies ctx_kept(old(self).ctx_at(l), #[trigger] self.ctx_at(l)) by {}
            }
            return Ok(None);
        }
        let p = level - 1;
        let ghost s0 = *self;
        let local = self.parents[p].resolve_local(name, true, span);
        let ghost s1 = *self;
        proof {
            assert(self.parents@ == s0.parents@.update(p as int, self.parents@[p as int]));
            assert forall|i: int| 0 <= i < self.parents@.len() implies (#[trigger] self.parents@[i]).wf() by {
                if i != p {
                    assert(self.parents@[i] == s0.parents@[i]);
                }
            }
            assert forall|l: int| 0 <= l <= old(self).parents@.len() implies ctx_kept(old(self).ctx_at(l), #[trigger] self.ctx_at(l)) by {
                if l != p {
                    assert(self.ctx_at(l) == old(self).ctx_at(l));
                } else {
                    let a = old(self).ctx_at(l);
                    let b = self.ctx_at(l);
                    lemma_last_local(a.locals@, name@);
                    assert forall|j: int| 0 <= j < a.locals@.len() implies {
                        &&& (#[trigger] b.locals@[j]).name == a.locals@[j].name
                        &&& b.locals@[j].depth == a.locals@[j].depth
                        &&& b.locals@[j].is_initialized == a.locals@[j].is_initialized
                    } by {
                        let k = last_local(a.locals@, name@);
                        if k >= 0 && a.locals@[k].is_initialized {
                            assert(b.locals@ == with_captured(a.locals@, k));
                            assert(b.locals@[j] == with_captured(a.locals@, k)[j]);
                        } else {
                            assert(b.locals@ == a.locals@);
                        }
                    }
                    let k = last_local(a.locals@, name@);
                    if k >= 0 && a.locals@[k].is_initialized {
                        assert(b.locals@.len() == a.locals@.len());
                    }
                    assert forall|j: int| 0 <= j < a.upvalues@.len() implies #[trigger] b.upvalues@[j] == a.upvalues@[j] by {}
                }
            }
        }
        let local = local?;
        match local {
            Some(idx) => {
                let u = if level == self.parents.len() {
                    self.ctx.add_upvalue(idx, true, span)
                } else {
                    self.parents[level].add_upvalue(idx, true, span)
                };
                proof {
                    self.lemma_one_level_changed(s1, level as int);
                    lemma_shape_kept_trans(*old(self), s1, *self);
                }
                let u = u?;
                Ok(Some(u))
            },
            None => {
                proof {
                    assert(last_local(old(self).ctx_at(p as int).locals@, name@) < 0);
                    assert forall|l: int| 0 <= l < p implies #[trigger] s1.ctx_at(l) == old(self).ctx_at(l) by {
                        assert(s1.parents@[l] == s0.parents@[l]);
                    }
                    if no_local_below(*old(self), level as int, name@) {
                        assert forall|l: int| 0 <= l < p implies last_local(#[trigger] s1.ctx_at(l).locals@, name@) < 0 by {
                            assert(s1.ctx_at(l) == old(self).ctx_at(l));
                        }
                    }
                }
                let up = self.resolve_upvalue_in(p, name, span);
                proof {
                    if up == Ok::<Option<u8>, ErrorS>(None) {
                        assert forall|l: int| 0 <= l < level implies last_local(#[trigger] old(self).ctx_at(l).locals@, name@) < 0 by {
                            if l < p {
                                assert(s1.ctx_at(l) == old(self).ctx_at(l));
                            }
                        }
                    }
                }
                let ghost s2 = *self;
                proof {
                    lemma_shape_kept_trans(*old(self), s1, s2);
                }
                match up? {
                    Some(idx) => {
                        let u = if level == self.parents.len() {
                            self.ctx.add_upvalue(idx, false, span)
                        } else {
                            self.parents[level].add_upvalue(idx, false, span)
                        };
                        proof {
                            self.lemma_one_level_changed(s2, level as int);
                            lemma_shape_kept_trans(*old(self), s2, *self);
                        }
                        let u = u?;
                        Ok(Some(u))
                    },
                    None => Ok(None),
                }
            },
        }
    }

    /// After `add_upvalue` on the context at `level`, the others are as they
    /// were and that one kept its shape.
    proof fn lemma_one_level_changed(&self, before: Compiler, level: int)
        requires
            before.wf(),
            0 <= level <= before.parents@.len(),
            self.parents@.len() == before.parents@.len(),
            self.class_ctx@ == before.class_ctx@,
            self.ctx_at(level).wf(),
            ctx_kept(before.ctx_at(level), self.ctx_at(level)),
            forall|l: int| 0 <= l <= before.parents@.len() && l != level ==> #[trigger] self.ctx_at(l) == before.ctx_at(l),
        ensures
            self.wf(),
            self.shape_kept(&before),
    {
        assert forall|i: int| 0 <= i < self.parents@.len() implies (#[trigger] self.parents@[i]).wf() by {
            assert(self.ctx_at(i) == self.parents@[i]);
            assert(before.ctx_at(i) == before.parents@[i]);
        }
        assert(self.ctx == self.ctx_at(self.parents@.len() as int));
        assert(before.ctx == before.ctx_at(before.parents@.len() as int));
        assert forall|l: int| 0 <= l <= before.parents@.len() implies ctx_kept(before.ctx_at(l), #[trigger] self.ctx_at(l)) by {
            if l != level {
                let a = before.ctx_at(l);
                assert forall|j: int| 0 <= j < a.locals@.len() implies {
                    &&& (#[trigger] a.locals@[j]).name == a.locals@[j].name
                    &&& a.locals@[j].depth == a.locals@[j].depth
                    &&& a.locals@[j].is_initialized == a.locals@[j].is_initialized
                } by {}
            }
        }
    }
}

pub proof fn lemma_shape_kept_trans(a: Compiler, b: Compiler, c: Compiler)
    requires
        b.shape_kept(&a),
        c.shape_kept(&b),
    ensures
        c.shape_kept(&a),
{
    assert forall|l: int| 0 <= l <= a.parents@.len() implies ctx_kept(a.ctx_at(l), #[trigger] c.ctx_at(l)) by {
        assert(ctx_kept(a.ctx_at(l), b.ctx_at(l)));
        assert(ctx_kept(b.ctx_at(l), c.ctx_at(l)));
        lemma_ctx_kept_trans(a.ctx_at(l), b.ctx_at(l), c.ctx_at(l));
    }
}


/// The string object for `s`, interned; an error when the heap is full.
fn alloc_name(gc: &mut Gc, s: &str, span: Span) -> (r: Result<usize, ErrorS>)
    requires
        old(gc).wf(),
    ensures
        final(gc).wf(),
        old(gc).objects@.len() <= final(gc).objects@.len(),
        r matches Ok(idx) ==> final(gc).is_string(idx as int, s@) && (idx as u64) < crate::value::OBJECT_PAYLOAD_LIMIT,
        r is Err ==> r == Err::<usize, ErrorS>((Error::OverflowError(OverflowError::OutOfMemory), span)),
        old(gc).objects@.len() < MAX_OBJECTS ==> r is Ok,
{
    if !gc.has_room() {
        return Err((Error::OverflowError(OverflowError::OutOfMemory), span));
    }
    Ok(gc.alloc_str(s))
}

pub open spec fn this_text() -> Seq<char> {
    seq!['t', 'h', 'i', 's']
}

impl Compiler {
    /// The compiler state that an expression leaves as it was: the nesting of
    /// functions and classes, and the innermost function's scope and locals.
    pub open spec fn expr_kept(&self, old: &Compiler) -> bool {
        &&& self.parents@.len() == old.parents@.len()
        &&& self.class_ctx@ == old.class_ctx@
        &&& self.ctx.type_ == old.ctx.type_
        &&& self.ctx.scope_depth == old.ctx.scope_depth
        &&& self.ctx.locals@.len() == old.ctx.locals@.len()
        &&& self.ctx.function.name == old.ctx.function.name
        &&& self.ctx.function.arity == old.ctx.function.arity
        &&& old.ops().len() <= self.ops().len()
        &&& forall|i: int| 0 <= i < old.ops().len() ==> #[trigger] self.ops()[i] == old.ops()[i]
        &&& forall|l: int| 0 <= l < old.parents@.len() ==> frame_kept(old.parents@[l], #[trigger] self.parents@[l])
    }

    /// The compiler state that a statement leaves as it was: the nesting of
    /// functions and classes, the kind of the innermost function, and the
    /// code before it.
    pub open spec fn stmt_kept(&self, old: &Compiler) -> bool {
        &&& self.parents@.len() == old.parents@.len()
        &&& self.class_ctx@ == old.class_ctx@
        &&& self.ctx.type_ == old.ctx.type_
        &&& self.ctx.function.name == old.ctx.function.name
        &&& self.ctx.function.arity == old.ctx.function.arity
        &&& old.ops().len() <= self.ops().len()
        &&& forall|i: int| 0 <= i < old.ops().len() ==> #[trigger] self.ops()[i] == old.ops()[i]
        &&& forall|l: int| 0 <= l < old.parents@.len() ==> frame_kept(old.parents@[l], #[trigger] self.parents@[l])
    }

    /// Declares a local in the innermost scope; it is not initialized yet.
    fn declare_local(&mut self, name: &str, span: Span) -> (r: Result<(), ErrorS>)
        requires
            old(self).wf(),
        ensures
            final(self).wf(),
            final(self).parents == old(self).parents,
            final(self).class_ctx@ == old(self).class_ctx@,
            final(self).ctx.function == old(self).ctx.function,
            final(self).ctx.upvalues == old(self).ctx.upvalues,
            final(self).ctx.type_ == old(self).ctx.type_,
            final(self).ctx.scope_depth == old(self).ctx.scope_depth,
            ({
                let ls = old(self).ctx.locals@;
                let d = old(self).ctx.scope_depth;
                &&& defined_in_scope(ls, d, name@) ==> (final(self).ctx.locals@ == ls && (r matches Err(
                    (Error::NameError(NameError::AlreadyDefined { name: n }), sp),
                ) && n@ == name@ && sp == span))
                &&& (!defined_in_scope(ls, d, name@) && ls.len() == MAX_SLOTS) ==> final(self).ctx.locals@ == ls
                    && r == Err::<(), ErrorS>((Error::OverflowError(OverflowError::TooManyLocals), span))
                &&& (!defined_in_scope(ls, d, name@) && ls.len() < MAX_SLOTS) ==> r is Ok
                    && final(self).ctx.locals@.len() == ls.len() + 1
                    && final(self).ctx.locals@.drop_last() == ls
                    && final(self).ctx.locals@.last().name@ == name@
                    && final(self).ctx.locals@.last().depth == d
                    && !final(self).ctx.locals@.last().is_initialized
                    && !final(self).ctx.locals@.last().is_captured
            }),
    {
        let key = name.to_owned();
        let ghost ls = self.ctx.locals@;
        let ghost d = self.ctx.scope_depth;
        proof {
            lemma_scope_start(ls, d);
        }
        let mut i = self.ctx.locals.len();
        while i > 0
            invariant_except_break
                forall|j: int| i <= j < ls.len() ==> (#[trigger] ls[j]).name@ != name@ && ls[j].depth >= d,
            invariant
                i <= ls.len(),
                self.ctx.locals@ == ls,
                self.ctx.scope_depth == d,
                key@ == name@,
                0 <= scope_start(ls, d) <= ls.len(),
            ensures
                self.ctx.locals@ == ls,
                i > 0 ==> defined_in_scope(ls, d, name@),
                i == 0 ==> !defined_in_scope(ls, d, name@),
            decreases i,
        {
            if self.ctx.locals[i - 1].depth < self.ctx.scope_depth {
                proof {
                    lemma_scope_start_at(ls, d, i as int);
                    assert forall|j: int| scope_start(ls, d) <= j < ls.len() implies (#[trigger] ls[j]).name@ != name@ by {}
                }
                i = 0;
                break;
            }
            if self.ctx.locals[i - 1].name == key {
                proof {
                    lemma_scope_start_at(ls, d, i - 1);
                    assert(scope_start(ls, d) <= i - 1 < ls.len() && ls[i - 1].name@ == name@);
                }
                break;
            }
            i = i - 1;
        }
        if i > 0 {
            let n = name.to_owned();
            return Err((Error::NameError(NameError::AlreadyDefined { name: n }), span));
        }
        if self.ctx.locals.len() == MAX_SLOTS {
            return Err((Error::OverflowError(OverflowError::TooManyLocals), span));
        }
        let depth = self.ctx.scope_depth;
        self.ctx.locals.push(Local { name: key, depth, is_initialized: false, is_captured: false });
        proof {
            assert(self.ctx.locals@.drop_last() =~= ls);
        }
        Ok(())
    }

    /// Marks the last declared local as initialized.
    fn define_local(&mut self)
        requires
            old(self).wf(),
            old(self).ctx.locals@.len() > 0,
        ensures
            final(self).wf(),
            final(self).parents == old(self).parents,
            final(self).class_ctx@ == old(self).class_ctx@,
            final(self).ctx.function == old(self).ctx.function,
            final(self).ctx.upvalues == old(self).ctx.upvalues,
            final(self).ctx.type_ == old(self).ctx.type_,
            final(self).ctx.scope_depth == old(self).ctx.scope_depth,
            final(self).ctx.locals@ == with_initialized(old(self).ctx.locals@, old(self).ctx.locals@.len() - 1),
    {
        let n = self.ctx.locals.len();
        let ghost ls = self.ctx.locals@;
        self.ctx.locals[n - 1].is_initialized = true;
        proof {
            assert(self.ctx.locals@ =~= with_initialized(ls, n - 1));
        }
    }

    /// Makes `ctx` the innermost function.
    fn begin_ctx(&mut self, ctx: CompilerCtx)
        requires
            old(self).wf(),
            ctx.wf(),
        ensures
            final(self).wf(),
            final(self).ctx == ctx,
            final(self).parents@ == old(self).parents@.push(old(self).ctx),
            final(self).class_ctx@ == old(self).class_ctx@,
    {
        let ghost ps = self.parents@;
        let mut prev = ctx;
        std::mem::swap(&mut self.ctx, &mut prev);
        self.parents.push(prev);
        proof {
            assert forall|i: int| 0 <= i < self.parents@.len() implies (#[trigger] self.parents@[i]).wf() by {
                if i < ps.len() {
                    assert(self.parents@[i] == ps[i]);
                }
            }
        }
    }

    /// Closes the innermost function: its enclosing function becomes the
    /// innermost again. Returns the closed function and its upvalues.
    fn end_ctx(&mut self) -> (r: (ObjectFunction, Vec<Upvalue>))
        requires
            old(self).wf(),
            old(self).parents@.len() > 0,
        ensures
            final(self).wf(),
            final(self).ctx == old(self).parents@.last(),
            final(self).parents@ == old(self).parents@.drop_last(),
            final(self).class_ctx@ == old(self).class_ctx@,
            r.0 == old(self).ctx.function,
            r.1@ == old(self).ctx.upvalues@,
    {
        let mut ctx = self.parents.pop().unwrap();
        std::mem::swap(&mut self.ctx, &mut ctx);
        proof {
            assert forall|i: int| 0 <= i < self.parents@.len() implies (#[trigger] self.parents@[i]).wf() by {
                assert(self.parents@[i] == old(self).parents@[i]);
            }
        }
        (ctx.function, ctx.upvalues)
    }

    /// Emits the code that reads the variable `name`: a local slot, an
    /// upvalue, or else a global.
    fn get_variable(&mut self, name: &str, span: Span, gc: &mut Gc) -> (r: Result<(), ErrorS>)
        requires
            old(self).wf(),
            old(gc).wf(),
        ensures
            final(self).wf(),
            final(gc).wf(),
            final(self).expr_kept(old(self)),
            (name@ == this_text() && old(self).class_ctx@.len() == 0) ==> r == Err::<(), ErrorS>(
                (Error::SyntaxError(SyntaxError::ThisOutsideClass), span),
            ) && final(self).ops() == old(self).ops(),
            !(name@ == this_text() && old(self).class_ctx@.len() == 0) ==> {
                let ls = old(self).ctx.locals@;
                let j = last_local(ls, name@);
                &&& (j >= 0 && ls[j].is_initialized) ==> r is Ok
                    && final(self).ops() == old(self).ops().push(op::GET_LOCAL).push(j as u8)
                &&& (j >= 0 && !ls[j].is_initialized) ==> (r matches Err(
                    (Error::NameError(NameError::AccessInsideInitializer { name: n }), sp),
                ) && n@ == name@ && sp == span)
                &&& (j < 0 && r is Ok) ==> {
                    &&& final(self).ops().len() == old(self).ops().len() + 2
                    &&& final(self).ops()[old(self).ops().len() as int] == op::GET_UPVALUE
                        || final(self).ops()[old(self).ops().len() as int] == op::GET_GLOBAL
                }
            },
    {
        proof {
            reveal_strlit("this");
        }
        let key = name.to_owned();
        let this = String::from_str("this");
        assert(this@ =~= this_text());
        if key == this && self.class_ctx.len() == 0 {
            proof {
                assert(self.ops().take(self.ops().len() as int) =~= self.ops());
            }
            return Err((Error::SyntaxError(SyntaxError::ThisOutsideClass), span));
        }
        assert(!(name@ == this_text() && old(self).class_ctx@.len() == 0));
        self.variable_op(name, span, gc, op::GET_LOCAL, op::GET_UPVALUE, op::GET_GLOBAL)
    }

    /// Emits the code that assigns the value on top of the stack to the
    /// variable `name`: a local slot, an upvalue, or else a global.
    fn set_variable(&mut self, name: &str, span: Span, gc: &mut Gc) -> (r: Result<(), ErrorS>)
        requires
            old(self).wf(),
            old(gc).wf(),
        ensures
            final(self).wf(),
            final(gc).wf(),
            final(self).expr_kept(old(self)),
            ({
                let ls = old(self).ctx.locals@;
                let j = last_local(ls, name@);
                &&& (j >= 0 && ls[j].is_initialized) ==> r is Ok
                    && final(self).ops() == old(self).ops().push(op::SET_LOCAL).push(j as u8)
                &&& (j >= 0 && !ls[j].is_initialized) ==> (r matches Err(
                    (Error::NameError(NameError::AccessInsideInitializer { name: n }), sp),
                ) && n@ == name@ && sp == span)
                &&& (j < 0 && r is Ok) ==> {
                    &&& final(self).ops().len() == old(self).ops().len() + 2
                    &&& final(self).ops()[old(self).ops().len() as int] == op::SET_UPVALUE
                        || final(self).ops()[old(self).ops().len() as int] == op::SET_GLOBAL
                }
            }),
    {
        self.variable_op(name, span, gc, op::SET_LOCAL, op::SET_UPVALUE, op::SET_GLOBAL)
    }

    fn variable_op(&mut self, name: &str, span: Span, gc: &mut Gc, local_op: u8, upvalue_op: u8, global_op: u8) -> (r: Result<(), ErrorS>)
        requires
            old(self).wf(),
            old(gc).wf(),
        ensures
            final(self).wf(),
            final(gc).wf(),
            final(self).expr_kept(old(self)),
            ({
                let ls = old(self).ctx.locals@;
                let j = last_local(ls, name@);
                &&& (j >= 0 && ls[j].is_initialized) ==> r is Ok
                    && final(self).ops() == old(self).ops().push(local_op).push(j as u8)
                &&& (j >= 0 && !ls[j].is_initialized) ==> (r matches Err(
                    (Error::NameError(NameError::AccessInsideInitializer { name: n }), sp),
                ) && n@ == name@ && sp == span)
                &&& (j < 0 && r is Ok) ==> {
                    &&& final(self).ops().len() == old(self).ops().len() + 2
                    &&& final(self).ops()[old(self).ops().len() as int] == upvalue_op
                        || final(self).ops()[old(self).ops().len() as int] == global_op
                }
            }),
    {
        let ghost s0 = *self;
        let local = self.ctx.resolve_local(name, false, span);
        proof {
            assert(self.ops().take(s0.ops().len() as int) =~= s0.ops());
        }
        let local = local?;
        match local {
            Some(idx) => {
                self.emit_u8(local_op, span);
                self.emit_u8(idx, span);
                proof {
                    assert(self.ops().take(s0.ops().len() as int) =~= s0.ops());
                }
                return Ok(());
            },
            None => {},
        }
        let level = self.parents.len();
        let up = self.resolve_upvalue_in(level, name, span);
        proof {
            assert(ctx_kept(s0.ctx_at(level as int), self.ctx_at(level as int)));
            assert(self.ctx == self.ctx_at(level as int));
            assert forall|l: int| 0 <= l < s0.parents@.len() implies frame_kept(s0.parents@[l], #[trigger] self.parents@[l]) by {
                assert(ctx_kept(s0.ctx_at(l), self.ctx_at(l)));
            }
            assert(self.ops().take(s0.ops().len() as int) =~= s0.ops());
        }
        let up = up?;
        match up {
            Some(u) => {
                self.emit_u8(upvalue_op, span);
                self.emit_u8(u, span);
            },
            None => {
                let idx = alloc_name(gc, name, span);
                proof {
                    assert(self.ops().take(s0.ops().len() as int) =~= s0.ops());
                }
                let idx = idx?;
                self.emit_u8(global_op, span);
                let ghost s3 = self.ops();
                let c = self.emit_constant(Value::from_object(idx as u64), span);
                proof {
                    assert(self.ops().take(s0.ops().len() as int) =~= s0.ops());
                    if c is Ok {
                        assert(self.ops()[s0.ops().len() as int] == s3[s0.ops().len() as int]);
                    }
                }
                c?;
            },
        }
        proof {
            assert(self.ops().take(s0.ops().len() as int) =~= s0.ops());
        }
        Ok(())
    }
}



/// The opcode that an arithmetic, comparison or equality operator compiles
/// to.
/// The code of an expression built from `nil`, `true` and `false` with
/// prefix and infix operators alone: the operands' code, then the operator;
/// `and` jumps past the right operand when the left one is falsey, `or`
/// when it is truthy. `None` for any other expression, or where a jump
/// would be too long.
pub open spec fn pure_code(e: Expr) -> Option<Seq<u8>>
    decreases e,
{
    match e {
        Expr::Literal(ExprLiteral::Nil) => Some(seq![op::NIL]),
        Expr::Literal(ExprLiteral::Bool(b)) => Some(seq![if b { op::TRUE } else { op::FALSE }]),
        Expr::Prefix(p) => match pure_code(p.rt.0) {
            Some(c) => Some(c.push(if p.op is Negate { op::NEGATE } else { op::NOT })),
            None => None,
        },
        Expr::Infix(i) => match (pure_code(i.lt.0), pure_code(i.rt.0)) {
            (Some(l), Some(r)) => {
                let n: int = r.len() as int + 1;
                if i.op is LogicAnd {
                    if n <= 0xffff {
                        Some(l + seq![op::JUMP_IF_FALSE, lo_byte(n), hi_byte(n), op::POP] + r)
                    } else {
                        None
                    }
                } else if i.op is LogicOr {
                    if n <= 0xffff {
                        Some(l + seq![op::JUMP_IF_FALSE, lo_byte(3), hi_byte(3), op::JUMP, lo_byte(n), hi_byte(n), op::POP] + r)
                    } else {
                        None
                    }
                } else {
                    Some(l + r + seq![infix_opcode(i.op)])
                }
            },
            _ => None,
        },
        _ => None,
    }
}

/// The code of an optional expression of that kind: `Some(None)` when there
/// is none.
pub open spec fn opt_pure_code(e: Option<ExprS>) -> Option<Option<Seq<u8>>> {
    match e {
        Some(x) => match pure_code(x.0) {
            Some(c) => Some(Some(c)),
            None => None,
        },
        None => Some(None),
    }
}

/// The code of `print e;` or `e;` for such an `e`.
pub open spec fn stmt_pure_code(s: StmtS) -> Option<Seq<u8>> {
    match s.0 {
        Stmt::Print(p) => match pure_code(p.value.0) {
            Some(c) => Some(c.push(op::PRINT)),
            None => None,
        },
        Stmt::Expr(x) => match pure_code(x.value.0) {
            Some(c) => Some(c.push(op::POP)),
            None => None,
        },
        _ => None,
    }
}

/// The code of a `for` loop with no initializer, whose condition and
/// increment are such expressions and whose body is such a statement: at
/// the loop's start the condition, a `JUMP_IF_FALSE` out of the loop and the
/// `POP` of its value; then the body; then the increment and the `POP` of
/// its value; then the `LOOP` back to the start; after it, the `POP` of the
/// condition's value when the loop ends.
#[verifier::opaque]
pub open spec fn for_code(cond: Option<ExprS>, body: StmtS, incr: Option<ExprS>) -> Option<Seq<u8>> {
    match (opt_pure_code(cond), stmt_pure_code(body), opt_pure_code(incr)) {
        (Some(c), Some(b), Some(i)) => {
            let step = b + match i {
                Some(ic) => ic.push(op::POP),
                None => Seq::empty(),
            };
            let n = step.len() as int;
            let head = match c {
                Some(cc) => cc + seq![op::JUMP_IF_FALSE, lo_byte(n + 4), hi_byte(n + 4), op::POP],
                None => Seq::empty(),
            };
            let back = head.len() + n + 3;
            if back <= 0xffff {
                Some(head + step + seq![op::LOOP, lo_byte(back), hi_byte(back)] + if c is Some {
                    seq![op::POP]
                } else {
                    Seq::empty()
                })
            } else {
                None
            }
        },
        _ => None,
    }
}

/// The parts of the code of such a loop.
pub proof fn lemma_for_code_parts(cond: Option<ExprS>, body: StmtS, incr: Option<ExprS>)
    requires
        for_code(cond, body, incr) is Some,
    ensures
        opt_pure_code(cond) is Some,
        stmt_pure_code(body) is Some,
        opt_pure_code(incr) is Some,
        ({
            let c = opt_pure_code(cond)->Some_0;
            let step = stmt_pure_code(body)->Some_0 + match opt_pure_code(incr)->Some_0 {
                Some(ic) => ic.push(op::POP),
                None => Seq::empty(),
            };
            let n = step.len() as int;
            let head = match c {
                Some(cc) => cc + seq![op::JUMP_IF_FALSE, lo_byte(n + 4), hi_byte(n + 4), op::POP],
                None => Seq::empty(),
            };
            let back = head.len() + n + 3;
            &&& back <= 0xffff
            &&& for_code(cond, body, incr)->Some_0 == head + step + seq![op::LOOP, lo_byte(back), hi_byte(back)] + if c is Some {
                seq![op::POP]
            } else {
                Seq::empty()
            }
        }),
{
    reveal(for_code);
}

/// The code that compiling such a loop puts together, piece by piece, is
/// the loop's code.
proof fn lemma_for_assembled(
    o0: Seq<u8>,
    cond: Option<ExprS>,
    body: StmtS,
    incr: Option<ExprS>,
    h0: Seq<u8>,
    b0: Seq<u8>,
    c0: Seq<u8>,
    d0: Seq<u8>,
    e0: Seq<u8>,
    j: int,
)
    requires
        for_code(cond, body, incr) is Some,
        cond is Some ==> h0 == o0 + pure_code(cond->Some_0.0)->Some_0 + seq![op::JUMP_IF_FALSE, 0xffu8, 0xffu8, op::POP]
            && j == o0.len() + pure_code(cond->Some_0.0)->Some_0.len() + 1,
        cond is None ==> h0 == o0,
        b0 == h0 + stmt_pure_code(body)->Some_0,
        incr is Some ==> c0 == b0 + pure_code(incr->Some_0.0)->Some_0.push(op::POP),
        incr is None ==> c0 == b0,
        d0 == c0.push(op::LOOP).push(lo_byte(c0.len() + 3 - o0.len())).push(hi_byte(c0.len() + 3 - o0.len())),
        cond is Some ==> e0 == d0.update(j, lo_byte(d0.len() - 2 - j)).update(j + 1, hi_byte(d0.len() - 2 - j)).push(op::POP),
        cond is None ==> e0 == d0,
    ensures
        c0.len() + 3 - o0.len() <= 0xffff,
        cond is Some ==> d0.len() - 2 - j <= 0xffff,
        e0 == o0 + for_code(cond, body, incr)->Some_0,
{
    lemma_for_code_parts(cond, body, incr);
    assert(e0 =~= o0 + for_code(cond, body, incr)->Some_0);
}

/// The branch an `if` takes when its condition holds.
pub open spec fn first_branch(s: StmtIf) -> StmtS {
    let StmtIf { cond, then, else_ } = s;
    then
}

/// The code of an `if` whose condition is such an expression and whose
/// branches are such statements: the condition, a `JUMP_IF_FALSE` past the
/// first branch and the `POP` of the condition's value; the first branch and
/// a `JUMP` past the second; the `POP` of the condition's value on the way
/// to the second branch, then the second branch.
#[verifier::opaque]
pub open spec fn if_code(s: StmtIf) -> Option<Seq<u8>> {
    let StmtIf { cond, then, else_ } = s;
    let ec = match else_ {
        Some(e) => stmt_pure_code(e),
        None => Some(Seq::<u8>::empty()),
    };
    match (pure_code(cond.0), stmt_pure_code(then), ec) {
        (Some(cc), Some(tc), Some(ec)) => {
            let x: int = tc.len() as int + 4;
            let y: int = ec.len() as int + 1;
            if x <= 0xffff && y <= 0xffff {
                Some(cc + seq![op::JUMP_IF_FALSE, lo_byte(x), hi_byte(x), op::POP] + tc + seq![op::JUMP, lo_byte(y), hi_byte(y), op::POP] + ec)
            } else {
                None
            }
        },
        _ => None,
    }
}

/// The code of such an `if`, spelled out.
pub proof fn lemma_if_code_parts(s: StmtIf)
    requires
        if_code(s) is Some,
    ensures
        pure_code(s.cond.0) is Some,
        stmt_pure_code(first_branch(s)) is Some,
        s.else_ is Some ==> stmt_pure_code(s.else_->Some_0) is Some,
        ({
            let cc = pure_code(s.cond.0)->Some_0;
            let tc = stmt_pure_code(first_branch(s))->Some_0;
            let ec = if s.else_ is Some {
                stmt_pure_code(s.else_->Some_0)->Some_0
            } else {
                Seq::<u8>::empty()
            };
            let x: int = tc.len() as int + 4;
            let y: int = ec.len() as int + 1;
            &&& x <= 0xffff
            &&& y <= 0xffff
            &&& if_code(s)->Some_0 == cc + seq![op::JUMP_IF_FALSE, lo_byte(x), hi_byte(x), op::POP] + tc + seq![
                op::JUMP,
                lo_byte(y),
                hi_byte(y),
                op::POP,
            ] + ec
        }),
{
    reveal(if_code);
}

/// The parts of such an `if`, and how its code puts them together: the
/// code, patched jumps aside, of its pieces in order.
proof fn lemma_if_assembled(o0: Seq<u8>, s: StmtIf, t0: Seq<u8>, b0: Seq<u8>, f0: Seq<u8>, fin: Seq<u8>)
    requires
        if_code(s) is Some,
    ensures
        pure_code(s.cond.0) is Some,
        stmt_pure_code(first_branch(s)) is Some,
        s.else_ is Some ==> stmt_pure_code(s.else_->Some_0) is Some,
        ({
            let cc = pure_code(s.cond.0)->Some_0;
            let tc = stmt_pure_code(first_branch(s))->Some_0;
            let ec = match s.else_ {
                Some(e) => stmt_pure_code(e)->Some_0,
                None => Seq::<u8>::empty(),
            };
            let j1: int = o0.len() as int + cc.len() as int + 1;
            let j2: int = t0.len() as int + 1;
            (t0 == o0 + cc + seq![op::JUMP_IF_FALSE, 0xffu8, 0xffu8, op::POP] + tc
                && b0 == (t0 + seq![op::JUMP, 0xffu8, 0xffu8]).update(j1, lo_byte(t0.len() + 3 - 2 - j1)).update(
                j1 + 1,
                hi_byte(t0.len() + 3 - 2 - j1),
            ).push(op::POP) && f0 == b0 + ec && fin == f0.update(j2, lo_byte(f0.len() - 2 - j2)).update(
                j2 + 1,
                hi_byte(f0.len() - 2 - j2),
            )) ==> (t0.len() + 3 - 2 - j1 <= 0xffff && f0.len() - 2 - j2 <= 0xffff && fin == o0 + if_code(s)->Some_0)
        }),
{
    reveal(if_code);
    let cc = pure_code(s.cond.0)->Some_0;
    let tc = stmt_pure_code(first_branch(s))->Some_0;
    let ec = match s.else_ {
        Some(e) => stmt_pure_code(e)->Some_0,
        None => Seq::<u8>::empty(),
    };
    let j1: int = o0.len() as int + cc.len() as int + 1;
    let j2: int = t0.len() as int + 1;
    if t0 == o0 + cc + seq![op::JUMP_IF_FALSE, 0xffu8, 0xffu8, op::POP] + tc
        && b0 == (t0 + seq![op::JUMP, 0xffu8, 0xffu8]).update(j1, lo_byte(t0.len() + 3 - 2 - j1)).update(
        j1 + 1,
        hi_byte(t0.len() + 3 - 2 - j1),
    ).push(op::POP) && f0 == b0 + ec && fin == f0.update(j2, lo_byte(f0.len() - 2 - j2)).update(
        j2 + 1,
        hi_byte(f0.len() - 2 - j2),
    ) {
        assert(fin =~= o0 + if_code(s)->Some_0);
    }
}

/// The innermost scope holds no local deeper than the current depth.
pub open spec fn no_deeper_locals(c: Compiler) -> bool {
    c.ctx.scope_depth < usize::MAX && (c.ctx.locals@.len() == 0 || c.ctx.locals@.last().depth <= c.ctx.scope_depth)
}

pub open spec fn infix_opcode(op: OpInfix) -> u8 {
    match op {
        OpInfix::Add => op::ADD,
        OpInfix::Subtract => op::SUBTRACT,
        OpInfix::Multiply => op::MULTIPLY,
        OpInfix::Divide => op::DIVIDE,
        OpInfix::Less => op::LESS,
        OpInfix::LessEqual => op::LESS_EQUAL,
        OpInfix::Greater => op::GREATER,
        OpInfix::GreaterEqual => op::GREATER_EQUAL,
        OpInfix::Equal => op::EQUAL,
        OpInfix::NotEqual => op::NOT_EQUAL,
        _ => op::POP,
    }
}

impl Compiler {
    fn emit_op_constant(&mut self, opcode: u8, value: Value, span: Span) -> (r: Result<(), ErrorS>)
        requires
            old(self).wf(),
        ensures
            final(self).wf(),
            final(self).expr_kept(old(self)),
            r is Ok ==> final(self).ops().len() == old(self).ops().len() + 2
                && final(self).ops()[old(self).ops().len() as int] == opcode
                && final(self).ctx.function.chunk.constants_view()[final(self).ops().last() as int] == value,
            (old(self).ctx.function.chunk.constant_count < 256 || old(self).ctx.function.chunk.constants_view().contains(value))
                ==> r is Ok,
            (old(self).ctx.function.chunk.constant_count == 256 && !old(self).ctx.function.chunk.constants_view().contains(value))
                ==> r == Err::<(), ErrorS>(
                (Error::OverflowError(OverflowError::TooManyConstants), span),
            ),
    {
        let ghost s0 = *self;
        self.emit_u8(opcode, span);
        let ghost s1 = self.ops();
        let r = self.emit_constant(value, span);
        proof {
            assert(self.ops().take(s0.ops().len() as int) =~= s0.ops());
            if r is Ok {
                assert(self.ops()[s0.ops().len() as int] == s1[s0.ops().len() as int]);
            }
        }
        r
    }

    /// Emits the code that computes an expression and pushes its value.
    #[verifier::rlimit(60)]
    pub fn compile_expr<H: Host>(&mut self, expr: &ExprS, gc: &mut Gc, host: &H) -> (r: Result<(), ErrorS>)
        requires
            old(self).wf(),
            old(gc).wf(),
        ensures
            final(self).wf(),
            final(gc).wf(),
            final(self).expr_kept(old(self)),
            pure_code(expr.0) is Some ==> r is Ok && final(self).ops() == old(self).ops() + pure_code(expr.0)->Some_0
                && final(self).ctx.locals == old(self).ctx.locals && final(self).ctx.scope_depth == old(self).ctx.scope_depth,
            expr.0 is Literal && expr.0->Literal_0 is Nil ==> r is Ok && final(self).ops() == old(self).ops().push(op::NIL),
            expr.0 is Literal && expr.0->Literal_0 == ExprLiteral::Bool(true) ==> r is Ok && final(self).ops() == old(self).ops().push(op::TRUE),
            expr.0 is Literal && expr.0->Literal_0 == ExprLiteral::Bool(false) ==> r is Ok && final(self).ops() == old(self).ops().push(op::FALSE),
            (expr.0 is Super && old(self).class_ctx@.len() == 0) ==> r == Err::<(), ErrorS>((Error::SyntaxError(SyntaxError::SuperOutsideClass), expr.1)),
            (expr.0 is Super && old(self).class_ctx@.len() > 0 && !old(self).class_ctx@.last().has_super) ==> r == Err::<(), ErrorS>(
                (Error::SyntaxError(SyntaxError::SuperWithoutSuperclass), expr.1),
            ),
            (expr.0 is Call && expr.0->Call_0.args@.len() > 255) ==> r == Err::<(), ErrorS>((Error::OverflowError(OverflowError::TooManyArgs), expr.1)),
            (expr.0 is Infix && !(expr.0->Infix_0.op is LogicAnd || expr.0->Infix_0.op is LogicOr) && r is Ok) ==> final(self).ops().len()
                > old(self).ops().len() && final(self).ops().last() == infix_opcode(expr.0->Infix_0.op),
            (expr.0 is Prefix && r is Ok) ==> final(self).ops().len() > old(self).ops().len() && final(self).ops().last() == (
            if expr.0->Prefix_0.op is Negate {
                op::NEGATE
            } else {
                op::NOT
            }),
            ({
                let name = expr.0->Var_0.var.name@;
                let ls = old(self).ctx.locals@;
                let j = last_local(ls, name);
                (expr.0 is Var && !(name == this_text() && old(self).class_ctx@.len() == 0) && j >= 0 && ls[j].is_initialized)
                    ==> r is Ok && final(self).ops() == old(self).ops().push(op::GET_LOCAL).push(j as u8)
            }),
            (expr.0 is Var && expr.0->Var_0.var.name@ == this_text() && old(self).class_ctx@.len() == 0) ==> r == Err::<
                (),
                ErrorS,
            >((Error::SyntaxError(SyntaxError::ThisOutsideClass), expr.1)),
        decreases expr,
    {
        let ghost s0 = *self;
        let span = expr.1;
        match &expr.0 {
            Expr::Assign(assign) => {
                self.compile_expr(&assign.value, gc, host)?;
                let ghost s1 = *self;
                let r = self.set_variable(assign.var.name.as_str(), span, gc);
                proof {
                    assert(self.ops().take(s0.ops().len() as int) =~= s0.ops());
                }
                r
            },
            Expr::Call(call) => {
                if call.args.len() > 255 {
                    proof {
                        assert(self.ops().take(s0.ops().len() as int) =~= s0.ops());
                    }
                    return Err((Error::OverflowError(OverflowError::TooManyArgs), span));
                }
                let arg_count = call.args.len() as u8;
                let start = self.ctx.function.chunk.ops.len();
                self.compile_expr(&call.callee, gc, host)?;
                let mut i: usize = 0;
                #[verifier::loop_isolation(false)]
                while i < call.args.len()
                    invariant
                        self.wf(),
                        gc.wf(),
                        self.expr_kept(&s0),
                        s0 == *old(self),
                        start == s0.ops().len(),
                        i <= call.args@.len(),
                    decreases call.args@.len() - i,
                {
                    let ghost before = *self;
                    proof {
                        assert(decreases_to!(*expr => expr.0));
                        assert(decreases_to!(expr.0 => expr.0->Call_0));
                        assert(decreases_to!(expr.0->Call_0 => expr.0->Call_0.args));
                        assert(decreases_to!(call.args => call.args@));
                        assert(decreases_to!(call.args@ => call.args@[i as int]));
                        assert(decreases_to!(*expr => call.args@[i as int]));
                    }
                    let r = self.compile_expr(&call.args[i], gc, host);
                    proof {
                        assert(self.ops().take(s0.ops().len() as int) =~= before.ops().take(s0.ops().len() as int));
                    }
                    r?;
                    i = i + 1;
                }
                let n = self.ctx.function.chunk.ops.len();
                let ghost before = *self;
                if n - start >= 2 && self.ctx.function.chunk.ops[n - 2] == op::GET_PROPERTY {
                    self.ctx.function.chunk.ops[n - 2] = op::INVOKE;
                } else if n - start >= 2 && self.ctx.function.chunk.ops[n - 2] == op::GET_SUPER {
                    self.ctx.function.chunk.ops[n - 2] = op::SUPER_INVOKE;
                } else {
                    self.emit_u8(op::CALL, span);
                }
                proof {
                    assert(self.ops().take(s0.ops().len() as int) =~= before.ops().take(s0.ops().len() as int));
                }
                let ghost mid = *self;
                self.emit_u8(arg_count, span);
                proof {
                    assert(self.ops().take(s0.ops().len() as int) =~= mid.ops().take(s0.ops().len() as int));
                }
                Ok(())
            },
            Expr::Get(get) => {
                self.compile_expr(&get.object, gc, host)?;
                let ghost s1 = *self;
                let name = alloc_name(gc, get.name.as_str(), span)?;
                let r = self.emit_op_constant(op::GET_PROPERTY, Value::from_object(name as u64), span);
                proof {
                    assert(self.ops().take(s0.ops().len() as int) =~= s1.ops().take(s0.ops().len() as int));
                }
                r
            },
            Expr::Infix(infix) => {
                self.compile_expr(&infix.lt, gc, host)?;
                let ghost s1 = *self;
                let opcode = match infix.op {
                    OpInfix::Add => op::ADD,
                    OpInfix::Subtract => op::SUBTRACT,
                    OpInfix::Multiply => op::MULTIPLY,
                    OpInfix::Divide => op::DIVIDE,
                    OpInfix::Less => op::LESS,
                    OpInfix::LessEqual => op::LESS_EQUAL,
                    OpInfix::Greater => op::GREATER,
                    OpInfix::GreaterEqual => op::GREATER_EQUAL,
                    OpInfix::Equal => op::EQUAL,
                    OpInfix::NotEqual => op::NOT_EQUAL,
                    OpInfix::LogicAnd => {
                        // If the left value is false, it is the result.
                        let jump_to_end = self.emit_jump(op::JUMP_IF_FALSE, span);
                        self.emit_u8(op::POP, span);
                        let r = self.compile_expr(&infix.rt, gc, host);
                        proof {
                            assert(self.ops().take(s0.ops().len() as int) =~= s1.ops().take(s0.ops().len() as int));
                        }
                        r?;
                        let r = self.patch_jump(jump_to_end, span);
                        proof {
                            assert(self.ops().take(s0.ops().len() as int) =~= s1.ops().take(s0.ops().len() as int));
                        }
                        return r;
                    },
                    OpInfix::LogicOr => {
                        // If the left value is false, the right one is the
                        // result; otherwise the left one is.
                        let jump_to_right = self.emit_jump(op::JUMP_IF_FALSE, span);
                        let jump_to_end = self.emit_jump(op::JUMP, span);
                        let r = self.patch_jump(jump_to_right, span);
                        proof {
                            assert(self.ops().take(s0.ops().len() as int) =~= s1.ops().take(s0.ops().len() as int));
                        }
                        r?;
                        self.emit_u8(op::POP, span);
                        let r = self.compile_expr(&infix.rt, gc, host);
                        proof {
                            assert(self.ops().take(s0.ops().len() as int) =~= s1.ops().take(s0.ops().len() as int));
                        }
                        r?;
                        let r = self.patch_jump(jump_to_end, span);
                        proof {
                            assert(self.ops().take(s0.ops().len() as int) =~= s1.ops().take(s0.ops().len() as int));
                        }
                        return r;
                    },
                };
                self.compile_expr(&infix.rt, gc, host)?;
                let ghost s2 = *self;
                self.emit_u8(opcode, span);
                proof {
                    assert(self.ops().take(s0.ops().len() as int) =~= s2.ops().take(s0.ops().len() as int));
                }
                Ok(())
            },
            Expr::Literal(literal) => {
                let r = match literal {
                    ExprLiteral::Bool(true) => {
                        self.emit_u8(op::TRUE, span);
                        Ok(())
                    },
                    ExprLiteral::Bool(false) => {
                        self.emit_u8(op::FALSE, span);
                        Ok(())
                    },
                    ExprLiteral::Nil => {
                        self.emit_u8(op::NIL, span);
                        Ok(())
                    },
                    ExprLiteral::Number(text) => {
                        let bits = host.parse_number(text.as_str());
                        self.emit_op_constant(op::CONSTANT, Value::from_bits(bits), span)
                    },
                    ExprLiteral::String(text) => {
                        let idx = alloc_name(gc, text.as_str(), span);
                        match idx {
                            Ok(idx) => self.emit_op_constant(op::CONSTANT, Value::from_object(idx as u64), span),
                            Err(e) => Err(e),
                        }
                    },
                };
                proof {
                    assert(self.ops().take(s0.ops().len() as int) =~= s0.ops());
                }
                r
            },
            Expr::Prefix(prefix) => {
                self.compile_expr(&prefix.rt, gc, host)?;
                let ghost s1 = *self;
                match prefix.op {
                    OpPrefix::Negate => self.emit_u8(op::NEGATE, span),
                    OpPrefix::Not => self.emit_u8(op::NOT, span),
                }
                proof {
                    assert(self.ops().take(s0.ops().len() as int) =~= s1.ops().take(s0.ops().len() as int));
                }
                Ok(())
            },
            Expr::SetProperty(set) => {
                self.compile_expr(&set.value, gc, host)?;
                self.compile_expr(&set.object, gc, host)?;
                let ghost s1 = *self;
                let name = alloc_name(gc, set.name.as_str(), span)?;
                let r = self.emit_op_constant(op::SET_PROPERTY, Value::from_object(name as u64), span);
                proof {
                    assert(self.ops().take(s0.ops().len() as int) =~= s1.ops().take(s0.ops().len() as int));
                }
                r
            },
            Expr::Super(super_) => {
                proof {
                    assert(self.ops().take(s0.ops().len() as int) =~= s0.ops());
                }
                let n = self.class_ctx.len();
                if n == 0 {
                    return Err((Error::SyntaxError(SyntaxError::SuperOutsideClass), span));
                }
                if !self.class_ctx[n - 1].has_super {
                    return Err((Error::SyntaxError(SyntaxError::SuperWithoutSuperclass), span));
                }
                let name = alloc_name(gc, super_.name.as_str(), span)?;
                self.get_variable("this", span, gc)?;
                self.get_variable("super", span, gc)?;
                let ghost s1 = *self;
                let r = self.emit_op_constant(op::GET_SUPER, Value::from_object(name as u64), span);
                proof {
                    assert(self.ops().take(s0.ops().len() as int) =~= s1.ops().take(s0.ops().len() as int));
                }
                r
            },
            Expr::Var(var) => self.get_variable(var.var.name.as_str(), span, gc),
        }
    }
}


pub open spec fn init_text() -> Seq<char> {
    seq!['i', 'n', 'i', 't']
}

impl Compiler {
    /// Emits a `return` without a value: an initializer returns its
    /// instance, other functions return `nil`. The script has nothing to
    /// return from.
    fn emit_return(&mut self, span: Span) -> (r: Result<(), ErrorS>)
        requires
            old(self).wf(),
        ensures
            final(self).wf(),
            final(self).expr_kept(old(self)),
            old(self).ctx.type_ == FunctionType::Script ==> r == Err::<(), ErrorS>(
                (Error::SyntaxError(SyntaxError::ReturnOutsideFunction), span),
            ) && final(self).ops() == old(self).ops(),
            old(self).ctx.type_ == FunctionType::Initializer ==> r is Ok
                && final(self).ops() == old(self).ops().push(op::GET_LOCAL).push(0).push(op::RETURN),
            (old(self).ctx.type_ == FunctionType::Function || old(self).ctx.type_ == FunctionType::Method) ==> r is Ok
                && final(self).ops() == old(self).ops().push(op::NIL).push(op::RETURN),
    {
        match self.ctx.type_ {
            FunctionType::Script => {
                return Err((Error::SyntaxError(SyntaxError::ReturnOutsideFunction), span));
            },
            FunctionType::Initializer => {
                self.emit_u8(op::GET_LOCAL, span);
                self.emit_u8(0, span);
            },
            FunctionType::Function | FunctionType::Method => {
                self.emit_u8(op::NIL, span);
            },
        }
        self.emit_u8(op::RETURN, span);
        Ok(())
    }

    /// Emits the code of a statement.
    ///
    /// An error statement, which the parser never produces, compiles to
    /// nothing.
    pub fn compile_stmt<H: Host>(&mut self, stmt: &StmtS, gc: &mut Gc, host: &H) -> (r: Result<(), ErrorS>)
        requires
            old(self).wf(),
            old(gc).wf(),
        ensures
            final(self).wf(),
            final(gc).wf(),
            r is Ok ==> final(self).stmt_kept(old(self)),
            (stmt.0 is Return && old(self).ctx.type_ == FunctionType::Script) ==> r == Err::<(), ErrorS>(
                (Error::SyntaxError(SyntaxError::ReturnOutsideFunction), stmt.1),
            ),
            (stmt.0 is Return && stmt.0->Return_0.value is Some && old(self).ctx.type_ == FunctionType::Initializer) ==> r == Err::<(), ErrorS>(
                (Error::SyntaxError(SyntaxError::ReturnInInitializer), stmt.1),
            ),
            (stmt.0 is Expr && r is Ok) ==> final(self).ops().len() > old(self).ops().len() && final(self).ops().last() == op::POP,
            match stmt.0 {
                Stmt::Expr(x) => pure_code(x.value.0) is Some ==> r is Ok && final(self).ops() == (old(self).ops()
                    + pure_code(x.value.0)->Some_0).push(op::POP) && final(self).ctx.locals == old(self).ctx.locals
                    && final(self).ctx.scope_depth == old(self).ctx.scope_depth,
                Stmt::Print(p) => pure_code(p.value.0) is Some ==> r is Ok && final(self).ops() == (old(self).ops()
                    + pure_code(p.value.0)->Some_0).push(op::PRINT) && final(self).ctx.locals == old(self).ctx.locals
                    && final(self).ctx.scope_depth == old(self).ctx.scope_depth,
                Stmt::While(w) => for_code(Some(w.cond), w.body, None) is Some ==> r is Ok && final(self).ops() == old(self).ops()
                    + for_code(Some(w.cond), w.body, None)->Some_0,
                Stmt::If(a) => if_code(*a) is Some ==> r is Ok && final(self).ops() == old(self).ops() + if_code(*a)->Some_0,
                Stmt::For(f) => (f.init is None && for_code(f.cond, f.body, f.incr) is Some && no_deeper_locals(*old(self)))
                    ==> r is Ok && final(self).ops() == old(self).ops() + for_code(f.cond, f.body, f.incr)->Some_0,
                Stmt::Block(b) => (b.stmts@.len() == 0 && old(self).ctx.scope_depth < usize::MAX && (old(self).ctx.locals@.len()
                    == 0 || old(self).ctx.locals@.last().depth <= old(self).ctx.scope_depth)) ==> r is Ok && final(self).ops()
                    == old(self).ops(),
                _ => true,
            },
            (stmt.0 is Print && r is Ok) ==> final(self).ops().len() > old(self).ops().len() && final(self).ops().last() == op::PRINT,
        decreases stmt, 1int,
    {
        let span = stmt.1;
        match &stmt.0 {
            Stmt::Block(block) => {
                proof {
                    assert(decreases_to!(*stmt => stmt.0));
                    assert(decreases_to!(stmt.0 => stmt.0->Block_0));
                }
                self.compile_block(block, span, gc, host)
            },
            Stmt::Class(class) => {
                proof {
                    assert(decreases_to!(*stmt => stmt.0));
                    assert(decreases_to!(stmt.0 => stmt.0->Class_0));
                }
                self.compile_class(class, span, gc, host)
            },
            Stmt::Error => Ok(()),
            Stmt::Expr(e) => {
                let ghost s0 = *self;
                self.compile_expr(&e.value, gc, host)?;
                self.emit_u8(op::POP, span);
                Ok(())
            },
            Stmt::For(for_) => {
                proof {
                    assert(decreases_to!(*stmt => stmt.0));
                    assert(decreases_to!(stmt.0 => stmt.0->For_0));
                }
                self.compile_for(&**for_, span, gc, host)
            },
            Stmt::Fun(fun) => {
                let ghost s0 = *self;
                proof {
                    assert(decreases_to!(*stmt => stmt.0));
                    assert(decreases_to!(stmt.0 => stmt.0->Fun_0));
                }
                self.compile_function(fun, span, FunctionType::Function, gc, host)?;
                if self.is_global() {
                    let name = alloc_name(gc, fun.name.as_str(), span)?;
                    self.emit_op_constant(op::DEFINE_GLOBAL, Value::from_object(name as u64), span)?;
                } else {
                    self.declare_local(fun.name.as_str(), span)?;
                    self.define_local();
                }
                Ok(())
            },
            Stmt::If(if_) => {
                proof {
                    assert(decreases_to!(*stmt => stmt.0));
                    assert(decreases_to!(stmt.0 => stmt.0->If_0));
                }
                self.compile_if(&**if_, span, gc, host)
            },
            Stmt::Print(print) => {
                self.compile_expr(&print.value, gc, host)?;
                self.emit_u8(op::PRINT, span);
                Ok(())
            },
            Stmt::Return(ret) => {
                match self.ctx.type_ {
                    FunctionType::Script => {
                        return Err((Error::SyntaxError(SyntaxError::ReturnOutsideFunction), span));
                    },
                    FunctionType::Initializer => {
                        if ret.value.is_some() {
                            return Err((Error::SyntaxError(SyntaxError::ReturnInInitializer), span));
                        }
                    },
                    _ => {},
                }
                match &ret.value {
                    Some(value) => {
                        self.compile_expr(value, gc, host)?;
                        self.emit_u8(op::RETURN, span);
                        Ok(())
                    },
                    None => self.emit_return(span),
                }
            },
            Stmt::Var(var) => {
                let name = var.var.name.as_str();
                if self.is_global() {
                    let idx = alloc_name(gc, name, span)?;
                    match &var.value {
                        Some(value) => {
                            self.compile_expr(value, gc, host)?;
                        },
                        None => {
                            self.emit_u8(op::NIL, span);
                        },
                    }
                    self.emit_op_constant(op::DEFINE_GLOBAL, Value::from_object(idx as u64), span)?;
                } else {
                    self.declare_local(name, span)?;
                    match &var.value {
                        Some(value) => {
                            self.compile_expr(value, gc, host)?;
                        },
                        None => {
                            self.emit_u8(op::NIL, span);
                        },
                    }
                    self.define_local();
                }
                Ok(())
            },
            Stmt::While(while_) => {
                proof {
                    assert(decreases_to!(*stmt => stmt.0));
                    assert(decreases_to!(stmt.0 => stmt.0->While_0));
                }
                self.compile_while(&**while_, span, gc, host)
            },
        }
    }

    /// A `while` loop: the condition, a `JUMP_IF_FALSE` out of the loop and
    /// the `POP` of its value, the body, the `LOOP` back to the condition,
    /// and the `POP` of the condition's value where the loop ends.
    fn compile_while<H: Host>(&mut self, while_: &StmtWhile, span: Span, gc: &mut Gc, host: &H) -> (r: Result<(), ErrorS>)
        requires
            old(self).wf(),
            old(gc).wf(),
        ensures
            final(self).wf(),
            final(gc).wf(),
            r is Ok ==> final(self).stmt_kept(old(self)),
            for_code(Some(while_.cond), while_.body, None) is Some ==> r is Ok && final(self).ops() == old(self).ops()
                + for_code(Some(while_.cond), while_.body, None)->Some_0,
        decreases while_, 2int,
    {
        let ghost pure = for_code(Some(while_.cond), while_.body, None) is Some;
        proof {
            if pure {
                lemma_for_code_parts(Some(while_.cond), while_.body, None);
            }
        }
        let ghost o0 = self.ops();
        let loop_start = self.start_loop();
        self.compile_expr(&while_.cond, gc, host)?;
        let jump_to_end = self.emit_jump(op::JUMP_IF_FALSE, span);
        self.emit_u8(op::POP, span);
        let ghost h0 = self.ops();
        proof {
            if pure {
                assert(h0 =~= o0 + pure_code(while_.cond.0)->Some_0 + seq![op::JUMP_IF_FALSE, 0xffu8, 0xffu8, op::POP]);
            }
        }
        self.compile_stmt(&while_.body, gc, host)?;
        let ghost c0 = self.ops();
        proof {
            if pure {
                assert(c0 =~= h0 + stmt_pure_code(while_.body)->Some_0);
                let d = c0.push(op::LOOP).push(lo_byte(c0.len() + 3 - o0.len())).push(hi_byte(c0.len() + 3 - o0.len()));
                let jj = jump_to_end as int;
                lemma_for_assembled(
                    o0,
                    Some(while_.cond),
                    while_.body,
                    None,
                    h0,
                    c0,
                    c0,
                    d,
                    d.update(jj, lo_byte(d.len() - 2 - jj)).update(jj + 1, hi_byte(d.len() - 2 - jj)).push(op::POP),
                    jj,
                );
            }
        }
        self.emit_loop(loop_start, span)?;
        let ghost d0 = self.ops();
        self.patch_jump(jump_to_end, span)?;
        self.emit_u8(op::POP, span);
        proof {
            if pure {
                lemma_for_assembled(o0, Some(while_.cond), while_.body, None, h0, c0, c0, d0, self.ops(), jump_to_end as int);
            }
        }
        Ok(())
    }

    /// A block: its statements in a scope of their own.
    fn compile_block<H: Host>(&mut self, block: &StmtBlock, span: Span, gc: &mut Gc, host: &H) -> (r: Result<(), ErrorS>)
        requires
            old(self).wf(),
            old(gc).wf(),
        ensures
            final(self).wf(),
            final(gc).wf(),
            r is Ok ==> final(self).stmt_kept(old(self)),
            (block.stmts@.len() == 0 && old(self).ctx.scope_depth < usize::MAX && (old(self).ctx.locals@.len() == 0
                || old(self).ctx.locals@.last().depth <= old(self).ctx.scope_depth)) ==> r is Ok && final(self).ops()
                == old(self).ops() && final(self).ctx.locals@ == old(self).ctx.locals@ && final(self).ctx.scope_depth
                == old(self).ctx.scope_depth,
        decreases block, 2int,
    {
        let ghost s0 = *self;
        self.begin_scope();
        let ghost sb = *self;
        let mut i: usize = 0;
        while i < block.stmts.len()
            invariant
                self.wf(),
                gc.wf(),
                self.stmt_kept(&s0),
                i <= block.stmts@.len(),
                i == 0 ==> *self == sb,
            decreases block.stmts@.len() - i,
        {
            proof {
                assert(decreases_to!(*block => block.stmts));
                assert(decreases_to!(block.stmts => block.stmts@));
                assert(decreases_to!(block.stmts@ => block.stmts@[i as int]));
            }
            self.compile_stmt(&block.stmts[i], gc, host)?;
            i = i + 1;
        }
        let ghost s1 = *self;
        self.end_scope(span);
        proof {
            if block.stmts@.len() == 0 && s0.ctx.scope_depth < usize::MAX && (s0.ctx.locals@.len() == 0
                || s0.ctx.locals@.last().depth <= s0.ctx.scope_depth) {
                assert(s1.ctx.locals@ == s0.ctx.locals@);
                assert(scope_start(s1.ctx.locals@, (s0.ctx.scope_depth + 1) as usize) == s1.ctx.locals@.len());
                assert(self.ctx.locals@ =~= s0.ctx.locals@);
                assert(self.ops() =~= s0.ops());
            }
        }
        Ok(())
    }

    /// A class: the class object, its superclass's methods, then its own.
    fn compile_class<H: Host>(&mut self, class: &StmtClass, span: Span, gc: &mut Gc, host: &H) -> (r: Result<(), ErrorS>)
        requires
            old(self).wf(),
            old(gc).wf(),
        ensures
            final(self).wf(),
            final(gc).wf(),
            r is Ok ==> final(self).stmt_kept(old(self)),
            r is Ok ==> final(self).ops().len() > old(self).ops().len() && final(self).ops()[old(self).ops().len() as int]
                == op::CLASS,
            (match class.super_ {
                Some((Expr::Var(v), _)) => v.var.name@ == class.name@,
                _ => false,
            }) ==> r is Err,
        decreases class, 2int,
    {
        let ghost s0 = *self;
        let has_super = class.super_.is_some();
        let name = alloc_name(gc, class.name.as_str(), span)?;
        self.emit_op_constant(op::CLASS, Value::from_object(name as u64), span)?;
        let ghost s1 = *self;
        if self.is_global() {
            self.emit_op_constant(op::DEFINE_GLOBAL, Value::from_object(name as u64), span)?;
        } else {
            self.declare_local(class.name.as_str(), span)?;
            self.define_local();
        }
        self.class_ctx.push(ClassCtx { has_super });
        match &class.super_ {
            Some(super_) => {
                match &super_.0 {
                    Expr::Var(var) => {
                        if var.var.name == class.name {
                            let n = class.name.clone();
                            return Err((Error::NameError(NameError::ClassInheritFromSelf { name: n }), span));
                        }
                    },
                    _ => {},
                }
                self.begin_scope();
                self.declare_local("super", no_span())?;
                self.define_local();
                self.compile_expr(super_, gc, host)?;
                self.get_variable(class.name.as_str(), span, gc)?;
                self.emit_u8(op::INHERIT, span);
            },
            None => {},
        }
        if class.methods.len() > 0 {
            self.get_variable(class.name.as_str(), span, gc)?;
            let mut i: usize = 0;
            while i < class.methods.len()
                invariant
                    self.wf(),
                    gc.wf(),
                    self.parents@.len() == s0.parents@.len(),
                    self.class_ctx@ == s0.class_ctx@.push(ClassCtx { has_super }),
                    self.ctx.type_ == s0.ctx.type_,
                    self.ctx.function.name == s0.ctx.function.name,
                    self.ctx.function.arity == s0.ctx.function.arity,
                    s0.ops().len() <= self.ops().len(),
                    forall|k: int| 0 <= k < s0.ops().len() ==> #[trigger] self.ops()[k] == s0.ops()[k],
                    forall|l: int| 0 <= l < s0.parents@.len() ==> frame_kept(s0.parents@[l], #[trigger] self.parents@[l]),
                    i <= class.methods@.len(),
                    s1.ops().len() <= self.ops().len(),
                    s1.ops().len() == s0.ops().len() + 2,
                    self.ops()[s0.ops().len() as int] == op::CLASS,
                decreases class.methods@.len() - i,
            {
                let method = &class.methods[i];
                proof {
                    assert(decreases_to!(*class => class.methods));
                    assert(decreases_to!(class.methods => class.methods@));
                    assert(decreases_to!(class.methods@ => class.methods@[i as int]));
                    assert(decreases_to!(class.methods@[i as int] => class.methods@[i as int].0));
                }
                let init = String::from_str("init");
                let type_ = if method.0.name == init {
                    FunctionType::Initializer
                } else {
                    FunctionType::Method
                };
                let ghost b0 = self.ops();
                self.compile_function(&method.0, method.1, type_, gc, host)?;
                proof {
                    assert(self.ops()[s0.ops().len() as int] == b0[s0.ops().len() as int]);
                }
                let ghost b1 = self.ops();
                let mname = alloc_name(gc, method.0.name.as_str(), method.1)?;
                self.emit_op_constant(op::METHOD, Value::from_object(mname as u64), method.1)?;
                proof {
                    assert(self.ops()[s0.ops().len() as int] == b1[s0.ops().len() as int]);
                }
                i = i + 1;
            }
            self.emit_u8(op::POP, span);
        }
        if has_super {
            self.end_scope(no_span());
        }
        self.class_ctx.pop();
        proof {
            assert(self.class_ctx@ =~= s0.class_ctx@);
        }
        Ok(())
    }

    /// A `for` loop, in a scope of its own for the variable it declares.
    fn compile_for<H: Host>(&mut self, for_: &StmtFor, span: Span, gc: &mut Gc, host: &H) -> (r: Result<(), ErrorS>)
        requires
            old(self).wf(),
            old(gc).wf(),
        ensures
            final(self).wf(),
            final(gc).wf(),
            r is Ok ==> final(self).stmt_kept(old(self)),
            (r is Ok && for_.cond is None) ==> exists|k: int| #[trigger] loops_back(final(self).ops(), old(self).ops().len() as int, k),
            (r is Ok && for_.cond is Some) ==> exists|j: int, k: int| #[trigger] loop_exits(
                final(self).ops(),
                old(self).ops().len() as int,
                j,
                k,
            ),
            (for_.init is None && for_code(for_.cond, for_.body, for_.incr) is Some && no_deeper_locals(*old(self))) ==> r is Ok
                && final(self).ops() == old(self).ops() + for_code(for_.cond, for_.body, for_.incr)->Some_0,
        decreases for_, 2int,
    {
        let ghost lo = self.ops().len() as int;
        let ghost pure = for_.init is None && for_code(for_.cond, for_.body, for_.incr) is Some && no_deeper_locals(*self);
        let ghost o0 = self.ops();
        let ghost ls0 = self.ctx.locals@;
        let ghost depth0 = self.ctx.scope_depth;
        self.begin_scope();
        match &for_.init {
            Some(init) => {
                proof {
                    assert(decreases_to!(*for_ => for_.init));
                    assert(decreases_to!(for_.init => for_.init->Some_0));
                }
                self.compile_stmt(init, gc, host)?;
            },
            None => {},
        }
        let ghost lo1 = self.ops().len() as int;
        proof {
            assert(decreases_to!(*for_ => for_.body));
        }
        self.compile_loop(for_, span, gc, host)?;
        let ghost e0 = self.ops();
        self.end_scope(span);
        proof {
            if pure {
                assert(scope_start(ls0, (depth0 + 1) as usize) == ls0.len());
                assert(self.ops() =~= e0);
            }
            if for_.cond is None {
                let k = choose|k: int| #[trigger] loops_back(e0, lo1, k) && k + 3 == e0.len();
                assert(self.ops()[k] == e0[k]);
                assert(self.ops()[k + 1] == e0[k + 1]);
                assert(self.ops()[k + 2] == e0[k + 2]);
                assert(loops_back(self.ops(), lo, k));
            } else {
                let (j, k) = choose|j: int, k: int| #[trigger] loop_exits(e0, lo1, j, k) && k + 4 == e0.len();
                assert(self.ops()[j] == e0[j]);
                assert(self.ops()[j + 1] == e0[j + 1]);
                assert(self.ops()[j + 2] == e0[j + 2]);
                assert(self.ops()[j + 3] == e0[j + 3]);
                assert(self.ops()[k] == e0[k]);
                assert(self.ops()[k + 1] == e0[k + 1]);
                assert(self.ops()[k + 2] == e0[k + 2]);
                assert(self.ops()[k + 3] == e0[k + 3]);
                assert(loop_exits(self.ops(), lo, j, k));
            }
        }
        Ok(())
    }

    /// The loop of a `for`: the condition, the body, the increment and the
    /// jump back, with the exit of the condition patched in.
    #[verifier::rlimit(60)]
    fn compile_loop<H: Host>(&mut self, for_: &StmtFor, span: Span, gc: &mut Gc, host: &H) -> (r: Result<(), ErrorS>)
        requires
            old(self).wf(),
            old(gc).wf(),
        ensures
            final(self).wf(),
            final(gc).wf(),
            r is Ok ==> final(self).stmt_kept(old(self)),
            (r is Ok && for_.cond is None) ==> exists|k: int| #[trigger] loops_back(final(self).ops(), old(self).ops().len() as int, k)
                && k + 3 == final(self).ops().len(),
            (r is Ok && for_.cond is Some) ==> exists|j: int, k: int| #[trigger] loop_exits(
                final(self).ops(),
                old(self).ops().len() as int,
                j,
                k,
            ) && k + 4 == final(self).ops().len(),
            for_code(for_.cond, for_.body, for_.incr) is Some ==> r is Ok && final(self).ops() == old(self).ops() + for_code(
                for_.cond,
                for_.body,
                for_.incr,
            )->Some_0 && final(self).ctx.locals == old(self).ctx.locals && final(self).ctx.scope_depth == old(self).ctx.scope_depth,
        decreases for_, 1int,
    {
        let ghost lo = self.ops().len() as int;
        let ghost pure = for_code(for_.cond, for_.body, for_.incr) is Some;
        proof {
            if pure {
                lemma_for_code_parts(for_.cond, for_.body, for_.incr);
            }
        }
        let ghost o0 = self.ops();
        let ghost ls0 = self.ctx.locals;
        let ghost depth0 = self.ctx.scope_depth;
        let loop_start = self.start_loop();
        let mut jump_to_end: Option<usize> = None;
        let ghost mut a0 = self.ops();
        match &for_.cond {
            Some(cond) => {
                self.compile_expr(cond, gc, host)?;
                jump_to_end = Some(self.emit_jump(op::JUMP_IF_FALSE, span));
                self.emit_u8(op::POP, span);
                proof {
                    a0 = self.ops();
                }
            },
            None => {},
        }
        let ghost h0 = self.ops();
        proof {
            if pure {
                lemma_for_code_parts(for_.cond, for_.body, for_.incr);
                assert(self.ctx.locals == ls0 && self.ctx.scope_depth == depth0);
                if for_.cond is Some {
                    let c = for_.cond->Some_0;
                    assert(h0 =~= o0 + pure_code(c.0)->Some_0 + seq![op::JUMP_IF_FALSE, 0xffu8, 0xffu8, op::POP]);
                    assert(jump_to_end == Some((o0.len() + pure_code(c.0)->Some_0.len() + 1) as usize));
                } else {
                    assert(h0 =~= o0);
                }
            }
        }
        self.compile_stmt(&for_.body, gc, host)?;
        let ghost b0 = self.ops();
        match &for_.incr {
            Some(incr) => {
                self.compile_expr(incr, gc, host)?;
                self.emit_u8(op::POP, span);
            },
            None => {},
        }
        proof {
            if pure {
                lemma_for_code_parts(for_.cond, for_.body, for_.incr);
                assert(self.ctx.locals == ls0 && self.ctx.scope_depth == depth0);
                assert(b0 =~= h0 + stmt_pure_code(for_.body)->Some_0);
                if for_.incr is Some {
                    let i = for_.incr->Some_0;
                    assert(self.ops() =~= b0 + pure_code(i.0)->Some_0.push(op::POP));
                } else {
                    assert(self.ops() =~= b0);
                }
            }
        }
        let ghost l = self.ops().len() as int;
        let ghost c0 = self.ops();
        proof {
            if pure {
                let d = c0.push(op::LOOP).push(lo_byte(c0.len() + 3 - o0.len())).push(hi_byte(c0.len() + 3 - o0.len()));
                let jj = match jump_to_end {
                    Some(j) => j as int,
                    None => 0,
                };
                lemma_for_assembled(
                    o0,
                    for_.cond,
                    for_.body,
                    for_.incr,
                    h0,
                    b0,
                    c0,
                    d,
                    if for_.cond is Some {
                        d.update(jj, lo_byte(d.len() - 2 - jj)).update(jj + 1, hi_byte(d.len() - 2 - jj)).push(op::POP)
                    } else {
                        d
                    },
                    jj,
                );
            }
        }
        self.emit_loop(loop_start, span)?;
        proof {
            let o = l + 3 - loop_start;
            assert(o % 256 + 256 * (o / 256) == o);
            assert(loop_back(self.ops(), l) == loop_start);
            match jump_to_end {
                Some(j) => {
                    assert(self.ops()[j - 1] == a0[j - 1]);
                    assert(self.ops()[j + 2] == a0[j + 2]);
                },
                None => {},
            }
        }
        let ghost d0 = self.ops();
        match jump_to_end {
            Some(j) => {
                self.patch_jump(j, span)?;
                self.emit_u8(op::POP, span);
                proof {
                    let o = l + 1 - j;
                    assert(o % 256 + 256 * (o / 256) == o);
                    assert(self.ops()[l] == d0[l]);
                    assert(self.ops()[l + 1] == d0[l + 1]);
                    assert(self.ops()[l + 2] == d0[l + 2]);
                    assert(jump_lands(self.ops(), j - 1) == l + 3);
                }
            },
            None => {},
        }
        let ghost e0 = self.ops();
        proof {
            if pure {
                let jj = match jump_to_end {
                    Some(j) => j as int,
                    None => 0,
                };
                lemma_for_assembled(o0, for_.cond, for_.body, for_.incr, h0, b0, c0, d0, e0, jj);
            }
            assert(loops_back(self.ops(), lo, l));
            match jump_to_end {
                Some(j) => {
                    assert(loop_exits(self.ops(), lo, j - 1, l));
                },
                None => {},
            }
        }
        Ok(())
    }

    /// An `if`, with its `else` branch when there is one.
    #[verifier::rlimit(80)]
    fn compile_if<H: Host>(&mut self, if_: &StmtIf, span: Span, gc: &mut Gc, host: &H) -> (r: Result<(), ErrorS>)
        requires
            old(self).wf(),
            old(gc).wf(),
        ensures
            final(self).wf(),
            final(gc).wf(),
            r is Ok ==> final(self).stmt_kept(old(self)),
            r is Ok ==> exists|k: int| old(self).ops().len() <= k && #[trigger] if_shape(final(self).ops(), k),
            (r is Ok && if_.else_ is None) ==> final(self).ops().len() >= 4 && final(self).ops().last() == op::POP
                && final(self).ops()[final(self).ops().len() - 4] == op::JUMP && jump_lands(
                final(self).ops(),
                final(self).ops().len() - 4,
            ) == final(self).ops().len(),
            if_code(*if_) is Some ==> r is Ok && final(self).ops() == old(self).ops() + if_code(*if_)->Some_0,
        decreases if_, 2int,
    {
        let ghost o0 = self.ops();
        let ghost pure = if_code(*if_) is Some;
        proof {
            if pure {
                lemma_if_assembled(o0, *if_, o0, o0, o0, o0);
            }
        }
        let StmtIf { cond, then, else_ } = if_;
        self.compile_expr(cond, gc, host)?;
        let ghost k = self.ops().len() as int;
        let jump_to_else = self.emit_jump(op::JUMP_IF_FALSE, span);
        self.emit_u8(op::POP, span);
        let ghost a0 = self.ops();
        self.compile_stmt(then, gc, host)?;
        let ghost t0 = self.ops();
        proof {
            if pure {
                let cc = pure_code(if_.cond.0)->Some_0;
                let tc = stmt_pure_code(first_branch(*if_))->Some_0;
                let ec = if if_.else_ is Some {
                    stmt_pure_code(if_.else_->Some_0)->Some_0
                } else {
                    Seq::<u8>::empty()
                };
                assert(t0 =~= o0 + cc + seq![op::JUMP_IF_FALSE, 0xffu8, 0xffu8, op::POP] + tc);
                let j1: int = o0.len() as int + cc.len() as int + 1;
                let j2: int = t0.len() as int + 1;
                let bb = (t0 + seq![op::JUMP, 0xffu8, 0xffu8]).update(j1, lo_byte(t0.len() + 3 - 2 - j1)).update(
                    j1 + 1,
                    hi_byte(t0.len() + 3 - 2 - j1),
                ).push(op::POP);
                let ff = bb + ec;
                lemma_if_assembled(
                    o0,
                    *if_,
                    t0,
                    bb,
                    ff,
                    ff.update(j2, lo_byte(ff.len() - 2 - j2)).update(j2 + 1, hi_byte(ff.len() - 2 - j2)),
                );
                assert(jump_to_else == j1);
            }
        }
        let ghost l1 = self.ops().len() as int;
        let jump_to_end = self.emit_jump(op::JUMP, span);
        self.patch_jump(jump_to_else, span)?;
        proof {
            let o = l1 + 1 - jump_to_else;
            assert(o % 256 + 256 * (o / 256) == o);
            assert(self.ops()[k] == op::JUMP_IF_FALSE);
            assert(self.ops()[k + 3] == op::POP) by {
                assert(a0[k + 3] == op::POP);
            }
            assert(jump_lands(self.ops(), k) == l1 + 3);
            assert(self.ops()[l1] == op::JUMP);
        }
        self.emit_u8(op::POP, span);
        let ghost b0 = self.ops();
        match else_ {
            Some(e) => {
                proof {
                    assert(decreases_to!(*if_ => if_.else_));
                    assert(decreases_to!(if_.else_ => if_.else_->Some_0));
                }
                self.compile_stmt(e, gc, host)?;
            },
            None => {},
        }
        let ghost lf = self.ops().len() as int;
        let ghost f0 = self.ops();
        self.patch_jump(jump_to_end, span)?;
        proof {
            let o = lf - 2 - jump_to_end;
            assert(o % 256 + 256 * (o / 256) == o);
            assert(self.ops()[k] == b0[k]);
            assert(self.ops()[k + 1] == b0[k + 1]);
            assert(self.ops()[k + 2] == b0[k + 2]);
            assert(self.ops()[k + 3] == b0[k + 3]);
            assert(self.ops()[l1] == b0[l1]);
            assert(self.ops()[l1 + 3] == b0[l1 + 3]);
            assert(jump_lands(self.ops(), l1) == lf);
            assert(if_shape(self.ops(), k));
            if pure {
                lemma_if_assembled(o0, *if_, t0, b0, f0, self.ops());
            }
        }
        Ok(())
    }

    /// Compiles a function's body in a context of its own, then emits the
    /// closure that makes it a value, with the upvalues it captures.
    fn compile_function<H: Host>(&mut self, fun: &StmtFun, span: Span, type_: FunctionType, gc: &mut Gc, host: &H) -> (r: Result<(), ErrorS>)
        requires
            old(self).wf(),
            old(gc).wf(),
        ensures
            final(self).wf(),
            final(gc).wf(),
            r is Ok ==> final(self).stmt_kept(old(self)) && final(self).ctx.locals@.len() == old(self).ctx.locals@.len(),
            fun.params@.len() > 255 ==> r is Err,
            r is Ok ==> final(self).ops().len() >= old(self).ops().len() + 2 && final(self).ops()[old(self).ops().len() as int]
                == op::CLOSURE && closure_constant(*final(self), *final(gc), old(self).ops().len() as int, fun.params@.len() as int),
        decreases fun, 0int,
    {
        let ghost s0 = *self;
        let name = alloc_name(gc, fun.name.as_str(), span)?;
        if fun.params.len() > 255 {
            return Err((Error::OverflowError(OverflowError::TooManyParams), span));
        }
        let arity = fun.params.len() as u8;
        let depth = if self.ctx.scope_depth < usize::MAX { self.ctx.scope_depth + 1 } else { usize::MAX };
        let ctx = CompilerCtx::new(name, arity, type_, depth);
        self.begin_ctx(ctx);
        match type_ {
            FunctionType::Initializer | FunctionType::Method => {
                self.declare_local("this", span)?;
            },
            FunctionType::Function | FunctionType::Script => {
                self.declare_local(fun.name.as_str(), span)?;
            },
        }
        self.define_local();
        let mut i: usize = 0;
        while i < fun.params.len()
            invariant
                self.wf(),
                gc.wf(),
                self.ctx.type_ == type_,
                self.parents@ == s0.parents@.push(s0.ctx),
                self.class_ctx@ == s0.class_ctx@,
                i <= fun.params@.len(),
                self.ctx.function.arity == arity,
            decreases fun.params@.len() - i,
        {
            self.declare_local(fun.params[i].as_str(), span)?;
            self.define_local();
            i = i + 1;
        }
        let mut k: usize = 0;
        #[verifier::loop_isolation(false)]
        while k < fun.body.stmts.len()
            invariant
                self.wf(),
                gc.wf(),
                self.parents@.len() == s0.parents@.len() + 1,
                self.class_ctx@ == s0.class_ctx@,
                forall|l: int| 0 <= l < s0.parents@.len() ==> frame_kept(s0.parents@[l], #[trigger] self.parents@[l]),
                frame_kept(s0.ctx, self.parents@[s0.parents@.len() as int]),
                self.ctx.type_ == type_,
                k <= fun.body.stmts@.len(),
                self.ctx.function.arity == arity,
            decreases fun.body.stmts@.len() - k,
        {
            proof {
                assert(decreases_to!(*fun => fun.body));
                assert(decreases_to!(fun.body => fun.body.stmts));
                assert(decreases_to!(fun.body.stmts => fun.body.stmts@));
                assert(decreases_to!(fun.body.stmts@ => fun.body.stmts@[k as int]));
            }
            let ghost before = *self;
            self.compile_stmt(&fun.body.stmts[k], gc, host)?;
            proof {
                assert(frame_kept(before.parents@[s0.parents@.len() as int], self.parents@[s0.parents@.len() as int]));
            }
            k = k + 1;
        }
        let n = self.ctx.function.chunk.ops.len();
        if n == 0 || self.ctx.function.chunk.ops[n - 1] != op::RETURN {
            self.emit_return(no_span())?;
        }
        let (function, upvalues) = self.end_ctx();
        if !gc.has_room() {
            return Err((Error::OverflowError(OverflowError::OutOfMemory), span));
        }
        let fidx = gc.alloc_object(ObjectData::Function(function));
        let ghost s1 = *self;
        proof {
            assert(s1.ops() == s0.ops());
        }
        self.emit_op_constant(op::CLOSURE, Value::from_object(fidx as u64), span)?;
        let ghost s2 = *self;
        let ghost at = s0.ops().len() as int;
        let mut j: usize = 0;
        while j < upvalues.len()
            invariant
                self.wf(),
                self.expr_kept(&s1),
                j <= upvalues@.len(),
                self.ops().len() == s2.ops().len() + 2 * j,
                forall|q: int| 0 <= q < s2.ops().len() ==> #[trigger] self.ops()[q] == s2.ops()[q],
                self.ctx.function.chunk.constants == s2.ctx.function.chunk.constants,
            decreases upvalues@.len() - j,
        {
            let u = upvalues[j];
            let ghost b = self.ops();
            self.emit_u8(if u.is_local { 1 } else { 0 }, span);
            self.emit_u8(u.idx, span);
            proof {
                assert forall|q: int| 0 <= q < s2.ops().len() implies #[trigger] self.ops()[q] == s2.ops()[q] by {
                    assert(self.ops()[q] == b[q]);
                }
            }
            j = j + 1;
        }
        proof {
            assert(self.ops()[at] == s2.ops()[at]);
            assert(self.ops()[at + 1] == s2.ops()[at + 1]);
            assert(s2.ops().len() == at + 2);
            assert(self.ctx.function.chunk.constants_view() == s2.ctx.function.chunk.constants_view());
        }
        Ok(())
    }
}


impl Compiler {
    /// A compiler for a new script, whose function is named by the empty
    /// string.
    pub fn new(gc: &mut Gc) -> (c: Compiler)
        requires
            old(gc).wf(),
            old(gc).room(),
        ensures
            final(gc).wf(),
            c.wf(),
            c.parents@.len() == 0,
            c.class_ctx@.len() == 0,
            c.ctx.type_ == FunctionType::Script,
            c.ctx.scope_depth == 0,
            c.ctx.locals@.len() == 0,
            c.ops().len() == 0,
            final(gc).is_string(c.ctx.function.name as int, Seq::empty()),
            final(gc).objects@.len() <= old(gc).objects@.len() + 1,
            c.ctx.function.arity == 0,
    {
        proof {
            reveal_strlit("");
        }
        let name = gc.alloc_str("");
        assert(""@ =~= Seq::<char>::empty());
        Compiler { ctx: CompilerCtx::new(name, 0, FunctionType::Script, 0), parents: Vec::new(), class_ctx: Vec::new() }
    }

    /// Compiles a whole program into the script function, which it puts on
    /// the heap; returns the function's slot.
    pub fn compile<H: Host>(source: &str, gc: &mut Gc, host: &H) -> (r: Result<usize, Vec<ErrorS>>)
        requires
            old(gc).wf(),
        ensures
            final(gc).wf(),
            r matches Ok(idx) ==> (idx as u64) < crate::value::OBJECT_PAYLOAD_LIMIT && idx < final(gc).objects@.len()
                && (final(gc).objects@[idx as int] matches Some(h) && h.data is Function),
            r matches Err(errs) ==> errs@.len() == 1,
            crate::parser::tokens_from(source@, 0) is None ==> r is Err,
            (crate::parser::tokens_from(source@, 0) == Some(Seq::<(int, crate::lexer::TokenKind, int)>::empty())
                && old(gc).objects@.len() + 2 < MAX_OBJECTS) ==> r is Ok && final(gc).objects@.len() <= old(gc).objects@.len() + 2
                && (match r {
                Ok(idx) => match crate::vm::data_in(*final(gc), idx as int) {
                    Some(ObjectData::Function(f)) => f.arity == 0 && f.chunk.ops@ == seq![op::NIL, op::RETURN],
                    _ => false,
                },
                Err(_) => false,
            }),
    {
        let program = parse(source)?;
        proof {
            let expected = crate::parser::tokens_from(source@, 0)->Some_0;
            if expected.len() == 0 {
                let tokens = choose|tokens: Seq<crate::lexer::Spanned>|
                    #[trigger] crate::parser::tokens_match(source@, tokens, expected) && crate::parser::decls_parsed(
                        tokens,
                        0,
                        program.stmts@,
                        tokens.len() as int,
                    );
                assert(tokens.len() == 0);
                assert(program.stmts@.len() == 0);
            }
        }
        if !gc.has_room() {
            let mut errs = Vec::new();
            errs.push((Error::OverflowError(OverflowError::OutOfMemory), no_span()));
            return Err(errs);
        }
        let mut compiler = Compiler::new(gc);
        let mut i: usize = 0;
        while i < program.stmts.len()
            invariant
                compiler.wf(),
                gc.wf(),
                compiler.parents@.len() == 0,
                i <= program.stmts@.len(),
                i == 0 ==> compiler.ops().len() == 0,
                compiler.ctx.function.arity == 0,
                program.stmts@.len() == 0 ==> gc.objects@.len() <= old(gc).objects@.len() + 1,
                crate::parser::tokens_from(source@, 0) == Some(Seq::<(int, crate::lexer::TokenKind, int)>::empty())
                    ==> program.stmts@.len() == 0,
            decreases program.stmts@.len() - i,
        {
            match compiler.compile_stmt(&program.stmts[i], gc, host) {
                Ok(()) => {},
                Err(e) => {
                    let mut errs = Vec::new();
                    errs.push(e);
                    return Err(errs);
                },
            }
            i = i + 1;
        }
        compiler.emit_u8(op::NIL, no_span());
        compiler.emit_u8(op::RETURN, no_span());
        proof {
            if program.stmts@.len() == 0 {
                assert(compiler.ops() =~= seq![op::NIL, op::RETURN]);
            }
        }
        if !gc.has_room() {
            let mut errs = Vec::new();
            errs.push((Error::OverflowError(OverflowError::OutOfMemory), no_span()));
            return Err(errs);
        }
        let idx = gc.alloc_object(ObjectData::Function(compiler.ctx.function));
        proof {
            assert(crate::vm::data_in(*gc, idx as int) == Some(ObjectData::Function(compiler.ctx.function)));
        }
        Ok(idx)
    }
}

} // verus!
