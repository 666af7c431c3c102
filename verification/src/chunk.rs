//! Bytecode chunks: the instructions of one function, its constants, and the
//! source span of every instruction byte.
use arrayvec::ArrayVec;
use vstd::prelude::*;

use crate::collections::{constant_pool, constant_pool_new, constant_pool_push, constant_pool_slice};
use crate::error::{Error, ErrorS, OverflowError, Span};
use crate::value::Value;

verus! {

/// One run of equal values.
#[derive(Clone, Copy, Debug)]
pub struct Run {
    pub value: Span,
    pub count: u8,
}

/// The run repeated: `count` copies of `value`.
pub open spec fn run_values(run: Run) -> Seq<Span> {
    Seq::new(run.count as nat, |i: int| run.value)
}

/// The sequence that a list of runs encodes.
pub open spec fn expand(runs: Seq<Run>) -> Seq<Span>
    decreases runs.len(),
{
    if runs.len() == 0 {
        Seq::empty()
    } else {
        expand(runs.drop_last()) + run_values(runs.last())
    }
}

/// Run-length encoded [`Vec`]. Useful for storing data with a lot of
/// contiguous runs of the same value.
#[derive(Debug)]
pub struct VecRun {
    pub values: Vec<Run>,
}

impl VecRun {
    /// Every run holds at least one value.
    pub open spec fn wf(&self) -> bool {
        forall|i: int| 0 <= i < self.values@.len() ==> self.values@[i].count >= 1
    }

    /// The sequence of values the encoding stands for.
    pub open spec fn view_seq(&self) -> Seq<Span> {
        expand(self.values@)
    }

    pub fn new() -> (v: VecRun)
        ensures
            v.wf(),
            v.view_seq() == Seq::<Span>::empty(),
    {
        VecRun { values: Vec::new() }
    }

    /// Appends a value: it extends the last run when it is equal to the
    /// run's value and the run is not full, and starts a new run otherwise.
    pub fn push(&mut self, value: Span)
        requires
            old(self).wf(),
        ensures
            final(self).wf(),
            final(self).view_seq() == old(self).view_seq().push(value),
            ({
                let rs = old(self).values@;
                let n = rs.len();
                if n > 0 && rs.last().value == value && rs.last().count < 255 {
                    final(self).values@ == rs.update(n - 1, Run { value, count: (rs.last().count + 1) as u8 })
                } else {
                    final(self).values@ == rs.push(Run { value, count: 1 })
                }
            }),
    {
        let n = self.values.len();
        if n > 0 {
            let last = self.values[n - 1];
            if last.value == value && last.count < 255 {
                let ghost prefix = self.values@.drop_last();
                self.values.set(n - 1, Run { value, count: last.count + 1 });
                proof {
                    assert(self.values@.drop_last() =~= prefix);
                    assert(run_values(self.values@.last()) =~= run_values(last).push(value));
                    assert(expand(self.values@) =~= expand(prefix) + run_values(last).push(value));
                }
                return;
            }
        }
        let ghost before = self.values@;
        self.values.push(Run { value, count: 1 });
        proof {
            assert(self.values@.drop_last() =~= before);
            assert(run_values(self.values@.last()) =~= seq![value]);
        }
    }

    /// The value at `index` of the encoded sequence.
    /// The value at `index`, or `None` past the end.
    pub fn get(&self, index: usize) -> (r: Option<Span>)
        ensures
            index < self.view_seq().len() ==> r == Some(self.view_seq()[index as int]),
            index >= self.view_seq().len() ==> r is None,
    {
        let mut count = index;
        let mut k: usize = 0;
        let n = self.values.len();
        proof {
            lemma_expand_take(self.values@, 0);
        }
        while k < n
            invariant
                n == self.values@.len(),
                k <= n,
                expand(self.values@.take(k as int)).len() + count == index,
            decreases n - k,
        {
            let run = self.values[k];
            proof {
                lemma_expand_take(self.values@, k as int + 1);
                lemma_expand_prefix(self.values@, k as int + 1);
                assert(self.values@.take(k as int + 1).drop_last() =~= self.values@.take(k as int));
            }
            if count < run.count as usize {
                proof {
                    let pre = expand(self.values@.take(k as int + 1));
                    assert(pre[index as int] == run.value);
                    assert(self.view_seq()[index as int] == pre[index as int]);
                }
                return Some(run.value);
            }
            count = count - run.count as usize;
            k = k + 1;
        }
        proof {
            assert(self.values@.take(n as int) =~= self.values@);
        }
        None
    }

    pub fn index(&self, index: usize) -> (r: Span)
        requires
            self.wf(),
            index < self.view_seq().len(),
        ensures
            r == self.view_seq()[index as int],
    {
        let mut count = index;
        let mut k: usize = 0;
        let n = self.values.len();
        proof {
            lemma_expand_take(self.values@, 0);
        }
        while k < n
            invariant
                self.wf(),
                n == self.values@.len(),
                k <= n,
                index < self.view_seq().len(),
                expand(self.values@.take(k as int)).len() + count == index,
            decreases n - k,
        {
            let run = self.values[k];
            proof {
                lemma_expand_take(self.values@, k as int + 1);
            }
            if count < run.count as usize {
                proof {
                    lemma_expand_prefix(self.values@, k as int + 1);
                    assert(self.values@.take(k as int + 1).drop_last() =~= self.values@.take(
                        k as int,
                    ));
                    let pre = expand(self.values@.take(k as int + 1));
                    assert(pre[index as int] == run.value);
                    assert(self.view_seq()[index as int] == pre[index as int]);
                }
                return run.value;
            }
            count = count - run.count as usize;
            proof {
                assert(self.values@.take(k as int + 1).drop_last() =~= self.values@.take(
                    k as int,
                ));
            }
            k = k + 1;
        }
        proof {
            assert(self.values@.take(n as int) =~= self.values@);
        }
        // The loop above always returns, because `index` is in bounds.
        proof {
            assert(false);
        }
        Span { start: 0, end: 0 }
    }
}

/// The encoding of the first `k + 1` runs extends that of the first `k` by the
/// `k`-th run.
pub proof fn lemma_expand_take(runs: Seq<Run>, k: int)
    requires
        0 <= k <= runs.len(),
    ensures
        k > 0 ==> expand(runs.take(k)) == expand(runs.take(k - 1)) + run_values(runs[k - 1]),
        k == 0 ==> expand(runs.take(k)) == Seq::<Span>::empty(),
{
    if k > 0 {
        assert(runs.take(k).drop_last() =~= runs.take(k - 1));
    } else {
        assert(runs.take(k) =~= Seq::<Run>::empty());
    }
}

/// The encoding of a prefix of the runs is a prefix of the whole encoding.
pub proof fn lemma_expand_prefix(runs: Seq<Run>, k: int)
    requires
        0 <= k <= runs.len(),
    ensures
        expand(runs.take(k)).len() <= expand(runs).len(),
        expand(runs).subrange(0, expand(runs.take(k)).len() as int) == expand(runs.take(k)),
    decreases runs.len() - k,
{
    if k == runs.len() {
        assert(runs.take(k) =~= runs);
        assert(expand(runs).subrange(0, expand(runs).len() as int) =~= expand(runs));
    } else {
        lemma_expand_prefix(runs, k + 1);
        lemma_expand_take(runs, k + 1);
        let a = expand(runs.take(k));
        let b = expand(runs.take(k + 1));
        assert(b.subrange(0, a.len() as int) =~= a);
        assert(expand(runs).subrange(0, a.len() as int) =~= b.subrange(0, a.len() as int));
    }
}

#[derive(Debug)]
pub struct Chunk {
    pub ops: Vec<u8>,
    pub constants: ArrayVec<Value, 256>,
    pub constant_count: usize,
    pub spans: VecRun,
}

impl Chunk {
    /// The pool never holds more constants than constants were written, and
    /// at most 256 are written; there is a span for every instruction byte.
    pub open spec fn wf(&self) -> bool {
        &&& self.spans.wf()
        &&& self.spans.view_seq().len() == self.ops@.len()
        &&& constant_pool(self.constants).len() <= self.constant_count <= 256
    }

    pub open spec fn constants_view(&self) -> Seq<Value> {
        constant_pool(self.constants)
    }

    pub fn new() -> (c: Chunk)
        ensures
            c.wf(),
            c.ops@.len() == 0,
            c.constants_view().len() == 0,
            c.constant_count == 0,
    {
        Chunk { ops: Vec::new(), constants: constant_pool_new(), constant_count: 0, spans: VecRun::new() }
    }

    /// Appends one byte of code, with the span of source it came from.
    pub fn write_u8(&mut self, byte: u8, span: Span)
        requires
            old(self).wf(),
        ensures
            final(self).wf(),
            final(self).ops@ == old(self).ops@.push(byte),
            final(self).spans.view_seq() == old(self).spans.view_seq().push(span),
            final(self).constants == old(self).constants,
            final(self).constant_count == old(self).constant_count,
    {
        self.ops.push(byte);
        self.spans.push(span);
    }

    /// Writes a constant to the [`Chunk`] and returns its index. If an equal
    /// [`Value`] is already present, then its index is returned instead.
    /// A new value can be added only while fewer than 256 constants have
    /// been written.
    pub fn write_constant(&mut self, value: Value, span: Span) -> (r: Result<u8, ErrorS>)
        requires
            old(self).wf(),
        ensures
            final(self).wf(),
            final(self).ops == old(self).ops,
            final(self).spans == old(self).spans,
            old(self).constants_view().contains(value) ==> {
                &&& final(self).constants_view() == old(self).constants_view()
                &&& final(self).constant_count == (if old(self).constant_count < 256 {
                    old(self).constant_count + 1
                } else {
                    256
                })
                &&& r matches Ok(idx) && (idx as int) < old(self).constants_view().len()
                    && old(self).constants_view()[idx as int] == value
                    && forall|j: int| 0 <= j < idx ==> old(self).constants_view()[j] != value
            },
            (!old(self).constants_view().contains(value) && old(self).constant_count == 256) ==> r == Err::<u8, ErrorS>(
                (Error::OverflowError(OverflowError::TooManyConstants), span),
            ) && final(self).constants_view() == old(self).constants_view()
                && final(self).constant_count == old(self).constant_count,
            (!old(self).constants_view().contains(value) && old(self).constant_count < 256) ==> {
                &&& final(self).constant_count == old(self).constant_count + 1
                &&& final(self).constants_view() == old(self).constants_view().push(value)
                &&& r == Ok::<u8, ErrorS>(old(self).constants_view().len() as u8)
            },
    {
        let pool = constant_pool_slice(&self.constants);
        let n = pool.len();
        let mut i: usize = 0;
        #[verifier::loop_isolation(false)]
        while i < n
            invariant
                n == pool@.len(),
                pool@ == constant_pool(self.constants),
                pool@.len() <= 256,
                i <= n,
                self.ops == old(self).ops,
                self.spans == old(self).spans,
                self.constants == old(self).constants,
                self.constant_count == old(self).constant_count,
                forall|j: int| 0 <= j < i ==> pool@[j] != value,
            decreases n - i,
        {
            if pool[i] == value {
                if self.constant_count < 256 {
                    self.constant_count = self.constant_count + 1;
                }
                return Ok(i as u8);
            }
            i = i + 1;
        }
        proof {
            assert(!constant_pool(self.constants).contains(value));
        }
        if self.constant_count == 256 {
            return Err((Error::OverflowError(OverflowError::TooManyConstants), span));
        }
        self.constant_count = self.constant_count + 1;
        constant_pool_push(&mut self.constants, value);
        Ok(n as u8)
    }
}

} // verus!
