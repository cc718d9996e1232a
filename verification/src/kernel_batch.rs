//! Kernels over columns: one program, many instances at once.
use crate::calculation::Input;
use crate::calculation::InputModel;
use crate::column::Column;
use crate::entity::FieldId;
use crate::entity::InstanceId;
use crate::kernel::arity_of;
use crate::kernel::batch_len_value;
use crate::kernel::combine;
use crate::kernel::combine_values;
use crate::kernel::lane_env;
use crate::kernel::operands;
use crate::kernel::program_check;
use crate::kernel::program_value;
use crate::kernel::source_value;
use crate::kernel::stack_after;
use crate::kernel::top;
use crate::kernel::KernelEnv;
use crate::kernel::KernelInputShape;
use crate::kernel::KernelIr;
use crate::kernel::KernelOp;
use crate::kernel::SnapshotRead;
use crate::runtime::Residency;
use crate::value::Val;
use crate::value::Value;
use vstd::prelude::*;

verus! {

/// A column as kernels see it.
pub type KernelColumn = Column;

/// Where kernels read whole columns.
pub trait KernelColumnSource: SnapshotRead {
    /// The field of each of the instances.
    fn read_own_column(&self, lanes: &Vec<InstanceId>, field: FieldId) -> (r: KernelColumn)
        requires
            self.ready(),
        ensures
            r@ == Seq::new(lanes@.len(), |i: int| self.cell(lanes@[i], field)),
    ;
}

/// One dispatch: the instances, their deliveries, and where to run them.
pub struct KernelBatch<'a, S> {
    pub source: &'a S,
    pub lanes: &'a Vec<InstanceId>,
    pub inputs: &'a Vec<Input>,
    pub residency: Residency,
}

impl<'a, S: KernelColumnSource> KernelBatch<'a, S> {
    pub open spec fn wf(self) -> bool {
        self.source.ready() && self.lanes@.len() == self.inputs@.len()
    }

    /// What the program of one lane reads. A lane without a batch counts no rows.
    pub open spec fn env(self, lane: int) -> KernelEnv {
        lane_env(self.source, self.lanes@[lane], self.inputs@[lane]@, Val::Int(0))
    }

    pub fn new(
        source: &'a S,
        lanes: &'a Vec<InstanceId>,
        inputs: &'a Vec<Input>,
        residency: Residency,
    ) -> (r: KernelBatch<'a, S>)
        ensures
            r.source == source,
            r.lanes == lanes,
            r.inputs == inputs,
            r.residency == residency,
    {
        KernelBatch { source, lanes, inputs, residency }
    }

    pub fn lane_count(&self) -> (r: usize)
        ensures
            r == self.lanes@.len(),
    {
        self.lanes.len()
    }

    pub fn lanes(&self) -> (r: &'a Vec<InstanceId>)
        ensures
            r == self.lanes,
    {
        self.lanes
    }

    pub fn inputs(&self) -> (r: &'a Vec<Input>)
        ensures
            r == self.inputs,
    {
        self.inputs
    }

    /// Where the dispatch should run.
    pub fn residency(&self) -> (r: Residency)
        ensures
            r == self.residency,
    {
        self.residency
    }

    pub fn read_own(&self, field: FieldId) -> (r: KernelColumn)
        requires
            self.wf(),
        ensures
            r@ == Seq::new(self.lanes@.len(), |i: int| self.source.cell(self.lanes@[i], field)),
    {
        self.source.read_own_column(self.lanes, field)
    }

    /// The item `index` of each delivery.
    pub fn input_arg(&self, index: usize) -> (r: KernelColumn)
        requires
            self.wf(),
        ensures
            r@ == Seq::new(
                self.lanes@.len(),
                |i: int| source_value(KernelOp::InputArg(index), self.env(i)),
            ),
    {
        let mut out: Vec<Value> = Vec::new();
        let mut i: usize = 0;
        while i < self.inputs.len()
            invariant
                i <= self.inputs@.len(),
                out@.len() == i,
                forall|j: int|
                    0 <= j < i ==> (#[trigger] out@[j])@ == source_value(
                        KernelOp::InputArg(index),
                        self.env(j),
                    ),
            decreases self.inputs@.len() - i,
        {
            out.push(
                match &self.inputs[i] {
                    Input::Each(args) => if index < args.len() {
                        args[index].clone()
                    } else {
                        Value::Null
                    },
                    _ => Value::Null,
                },
            );
            i = i + 1;
        }
        let r = Column::from_values(out);
        assert(r@ =~= Seq::new(
            self.lanes@.len(),
            |i: int| source_value(KernelOp::InputArg(index), self.env(i)),
        ));
        r
    }

    /// The aggregate of each delivery.
    pub fn fold_input(&self) -> (r: KernelColumn)
        requires
            self.wf(),
        ensures
            r@ == Seq::new(
                self.lanes@.len(),
                |i: int| source_value(KernelOp::FoldInput, self.env(i)),
            ),
    {
        let mut out: Vec<Value> = Vec::new();
        let mut i: usize = 0;
        while i < self.inputs.len()
            invariant
                i <= self.inputs@.len(),
                out@.len() == i,
                forall|j: int|
                    0 <= j < i ==> (#[trigger] out@[j])@ == source_value(
                        KernelOp::FoldInput,
                        self.env(j),
                    ),
            decreases self.inputs@.len() - i,
        {
            out.push(
                match &self.inputs[i] {
                    Input::Fold(v) => v.clone(),
                    _ => Value::Null,
                },
            );
            i = i + 1;
        }
        let r = Column::from_values(out);
        assert(r@ =~= Seq::new(
            self.lanes@.len(),
            |i: int| source_value(KernelOp::FoldInput, self.env(i)),
        ));
        r
    }

    /// The number of rows of each delivery.
    pub fn batch_len(&self) -> (r: KernelColumn)
        requires
            self.wf(),
        ensures
            r@ == Seq::new(
                self.lanes@.len(),
                |i: int| source_value(KernelOp::BatchLen, self.env(i)),
            ),
            r is Int,
    {
        let mut out: Vec<i64> = Vec::new();
        let mut i: usize = 0;
        while i < self.inputs.len()
            invariant
                i <= self.inputs@.len(),
                out@.len() == i,
                forall|j: int|
                    0 <= j < i ==> Val::Int(#[trigger] out@[j]) == source_value(
                        KernelOp::BatchLen,
                        self.env(j),
                    ),
            decreases self.inputs@.len() - i,
        {
            out.push(
                match &self.inputs[i] {
                    Input::Batch(rows) => batch_len_value(rows.len()),
                    _ => 0,
                },
            );
            i = i + 1;
        }
        let r = Column::Int(out);
        assert(r@ =~= Seq::new(
            self.lanes@.len(),
            |i: int| source_value(KernelOp::BatchLen, self.env(i)),
        ));
        r
    }
}

/// The stack depth after the first `n` instructions. It does not depend on what is read.
pub open spec fn height(ops: Seq<KernelOp>, n: int) -> int
    decreases n,
{
    if n <= 0 {
        0
    } else {
        let h = height(ops, n - 1);
        let k = operands(ops[n - 1]);
        if h < k {
            1
        } else {
            h - k + 1
        }
    }
}

proof fn lemma_height(ops: Seq<KernelOp>, n: int, env: KernelEnv)
    requires
        0 <= n <= ops.len(),
    ensures
        stack_after(ops, n, env).len() == height(ops, n),
    decreases n,
{
    if n > 0 {
        lemma_height(ops, n - 1, env);
    }
}

/// The stack of columns holds, lane by lane, the stacks of the lanes.
pub open spec fn columns_match<S: KernelColumnSource>(
    stack: Seq<Column>,
    ops: Seq<KernelOp>,
    n: int,
    batch: KernelBatch<'_, S>,
) -> bool {
    &&& stack.len() == height(ops, n)
    &&& forall|j: int| 0 <= j < stack.len() ==> (#[trigger] stack[j])@.len() == batch.lanes@.len()
    &&& forall|j: int, i: int|
        0 <= j < stack.len() && 0 <= i < batch.lanes@.len() ==> #[trigger] stack[j]@[i]
            == stack_after(ops, n, batch.env(i))[j]
}

/// Takes the top column. An empty stack gives nulls.
fn pop_kernel_col(stack: &mut Vec<Column>, lanes: usize) -> (r: Column)
    requires
        old(stack)@.len() > 0 ==> old(stack)@.last()@.len() == lanes,
    ensures
        r@.len() == lanes,
        old(stack)@.len() == 0 ==> final(stack)@ == old(stack)@ && forall|i: int|
            0 <= i < lanes ==> #[trigger] r@[i] == Val::Null,
        old(stack)@.len() > 0 ==> final(stack)@ == old(stack)@.drop_last() && r == old(
            stack,
        )@.last(),
{
    if stack.len() == 0 {
        Column::splat(Value::Null, lanes)
    } else {
        stack.pop().unwrap()
    }
}

/// The result of an instruction on its operand columns.
fn combine_columns(op: &KernelOp, a: &Column, b: &Column, c: &Column, lanes: usize) -> (r: Column)
    requires
        a@.len() == lanes,
        b@.len() == lanes,
        c@.len() == lanes,
    ensures
        r@ == Seq::new(lanes as nat, |i: int| combine(*op, a@[i], b@[i], c@[i])),
{
    let mut out: Vec<Value> = Vec::new();
    let mut i: usize = 0;
    while i < lanes
        invariant
            i <= lanes,
            a@.len() == lanes,
            b@.len() == lanes,
            c@.len() == lanes,
            out@.len() == i,
            forall|j: int|
                0 <= j < i ==> (#[trigger] out@[j])@ == combine(*op, a@[j], b@[j], c@[j]),
        decreases lanes - i,
    {
        out.push(combine_values(op, a.get(i), b.get(i), c.get(i)));
        i = i + 1;
    }
    let r = Column::from_values(out);
    assert(r@ =~= Seq::new(lanes as nat, |i: int| combine(*op, a@[i], b@[i], c@[i])));
    r
}

/// Runs a program over all lanes.
pub fn eval_kernel_ops_column<S: KernelColumnSource>(
    ops: &Vec<KernelOp>,
    batch: &KernelBatch<'_, S>,
) -> (r: KernelColumn)
    requires
        batch.wf(),
    ensures
        r@ == Seq::new(batch.lanes@.len(), |i: int| program_value(ops@, batch.env(i))),
{
    let lanes = batch.lane_count();
    let mut stack: Vec<Column> = Vec::new();
    let mut n: usize = 0;
    while n < ops.len()
        invariant
            batch.wf(),
            lanes == batch.lanes@.len(),
            n <= ops@.len(),
            columns_match(stack@, ops@, n as int, *batch),
        decreases ops@.len() - n,
    {
        let op = &ops[n];
        let k = arity_of(op);
        let ghost before = stack@;
        proof {
            assert forall|i: int| 0 <= i < lanes implies (#[trigger] stack_after(
                ops@,
                n as int,
                batch.env(i),
            )).len() == before.len() by {
                lemma_height(ops@, n as int, batch.env(i));
            }
        }
        if k == 0 {
            let col = match op {
                KernelOp::Const(v) => Column::splat(v.clone(), lanes),
                KernelOp::ReadOwn(f) => batch.read_own(*f),
                KernelOp::InputArg(i) => batch.input_arg(*i),
                KernelOp::FoldInput => batch.fold_input(),
                _ => batch.batch_len(),
            };
            assert(forall|i: int|
                0 <= i < lanes ==> #[trigger] col@[i] == source_value(*op, batch.env(i)));
            stack.push(col);
        } else {
            let c = pop_kernel_col(&mut stack, lanes);
            assert(forall|i: int|
                0 <= i < lanes ==> #[trigger] c@[i] == top(
                    stack_after(ops@, n as int, batch.env(i)),
                ));
            let (a, b): (Column, Column) = if k == 1 {
                (Column::splat(Value::Null, lanes), Column::splat(Value::Null, lanes))
            } else if k == 2 {
                let b = pop_kernel_col(&mut stack, lanes);
                (Column::splat(Value::Null, lanes), b)
            } else {
                let b = pop_kernel_col(&mut stack, lanes);
                let a = pop_kernel_col(&mut stack, lanes);
                (a, b)
            };
            let col = combine_columns(op, &a, &b, &c, lanes);
            stack.push(col);
        }
        proof {
            assert(stack@.len() == height(ops@, n + 1));
            assert forall|j: int, i: int|
                0 <= j < stack@.len() && 0 <= i < lanes implies #[trigger] stack@[j]@[i]
                == stack_after(ops@, n + 1, batch.env(i))[j] by {
                let s = stack_after(ops@, n as int, batch.env(i));
                assert(s.len() == before.len());
                if j < stack@.len() - 1 {
                    assert(stack@[j] == before[j]);
                    assert(before[j]@[i] == s[j]);
                }
            }
        }
        n = n + 1;
    }
    proof {
        assert forall|i: int| 0 <= i < lanes implies (#[trigger] stack_after(
            ops@,
            n as int,
            batch.env(i),
        )).len() == stack@.len() by {
            lemma_height(ops@, n as int, batch.env(i));
        }
    }
    let ghost last = stack@;
    let r = pop_kernel_col(&mut stack, lanes);
    proof {
        let want = Seq::new(batch.lanes@.len(), |i: int| program_value(ops@, batch.env(i)));
        assert forall|i: int| 0 <= i < lanes implies r@[i] == want[i] by {
            let s = stack_after(ops@, n as int, batch.env(i));
            assert(s.len() == last.len());
            if last.len() > 0 {
                assert(last[last.len() - 1]@[i] == s[last.len() - 1]);
            }
        }
        assert(r@ =~= want);
    }
    r
}

/// One output column.
pub struct KernelColumnWrite {
    pub field: FieldId,
    pub values: KernelColumn,
}

impl KernelColumnWrite {
    pub fn new(field: FieldId, values: KernelColumn) -> (r: KernelColumnWrite)
        ensures
            r == (KernelColumnWrite { field, values }),
    {
        KernelColumnWrite { field, values }
    }
}

/// The output columns of a dispatch.
pub struct KernelBatchOutput {
    pub writes: Vec<KernelColumnWrite>,
}

impl KernelBatchOutput {
    pub fn new(writes: Vec<KernelColumnWrite>) -> (r: KernelBatchOutput)
        ensures
            r.writes == writes,
    {
        KernelBatchOutput { writes }
    }

    pub fn writes(&self) -> (r: &Vec<KernelColumnWrite>)
        ensures
            *r == self.writes,
    {
        &self.writes
    }

    /// The outputs of one lane.
    pub fn lane_writes(&self, lane: usize) -> (r: Vec<(FieldId, Value)>)
        ensures
            r@.len() == self.writes@.len(),
            forall|i: int|
                0 <= i < r@.len() ==> {
                    let col = self.writes@[i].values@;
                    &&& (#[trigger] r@[i]).0 == self.writes@[i].field
                    &&& r@[i].1@ == (if lane < col.len() {
                        col[lane as int]
                    } else {
                        Val::Null
                    })
                },
    {
        let mut out: Vec<(FieldId, Value)> = Vec::new();
        let mut i: usize = 0;
        while i < self.writes.len()
            invariant
                i <= self.writes@.len(),
                out@.len() == i,
                forall|j: int|
                    0 <= j < i ==> {
                        let col = self.writes@[j].values@;
                        &&& (#[trigger] out@[j]).0 == self.writes@[j].field
                        &&& out@[j].1@ == (if lane < col.len() {
                            col[lane as int]
                        } else {
                            Val::Null
                        })
                    },
            decreases self.writes@.len() - i,
        {
            out.push((self.writes[i].field, self.writes[i].values.get(lane)));
            i = i + 1;
        }
        out
    }
}

/// The columns are what the programs of the kernel compute, lane by lane.
pub open spec fn computes<S: KernelColumnSource>(
    out: KernelBatchOutput,
    ir: KernelIr,
    batch: KernelBatch<'_, S>,
) -> bool {
    &&& out.writes@.len() == ir.writes@.len()
    &&& forall|w: int|
        0 <= w < out.writes@.len() ==> {
            &&& (#[trigger] out.writes@[w]).field == ir.writes@[w].field
            &&& out.writes@[w].values@ == Seq::new(
                batch.lanes@.len(),
                |i: int| program_value(ir.writes@[w].ops@, batch.env(i)),
            )
        }
}

/// What runs kernels.
pub trait KernelBackend {
    fn name(&self) -> &str;

    fn supports_residency(&self, residency: Residency) -> bool;

    fn run<S: KernelColumnSource>(&self, ir: &KernelIr, batch: KernelBatch<'_, S>) -> (r:
        KernelBatchOutput)
        requires
            batch.wf(),
        ensures
            computes(r, *ir, batch),
    ;
}

/// The built-in backend: it interprets the programs over columns, and runs anywhere.
#[derive(Clone, Copy, Debug)]
pub struct ScalarKernelBackend;

impl KernelBackend for ScalarKernelBackend {
    fn name(&self) -> (r: &str)
        ensures
            r@ == "scalar-soa"@,
    {
        "scalar-soa"
    }

    fn supports_residency(&self, _residency: Residency) -> (r: bool)
        ensures
            r,
    {
        true
    }

    fn run<S: KernelColumnSource>(&self, ir: &KernelIr, batch: KernelBatch<'_, S>) -> (r:
        KernelBatchOutput) {
        let mut writes: Vec<KernelColumnWrite> = Vec::new();
        let mut i: usize = 0;
        while i < ir.writes.len()
            invariant
                batch.wf(),
                i <= ir.writes@.len(),
                writes@.len() == i,
                forall|w: int|
                    0 <= w < i ==> {
                        &&& (#[trigger] writes@[w]).field == ir.writes@[w].field
                        &&& writes@[w].values@ == Seq::new(
                            batch.lanes@.len(),
                            |k: int| program_value(ir.writes@[w].ops@, batch.env(k)),
                        )
                    },
            decreases ir.writes@.len() - i,
        {
            let w = &ir.writes[i];
            writes.push(KernelColumnWrite::new(w.field, eval_kernel_ops_column(&w.ops, &batch)));
            i = i + 1;
        }
        KernelBatchOutput::new(writes)
    }
}

/// The delivery has the form that a kernel was checked against.
pub open spec fn fits(input: InputModel, shape: KernelInputShape) -> bool {
    match shape {
        KernelInputShape::Each { arity } => input is Each && input->Each_0.len() == arity,
        KernelInputShape::Batch => input is Batch,
        KernelInputShape::Fold => input is Fold,
    }
}

/// Over columns an accepted program computes for every instance what it computes for that
/// instance alone.
pub proof fn law_columns_agree_with_instances(
    ops: Seq<KernelOp>,
    reads: Option<Seq<FieldId>>,
    shape: KernelInputShape,
    a: KernelEnv,
    b: KernelEnv,
)
    requires
        program_check(ops, reads, shape) is Ok,
        fits(a.input, shape),
        a.input == b.input,
        a.row == b.row,
    ensures
        program_value(ops, a) == program_value(ops, b),
{
    lemma_same_stack(ops, ops.len() as int, reads, shape, a, b);
}

proof fn lemma_same_stack(
    ops: Seq<KernelOp>,
    n: int,
    reads: Option<Seq<FieldId>>,
    shape: KernelInputShape,
    a: KernelEnv,
    b: KernelEnv,
)
    requires
        0 <= n <= ops.len(),
        crate::kernel::depth_after(ops, n, reads, shape) is Ok,
        fits(a.input, shape),
        a.input == b.input,
        a.row == b.row,
    ensures
        stack_after(ops, n, a) == stack_after(ops, n, b),
    decreases n,
{
    if n > 0 {
        lemma_same_stack(ops, n - 1, reads, shape, a, b);
    }
}

}
